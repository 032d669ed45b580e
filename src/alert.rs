//! Joining execution records with the ownership index, and grouping them by
//! recipient, project and flow.
use vstd::prelude::*;
use crate::index::{FlowIndex, JobKey};
use crate::flow::JobView;
use crate::mapping::OwnerMapping;

verus! {

/// One execution of a job, as the execution-record source reports it.
/// Times are milliseconds since the Unix epoch (UTC).
pub struct Task {
    pub exec_id: String,
    pub project_name: String,
    pub flow_id: String,
    pub job_id: String,
    pub attempt: u8,
    pub owner: String,
    pub input_params: String,
    pub output_params: String,
    pub start_time: i64,
    pub end_time: i64,
    pub duration: u64,
    pub desc: String,
}

pub struct TaskView {
    pub exec_id: Seq<char>,
    pub project_name: Seq<char>,
    pub flow_id: Seq<char>,
    pub job_id: Seq<char>,
    pub attempt: u8,
    pub owner: Seq<char>,
    pub input_params: Seq<char>,
    pub output_params: Seq<char>,
    pub start_time: i64,
    pub end_time: i64,
    pub duration: u64,
    pub desc: Seq<char>,
}

impl View for Task {
    type V = TaskView;

    open spec fn view(&self) -> TaskView {
        TaskView {
            exec_id: self.exec_id@,
            project_name: self.project_name@,
            flow_id: self.flow_id@,
            job_id: self.job_id@,
            attempt: self.attempt,
            owner: self.owner@,
            input_params: self.input_params@,
            output_params: self.output_params@,
            start_time: self.start_time,
            end_time: self.end_time,
            duration: self.duration,
            desc: self.desc@,
        }
    }
}

pub open spec fn task_views(v: Seq<Task>) -> Seq<TaskView> {
    v.map_values(|t: Task| t@)
}

/// Why a record got no recipient.
#[derive(PartialEq, Eq, Structural, Clone, Copy, Debug)]
pub enum MergeWarning {
    /// No job of the index has the record's project, flow and job.
    MergeUnmatched,
    /// The job's owner has no recipient in the owner mapping.
    MappingMissing,
}

/// The recipient of a record, or why it has none.
pub open spec fn outcome(idx: Map<JobKey, JobView>, m: Map<Seq<char>, Seq<char>>, t: TaskView) -> Result<
    Seq<char>,
    MergeWarning,
> {
    let k = (t.project_name, t.flow_id, t.job_id);
    if !idx.contains_key(k) {
        Err(MergeWarning::MergeUnmatched)
    } else if !m.contains_key(idx[k].owner) {
        Err(MergeWarning::MappingMissing)
    } else {
        Ok(m[idx[k].owner])
    }
}

pub open spec fn recipient(idx: Map<JobKey, JobView>, m: Map<Seq<char>, Seq<char>>, t: TaskView) -> Seq<char> {
    match outcome(idx, m, t) {
        Ok(r) => r,
        Err(_) => Seq::<char>::empty(),
    }
}

pub open spec fn with_owner(t: TaskView, owner: Seq<char>) -> TaskView {
    TaskView { owner: owner, ..t }
}

/// The records with their owners set to their recipients.
pub open spec fn merged(idx: Map<JobKey, JobView>, m: Map<Seq<char>, Seq<char>>, ts: Seq<TaskView>) -> Seq<TaskView> {
    ts.map_values(|t: TaskView| with_owner(t, recipient(idx, m, t)))
}

/// The warnings of a merge: position and reason of each record left without a recipient.
pub open spec fn merge_warnings(idx: Map<JobKey, JobView>, m: Map<Seq<char>, Seq<char>>, ts: Seq<TaskView>) -> Seq<(int, MergeWarning)>
    decreases ts.len(),
{
    if ts.len() == 0 {
        seq![]
    } else {
        let w = merge_warnings(idx, m, ts.drop_last());
        match outcome(idx, m, ts.last()) {
            Ok(_) => w,
            Err(e) => w.push((ts.len() - 1, e)),
        }
    }
}

/// The recipient of one record, or why it has none.
pub fn resolve_recipient(index: &FlowIndex, mapping: &OwnerMapping, task: &Task) -> (r: Result<String, MergeWarning>)
    requires
        index.wf(),
        mapping.wf(),
    ensures
        match r {
            Ok(s) => outcome(index@, mapping@, task@) == Ok::<Seq<char>, MergeWarning>(s@),
            Err(e) => outcome(index@, mapping@, task@) == Err::<Seq<char>, MergeWarning>(e),
        },
{
    match index.get(task.project_name.as_str(), task.flow_id.as_str(), task.job_id.as_str()) {
        Some(job) => match mapping.get(job.owner.as_str()) {
            Some(id) => Ok(id.clone()),
            None => Err(MergeWarning::MappingMissing),
        },
        None => Err(MergeWarning::MergeUnmatched),
    }
}

/// Sets the owner of each record to its recipient (empty when it has none),
/// and reports each record left without one.
pub fn merge_git_and_azkaban(index: &FlowIndex, mapping: &OwnerMapping, tasks: Vec<Task>) -> (r: (Vec<Task>, Vec<(usize, MergeWarning)>))
    requires
        index.wf(),
        mapping.wf(),
    ensures
        task_views(r.0@) == merged(index@, mapping@, task_views(tasks@)),
        r.1@.map_values(|w: (usize, MergeWarning)| (w.0 as int, w.1)) == merge_warnings(index@, mapping@, task_views(tasks@)),
{
    let ghost ts = task_views(tasks@);
    let mut out: Vec<Task> = Vec::new();
    let mut warnings: Vec<(usize, MergeWarning)> = Vec::new();
    let mut i: usize = 0;
    let n = tasks.len();
    for t in it: tasks
        invariant
            n == ts.len(),
            index.wf(),
            mapping.wf(),
            ts == task_views(it.seq()),
            i == it.index(),
            task_views(out@) == merged(index@, mapping@, ts.take(i as int)),
            warnings@.map_values(|w: (usize, MergeWarning)| (w.0 as int, w.1)) == merge_warnings(index@, mapping@, ts.take(i as int)),
    {
        let mut t = t;
        let ghost tv = t@;
        let res = resolve_recipient(index, mapping, &t);
        proof {
            assert(ts.take(i + 1).drop_last() =~= ts.take(i as int));
            assert(ts.take(i + 1).last() == t@);
        }
        match res {
            Ok(id) => {
                t.owner = id;
            },
            Err(e) => {
                t.owner = String::new();
                warnings.push((i, e));
                assert(warnings@.map_values(|w: (usize, MergeWarning)| (w.0 as int, w.1)) =~= merge_warnings(index@, mapping@, ts.take(i as int)).push((i as int, e)));
            },
        }
        assert(t@ == with_owner(tv, recipient(index@, mapping@, tv)));
        let ghost prev = out@;
        out.push(t);
        proof {
            assert(task_views(out@) =~= task_views(prev).push(t@));
            assert(ts.take(i + 1) =~= ts.take(i as int).push(tv));
            assert(merged(index@, mapping@, ts.take(i as int).push(tv)) =~= merged(
                index@,
                mapping@,
                ts.take(i as int),
            ).push(with_owner(tv, recipient(index@, mapping@, tv))));
        }
        i = i + 1;
    }
    assert(ts.take(i as int) =~= ts);
    (out, warnings)
}

/// The key of a group: recipient, project, flow.
pub type GroupKey = (Seq<char>, Seq<char>, Seq<char>);

pub open spec fn group_key(t: TaskView) -> GroupKey {
    (t.owner, t.project_name, t.flow_id)
}

/// Position of the first group with key `k`, looking from `j` on.
pub open spec fn find_group(g: Seq<(GroupKey, Seq<TaskView>)>, k: GroupKey, j: int) -> Option<int>
    decreases g.len() - j,
{
    if j < 0 || j >= g.len() {
        None
    } else if g[j].0 == k {
        Some(j)
    } else {
        find_group(g, k, j + 1)
    }
}

/// `g` with record `t` appended to its group, which is opened at the end if new.
pub open spec fn add_to_group(g: Seq<(GroupKey, Seq<TaskView>)>, t: TaskView) -> Seq<(GroupKey, Seq<TaskView>)> {
    let k = group_key(t);
    match find_group(g, k, 0) {
        Some(j) => g.update(j, (k, g[j].1.push(t))),
        None => g.push((k, seq![t])),
    }
}

/// The groups of the records that have a recipient, in order of first
/// appearance; each group keeps its records in their order.
pub open spec fn groups_of(ts: Seq<TaskView>) -> Seq<(GroupKey, Seq<TaskView>)>
    decreases ts.len(),
{
    if ts.len() == 0 {
        seq![]
    } else {
        let g = groups_of(ts.drop_last());
        if ts.last().owner.len() == 0 {
            g
        } else {
            add_to_group(g, ts.last())
        }
    }
}

/// The records without a recipient, in order.
pub open spec fn unaddressed_of(ts: Seq<TaskView>) -> Seq<TaskView>
    decreases ts.len(),
{
    if ts.len() == 0 {
        seq![]
    } else {
        let u = unaddressed_of(ts.drop_last());
        if ts.last().owner.len() == 0 {
            u.push(ts.last())
        } else {
            u
        }
    }
}

/// The records of one recipient, project and flow.
pub struct AlertLeaf {
    pub owner: String,
    pub project: String,
    pub flow: String,
    pub tasks: Vec<Task>,
}

pub open spec fn leaf_view(l: AlertLeaf) -> (GroupKey, Seq<TaskView>) {
    ((l.owner@, l.project@, l.flow@), task_views(l.tasks@))
}

pub open spec fn leaf_views(v: Seq<AlertLeaf>) -> Seq<(GroupKey, Seq<TaskView>)> {
    v.map_values(|l: AlertLeaf| leaf_view(l))
}

/// Records grouped by recipient → project → flow, and the records that
/// have no recipient, kept for diagnostics.
pub struct AlertGroup {
    pub leaves: Vec<AlertLeaf>,
    pub unaddressed: Vec<Task>,
}

impl View for AlertGroup {
    type V = (Seq<(GroupKey, Seq<TaskView>)>, Seq<TaskView>);

    open spec fn view(&self) -> (Seq<(GroupKey, Seq<TaskView>)>, Seq<TaskView>) {
        (leaf_views(self.leaves@), task_views(self.unaddressed@))
    }
}

proof fn lemma_find_group(g: Seq<(GroupKey, Seq<TaskView>)>, k: GroupKey, j: int)
    requires
        0 <= j,
    ensures
        match find_group(g, k, j) {
            Some(i) => j <= i < g.len() && g[i].0 == k,
            None => forall|i: int| j <= i < g.len() ==> (#[trigger] g[i]).0 != k,
        },
    decreases g.len() - j,
{
    if j < g.len() && g[j].0 != k {
        lemma_find_group(g, k, j + 1);
    }
}

fn find_leaf(leaves: &Vec<AlertLeaf>, t: &Task) -> (r: Option<usize>)
    ensures
        match r {
            Some(j) => find_group(leaf_views(leaves@), group_key(t@), 0) == Some(j as int) && j < leaves.len(),
            None => find_group(leaf_views(leaves@), group_key(t@), 0) is None,
        },
{
    let ghost g = leaf_views(leaves@);
    let mut j: usize = 0;
    while j < leaves.len()
        invariant
            g == leaf_views(leaves@),
            j <= leaves.len(),
            find_group(g, group_key(t@), j as int) == find_group(g, group_key(t@), 0),
        decreases leaves.len() - j,
    {
        let l = &leaves[j];
        if l.owner == t.owner && l.project == t.project_name && l.flow == t.flow_id {
            return Some(j);
        }
        j = j + 1;
    }
    None
}

/// Groups records by recipient, project and flow, keeping their order; the
/// records without a recipient are set apart.
pub fn group_alerts(tasks: Vec<Task>) -> (r: AlertGroup)
    ensures
        r@ == (groups_of(task_views(tasks@)), unaddressed_of(task_views(tasks@))),
{
    let ghost ts = task_views(tasks@);
    let mut leaves: Vec<AlertLeaf> = Vec::new();
    let mut unaddressed: Vec<Task> = Vec::new();
    let n = tasks.len();
    let mut i: usize = 0;
    for t in it: tasks
        invariant
            n == ts.len(),
            ts == task_views(it.seq()),
            i == it.index(),
            leaf_views(leaves@) == groups_of(ts.take(i as int)),
            task_views(unaddressed@) == unaddressed_of(ts.take(i as int)),
    {
        proof {
            assert(ts.take(i + 1).drop_last() =~= ts.take(i as int));
            assert(ts.take(i + 1).last() == t@);
        }
        if t.owner.as_str().is_empty() {
            proof {
                assert(t@.owner.len() == 0);
            }
            let ghost prev = unaddressed@;
            unaddressed.push(t);
            assert(task_views(unaddressed@) =~= task_views(prev).push(ts[i as int]));
        } else {
            proof {
                assert(t@.owner.len() != 0);
            }
            let ghost g = leaf_views(leaves@);
            let ghost tv = t@;
            match find_leaf(&leaves, &t) {
                Some(j) => {
                    proof {
                        lemma_find_group(g, group_key(tv), 0);
                    }
                    let mut leaf = leaves.remove(j);
                    assert(leaf_view(leaf) == g[j as int]);
                    let ghost before = leaf.tasks@;
                    leaf.tasks.push(t);
                    assert(task_views(leaf.tasks@) =~= task_views(before).push(tv));
                    assert(leaf_view(leaf) == (group_key(tv), g[j as int].1.push(tv)));
                    leaves.insert(j, leaf);
                    assert(leaf_views(leaves@) =~= g.update(j as int, (group_key(tv), g[j as int].1.push(tv))));
                },
                None => {
                    let leaf = AlertLeaf {
                        owner: t.owner.clone(),
                        project: t.project_name.clone(),
                        flow: t.flow_id.clone(),
                        tasks: vec![t],
                    };
                    assert(task_views(leaf.tasks@) =~= seq![tv]);
                    leaves.push(leaf);
                    assert(leaf_views(leaves@) =~= g.push((group_key(tv), seq![tv])));
                },
            }
        }
        i = i + 1;
    }
    assert(ts.take(i as int) =~= ts);
    AlertGroup { leaves, unaddressed }
}

impl AlertGroup {
    /// No record has a recipient: nothing to send.
    pub fn is_empty(&self) -> (r: bool)
        ensures
            r == (self@.0.len() == 0),
    {
        self.leaves.len() == 0
    }

    /// The records of one recipient, project and flow.
    pub fn get(&self, owner: &str, project: &str, flow: &str) -> (r: Option<&Vec<Task>>)
        ensures
            match find_group(self@.0, (owner@, project@, flow@), 0) {
                Some(j) => match r {
                    Some(v) => 0 <= j < self@.0.len() && task_views(v@) == self@.0[j].1,
                    None => false,
                },
                None => r is None,
            },
    {
        let ghost g = self@.0;
        let ghost k = (owner@, project@, flow@);
        let o = owner.to_owned();
        let p = project.to_owned();
        let f = flow.to_owned();
        let mut j: usize = 0;
        while j < self.leaves.len()
            invariant
                g == self@.0,
                j <= self.leaves.len(),
                find_group(g, k, j as int) == find_group(g, k, 0),
                k == (owner@, project@, flow@),
                o@ == k.0 && p@ == k.1 && f@ == k.2,
            decreases self.leaves.len() - j,
        {
            let l = &self.leaves[j];
            assert(g[j as int] == leaf_view(*l));
            if l.owner == o && l.project == p && l.flow == f {
                assert(g[j as int].0 == k);
                assert(find_group(g, k, j as int) == Some(j as int));
                assert(task_views(l.tasks@) == g[j as int].1);
                return Some(&l.tasks);
            }
            j = j + 1;
        }
        None
    }
}

/// The grouped alerts of a merge.
pub open spec fn alert_group_of(idx: Map<JobKey, JobView>, m: Map<Seq<char>, Seq<char>>, ts: Seq<TaskView>) -> (
    Seq<(GroupKey, Seq<TaskView>)>,
    Seq<TaskView>,
) {
    (groups_of(merged(idx, m, ts)), unaddressed_of(merged(idx, m, ts)))
}

/// Joins the records with the index and the mapping, then groups them by
/// recipient, project and flow; also reports each record left without a
/// recipient.
pub fn merge_alerts(index: &FlowIndex, mapping: &OwnerMapping, tasks: Vec<Task>) -> (r: (AlertGroup, Vec<(usize, MergeWarning)>))
    requires
        index.wf(),
        mapping.wf(),
    ensures
        r.0@ == alert_group_of(index@, mapping@, task_views(tasks@)),
        r.1@.map_values(|w: (usize, MergeWarning)| (w.0 as int, w.1)) == merge_warnings(index@, mapping@, task_views(tasks@)),
{
    let (merged_tasks, warnings) = merge_git_and_azkaban(index, mapping, tasks);
    (group_alerts(merged_tasks), warnings)
}

/// Merging is idempotent: records that a merge handed back, merged again with
/// the same index and mapping, come back unchanged, and so do their groups.
pub proof fn lemma_merge_idempotent(idx: Map<JobKey, JobView>, m: Map<Seq<char>, Seq<char>>, ts: Seq<TaskView>)
    ensures
        merged(idx, m, merged(idx, m, ts)) == merged(idx, m, ts),
        alert_group_of(idx, m, merged(idx, m, ts)) == alert_group_of(idx, m, ts),
{
    let once = merged(idx, m, ts);
    assert forall|i: int| 0 <= i < once.len() implies #[trigger] merged(idx, m, once)[i] == once[i] by {
        assert(outcome(idx, m, once[i]) == outcome(idx, m, ts[i]));
    }
    assert(merged(idx, m, once) =~= once);
}

} // verus!
