//! The ownership index: project → flow → job → job definition.
//!
//! Kept as one vector of entries with unique (project, flow, job) keys; a
//! later entry for a key replaces the earlier one.
use vstd::prelude::*;
use crate::flow::{Job, JobView, job_views};
use crate::paths::{is_anchor, is_project_file, name_of, stem_name};
use crate::text::views;

verus! {

/// The key of a job in the index: project, flow and job name.
pub type JobKey = (Seq<char>, Seq<char>, Seq<char>);

pub open spec fn key_of(project: Seq<char>, j: JobView) -> JobKey {
    (project, j.flow, j.job)
}

struct Entry {
    project: String,
    job: Job,
}

spec fn entry_key(e: Entry) -> JobKey {
    key_of(e.project@, e.job@)
}

spec fn entries_map(s: Seq<Entry>) -> Map<JobKey, JobView>
    decreases s.len(),
{
    if s.len() == 0 {
        Map::empty()
    } else {
        entries_map(s.drop_last()).insert(entry_key(s.last()), s.last().job@)
    }
}

spec fn keys_unique(s: Seq<Entry>) -> bool {
    forall|i: int, j: int| 0 <= i < j < s.len() ==> entry_key(#[trigger] s[i]) != entry_key(#[trigger] s[j])
}

proof fn lemma_entries_dom(s: Seq<Entry>, k: JobKey)
    ensures
        entries_map(s).contains_key(k) <==> exists|i: int| 0 <= i < s.len() && entry_key(#[trigger] s[i]) == k,
    decreases s.len(),
{
    if s.len() > 0 {
        let pre = s.drop_last();
        lemma_entries_dom(pre, k);
        if entries_map(pre).contains_key(k) {
            let i = choose|i: int| 0 <= i < pre.len() && entry_key(#[trigger] pre[i]) == k;
            assert(s[i] == pre[i]);
        }
        if exists|i: int| 0 <= i < s.len() && entry_key(#[trigger] s[i]) == k {
            let i = choose|i: int| 0 <= i < s.len() && entry_key(#[trigger] s[i]) == k;
            if i < s.len() - 1 {
                assert(pre[i] == s[i]);
            }
        }
    }
}

proof fn lemma_entries_at(s: Seq<Entry>, i: int)
    requires
        keys_unique(s),
        0 <= i < s.len(),
    ensures
        entries_map(s).contains_key(entry_key(s[i])),
        entries_map(s)[entry_key(s[i])] == s[i].job@,
    decreases s.len(),
{
    let pre = s.drop_last();
    if i < s.len() - 1 {
        assert(pre[i] == s[i]);
        lemma_entries_at(pre, i);
    }
}

proof fn lemma_entries_update(s: Seq<Entry>, i: int, e: Entry)
    requires
        keys_unique(s),
        0 <= i < s.len(),
        entry_key(e) == entry_key(s[i]),
    ensures
        entries_map(s.update(i, e)) == entries_map(s).insert(entry_key(e), e.job@),
    decreases s.len(),
{
    let t = s.update(i, e);
    let pre = s.drop_last();
    if i == s.len() - 1 {
        assert(t.drop_last() =~= pre);
        assert(entries_map(t) =~= entries_map(s).insert(entry_key(e), e.job@));
    } else {
        assert(t.drop_last() =~= pre.update(i, e));
        assert(pre[i] == s[i]);
        lemma_entries_update(pre, i, e);
        assert(entry_key(s.last()) != entry_key(e));
        assert(entries_map(t) =~= entries_map(s).insert(entry_key(e), e.job@));
    }
}

/// Job definitions keyed by project, flow and job name.
pub struct FlowIndex {
    entries: Vec<Entry>,
}

impl View for FlowIndex {
    type V = Map<JobKey, JobView>;

    closed spec fn view(&self) -> Map<JobKey, JobView> {
        entries_map(self.entries@)
    }
}

/// `m` with each job of `jobs` inserted under `project`, in order.
pub open spec fn insert_jobs(m: Map<JobKey, JobView>, project: Seq<char>, jobs: Seq<JobView>) -> Map<
    JobKey,
    JobView,
>
    decreases jobs.len(),
{
    if jobs.len() == 0 {
        m
    } else {
        insert_jobs(m, project, jobs.drop_last()).insert(key_of(project, jobs.last()), jobs.last())
    }
}

impl FlowIndex {
    /// Keys are unique.
    pub closed spec fn wf(&self) -> bool {
        keys_unique(self.entries@)
    }

    pub fn new() -> (r: FlowIndex)
        ensures
            r.wf(),
            r@ == Map::<JobKey, JobView>::empty(),
    {
        FlowIndex { entries: Vec::new() }
    }

    /// Number of jobs held.
    pub fn len(&self) -> (r: usize)
        requires
            self.wf(),
        ensures
            r == self@.len(),
    {
        proof {
            self.lemma_len();
        }
        self.entries.len()
    }

    proof fn lemma_len(&self)
        requires
            self.wf(),
        ensures
            self@.len() == self.entries@.len(),
    {
        let s = self.entries@;
        let keys = Seq::new(s.len(), |i: int| entry_key(s[i]));
        assert forall|k: JobKey| #[trigger] self@.contains_key(k) <==> keys.contains(k) by {
            lemma_entries_dom(s, k);
            if keys.contains(k) {
                let i = choose|i: int| 0 <= i < keys.len() && keys[i] == k;
                assert(entry_key(s[i]) == k);
            }
            if self@.contains_key(k) {
                let i = choose|i: int| 0 <= i < s.len() && entry_key(#[trigger] s[i]) == k;
                assert(keys[i] == k);
            }
        }
        assert(self@.dom() =~= keys.to_set());
        assert(keys.no_duplicates());
        keys.unique_seq_to_set();
    }

    /// Position of the entry with the given key.
    fn find(&self, project: &String, flow: &String, job: &String) -> (r: Option<usize>)
        requires
            self.wf(),
        ensures
            match r {
                Some(i) => i < self.entries.len() && entry_key(self.entries@[i as int]) == (
                project@,
                flow@,
                job@,
                ),
                None => !self@.contains_key((project@, flow@, job@)),
            },
    {
        let mut i: usize = 0;
        while i < self.entries.len()
            invariant
                i <= self.entries.len(),
                forall|j: int| 0 <= j < i ==> entry_key(#[trigger] self.entries@[j]) != (project@, flow@, job@),
            decreases self.entries.len() - i,
        {
            let e = &self.entries[i];
            if e.project == *project && e.job.flow == *flow && e.job.job == *job {
                return Some(i);
            }
            i = i + 1;
        }
        proof {
            lemma_entries_dom(self.entries@, (project@, flow@, job@));
        }
        None
    }

    /// The job defined under the given project, flow and job name.
    pub fn get(&self, project: &str, flow: &str, job: &str) -> (r: Option<&Job>)
        requires
            self.wf(),
        ensures
            match r {
                Some(j) => self@.contains_key((project@, flow@, job@)) && self@[(project@, flow@, job@)]
                    == j@,
                None => !self@.contains_key((project@, flow@, job@)),
            },
    {
        let p = project.to_owned();
        let f = flow.to_owned();
        let n = job.to_owned();
        match self.find(&p, &f, &n) {
            Some(i) => {
                proof {
                    lemma_entries_at(self.entries@, i as int);
                }
                Some(&self.entries[i].job)
            },
            None => None,
        }
    }

    /// Puts `job` under `project`, replacing any job with the same key.
    pub fn insert(&mut self, project: &str, job: Job)
        requires
            old(self).wf(),
        ensures
            final(self).wf(),
            final(self)@ == old(self)@.insert(key_of(project@, job@), job@),
    {
        let p = project.to_owned();
        let found = self.find(&p, &job.flow, &job.job);
        let e = Entry { project: p, job };
        match found {
            Some(i) => {
                proof {
                    lemma_entries_update(self.entries@, i as int, e);
                }
                self.entries.set(i, e);
                assert(self.entries@ =~= old(self).entries@.update(i as int, e));
            },
            None => {
                proof {
                    lemma_entries_dom(self.entries@, entry_key(e));
                }
                self.entries.push(e);
                assert(self.entries@.drop_last() =~= old(self).entries@);
            },
        }
    }

    /// Puts each job of one flow file under `project`, in order.
    pub fn add_flow(&mut self, project: &str, jobs: Vec<Job>)
        requires
            old(self).wf(),
        ensures
            final(self).wf(),
            final(self)@ == insert_jobs(old(self)@, project@, job_views(jobs@)),
    {
        let ghost js = job_views(jobs@);
        for j in it: jobs
            invariant
                self.wf(),
                js == job_views(it.seq()),
                self@ == insert_jobs(old(self)@, project@, js.take(it.index() as int)),
        {
            proof {
                let k = it.index() as int;
                assert(js.take(k + 1).drop_last() =~= js.take(k));
                assert(js[k] == j@);
            }
            self.insert(project, j);
        }
        assert(js.take(js.len() as int) =~= js);
    }
}

/// Every file name but `anchor`.
pub open spec fn other_than(anchor: Seq<char>) -> spec_fn(Seq<char>) -> bool {
    |f: Seq<char>| f != anchor
}

/// The project of a directory and the flow files to read: the first anchor
/// file names the project, and every other file of the directory is a flow
/// file. A directory without an anchor has no project.
pub fn plan_directory(files: &Vec<String>) -> (r: Option<(String, Vec<String>)>)
    ensures
        r is None <==> forall|i: int| 0 <= i < files.len() ==> !is_anchor(#[trigger] files@[i]@),
        match r {
            Some(p) => exists|a: int| 0 <= a < files.len() && is_anchor(files@[a]@) && (forall|j: int| 0 <= j < a ==> !is_anchor(#[trigger] files@[j]@))
                && p.0@ == name_of(files@[a]@)
                && views(p.1@) == views(files@).filter(other_than(files@[a]@)),
            None => true,
        },
{
    let mut a: usize = 0;
    while a < files.len() && !is_project_file(files[a].as_str())
        invariant
            a <= files.len(),
            forall|j: int| 0 <= j < a ==> !is_anchor(#[trigger] files@[j]@),
        decreases files.len() - a,
    {
        a = a + 1;
    }
    if a == files.len() {
        return None;
    }
    let project = stem_name(files[a].as_str());
    let ghost anchor = files@[a as int]@;
    let ghost pred = other_than(anchor);
    let mut flows: Vec<String> = Vec::new();
    let mut i: usize = 0;
    while i < files.len()
        invariant
            a < files.len(),
            anchor == files@[a as int]@,
            pred == other_than(anchor),
            i <= files.len(),
            views(flows@) == views(files@).take(i as int).filter(pred),
        decreases files.len() - i,
    {
        let keep = !(files[i] == files[a]);
        proof {
            let t = views(files@).take(i + 1);
            assert(t.drop_last() =~= views(files@).take(i as int));
            assert(t.last() == files@[i as int]@);
            reveal(Seq::filter);
        }
        if keep {
            flows.push(files[i].clone());
            assert(views(flows@) =~= views(files@).take(i as int).filter(pred).push(files@[i as int]@));
        }
        i = i + 1;
    }
    assert(views(files@).take(files.len() as int) =~= views(files@));
    assert(is_anchor(files@[a as int]@));
    Some((project, flows))
}

} // verus!
