//! The flow-file grammar: cutting a flow file into per-job line ranges.
//!
//! A job starts on a line of the form `- name: <token>` (whitespace allowed
//! before the dash and around `name:`). Its range runs to the last line that
//! has content before the next job starts, leaving out a description comment
//! that sits right before the next job; the last job runs to the last line of
//! the file that has content. The job's description is the text of the first
//! `# text` comment in its block.
use vstd::prelude::*;
use crate::paths::{name_of, stem_name};
use crate::text::{
    back_ws_at, chars_of, is_blank, is_ws, is_ws_char, lemma_back_ws_bounds,
    lemma_skip_ws_bounds, skip_char, skip_char_at, skip_non_ws, skip_non_ws_at, skip_ws, skip_ws_at,
    slice_string, lines_of, text_lines, trim_end, trim_start, views,
};

verus! {

/// One job of a flow file. Line numbers are 1-based and inclusive.
pub struct Job {
    pub start: usize,
    pub end: usize,
    pub flow: String,
    pub job: String,
    pub flow_file: String,
    pub owner: String,
    pub desc: String,
}

pub struct JobView {
    pub start: int,
    pub end: int,
    pub flow: Seq<char>,
    pub job: Seq<char>,
    pub flow_file: Seq<char>,
    pub owner: Seq<char>,
    pub desc: Seq<char>,
}

impl View for Job {
    type V = JobView;

    open spec fn view(&self) -> JobView {
        JobView {
            start: self.start as int,
            end: self.end as int,
            flow: self.flow@,
            job: self.job@,
            flow_file: self.flow_file@,
            owner: self.owner@,
            desc: self.desc@,
        }
    }
}

pub open spec fn job_views(v: Seq<Job>) -> Seq<JobView> {
    v.map_values(|j: Job| j@)
}

impl Clone for Job {
    fn clone(&self) -> (r: Job)
        ensures
            r@ == self@,
    {
        Job {
            start: self.start,
            end: self.end,
            flow: self.flow.clone(),
            job: self.job.clone(),
            flow_file: self.flow_file.clone(),
            owner: self.owner.clone(),
            desc: self.desc.clone(),
        }
    }
}

/// `name:` at position `b`.
pub open spec fn name_tag_at(s: Seq<char>, b: int) -> bool {
    0 <= b && b + 5 <= s.len() && s[b] == 'n' && s[b + 1] == 'a' && s[b + 2] == 'm' && s[b + 3]
        == 'e' && s[b + 4] == ':'
}

/// Where the job name stands on a job line: optional whitespace, a dash,
/// optional whitespace, `name:`, optional whitespace, then the name, a run
/// of non-whitespace characters.
pub open spec fn boundary_span(s: Seq<char>) -> Option<(int, int)> {
    let a = skip_ws(s, 0);
    if a < s.len() && s[a] == '-' {
        let b = skip_ws(s, a + 1);
        if name_tag_at(s, b) {
            let c = skip_ws(s, b + 5);
            let d = skip_non_ws(s, c);
            if c < d {
                Some((c, d))
            } else {
                None
            }
        } else {
            None
        }
    } else {
        None
    }
}

pub open spec fn is_boundary(s: Seq<char>) -> bool {
    boundary_span(s) is Some
}

/// The job name on a job line.
pub open spec fn boundary_name(s: Seq<char>) -> Seq<char> {
    match boundary_span(s) {
        Some(p) => s.subrange(p.0, p.1),
        None => Seq::<char>::empty(),
    }
}

/// Where the text of a comment line stands. Once trimmed, the line is `#`
/// followed either by a non-whitespace character, or by whitespace and then
/// a character other than `=`. The text is what follows the leading `#`s,
/// trimmed.
pub open spec fn comment_span(s: Seq<char>) -> Option<(int, int)> {
    let t0 = trim_start(s);
    let t1 = trim_end(s);
    if t1 - t0 >= 2 && s[t0] == '#' && (!is_ws(s[t0 + 1]) || s[skip_ws(s, t0 + 1)] != '=') {
        let u = skip_ws(s, skip_char(s, t0, '#'));
        if u < t1 {
            Some((u, t1))
        } else {
            Some((t1, t1))
        }
    } else {
        None
    }
}

/// A comment line whose text is not empty.
pub open spec fn is_desc_line(s: Seq<char>) -> bool {
    match comment_span(s) {
        Some(p) => p.0 < p.1,
        None => false,
    }
}

pub open spec fn desc_text(s: Seq<char>) -> Seq<char> {
    match comment_span(s) {
        Some(p) => s.subrange(p.0, p.1),
        None => Seq::<char>::empty(),
    }
}

/// Indices (0-based) of the job lines, in order.
pub open spec fn boundary_lines(lines: Seq<Seq<char>>) -> Seq<int>
    decreases lines.len(),
{
    if lines.len() == 0 {
        seq![]
    } else {
        let b = boundary_lines(lines.drop_last());
        if is_boundary(lines.last()) {
            b.push(lines.len() - 1)
        } else {
            b
        }
    }
}

/// Index of the line after the block of job `k`: the next job line, or the length.
pub open spec fn block_end(lines: Seq<Seq<char>>, k: int) -> int {
    let bl = boundary_lines(lines);
    if k + 1 < bl.len() {
        bl[k + 1]
    } else {
        lines.len() as int
    }
}

/// Last line that the range of job `k` may reach, before blank lines are dropped.
pub open spec fn range_top(lines: Seq<Seq<char>>, k: int) -> int {
    let bl = boundary_lines(lines);
    let n = block_end(lines, k);
    if k + 1 < bl.len() && n - 1 > bl[k] && is_desc_line(lines[n - 1]) {
        n - 2
    } else {
        n - 1
    }
}

/// Largest index in `lo..=hi` whose line is not blank, or `lo`.
pub open spec fn last_content(lines: Seq<Seq<char>>, lo: int, hi: int) -> int
    decreases hi - lo,
{
    if hi <= lo || !is_blank(lines[hi]) {
        hi
    } else {
        last_content(lines, lo, hi - 1)
    }
}

/// Text of the first description line in `i..n`, or empty.
pub open spec fn first_desc(lines: Seq<Seq<char>>, i: int, n: int) -> Seq<char>
    decreases n - i,
{
    if i >= n {
        Seq::<char>::empty()
    } else if is_desc_line(lines[i]) {
        desc_text(lines[i])
    } else {
        first_desc(lines, i + 1, n)
    }
}

/// Job `k` of a flow file, its owner not yet known.
pub open spec fn job_at(flow: Seq<char>, file: Seq<char>, lines: Seq<Seq<char>>, k: int) -> JobView {
    let b = boundary_lines(lines)[k];
    JobView {
        start: b + 1,
        end: last_content(lines, b, range_top(lines, k)) + 1,
        flow: flow,
        job: boundary_name(lines[b]),
        flow_file: file,
        owner: Seq::<char>::empty(),
        desc: first_desc(lines, b + 1, block_end(lines, k)),
    }
}

/// The jobs of a flow file, in the order of their lines.
pub open spec fn flow_jobs(flow: Seq<char>, file: Seq<char>, lines: Seq<Seq<char>>) -> Seq<JobView> {
    Seq::new(boundary_lines(lines).len(), |k: int| job_at(flow, file, lines, k))
}

pub open spec fn span_is(r: Option<(usize, usize)>, p: Option<(int, int)>, len: int) -> bool {
    match r {
        Some(q) => p == Some((q.0 as int, q.1 as int)) && q.0 <= q.1 <= len,
        None => p is None,
    }
}

fn find_boundary(s: &Vec<char>) -> (r: Option<(usize, usize)>)
    ensures
        span_is(r, boundary_span(s@), s.len() as int),
{
    let a = skip_ws_at(s, 0);
    if a < s.len() && s[a] == '-' {
        let b = skip_ws_at(s, a + 1);
        if b < s.len() && s.len() - b >= 5 && s[b] == 'n' && s[b + 1] == 'a' && s[b + 2] == 'm'
            && s[b + 3] == 'e' && s[b + 4] == ':' {
            let c = skip_ws_at(s, b + 5);
            let d = skip_non_ws_at(s, c);
            if c < d {
                Some((c, d))
            } else {
                None
            }
        } else {
            None
        }
    } else {
        None
    }
}

fn find_comment(s: &Vec<char>) -> (r: Option<(usize, usize)>)
    ensures
        span_is(r, comment_span(s@), s.len() as int),
{
    let t0 = skip_ws_at(s, 0);
    let t1 = back_ws_at(s, t0, s.len());
    proof {
        lemma_skip_ws_bounds(s@, 0);
        lemma_back_ws_bounds(s@, t0 as int, s.len() as int);
    }
    if t1 - t0 >= 2 && s[t0] == '#' {
        let tagged = if !is_ws_char(s[t0 + 1]) {
            true
        } else {
            let k = skip_ws_at(s, t0 + 1);
            proof {
                lemma_skip_ws_bounds(s@, t0 + 1);
                if k >= t1 {
                    assert(is_ws(s@[t1 - 1]));
                }
            }
            s[k] != '='
        };
        if tagged {
            let h = skip_char_at(s, t0, '#');
            let u = skip_ws_at(s, h);
            if u < t1 {
                Some((u, t1))
            } else {
                Some((t1, t1))
            }
        } else {
            None
        }
    } else {
        None
    }
}

/// What the grammar finds on one line.
struct LineFacts {
    name: Option<(usize, usize)>,
    blank: bool,
    comment: Option<(usize, usize)>,
}

spec fn facts_of(f: LineFacts, s: Seq<char>) -> bool {
    &&& span_is(f.name, boundary_span(s), s.len() as int)
    &&& f.blank == is_blank(s)
    &&& span_is(f.comment, comment_span(s), s.len() as int)
}

fn line_facts(line: &String) -> (f: LineFacts)
    ensures
        facts_of(f, line@),
{
    let cs = chars_of(line.as_str());
    let t0 = skip_ws_at(&cs, 0);
    LineFacts { name: find_boundary(&cs), blank: t0 == cs.len(), comment: find_comment(&cs) }
}

fn has_desc(f: &LineFacts) -> (r: bool)
    ensures
        r == match f.comment {
            Some(q) => q.0 < q.1,
            None => false,
        },
{
    match f.comment {
        Some(q) => q.0 < q.1,
        None => false,
    }
}

pub proof fn lemma_boundary_lines(lines: Seq<Seq<char>>)
    ensures
        forall|k: int|
            0 <= k < boundary_lines(lines).len() ==> 0 <= #[trigger] boundary_lines(lines)[k]
                < lines.len() && is_boundary(lines[boundary_lines(lines)[k]]),
        forall|k: int, j: int|
            0 <= k < j < boundary_lines(lines).len() ==> #[trigger] boundary_lines(lines)[k]
                < #[trigger] boundary_lines(lines)[j],
        forall|i: int|
            0 <= i < lines.len() && is_boundary(#[trigger] lines[i]) ==> exists|k: int|
                0 <= k < boundary_lines(lines).len() && boundary_lines(lines)[k] == i,
    decreases lines.len(),
{
    if lines.len() > 0 {
        let pre = lines.drop_last();
        lemma_boundary_lines(pre);
        let b = boundary_lines(pre);
        assert forall|i: int| 0 <= i < lines.len() && is_boundary(#[trigger] lines[i]) implies exists|k: int|
            0 <= k < boundary_lines(lines).len() && boundary_lines(lines)[k] == i by {
            if i < lines.len() - 1 {
                assert(pre[i] == lines[i]);
                let k = choose|k: int| 0 <= k < b.len() && b[k] == i;
                assert(boundary_lines(lines)[k] == i);
            } else {
                assert(boundary_lines(lines)[b.len() as int] == i);
            }
        }
    }
}

/// Cuts the lines of a flow file into its jobs; owners are left empty.
pub fn parse_flow_lines(flow: &str, flow_file: &str, lines: &Vec<String>) -> (r: Vec<Job>)
    ensures
        job_views(r@) == flow_jobs(flow@, flow_file@, views(lines@)),
{
    let ghost ls = views(lines@);
    let mut facts: Vec<LineFacts> = Vec::new();
    let mut bs: Vec<usize> = Vec::new();
    let mut i: usize = 0;
    while i < lines.len()
        invariant
            ls == views(lines@),
            i <= lines.len(),
            facts.len() == i,
            forall|j: int| 0 <= j < i ==> facts_of(#[trigger] facts@[j], ls[j]),
            bs@.map_values(|x: usize| x as int) == boundary_lines(ls.take(i as int)),
        decreases lines.len() - i,
    {
        let f = line_facts(&lines[i]);
        let is_b = f.name.is_some();
        facts.push(f);
        proof {
            assert(ls.take(i + 1).drop_last() =~= ls.take(i as int));
            assert(ls.take(i + 1).last() == ls[i as int]);
        }
        if is_b {
            bs.push(i);
            assert(bs@.map_values(|x: usize| x as int) =~= boundary_lines(ls.take(i as int)).push(i as int));
        }
        i = i + 1;
    }
    assert(ls.take(lines.len() as int) =~= ls);
    let ghost bl = boundary_lines(ls);
    proof {
        lemma_boundary_lines(ls);
    }
    assert(forall|k: int| 0 <= k < bs.len() ==> bs@[k] as int == bl[k]) by {
        assert forall|k: int| 0 <= k < bs.len() implies bs@[k] as int == bl[k] by {
            assert(bs@.map_values(|x: usize| x as int)[k] == bl[k]);
        }
    }
    let mut r: Vec<Job> = Vec::new();
    let nb = bs.len();
    let mut k: usize = 0;
    while k < nb
        invariant
            ls == views(lines@),
            bl == boundary_lines(ls),
            nb == bs.len() == bl.len(),
            facts.len() == lines.len(),
            forall|j: int| 0 <= j < lines.len() ==> facts_of(#[trigger] facts@[j], ls[j]),
            forall|j: int| 0 <= j < nb ==> bs@[j] as int == #[trigger] bl[j],
            forall|j: int| 0 <= j < nb ==> 0 <= #[trigger] bl[j] < lines.len(),
            forall|j: int, m: int| 0 <= j < m < nb ==> #[trigger] bl[j] < #[trigger] bl[m],
            forall|j: int| 0 <= j < nb ==> is_boundary(#[trigger] ls[bl[j]]),
            k <= nb,
            r.len() == k,
            forall|j: int| 0 <= j < k ==> #[trigger] r@[j]@ == job_at(flow@, flow_file@, ls, j),
        decreases nb - k,
    {
        let b = bs[k];
        let n = if k + 1 < nb {
            assert(bl[k as int] < bl[k + 1]);
            bs[k + 1]
        } else {
            lines.len()
        };
        assert(n as int == block_end(ls, k as int));
        assert(b < n);
        let top = if k + 1 < nb && n - 1 > b && has_desc(&facts[n - 1]) {
            n - 2
        } else {
            n - 1
        };
        assert(top as int == range_top(ls, k as int));
        let mut e = top;
        while e > b && facts[e].blank
            invariant
                b <= e <= top < lines.len(),
                ls == views(lines@),
                facts.len() == lines.len(),
                forall|j: int| 0 <= j < lines.len() ==> facts_of(#[trigger] facts@[j], ls[j]),
                last_content(ls, b as int, e as int) == last_content(ls, b as int, top as int),
            decreases e,
        {
            e = e - 1;
        }
        let mut d = b + 1;
        while d < n && !has_desc(&facts[d])
            invariant
                b + 1 <= d <= n <= lines.len(),
                ls == views(lines@),
                facts.len() == lines.len(),
                forall|j: int| 0 <= j < lines.len() ==> facts_of(#[trigger] facts@[j], ls[j]),
                first_desc(ls, d as int, n as int) == first_desc(ls, b + 1, n as int),
            decreases n - d,
        {
            d = d + 1;
        }
        let desc = if d < n {
            match facts[d].comment {
                Some(q) => slice_string(lines[d].as_str(), q.0, q.1),
                None => String::new(),
            }
        } else {
            String::new()
        };
        let name = match facts[b].name {
            Some(q) => slice_string(lines[b].as_str(), q.0, q.1),
            None => String::new(),
        };
        let job = Job {
            start: b + 1,
            end: e + 1,
            flow: flow.to_owned(),
            job: name,
            flow_file: flow_file.to_owned(),
            owner: String::new(),
            desc,
        };
        assert(job@ == job_at(flow@, flow_file@, ls, k as int));
        r.push(job);
        k = k + 1;
    }
    assert(job_views(r@) =~= flow_jobs(flow@, flow_file@, ls));
    r
}

pub proof fn lemma_last_content_bounds(lines: Seq<Seq<char>>, lo: int, hi: int)
    requires
        lo <= hi,
    ensures
        lo <= last_content(lines, lo, hi) <= hi,
    decreases hi - lo,
{
    if hi > lo && is_blank(lines[hi]) {
        lemma_last_content_bounds(lines, lo, hi - 1);
    }
}

/// Job ranges of a flow file never overlap: each starts on its job line, ends
/// no earlier than it starts and before the next job starts; and every job
/// line of the file starts a job.
pub proof fn lemma_job_ranges(flow: Seq<char>, file: Seq<char>, lines: Seq<Seq<char>>)
    ensures
        forall|k: int|
            0 <= k < flow_jobs(flow, file, lines).len() ==> #[trigger] flow_jobs(
                flow,
                file,
                lines,
            )[k].start <= flow_jobs(flow, file, lines)[k].end,
        forall|k: int, j: int|
            0 <= k < j < flow_jobs(flow, file, lines).len() ==> #[trigger] flow_jobs(
                flow,
                file,
                lines,
            )[k].end < #[trigger] flow_jobs(flow, file, lines)[j].start,
        forall|i: int|
            0 <= i < lines.len() && is_boundary(#[trigger] lines[i]) ==> exists|k: int|
                0 <= k < flow_jobs(flow, file, lines).len() && flow_jobs(flow, file, lines)[k].start
                    == i + 1,
{
    let jobs = flow_jobs(flow, file, lines);
    let bl = boundary_lines(lines);
    lemma_boundary_lines(lines);
    assert forall|k: int| 0 <= k < jobs.len() implies jobs[k].start <= jobs[k].end
        && jobs[k].end <= block_end(lines, k) by {
        if k + 1 < bl.len() {
            assert(bl[k] < bl[k + 1]);
        }
        lemma_last_content_bounds(lines, bl[k], range_top(lines, k));
    }
    assert forall|k: int, j: int| 0 <= k < j < jobs.len() implies #[trigger] jobs[k].end
        < #[trigger] jobs[j].start by {
        assert(jobs[k].end <= block_end(lines, k));
        assert(bl[k + 1] <= bl[j]);
    }
    assert forall|i: int| 0 <= i < lines.len() && is_boundary(#[trigger] lines[i]) implies exists|k: int|
        0 <= k < jobs.len() && jobs[k].start == i + 1 by {
        let k = choose|k: int| 0 <= k < bl.len() && bl[k] == i;
        assert(jobs[k].start == i + 1);
    }
}

/// Cuts the text of a flow file into its jobs; owners are left empty.
pub fn parse_flow(flow: &str, flow_file: &str, content: &str) -> (r: Vec<Job>)
    ensures
        job_views(r@) == flow_jobs(flow@, flow_file@, lines_of(content@)),
{
    let lines = text_lines(content);
    parse_flow_lines(flow, flow_file, &lines)
}

/// The flow that a flow file defines: its name, the stem of the file name,
/// and its jobs, owners left empty.
pub fn parse_flow_file(flow_file: &str, content: &str) -> (r: (String, Vec<Job>))
    ensures
        r.0@ == name_of(flow_file@),
        job_views(r.1@) == flow_jobs(name_of(flow_file@), flow_file@, lines_of(content@)),
{
    let flow = stem_name(flow_file);
    let jobs = parse_flow(flow.as_str(), flow_file, content);
    (flow, jobs)
}

} // verus!
