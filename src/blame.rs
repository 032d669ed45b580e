//! Picking the most recent author out of blame output.
//!
//! A blame line names its author and time as `(author  YYYY-MM-DD HH:MM:SS`.
//! Among the lines whose first such mention is a real calendar date and time
//! of day, the author with the latest time wins; on equal times the line seen
//! first wins.
use vstd::prelude::*;
use crate::text::{
    chars_of, lemma_skip_non_ws_bounds, lemma_skip_ws_bounds, lines_of, skip_non_ws,
    skip_non_ws_at, skip_ws, skip_ws_at, slice_string, text_lines, views,
};

verus! {

pub open spec fn is_digit(c: char) -> bool {
    '0' <= c && c <= '9'
}

/// `n` ASCII digits at `i`.
pub open spec fn digits_at(s: Seq<char>, i: int, n: int) -> bool {
    0 <= i && i + n <= s.len() && forall|k: int| i <= k < i + n ==> is_digit(#[trigger] s[k])
}

/// `YYYY-MM-DD` at `i`.
pub open spec fn date_at(s: Seq<char>, i: int) -> bool {
    digits_at(s, i, 4) && i + 10 <= s.len() && s[i + 4] == '-' && digits_at(s, i + 5, 2) && s[i
        + 7] == '-' && digits_at(s, i + 8, 2)
}

/// `HH:MM:SS` at `i`.
pub open spec fn clock_at(s: Seq<char>, i: int) -> bool {
    digits_at(s, i, 2) && i + 8 <= s.len() && s[i + 2] == ':' && digits_at(s, i + 3, 2) && s[i
        + 5] == ':' && digits_at(s, i + 6, 2)
}

/// Where the author ends, the date starts and the time of day starts, for a
/// mention that opens with `(` at `p`: the author is the run of
/// non-whitespace after the parenthesis, then whitespace, the date,
/// whitespace, and the time.
pub open spec fn mention_at(s: Seq<char>, p: int) -> Option<(int, int, int)> {
    if 0 <= p < s.len() && s[p] == '(' {
        let a = skip_non_ws(s, p + 1);
        let d = skip_ws(s, a);
        let t = skip_ws(s, d + 10);
        if a > p + 1 && d > a && date_at(s, d) && t > d + 10 && clock_at(s, t) {
            Some((a, d, t))
        } else {
            None
        }
    } else {
        None
    }
}

/// Position of the first mention at or after `p`.
pub open spec fn first_mention(s: Seq<char>, p: int) -> Option<int>
    decreases s.len() - p,
{
    if p < 0 || p >= s.len() {
        None
    } else if mention_at(s, p) is Some {
        Some(p)
    } else {
        first_mention(s, p + 1)
    }
}

pub open spec fn digit_val(c: char) -> int {
    c as int - '0' as int
}

pub open spec fn num2(t: Seq<char>, i: int) -> int {
    10 * digit_val(t[i]) + digit_val(t[i + 1])
}

/// A time read from its digits, compared field by field.
pub struct Stamp {
    pub year: int,
    pub month: int,
    pub day: int,
    pub hour: int,
    pub minute: int,
    pub second: int,
}

/// `text` is `YYYY-MM-DD HH:MM:SS`.
pub open spec fn stamp_shaped(t: Seq<char>) -> bool {
    t.len() == 19 && date_at(t, 0) && t[10] == ' ' && clock_at(t, 11)
}

pub open spec fn stamp_of(t: Seq<char>) -> Stamp {
    Stamp {
        year: 100 * num2(t, 0) + num2(t, 2),
        month: num2(t, 5),
        day: num2(t, 8),
        hour: num2(t, 11),
        minute: num2(t, 14),
        second: num2(t, 17),
    }
}

pub open spec fn is_leap_year(y: int) -> bool {
    (y % 4 == 0 && y % 100 != 0) || y % 400 == 0
}

pub open spec fn days_in_month(y: int, m: int) -> int {
    if m == 2 {
        if is_leap_year(y) {
            29
        } else {
            28
        }
    } else if m == 4 || m == 6 || m == 9 || m == 11 {
        30
    } else {
        31
    }
}

/// A real date of the proleptic Gregorian calendar and a time of day; a
/// second of 60 stands for a leap second.
pub open spec fn stamp_valid(s: Stamp) -> bool {
    1 <= s.month <= 12 && 1 <= s.day <= days_in_month(s.year, s.month) && 0 <= s.hour <= 23 && 0
        <= s.minute <= 59 && 0 <= s.second <= 60
}

pub open spec fn later(a: Stamp, b: Stamp) -> bool {
    if a.year != b.year {
        a.year > b.year
    } else if a.month != b.month {
        a.month > b.month
    } else if a.day != b.day {
        a.day > b.day
    } else if a.hour != b.hour {
        a.hour > b.hour
    } else if a.minute != b.minute {
        a.minute > b.minute
    } else {
        a.second > b.second
    }
}

/// The text of the time in the mention at `p`: the date, one space, the time of day.
pub open spec fn mention_time(s: Seq<char>, p: int) -> Seq<char> {
    let m = mention_at(s, p)->Some_0;
    s.subrange(m.1, m.1 + 10) + seq![' '] + s.subrange(m.2, m.2 + 8)
}

/// What one blame line offers: the time and the author of its first
/// mention, where that time is valid.
pub open spec fn line_candidate(s: Seq<char>) -> Option<(Stamp, Seq<char>)> {
    match first_mention(s, 0) {
        Some(p) => {
            let st = stamp_of(mention_time(s, p));
            if stamp_valid(st) {
                Some((st, s.subrange(p + 1, mention_at(s, p)->Some_0.0)))
            } else {
                None
            }
        },
        None => None,
    }
}

/// The winning candidate among the lines: latest time, first seen on a tie.
pub open spec fn latest(lines: Seq<Seq<char>>) -> Option<(Stamp, Seq<char>)>
    decreases lines.len(),
{
    if lines.len() == 0 {
        None
    } else {
        let prev = latest(lines.drop_last());
        match line_candidate(lines.last()) {
            Some(c) => match prev {
                Some(b) => if later(c.0, b.0) {
                    Some(c)
                } else {
                    prev
                },
                None => Some(c),
            },
            None => prev,
        }
    }
}

/// The author named by the blame output, or empty when no line names one.
pub open spec fn latest_author(output: Seq<char>) -> Seq<char> {
    match latest(lines_of(output)) {
        Some(c) => c.1,
        None => Seq::<char>::empty(),
    }
}

/// Relies on chrono's `NaiveDateTime::parse_from_str` with the format
/// `%Y-%m-%d %H:%M:%S`: on text of that shape it succeeds exactly when the
/// digits name a real date of the proleptic Gregorian calendar and a time of
/// day, where a second of 60 is taken as a leap second.
#[verifier::external_body]
fn chrono_accepts(text: &str) -> (r: bool)
    requires
        stamp_shaped(text@),
    ensures
        r == stamp_valid(stamp_of(text@)),
{
    chrono::NaiveDateTime::parse_from_str(text, "%Y-%m-%d %H:%M:%S").is_ok()
}

/// A time of day on a date, as read from blame output.
struct Clock {
    year: u32,
    month: u32,
    day: u32,
    hour: u32,
    minute: u32,
    second: u32,
}

spec fn clock_view(c: Clock) -> Stamp {
    Stamp {
        year: c.year as int,
        month: c.month as int,
        day: c.day as int,
        hour: c.hour as int,
        minute: c.minute as int,
        second: c.second as int,
    }
}

fn is_digit_char(c: char) -> (r: bool)
    ensures
        r == is_digit(c),
{
    '0' <= c && c <= '9'
}

fn digits_at_exec(s: &Vec<char>, i: usize, n: usize) -> (r: bool)
    requires
        n <= 4,
    ensures
        r == digits_at(s@, i as int, n as int),
{
    if i > s.len() || s.len() - i < n {
        return false;
    }
    let mut k = i;
    while k < i + n
        invariant
            i <= k <= i + n <= s.len(),
            forall|j: int| i <= j < k ==> is_digit(#[trigger] s@[j]),
        decreases i + n - k,
    {
        if !is_digit_char(s[k]) {
            return false;
        }
        k = k + 1;
    }
    true
}

fn date_at_exec(s: &Vec<char>, i: usize) -> (r: bool)
    ensures
        r == date_at(s@, i as int),
{
    digits_at_exec(s, i, 4) && s.len() - i >= 10 && s[i + 4] == '-' && digits_at_exec(s, i + 5, 2)
        && s[i + 7] == '-' && digits_at_exec(s, i + 8, 2)
}

fn clock_at_exec(s: &Vec<char>, i: usize) -> (r: bool)
    ensures
        r == clock_at(s@, i as int),
{
    digits_at_exec(s, i, 2) && s.len() - i >= 8 && s[i + 2] == ':' && digits_at_exec(s, i + 3, 2)
        && s[i + 5] == ':' && digits_at_exec(s, i + 6, 2)
}

fn mention_at_exec(s: &Vec<char>, p: usize) -> (r: Option<(usize, usize, usize)>)
    requires
        p < s.len(),
    ensures
        match r {
            Some(m) => mention_at(s@, p as int) == Some((m.0 as int, m.1 as int, m.2 as int)),
            None => mention_at(s@, p as int) is None,
        },
{
    if s[p] != '(' {
        return None;
    }
    let a = skip_non_ws_at(s, p + 1);
    let d = skip_ws_at(s, a);
    if a > p + 1 && d > a && date_at_exec(s, d) {
        let t = skip_ws_at(s, d + 10);
        if t > d + 10 && clock_at_exec(s, t) {
            return Some((a, d, t));
        }
    }
    None
}

fn num2_exec(s: &Vec<char>, i: usize) -> (r: u32)
    requires
        digits_at(s@, i as int, 2),
    ensures
        r as int == num2(s@, i as int),
{
    assert(i + 1 < s.len());
    let hi = s[i] as u32 - '0' as u32;
    let lo = s[i + 1] as u32 - '0' as u32;
    10 * hi + lo
}

fn read_clock(s: &Vec<char>, d: usize, t: usize) -> (r: Clock)
    requires
        date_at(s@, d as int),
        clock_at(s@, t as int),
    ensures
        clock_view(r) == stamp_of(s@.subrange(d as int, d + 10) + seq![' '] + s@.subrange(
            t as int,
            t + 8,
        )),
{
    let ghost text = s@.subrange(d as int, d + 10) + seq![' '] + s@.subrange(t as int, t + 8);
    assert(text[0] == s@[d as int] && text[1] == s@[d + 1] && text[2] == s@[d + 2] && text[3]
        == s@[d + 3]);
    assert(text[5] == s@[d + 5] && text[6] == s@[d + 6] && text[8] == s@[d + 8] && text[9]
        == s@[d + 9]);
    assert(text[11] == s@[t as int] && text[12] == s@[t + 1] && text[14] == s@[t + 3] && text[15]
        == s@[t + 4] && text[17] == s@[t + 6] && text[18] == s@[t + 7]);
    assert(d + 4 <= s.len() && t + 8 <= s.len());
    let century = num2_exec(s, d);
    let year_in = num2_exec(s, d + 2);
    Clock {
        year: 100 * century + year_in,
        month: num2_exec(s, d + 5),
        day: num2_exec(s, d + 8),
        hour: num2_exec(s, t),
        minute: num2_exec(s, t + 3),
        second: num2_exec(s, t + 6),
    }
}

fn later_exec(a: &Clock, b: &Clock) -> (r: bool)
    ensures
        r == later(clock_view(*a), clock_view(*b)),
{
    if a.year != b.year {
        a.year > b.year
    } else if a.month != b.month {
        a.month > b.month
    } else if a.day != b.day {
        a.day > b.day
    } else if a.hour != b.hour {
        a.hour > b.hour
    } else if a.minute != b.minute {
        a.minute > b.minute
    } else {
        a.second > b.second
    }
}

spec fn candidate_view(c: Option<(Clock, String)>) -> Option<(Stamp, Seq<char>)> {
    match c {
        Some(x) => Some((clock_view(x.0), x.1@)),
        None => None,
    }
}

/// The candidate that one blame line offers.
fn line_candidate_exec(line: &String) -> (r: Option<(Clock, String)>)
    ensures
        candidate_view(r) == line_candidate(line@),
{
    let s = chars_of(line.as_str());
    let mut p: usize = 0;
    while p < s.len()
        invariant
            s@ == line@,
            p <= s.len(),
            first_mention(s@, p as int) == first_mention(s@, 0),
        decreases s.len() - p,
    {
        match mention_at_exec(&s, p) {
            Some(m) => {
                let (a, d, t) = m;
                proof {
                    lemma_skip_non_ws_bounds(s@, p + 1);
                    lemma_skip_ws_bounds(s@, a as int);
                }
                let date = slice_string(line.as_str(), d, d + 10);
                let clock = slice_string(line.as_str(), t, t + 8);
                proof {
                    reveal_strlit(" ");
                }
                let text = date.concat(" ").concat(clock.as_str());
                assert(text@ =~= mention_time(s@, p as int));
                let c = read_clock(&s, d, t);
                if chrono_accepts(text.as_str()) {
                    return Some((c, slice_string(line.as_str(), p + 1, a)));
                } else {
                    return None;
                }
            },
            None => {},
        }
        p = p + 1;
    }
    None
}

/// The author with the latest valid time in the blame output, or an empty
/// string when no line names one.
pub fn extract_latest_author(blame_info: &str) -> (r: String)
    ensures
        r@ == latest_author(blame_info@),
{
    let lines = text_lines(blame_info);
    let ghost ls = views(lines@);
    let mut best: Option<(Clock, String)> = None;
    let mut i: usize = 0;
    while i < lines.len()
        invariant
            ls == views(lines@),
            i <= lines.len(),
            candidate_view(best) == latest(ls.take(i as int)),
        decreases lines.len() - i,
    {
        let c = line_candidate_exec(&lines[i]);
        proof {
            assert(ls.take(i + 1).drop_last() =~= ls.take(i as int));
            assert(ls.take(i + 1).last() == ls[i as int]);
        }
        match c {
            Some(x) => {
                let take = match &best {
                    Some(b) => later_exec(&x.0, &b.0),
                    None => true,
                };
                if take {
                    best = Some(x);
                }
            },
            None => {},
        }
        i = i + 1;
    }
    assert(ls.take(lines.len() as int) =~= ls);
    match best {
        Some(b) => b.1,
        None => String::new(),
    }
}

/// Output in which no line names an author at a valid time names no author.
pub proof fn lemma_no_candidate_no_author(output: Seq<char>)
    requires
        forall|i: int|
            0 <= i < lines_of(output).len() ==> line_candidate(#[trigger] lines_of(output)[i]) is None,
    ensures
        latest_author(output) == Seq::<char>::empty(),
{
    lemma_no_candidate_no_latest(lines_of(output));
}

proof fn lemma_no_candidate_no_latest(lines: Seq<Seq<char>>)
    requires
        forall|i: int| 0 <= i < lines.len() ==> line_candidate(#[trigger] lines[i]) is None,
    ensures
        latest(lines) is None,
    decreases lines.len(),
{
    if lines.len() > 0 {
        let pre = lines.drop_last();
        assert forall|i: int| 0 <= i < pre.len() implies line_candidate(#[trigger] pre[i]) is None by {
            assert(pre[i] == lines[i]);
        }
        lemma_no_candidate_no_latest(pre);
        assert(line_candidate(lines[lines.len() - 1]) is None);
    }
}

/// The owner of a job from one blame run: the latest author when the run
/// succeeded; empty when it failed or when no line of its output names an
/// author at a valid time.
pub fn resolve_owner(succeeded: bool, output: &str) -> (r: String)
    ensures
        r@ == (if succeeded {
            latest_author(output@)
        } else {
            Seq::<char>::empty()
        }),
        (forall|i: int|
            0 <= i < lines_of(output@).len() ==> line_candidate(#[trigger] lines_of(output@)[i])
                is None) ==> r@ == Seq::<char>::empty(),
{
    proof {
        if forall|i: int|
            0 <= i < lines_of(output@).len() ==> line_candidate(#[trigger] lines_of(output@)[i])
                is None {
            lemma_no_candidate_no_author(output@);
        }
    }
    if succeeded {
        extract_latest_author(output)
    } else {
        String::new()
    }
}

} // verus!
