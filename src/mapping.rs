//! The owner mapping: raw identity → recipient id.
//!
//! Its text has one mapping per line, with comma-separated columns: every
//! column but the last is an identity, the last is the recipient id. Lines
//! are trimmed; a line with one column maps nothing; at most four columns
//! are read, the fourth keeping any further commas. A later line wins over an
//! earlier one for the same identity.
use vstd::prelude::*;
use crate::text::{back_ws_at, chars_of, lines_of, skip_ws_at, slice_string, text_lines, trimmed, views};

verus! {

/// First position at or after `i` that holds `c` (or the length).
pub open spec fn find_char(s: Seq<char>, i: int, c: char) -> int
    decreases s.len() - i,
{
    if 0 <= i < s.len() && s[i] != c {
        find_char(s, i + 1, c)
    } else {
        i
    }
}

/// The columns of a line, as `splitn(4, ',')` cuts them.
pub open spec fn columns(s: Seq<char>) -> Seq<Seq<char>> {
    let n = s.len() as int;
    let first = find_char(s, 0, ',');
    let second = find_char(s, first + 1, ',');
    let third = find_char(s, second + 1, ',');
    if first >= n {
        seq![s]
    } else if second >= n {
        seq![s.subrange(0, first), s.subrange(first + 1, n)]
    } else if third >= n {
        seq![s.subrange(0, first), s.subrange(first + 1, second), s.subrange(second + 1, n)]
    } else {
        seq![s.subrange(0, first), s.subrange(first + 1, second), s.subrange(second + 1, third), s.subrange(third + 1, n)]
    }
}

/// The (identity, recipient) pairs of one trimmed line.
pub open spec fn line_pairs(s: Seq<char>) -> Seq<(Seq<char>, Seq<char>)> {
    let c = columns(s);
    if c.len() < 2 {
        seq![]
    } else {
        Seq::new((c.len() - 1) as nat, |i: int| (c[i], c.last()))
    }
}

pub open spec fn insert_pairs(m: Map<Seq<char>, Seq<char>>, ps: Seq<(Seq<char>, Seq<char>)>) -> Map<
    Seq<char>,
    Seq<char>,
>
    decreases ps.len(),
{
    if ps.len() == 0 {
        m
    } else {
        insert_pairs(m, ps.drop_last()).insert(ps.last().0, ps.last().1)
    }
}

/// The mapping that the given lines define.
pub open spec fn mapping_of_lines(lines: Seq<Seq<char>>) -> Map<Seq<char>, Seq<char>>
    decreases lines.len(),
{
    if lines.len() == 0 {
        Map::empty()
    } else {
        insert_pairs(mapping_of_lines(lines.drop_last()), line_pairs(trimmed(lines.last())))
    }
}

/// The mapping that a mapping file's text defines.
pub open spec fn mapping_of(text: Seq<char>) -> Map<Seq<char>, Seq<char>> {
    mapping_of_lines(lines_of(text))
}

struct Pair {
    key: String,
    value: String,
}

spec fn pairs_map(s: Seq<Pair>) -> Map<Seq<char>, Seq<char>>
    decreases s.len(),
{
    if s.len() == 0 {
        Map::empty()
    } else {
        pairs_map(s.drop_last()).insert(s.last().key@, s.last().value@)
    }
}

spec fn keys_unique(s: Seq<Pair>) -> bool {
    forall|i: int, j: int| 0 <= i < j < s.len() ==> (#[trigger] s[i]).key@ != (#[trigger] s[j]).key@
}

proof fn lemma_pairs_dom(s: Seq<Pair>, k: Seq<char>)
    ensures
        pairs_map(s).contains_key(k) <==> exists|i: int| 0 <= i < s.len() && (#[trigger] s[i]).key@ == k,
    decreases s.len(),
{
    if s.len() > 0 {
        let pre = s.drop_last();
        lemma_pairs_dom(pre, k);
        if pairs_map(pre).contains_key(k) {
            let i = choose|i: int| 0 <= i < pre.len() && (#[trigger] pre[i]).key@ == k;
            assert(s[i] == pre[i]);
        }
        if exists|i: int| 0 <= i < s.len() && (#[trigger] s[i]).key@ == k {
            let i = choose|i: int| 0 <= i < s.len() && (#[trigger] s[i]).key@ == k;
            if i < s.len() - 1 {
                assert(pre[i] == s[i]);
            }
        }
    }
}

proof fn lemma_pairs_at(s: Seq<Pair>, i: int)
    requires
        keys_unique(s),
        0 <= i < s.len(),
    ensures
        pairs_map(s).contains_key(s[i].key@),
        pairs_map(s)[s[i].key@] == s[i].value@,
    decreases s.len(),
{
    let pre = s.drop_last();
    if i < s.len() - 1 {
        assert(pre[i] == s[i]);
        lemma_pairs_at(pre, i);
    }
}

proof fn lemma_pairs_update(s: Seq<Pair>, i: int, e: Pair)
    requires
        keys_unique(s),
        0 <= i < s.len(),
        e.key@ == s[i].key@,
    ensures
        pairs_map(s.update(i, e)) == pairs_map(s).insert(e.key@, e.value@),
    decreases s.len(),
{
    let t = s.update(i, e);
    let pre = s.drop_last();
    if i == s.len() - 1 {
        assert(t.drop_last() =~= pre);
        assert(pairs_map(t) =~= pairs_map(s).insert(e.key@, e.value@));
    } else {
        assert(t.drop_last() =~= pre.update(i, e));
        assert(pre[i] == s[i]);
        lemma_pairs_update(pre, i, e);
        assert(s.last().key@ != e.key@);
        assert(pairs_map(t) =~= pairs_map(s).insert(e.key@, e.value@));
    }
}

/// Recipient ids keyed by raw identity.
pub struct OwnerMapping {
    pairs: Vec<Pair>,
}

impl View for OwnerMapping {
    type V = Map<Seq<char>, Seq<char>>;

    closed spec fn view(&self) -> Map<Seq<char>, Seq<char>> {
        pairs_map(self.pairs@)
    }
}

impl OwnerMapping {
    /// Identities are unique.
    pub closed spec fn wf(&self) -> bool {
        keys_unique(self.pairs@)
    }

    pub fn new() -> (r: OwnerMapping)
        ensures
            r.wf(),
            r@ == Map::<Seq<char>, Seq<char>>::empty(),
    {
        OwnerMapping { pairs: Vec::new() }
    }

    fn find(&self, key: &String) -> (r: Option<usize>)
        requires
            self.wf(),
        ensures
            match r {
                Some(i) => i < self.pairs.len() && self.pairs@[i as int].key@ == key@,
                None => !self@.contains_key(key@),
            },
    {
        let mut i: usize = 0;
        while i < self.pairs.len()
            invariant
                i <= self.pairs.len(),
                forall|j: int| 0 <= j < i ==> (#[trigger] self.pairs@[j]).key@ != key@,
            decreases self.pairs.len() - i,
        {
            if self.pairs[i].key == *key {
                return Some(i);
            }
            i = i + 1;
        }
        proof {
            lemma_pairs_dom(self.pairs@, key@);
        }
        None
    }

    /// The recipient id of an identity.
    pub fn get(&self, key: &str) -> (r: Option<&String>)
        requires
            self.wf(),
        ensures
            match r {
                Some(v) => self@.contains_key(key@) && self@[key@] == v@,
                None => !self@.contains_key(key@),
            },
    {
        let k = key.to_owned();
        match self.find(&k) {
            Some(i) => {
                proof {
                    lemma_pairs_at(self.pairs@, i as int);
                }
                Some(&self.pairs[i].value)
            },
            None => None,
        }
    }

    /// Maps `key` to `value`, replacing what `key` mapped to before.
    pub fn insert(&mut self, key: String, value: String)
        requires
            old(self).wf(),
        ensures
            final(self).wf(),
            final(self)@ == old(self)@.insert(key@, value@),
    {
        let found = self.find(&key);
        let e = Pair { key, value };
        match found {
            Some(i) => {
                proof {
                    lemma_pairs_update(self.pairs@, i as int, e);
                }
                self.pairs.set(i, e);
                assert(self.pairs@ =~= old(self).pairs@.update(i as int, e));
            },
            None => {
                proof {
                    lemma_pairs_dom(self.pairs@, e.key@);
                }
                self.pairs.push(e);
                assert(self.pairs@.drop_last() =~= old(self).pairs@);
            },
        }
    }

    /// Number of identities mapped.
    pub fn len(&self) -> (r: usize)
        requires
            self.wf(),
        ensures
            r == self@.len(),
    {
        proof {
            let s = self.pairs@;
            let keys = Seq::new(s.len(), |i: int| s[i].key@);
            assert forall|k: Seq<char>| #[trigger] self@.contains_key(k) <==> keys.contains(k) by {
                lemma_pairs_dom(s, k);
                if keys.contains(k) {
                    let i = choose|i: int| 0 <= i < keys.len() && keys[i] == k;
                    assert(s[i].key@ == k);
                }
                if self@.contains_key(k) {
                    let i = choose|i: int| 0 <= i < s.len() && (#[trigger] s[i]).key@ == k;
                    assert(keys[i] == k);
                }
            }
            assert(self@.dom() =~= keys.to_set());
            keys.unique_seq_to_set();
        }
        self.pairs.len()
    }
}

fn find_char_at(s: &Vec<char>, i: usize, c: char) -> (r: usize)
    requires
        i <= s.len(),
    ensures
        r == find_char(s@, i as int, c),
        i <= r <= s.len(),
{
    let mut j = i;
    while j < s.len() && s[j] != c
        invariant
            i <= j <= s.len(),
            find_char(s@, j as int, c) == find_char(s@, i as int, c),
        decreases s.len() - j,
    {
        j = j + 1;
    }
    j
}

/// The columns of one trimmed line.
fn split_columns(t: &String) -> (r: Vec<String>)
    ensures
        views(r@) == columns(t@),
{
    let s = chars_of(t.as_str());
    let n = s.len();
    let first = find_char_at(&s, 0, ',');
    if first >= n {
        let r = vec![t.clone()];
        assert(views(r@) =~= columns(t@));
        return r;
    }
    let second = find_char_at(&s, first + 1, ',');
    if second >= n {
        let r = vec![slice_string(t.as_str(), 0, first), slice_string(t.as_str(), first + 1, n)];
        assert(views(r@) =~= columns(t@));
        return r;
    }
    let third = find_char_at(&s, second + 1, ',');
    if third >= n {
        let r = vec![
            slice_string(t.as_str(), 0, first),
            slice_string(t.as_str(), first + 1, second),
            slice_string(t.as_str(), second + 1, n),
        ];
        assert(views(r@) =~= columns(t@));
        return r;
    }
    let r = vec![
        slice_string(t.as_str(), 0, first),
        slice_string(t.as_str(), first + 1, second),
        slice_string(t.as_str(), second + 1, third),
        slice_string(t.as_str(), third + 1, n),
    ];
    assert(views(r@) =~= columns(t@));
    r
}

/// `line` with whitespace dropped at both ends.
fn trim_line(line: &String) -> (r: String)
    ensures
        r@ == trimmed(line@),
{
    let s = chars_of(line.as_str());
    let t0 = skip_ws_at(&s, 0);
    let t1 = back_ws_at(&s, t0, s.len());
    slice_string(line.as_str(), t0, t1)
}

/// Reads the text of a mapping file.
pub fn parse_owner_mapping(text: &str) -> (r: OwnerMapping)
    ensures
        r.wf(),
        r@ == mapping_of(text@),
{
    let lines = text_lines(text);
    let ghost ls = views(lines@);
    let mut m = OwnerMapping::new();
    let mut i: usize = 0;
    while i < lines.len()
        invariant
            ls == views(lines@),
            i <= lines.len(),
            m.wf(),
            m@ == mapping_of_lines(ls.take(i as int)),
        decreases lines.len() - i,
    {
        let t = trim_line(&lines[i]);
        let cols = split_columns(&t);
        let ghost ps = line_pairs(t@);
        let ghost before = m@;
        proof {
            assert(ls.take(i + 1).drop_last() =~= ls.take(i as int));
            assert(ls.take(i + 1).last() == ls[i as int]);
        }
        if cols.len() >= 2 {
            let last = cols.len() - 1;
            let mut k: usize = 0;
            while k < last
                invariant
                    last + 1 == cols.len(),
                    views(cols@) == columns(t@),
                    ps == line_pairs(t@),
                    k <= last,
                    m.wf(),
                    m@ == insert_pairs(before, ps.take(k as int)),
                decreases last - k,
            {
                proof {
                    assert(ps.take(k + 1).drop_last() =~= ps.take(k as int));
                }
                m.insert(cols[k].clone(), cols[last].clone());
                k = k + 1;
            }
            assert(ps.take(last as int) =~= ps);
        } else {
            assert(ps =~= Seq::<(Seq<char>, Seq<char>)>::empty());
        }
        i = i + 1;
    }
    assert(ls.take(lines.len() as int) =~= ls);
    m
}

} // verus!
