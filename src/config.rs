//! Process configuration, and the text of a configuration file.
use vstd::prelude::*;
use crate::text::{lines_of, text_lines, trimmed, views};

verus! {

/// Settings of one run: where to notify, which directories hold flow files,
/// where the owner mapping is, and how to reach the execution records.
pub struct InitConfig {
    pub feishu_url: Vec<String>,
    pub target_cron_dir: Vec<String>,
    pub mapping_file: String,
    pub db_full_url: String,
}

/// Directories of flow files.
pub struct Configuration {
    pub cron: Vec<String>,
}

/// A line that, trimmed, starts with `//`.
pub open spec fn is_comment(line: Seq<char>) -> bool {
    let t = trimmed(line);
    t.len() >= 2 && t[0] == '/' && t[1] == '/'
}

/// The lines that are not comments, joined without separators.
pub open spec fn uncommented(lines: Seq<Seq<char>>) -> Seq<char>
    decreases lines.len(),
{
    if lines.len() == 0 {
        Seq::<char>::empty()
    } else {
        let pre = uncommented(lines.drop_last());
        if is_comment(lines.last()) {
            pre
        } else {
            pre + lines.last()
        }
    }
}

fn is_comment_line(line: &String) -> (r: bool)
    ensures
        r == is_comment(line@),
{
    let s = crate::text::chars_of(line.as_str());
    let t0 = crate::text::skip_ws_at(&s, 0);
    let t1 = crate::text::back_ws_at(&s, t0, s.len());
    t1 - t0 >= 2 && s[t0] == '/' && s[t0 + 1] == '/'
}

impl InitConfig {
    /// Makes the text of a configuration file ready for JSON decoding: the
    /// lines that are `//` comments are dropped and the others are joined
    /// without separators.
    pub fn do_parse(text: &str) -> (r: String)
        ensures
            r@ == uncommented(lines_of(text@)),
    {
        let lines = text_lines(text);
        let ghost ls = views(lines@);
        let mut out = String::new();
        let mut i: usize = 0;
        while i < lines.len()
            invariant
                ls == views(lines@),
                i <= lines.len(),
                out@ == uncommented(ls.take(i as int)),
            decreases lines.len() - i,
        {
            proof {
                assert(ls.take(i + 1).drop_last() =~= ls.take(i as int));
                assert(ls.take(i + 1).last() == ls[i as int]);
            }
            if !is_comment_line(&lines[i]) {
                out = out.concat(lines[i].as_str());
            }
            i = i + 1;
        }
        assert(ls.take(lines.len() as int) =~= ls);
        out
    }
}

} // verus!
