//! Parser for the dependency query service's textual output.
//!
//! The grammar is deliberately small: a line names a direct dependency when,
//! after trimming, it starts with the dependency marker `Depends:` and the
//! line carries no alternative-choice marker `|`; the dependency name is the
//! trimmed remainder of the line. Alternative-choice groups are skipped
//! entirely: only hard dependencies are followed.

use vstd::prelude::*;
use crate::strutil::trim_spec;
use crate::strutil::trim_str;
use crate::strutil::split_spec;
use crate::strutil::split_str;
use crate::strutil::contains_char;
use crate::strutil::str_eq;
use vstd::string::StrSliceExecFns;

verus! {

/// The marker that opens a direct-dependency line.
pub open spec fn dep_marker() -> Seq<char> {
    seq!['D', 'e', 'p', 'e', 'n', 'd', 's', ':']
}

/// The dependency name a line yields, if it is a direct-dependency line.
pub open spec fn line_dep_name(line: Seq<char>) -> Option<Seq<char>> {
    let t = trim_spec(line);
    if line.contains('|') {
        None
    } else if t.len() >= 8 && t.take(8) == dep_marker() {
        let n = trim_spec(t.skip(8));
        if n.len() > 0 {
            Some(n)
        } else {
            None
        }
    } else {
        None
    }
}

/// The dependency names of a sequence of lines, in order.
pub open spec fn parse_lines_spec(lines: Seq<Seq<char>>) -> Seq<Seq<char>>
    decreases lines.len(),
{
    if lines.len() == 0 {
        Seq::empty()
    } else {
        match line_dep_name(lines[0]) {
            Some(n) => seq![n] + parse_lines_spec(lines.skip(1)),
            None => parse_lines_spec(lines.skip(1)),
        }
    }
}

/// The direct dependency names that the query service's output reports.
pub open spec fn parse_depends_spec(output: Seq<char>) -> Seq<Seq<char>> {
    parse_lines_spec(split_spec(output, '\n'))
}

/// The dependency name one line yields, if it is a direct-dependency line.
fn parse_line(line: &str) -> (r: Option<String>)
    ensures
        match r {
            Some(n) => line_dep_name(line@) == Some(n@),
            None => line_dep_name(line@) is None,
        },
{
    if contains_char(line, '|') {
        return None;
    }
    let t = trim_str(line);
    let tlen = t.as_str().unicode_len();
    if tlen < 8 {
        return None;
    }
    let head = t.as_str().substring_char(0, 8);
    proof {
        reveal_strlit("Depends:");
        assert("Depends:"@ =~= dep_marker());
        assert(t@.subrange(0, 8) =~= t@.take(8));
    }
    if !str_eq(head, "Depends:") {
        return None;
    }
    let tail = t.as_str().substring_char(8, tlen);
    proof {
        assert(t@.subrange(8, t@.len() as int) =~= t@.skip(8));
    }
    let n = trim_str(tail);
    if n.as_str().unicode_len() == 0 {
        None
    } else {
        Some(n)
    }
}

/// The direct dependency names that the query service's output reports,
/// in the order the lines give them.
pub fn parse_depends_output(output: &str) -> (r: Vec<String>)
    ensures
        r.deep_view() == parse_depends_spec(output@),
{
    let lines = split_str(output, '\n');
    let n = lines.len();
    let mut out: Vec<String> = Vec::new();
    proof {
        assert(out.deep_view() =~= Seq::<Seq<char>>::empty());
        assert(lines.deep_view().skip(0) =~= lines.deep_view());
    }
    let mut i: usize = 0;
    while i < n
        invariant
            0 <= i <= n,
            n == lines.len(),
            lines.deep_view() == split_spec(output@, '\n'),
            parse_lines_spec(lines.deep_view()) == out.deep_view() + parse_lines_spec(
                lines.deep_view().skip(i as int),
            ),
        decreases n - i,
    {
        let ghost tail = lines.deep_view().skip(i as int);
        proof {
            assert(tail[0] == lines.deep_view()[i as int]);
            assert(tail.skip(1) =~= lines.deep_view().skip(i + 1));
        }
        let p = parse_line(lines[i].as_str());
        match p {
            Some(nm) => {
                let ghost old_out = out.deep_view();
                let ghost nmv = nm@;
                out.push(nm);
                proof {
                    assert(out.deep_view() =~= old_out.push(nmv));
                    assert(old_out.push(nmv) =~= old_out + seq![nmv]);
                    assert(out.deep_view() + parse_lines_spec(lines.deep_view().skip(i + 1))
                        =~= old_out + parse_lines_spec(tail));
                }
            },
            None => {},
        }
        i = i + 1;
    }
    proof {
        assert(lines.deep_view().skip(n as int).len() == 0);
        assert(out.deep_view() + parse_lines_spec(lines.deep_view().skip(n as int))
            =~= out.deep_view());
    }
    out
}

} // verus!
