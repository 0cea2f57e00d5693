//! The manifest: the record persisted inside a bundle, holding the
//! resolution order and the mapping from package name to downloaded artifact
//! file name, plus the dependency tree in memory (informational only, not
//! persisted). The codec writes one line per entry — `o <name>` for an order
//! entry, `m <name> <artifact>` for a map entry — and decoding an encoded
//! manifest reproduces the order and the map exactly.

use vstd::prelude::*;
use crate::depends::AptDepends;
use crate::strutil::split_spec;
use crate::strutil::split_str;
use crate::strutil::find_char;
use crate::strutil::find_char_str;
use crate::strutil::lemma_find_char;
use crate::strutil::lemma_split_step;
use crate::strutil::str_eq;
use vstd::string::StrSliceExecFns;
use vstd::string::StringExecFns;

verus! {

/// The persisted record inside a bundle: the dependency tree, the resolution
/// order, and the package-name-to-artifact-file mapping.
#[derive(Debug, PartialEq, Eq)]
pub struct SerdeConfig {
    pub apt_depends: AptDepends,
    pub packages_vec: Vec<String>,
    pub packages_map: Vec<(String, String)>,
}

/// The tag that opens an order line.
pub open spec fn order_tag() -> Seq<char> {
    seq!['o', ' ']
}

/// The tag that opens a map line.
pub open spec fn map_tag() -> Seq<char> {
    seq!['m', ' ']
}

/// A line break.
pub open spec fn nl() -> Seq<char> {
    seq!['\n']
}

/// The manifest line recording one resolution-order entry.
pub open spec fn order_line(name: Seq<char>) -> Seq<char> {
    order_tag() + name
}

/// The manifest line recording one artifact-map entry.
pub open spec fn map_line(k: Seq<char>, v: Seq<char>) -> Seq<char> {
    map_tag() + k + seq![' '] + v
}

/// The manifest lines of a resolution order.
pub open spec fn order_lines(names: Seq<Seq<char>>) -> Seq<Seq<char>> {
    names.map_values(|n: Seq<char>| order_line(n))
}

/// The manifest lines of an artifact map.
pub open spec fn map_lines(entries: Seq<(Seq<char>, Seq<char>)>) -> Seq<Seq<char>> {
    entries.map_values(|e: (Seq<char>, Seq<char>)| map_line(e.0, e.1))
}

/// The lines joined into one text, each line ended by a line break.
pub open spec fn unlines(lines: Seq<Seq<char>>) -> Seq<char>
    decreases lines.len(),
{
    if lines.len() == 0 {
        Seq::empty()
    } else {
        lines[0] + nl() + unlines(lines.skip(1))
    }
}

/// The manifest text for a resolution order and an artifact map.
pub open spec fn encode_manifest_spec(
    order: Seq<Seq<char>>,
    map: Seq<(Seq<char>, Seq<char>)>,
) -> Seq<char> {
    unlines(order_lines(order) + map_lines(map))
}

/// What one manifest line records.
pub enum ManifestLine {
    OrderEntry(Seq<char>),
    MapEntry(Seq<char>, Seq<char>),
}

/// The record of one manifest line, or nothing for a malformed line.
pub open spec fn decode_line(line: Seq<char>) -> Option<ManifestLine> {
    if line.len() >= 2 && line.take(2) == order_tag() {
        Some(ManifestLine::OrderEntry(line.skip(2)))
    } else if line.len() >= 2 && line.take(2) == map_tag() {
        let rest = line.skip(2);
        let j = find_char(rest, ' ');
        if j < rest.len() {
            Some(ManifestLine::MapEntry(rest.take(j), rest.skip(j + 1)))
        } else {
            None
        }
    } else {
        None
    }
}

/// The order entries and map entries of a sequence of manifest lines, or
/// nothing when some line is malformed.
pub open spec fn decode_lines_spec(lines: Seq<Seq<char>>) -> Option<
    (Seq<Seq<char>>, Seq<(Seq<char>, Seq<char>)>),
>
    decreases lines.len(),
{
    if lines.len() == 0 {
        Some((Seq::empty(), Seq::empty()))
    } else {
        match decode_line(lines[0]) {
            None => None,
            Some(ml) => match decode_lines_spec(lines.skip(1)) {
                None => None,
                Some(rest) => match ml {
                    ManifestLine::OrderEntry(n) => Some((seq![n] + rest.0, rest.1)),
                    ManifestLine::MapEntry(k, v) => Some((rest.0, seq![(k, v)] + rest.1)),
                },
            },
        }
    }
}

/// The order and map a manifest text records, or nothing when the text is
/// malformed (it must be a sequence of well-formed lines, each ended by a
/// line break).
pub open spec fn decode_manifest_spec(text: Seq<char>) -> Option<
    (Seq<Seq<char>>, Seq<(Seq<char>, Seq<char>)>),
> {
    let parts = split_spec(text, '\n');
    if parts.len() >= 1 && parts.last().len() == 0 {
        decode_lines_spec(parts.drop_last())
    } else {
        None
    }
}

/// Whether the order and map can be written as manifest text that reads back
/// exactly: no name holds a line break, and no map key holds a space.
pub open spec fn manifest_encodable(
    order: Seq<Seq<char>>,
    map: Seq<(Seq<char>, Seq<char>)>,
) -> bool {
    &&& forall|i: int| 0 <= i < order.len() ==> !(#[trigger] order[i]).contains('\n')
    &&& forall|i: int|
        0 <= i < map.len() ==> !(#[trigger] map[i]).0.contains('\n') && !map[i].0.contains(' ')
            && !map[i].1.contains('\n')
}

proof fn lemma_unlines_split(lines: Seq<Seq<char>>)
    requires
        forall|i: int| 0 <= i < lines.len() ==> !(#[trigger] lines[i]).contains('\n'),
    ensures
        split_spec(unlines(lines), '\n') == lines + seq![Seq::<char>::empty()],
    decreases lines.len(),
{
    if lines.len() == 0 {
        lemma_find_char(Seq::<char>::empty(), '\n');
        assert(split_spec(Seq::<char>::empty(), '\n') =~~= seq![Seq::<char>::empty()]);
        assert(lines + seq![Seq::<char>::empty()] =~~= seq![Seq::<char>::empty()]);
    } else {
        let l0 = lines[0];
        let rest = unlines(lines.skip(1));
        assert(forall|k: int| 0 <= k < l0.len() ==> l0[k] != '\n') by {
            assert(!l0.contains('\n'));
            assert(forall|k: int| 0 <= k < l0.len() ==> l0.contains(#[trigger] l0[k]));
        }
        assert(unlines(lines) =~= l0 + seq!['\n'] + rest);
        lemma_split_step(l0, rest, '\n');
        lemma_unlines_split(lines.skip(1));
        assert(seq![l0] + (lines.skip(1) + seq![Seq::<char>::empty()]) =~~= lines + seq![
            Seq::<char>::empty(),
        ]);
    }
}

proof fn lemma_find_at(piece: Seq<char>, rest: Seq<char>, c: char)
    requires
        forall|k: int| 0 <= k < piece.len() ==> piece[k] != c,
    ensures
        find_char(piece + seq![c] + rest, c) == piece.len(),
{
    let s = piece + seq![c] + rest;
    lemma_find_char(s, c);
    let i = find_char(s, c);
    assert(s[piece.len() as int] == c);
    assert(i <= piece.len());
    if i < piece.len() {
        assert(s[i] == piece[i]);
    }
}

proof fn lemma_decode_lines(order: Seq<Seq<char>>, map: Seq<(Seq<char>, Seq<char>)>)
    requires
        manifest_encodable(order, map),
    ensures
        decode_lines_spec(order_lines(order) + map_lines(map)) == Some((order, map)),
    decreases order.len() + map.len(),
{
    let lines = order_lines(order) + map_lines(map);
    if order.len() > 0 {
        let n = order[0];
        assert(lines[0] == order_line(n));
        assert(order_line(n).take(2) =~= order_tag());
        assert(order_line(n).skip(2) =~= n);
        assert(manifest_encodable(order.skip(1), map));
        lemma_decode_lines(order.skip(1), map);
        assert(lines.skip(1) =~~= order_lines(order.skip(1)) + map_lines(map));
        match decode_lines_spec(lines.skip(1)) {
            Some(rest) => {
                assert(seq![n] + rest.0 =~~= order);
            },
            None => {},
        }
    } else if map.len() > 0 {
        let k = map[0].0;
        let v = map[0].1;
        let line = map_line(k, v);
        assert(lines[0] == line);
        assert(line.len() >= 2);
        assert(line.take(2) =~= map_tag());
        assert(line.take(2) != order_tag()) by {
            assert(line.take(2)[0] == 'm');
            assert(order_tag()[0] == 'o');
        }
        let rest_chars = line.skip(2);
        assert(rest_chars =~= k + seq![' '] + v);
        assert(forall|i: int| 0 <= i < k.len() ==> k[i] != ' ') by {
            assert(!k.contains(' '));
            assert(forall|i: int| 0 <= i < k.len() ==> k.contains(#[trigger] k[i]));
        }
        lemma_find_at(k, v, ' ');
        assert(rest_chars.take(k.len() as int) =~= k);
        assert(rest_chars.skip(k.len() as int + 1) =~= v);
        assert(manifest_encodable(order, map.skip(1)));
        lemma_decode_lines(order, map.skip(1));
        assert(lines.skip(1) =~~= order_lines(order) + map_lines(map.skip(1)));
        match decode_lines_spec(lines.skip(1)) {
            Some(rest) => {
                assert(seq![(k, v)] + rest.1 =~~= map);
            },
            None => {},
        }
    } else {
        assert(lines.len() == 0);
    }
}

/// Law: decoding an encoded manifest reproduces the resolution order and the
/// artifact map exactly, for every order and map whose names the line-based
/// format can carry.
pub proof fn lemma_manifest_round_trip(order: Seq<Seq<char>>, map: Seq<(Seq<char>, Seq<char>)>)
    requires
        manifest_encodable(order, map),
    ensures
        decode_manifest_spec(encode_manifest_spec(order, map)) == Some((order, map)),
{
    let lines = order_lines(order) + map_lines(map);
    assert forall|i: int| 0 <= i < lines.len() implies !(#[trigger] lines[i]).contains('\n') by {
        if i < order.len() {
            let n = order[i];
            assert(lines[i] == order_line(n));
            if order_line(n).contains('\n') {
                let j = choose|j: int| 0 <= j < order_line(n).len() && order_line(n)[j] == '\n';
                assert(j >= 2);
                assert(n.contains(n[j - 2]));
            }
        } else {
            let k = map[i - order.len()].0;
            let v = map[i - order.len()].1;
            let line = map_line(k, v);
            assert(lines[i] == line);
            if line.contains('\n') {
                let j = choose|j: int| 0 <= j < line.len() && line[j] == '\n';
                assert(j >= 2);
                if j - 2 < k.len() {
                    assert(k.contains(k[j - 2]));
                } else if j - 2 > k.len() {
                    assert(v.contains(v[j - 3 - k.len()]));
                }
            }
        }
    }
    lemma_unlines_split(lines);
    let parts = split_spec(encode_manifest_spec(order, map), '\n');
    assert(parts.last().len() == 0);
    assert(parts.drop_last() =~~= lines);
    lemma_decode_lines(order, map);
}

proof fn lemma_unlines_push(lines: Seq<Seq<char>>, line: Seq<char>)
    ensures
        unlines(lines.push(line)) == unlines(lines) + line + nl(),
    decreases lines.len(),
{
    if lines.len() == 0 {
        assert(lines.push(line)[0] == line);
        assert(lines.push(line).skip(1) =~~= Seq::<Seq<char>>::empty());
        assert(unlines(Seq::<Seq<char>>::empty()) == Seq::<char>::empty());
        assert(unlines(lines.push(line)) =~= line + nl());
        assert(unlines(lines) + line + nl() =~= line + nl());
    } else {
        lemma_unlines_push(lines.skip(1), line);
        assert(lines.push(line).skip(1) =~~= lines.skip(1).push(line));
        assert(lines.push(line)[0] == lines[0]);
        assert(unlines(lines.push(line)) =~= lines[0] + nl() + unlines(lines.skip(1).push(line)));
        assert(lines[0] + nl() + (unlines(lines.skip(1)) + line + nl()) =~= unlines(lines) + line
            + nl());
    }
}

/// The manifest text recording the configuration's resolution order and
/// artifact map. The dependency tree is not persisted.
pub fn encode_manifest(config: &SerdeConfig) -> (r: String)
    ensures
        r@ == encode_manifest_spec(
            config.packages_vec.deep_view(),
            config.packages_map.deep_view(),
        ),
{
    let ghost order_dv = config.packages_vec.deep_view();
    let ghost map_dv = config.packages_map.deep_view();
    let mut s = String::new();
    let n = config.packages_vec.len();
    proof {
        reveal_strlit("o ");
        reveal_strlit("m ");
        reveal_strlit(" ");
        reveal_strlit("\n");
        assert("o "@ =~= order_tag());
        assert("m "@ =~= map_tag());
        assert("\n"@ =~= nl());
        assert(order_lines(order_dv.take(0)) =~~= Seq::<Seq<char>>::empty());
        assert(s@ =~= unlines(order_lines(order_dv.take(0))));
    }
    let mut i: usize = 0;
    while i < n
        invariant
            0 <= i <= n,
            n == config.packages_vec.len(),
            order_dv == config.packages_vec.deep_view(),
            s@ == unlines(order_lines(order_dv.take(i as int))),
        decreases n - i,
    {
        proof {
            reveal_strlit("o ");
            reveal_strlit("\n");
        }
        s.append("o ");
        s.append(config.packages_vec[i].as_str());
        s.append("\n");
        proof {
            assert("o "@ =~= order_tag());
            assert("\n"@ =~= nl());
            lemma_unlines_push(order_lines(order_dv.take(i as int)), order_line(order_dv[i as int]));
            assert(order_lines(order_dv.take(i + 1)) =~~= order_lines(order_dv.take(i as int)).push(
                order_line(order_dv[i as int]),
            ));
            assert(s@ =~= unlines(order_lines(order_dv.take(i as int))) + order_line(
                order_dv[i as int],
            ) + nl());
        }
        i = i + 1;
    }
    proof {
        assert(order_dv.take(n as int) =~~= order_dv);
        assert(map_lines(map_dv.take(0)) =~~= Seq::<Seq<char>>::empty());
        assert(order_lines(order_dv) + map_lines(map_dv.take(0)) =~~= order_lines(order_dv));
    }
    let m = config.packages_map.len();
    let mut j: usize = 0;
    while j < m
        invariant
            0 <= j <= m,
            m == config.packages_map.len(),
            order_dv == config.packages_vec.deep_view(),
            map_dv == config.packages_map.deep_view(),
            s@ == unlines(order_lines(order_dv) + map_lines(map_dv.take(j as int))),
        decreases m - j,
    {
        proof {
            reveal_strlit("m ");
            reveal_strlit(" ");
            reveal_strlit("\n");
        }
        s.append("m ");
        s.append(config.packages_map[j].0.as_str());
        s.append(" ");
        s.append(config.packages_map[j].1.as_str());
        s.append("\n");
        proof {
            assert("m "@ =~= map_tag());
            assert("\n"@ =~= nl());
            let lls = order_lines(order_dv) + map_lines(map_dv.take(j as int));
            let entry = map_dv[j as int];
            lemma_unlines_push(lls, map_line(entry.0, entry.1));
            assert(order_lines(order_dv) + map_lines(map_dv.take(j + 1)) =~~= lls.push(
                map_line(entry.0, entry.1),
            ));
            assert(s@ =~= unlines(lls) + map_line(entry.0, entry.1) + nl());
        }
        j = j + 1;
    }
    proof {
        assert(map_dv.take(m as int) =~~= map_dv);
    }
    s
}

/// What one manifest line records, as owned values.
enum ParsedLine {
    OrderEntry(String),
    MapEntry(String, String),
}

fn decode_line_str(line: &str) -> (r: Option<ParsedLine>)
    ensures
        match r {
            Some(pl) => match pl {
                ParsedLine::OrderEntry(nm) => decode_line(line@) == Some(
                    ManifestLine::OrderEntry(nm@),
                ),
                ParsedLine::MapEntry(k, v) => decode_line(line@) == Some(
                    ManifestLine::MapEntry(k@, v@),
                ),
            },
            None => decode_line(line@) is None,
        },
{
    let n = line.unicode_len();
    if n < 2 {
        return None;
    }
    let head = line.substring_char(0, 2);
    proof {
        reveal_strlit("o ");
        reveal_strlit("m ");
        assert("o "@ =~= order_tag());
        assert("m "@ =~= map_tag());
        assert(line@.subrange(0, 2) =~= line@.take(2));
    }
    if str_eq(head, "o ") {
        let nm = line.substring_char(2, n).to_owned();
        proof {
            assert(line@.subrange(2, line@.len() as int) =~= line@.skip(2));
        }
        Some(ParsedLine::OrderEntry(nm))
    } else if str_eq(head, "m ") {
        let rest = line.substring_char(2, n);
        proof {
            assert(line@.subrange(2, line@.len() as int) =~= line@.skip(2));
        }
        let rn = rest.unicode_len();
        let j = find_char_str(rest, ' ');
        proof {
            lemma_find_char(rest@, ' ');
        }
        if j < rn {
            let k = rest.substring_char(0, j).to_owned();
            let v = rest.substring_char(j + 1, rn).to_owned();
            proof {
                assert(rest@.subrange(0, j as int) =~= rest@.take(j as int));
                assert(rest@.subrange(j + 1, rest@.len() as int) =~= rest@.skip(j + 1));
            }
            Some(ParsedLine::MapEntry(k, v))
        } else {
            None
        }
    } else {
        None
    }
}

/// The configuration a manifest text records, or nothing when the text is
/// malformed. The dependency tree is not persisted, so the decoded
/// configuration carries a root-only tree named after the first order entry.
pub fn decode_manifest(text: &str) -> (r: Option<SerdeConfig>)
    ensures
        match r {
            Some(cfg) => decode_manifest_spec(text@) == Some(
                (cfg.packages_vec.deep_view(), cfg.packages_map.deep_view()),
            ),
            None => decode_manifest_spec(text@) is None,
        },
{
    let parts = split_str(text, '\n');
    let n = parts.len();
    if parts[n - 1].as_str().unicode_len() != 0 {
        return None;
    }
    let ghost lines_dv = parts.deep_view().drop_last();
    let mut order: Vec<String> = Vec::new();
    let mut map: Vec<(String, String)> = Vec::new();
    proof {
        assert(order.deep_view() =~= Seq::<Seq<char>>::empty());
        assert(map.deep_view() =~= Seq::<(Seq<char>, Seq<char>)>::empty());
        assert(lines_dv.skip(0) =~~= lines_dv);
    }
    let mut i: usize = 0;
    while i < n - 1
        invariant
            0 <= i <= n - 1,
            n == parts.len(),
            n >= 1,
            parts.deep_view() == split_spec(text@, '\n'),
            parts.deep_view().last().len() == 0,
            lines_dv == parts.deep_view().drop_last(),
            match decode_lines_spec(lines_dv.skip(i as int)) {
                Some(rest) => decode_lines_spec(lines_dv) == Some(
                    (order.deep_view() + rest.0, map.deep_view() + rest.1),
                ),
                None => decode_lines_spec(lines_dv) is None,
            },
        decreases n - 1 - i,
    {
        let ghost tail = lines_dv.skip(i as int);
        proof {
            assert(tail[0] == lines_dv[i as int]);
            assert(lines_dv[i as int] == parts.deep_view()[i as int]);
            assert(tail.skip(1) =~~= lines_dv.skip(i + 1));
        }
        match decode_line_str(parts[i].as_str()) {
            None => {
                return None;
            },
            Some(ParsedLine::OrderEntry(nm)) => {
                let ghost old_order = order.deep_view();
                let ghost nmv = nm@;
                order.push(nm);
                proof {
                    assert(order.deep_view() =~= old_order.push(nmv));
                    match decode_lines_spec(lines_dv.skip(i + 1)) {
                        Some(rest) => {
                            assert(old_order + (seq![nmv] + rest.0) =~~= order.deep_view()
                                + rest.0);
                        },
                        None => {},
                    }
                }
            },
            Some(ParsedLine::MapEntry(k, v)) => {
                let ghost old_map = map.deep_view();
                let ghost kv = (k@, v@);
                map.push((k, v));
                proof {
                    assert(map.deep_view() =~= old_map.push(kv));
                    match decode_lines_spec(lines_dv.skip(i + 1)) {
                        Some(rest) => {
                            assert(old_map + (seq![kv] + rest.1) =~~= map.deep_view() + rest.1);
                        },
                        None => {},
                    }
                }
            },
        }
        i = i + 1;
    }
    proof {
        assert(lines_dv.skip(n - 1).len() == 0);
        assert(order.deep_view() + Seq::<Seq<char>>::empty() =~~= order.deep_view());
        assert(map.deep_view() + Seq::<(Seq<char>, Seq<char>)>::empty() =~~= map.deep_view());
    }
    let apt_depends = if order.len() > 0 {
        AptDepends::new(order[0].as_str(), Vec::new())
    } else {
        AptDepends::new("", Vec::new())
    };
    Some(SerdeConfig { apt_depends, packages_vec: order, packages_map: map })
}

} // verus!
