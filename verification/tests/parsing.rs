use aoit::parse::parse_depends_output;
use aoit::strutil::{split_str, trim_str};

#[test]
fn typical_query_output() {
    let out = "vim\n  Depends: vim-common\n  Depends: libc6\n  Suggests: ctags\n";
    assert_eq!(
        parse_depends_output(out),
        vec!["vim-common".to_string(), "libc6".to_string()]
    );
}

#[test]
fn alternative_groups_are_skipped() {
    let out = "a\n  Depends: b\n |Depends: c\n  Depends: d | e\n";
    assert_eq!(
        parse_depends_output(out),
        vec!["b".to_string()]
    );
}

#[test]
fn prefixed_markers_are_not_dependency_lines() {
    let out = "a\n  PreDepends: dpkg\n  Depends: b\n";
    assert_eq!(parse_depends_output(out), vec!["b".to_string()]);
}

#[test]
fn empty_output_yields_no_dependencies() {
    assert_eq!(parse_depends_output(""), Vec::<String>::new());
    assert_eq!(parse_depends_output("garbage with no marker\n"), Vec::<String>::new());
}

#[test]
fn marker_without_name_is_skipped() {
    assert_eq!(parse_depends_output("  Depends:\n"), Vec::<String>::new());
    assert_eq!(parse_depends_output("  Depends:   \n"), Vec::<String>::new());
}

#[test]
fn trim_removes_surrounding_whitespace() {
    assert_eq!(trim_str(" \t vim-common \r\n"), "vim-common");
    assert_eq!(trim_str(""), "");
    assert_eq!(trim_str("   "), "");
    assert_eq!(trim_str("a b"), "a b");
}

#[test]
fn split_keeps_empty_pieces() {
    assert_eq!(split_str("a.b.c", '.'), vec!["a", "b", "c"]);
    assert_eq!(split_str("a..b", '.'), vec!["a", "", "b"]);
    assert_eq!(split_str("", '.'), vec![""]);
    assert_eq!(split_str("x\n", '\n'), vec!["x", ""]);
}
