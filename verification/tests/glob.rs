use lib::glob::FileSystem;

fn fs(names: &[&str]) -> FileSystem {
    let mut f = FileSystem::new();
    for n in names {
        f.create_file(n);
    }
    f
}

#[test]
fn star_lists_sorted_visible_files() {
    let f = fs(&["b.txt", "a.txt", "c.log", ".hidden"]);
    assert_eq!(f.match_filenames("*.txt"), "a.txt b.txt");
    assert_eq!(f.match_filenames("*"), "a.txt b.txt c.log");
    assert_eq!(f.match_filenames(".*"), ".hidden");
}

#[test]
fn question_mark_and_classes() {
    let f = fs(&["a.txt", "b.txt", "c.log"]);
    assert_eq!(f.match_filenames("?.log"), "c.log");
    assert_eq!(f.match_filenames("[ab].txt"), "a.txt b.txt");
    assert_eq!(f.match_filenames("[!a].txt"), "b.txt");
    assert_eq!(f.match_filenames("[a-b].txt"), "a.txt b.txt");
    assert_eq!(f.match_filenames("[]x"), "[]x");
}

#[test]
fn no_match_prints_the_expression() {
    let f = fs(&["a.txt"]);
    assert_eq!(f.match_filenames("*.md"), "*.md");
    assert_eq!(FileSystem::new().match_filenames("*"), "*");
}

#[test]
fn unclosed_bracket_is_literal() {
    let f = fs(&["[x", "y"]);
    assert_eq!(f.match_filenames("[x"), "[x");
}

#[test]
fn wildcards_do_not_cross_slashes() {
    let f = fs(&["dir/file", "top"]);
    assert_eq!(f.match_filenames("*"), "top");
    assert_eq!(f.match_filenames("dir?file"), "dir?file");
    assert_eq!(f.match_filenames("dir/*"), "dir/file");
    assert_eq!(f.match_filenames("*/file"), "dir/file");
}

#[test]
fn creating_twice_lists_once() {
    let f = fs(&["a", "a", "b"]);
    assert_eq!(f.match_filenames("*"), "a b");
}

#[test]
fn law_listing_sorted_example() {
    let f = fs(&["zeta", "alpha", "Beta", "alp"]);
    assert_eq!(f.match_filenames("*"), "Beta alp alpha zeta");
}

#[test]
fn law_literal_pattern_example() {
    let f = fs(&["a.txt", "a.txtx"]);
    assert_eq!(f.match_filenames("a.txt"), "a.txt");
}

#[test]
fn law_listing_ignores_creation_order_example() {
    let a = fs(&["c", "a", "b", ".x"]);
    let b = fs(&["b", ".x", "c", "a"]);
    for e in ["*", "?", "[ab]", ".*", "[!a]"] {
        assert_eq!(a.match_filenames(e), b.match_filenames(e));
    }
}

#[test]
fn law_star_without_slash_example() {
    let f = fs(&["x/y", "xy", "x"]);
    assert_eq!(f.match_filenames("*"), "x xy");
}
