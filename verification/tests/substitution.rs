use lib::substitution::CommandSubstitution;

fn cs() -> CommandSubstitution {
    let mut c = CommandSubstitution::new();
    c.create("X", "world");
    c.create("P", "$X");
    c
}

#[test]
fn variables_expand() {
    let c = cs();
    assert_eq!(c.expand("EXPAND hello $X"), "hello world");
    assert_eq!(c.expand("EXPAND ${X}!"), "world!");
    assert_eq!(c.expand("EXPAND [$NONE]"), "[]");
    assert_eq!(c.expand("plain $X"), "plain world");
}

#[test]
fn substituted_commands() {
    let c = cs();
    assert_eq!(c.expand("EXPAND $(echo hi)"), "hi");
    assert_eq!(c.expand("EXPAND $(upper abc)"), "ABC");
    assert_eq!(c.expand("EXPAND $(len héllo)"), "6");
    assert_eq!(c.expand("EXPAND $(cat X)"), "world");
    assert_eq!(c.expand("EXPAND $(cat $X)"), "");
    assert_eq!(c.expand("EXPAND $(cat $P)"), "world");
    assert_eq!(c.expand("EXPAND <$(foo bar)>"), "<>");
    assert_eq!(c.expand("EXPAND <$( )>"), "<>");
}

#[test]
fn nested_substitutions() {
    let c = cs();
    assert_eq!(c.expand("EXPAND $(echo $(echo in))"), "in");
    assert_eq!(c.expand("EXPAND $(upper $X)"), "WORLD");
    assert_eq!(c.expand("EXPAND $(echo (a))b"), "(a)b");
}

#[test]
fn unclosed_substitution_runs_the_rest() {
    let c = cs();
    assert_eq!(c.expand("EXPAND $(echo hi"), "hi");
    assert_eq!(c.expand("EXPAND ${X"), "world");
}

#[test]
fn trailing_newlines_are_removed() {
    let mut c = cs();
    c.create("N", "x\n\n");
    assert_eq!(c.expand("EXPAND [$(cat N)]"), "[x]");
}

#[test]
fn create_replaces() {
    let mut c = cs();
    c.create("X", "again");
    assert_eq!(c.expand("EXPAND $X"), "again");
}

#[test]
fn bounded_expansion() {
    let mut c = cs();
    assert_eq!(c.expand_bounded("EXPAND $(echo hi)", 0), Some("hi".to_string()));
    assert_eq!(c.expand_bounded("EXPAND $(cat $P)", 0), None);
    assert_eq!(c.expand_bounded("EXPAND $(cat $P)", 1), Some("world".to_string()));
    c.create("A", "$(cat $A)");
    assert_eq!(c.expand_bounded("EXPAND $(cat $A)", 5), None);
}

#[test]
fn law_line_without_dollar_example_substitution() {
    let c = cs();
    assert_eq!(c.expand("EXPAND no dollars here"), "no dollars here");
    assert_eq!(c.expand("EXPANDno"), "EXPANDno");
}

#[test]
fn law_depth_independence_example() {
    let c = cs();
    assert_eq!(c.expand_bounded("EXPAND $(cat $P)", 1), c.expand_bounded("EXPAND $(cat $P)", 9));
}
