use lib::variables::ShellVariable;

#[test]
fn plain_and_braced_variables() {
    let mut v = ShellVariable::new();
    v.set("X", "1");
    assert_eq!(v.expand("EXPAND $X"), Ok("1".to_string()));
    assert_eq!(v.expand("EXPAND ${X}"), Ok("1".to_string()));
    assert_eq!(v.expand("EXPAND a${X}b$X."), Ok("a1b1.".to_string()));
}

#[test]
fn set_twice_unsets() {
    let mut v = ShellVariable::new();
    v.set("X", "1");
    v.set("X", "2");
    assert_eq!(v.expand("EXPAND [$X]"), Ok("[]".to_string()));
    v.set("X", "3");
    assert_eq!(v.expand("EXPAND [$X]"), Ok("[3]".to_string()));
}

#[test]
fn unset_removes() {
    let mut v = ShellVariable::new();
    v.set("X", "1");
    v.unset("X");
    v.unset("Y");
    assert_eq!(v.expand("EXPAND [$X]"), Ok("[]".to_string()));
}

#[test]
fn length_of_a_value_in_bytes() {
    let mut v = ShellVariable::new();
    v.set("X", "hello");
    v.set("E", "é");
    assert_eq!(v.expand("EXPAND ${#X}"), Ok("5".to_string()));
    assert_eq!(v.expand("EXPAND ${#E}"), Ok("2".to_string()));
    assert_eq!(v.expand("EXPAND ${#NONE}"), Ok("0".to_string()));
}

#[test]
fn default_values() {
    let mut v = ShellVariable::new();
    assert_eq!(v.expand("EXPAND ${X:-def}"), Ok("def".to_string()));
    v.set("X", "val");
    assert_eq!(v.expand("EXPAND ${X:-def}"), Ok("val".to_string()));
    assert_eq!(v.expand("EXPAND ${X:-}"), Ok("val".to_string()));
}

#[test]
fn missing_closing_brace_is_an_error() {
    let mut v = ShellVariable::new();
    assert_eq!(v.expand("EXPAND ${X"), Err("ERR bad substitution: missing closing '}'"));
}

#[test]
fn dollar_without_name_stays() {
    let mut v = ShellVariable::new();
    assert_eq!(v.expand("EXPAND a$"), Ok("a$".to_string()));
    assert_eq!(v.expand("EXPAND $ x"), Ok("$ x".to_string()));
    assert_eq!(v.expand("EXP"), Ok("".to_string()));
}

#[test]
fn names_with_underscores_and_unicode() {
    let mut v = ShellVariable::new();
    v.set("MY_VAR", "v");
    v.set("é", "accent");
    assert_eq!(v.expand("EXPAND $MY_VAR!"), Ok("v!".to_string()));
    assert_eq!(v.expand("EXPAND $é-"), Ok("accent-".to_string()));
}

#[test]
fn law_line_without_dollar_example() {
    let mut v = ShellVariable::new();
    v.set("X", "1");
    assert_eq!(v.expand("EXPAND nothing to see"), Ok("nothing to see".to_string()));
}

#[test]
fn law_braced_and_plain_agree_example() {
    let mut v = ShellVariable::new();
    v.set("name_1", "abc");
    assert_eq!(v.expand("EXPAND $name_1"), v.expand("EXPAND ${name_1}"));
    assert_eq!(v.expand("EXPAND $other"), v.expand("EXPAND ${other}"));
}

#[test]
fn law_set_twice_restores_example() {
    let mut v = ShellVariable::new();
    v.set("A", "1");
    v.set("B", "x");
    v.set("B", "y");
    assert_eq!(v.expand("EXPAND $A[$B]"), Ok("1[]".to_string()));
}
