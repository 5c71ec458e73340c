use lib::state::ShellState;

#[test]
fn new_shell_is_home() {
    let s = ShellState::new();
    assert_eq!(s.pwd, "/home/user");
    assert_eq!(s.oldpwd, None);
}

#[test]
fn cd_home_forms() {
    let mut s = ShellState::new();
    assert_eq!(s.cd(Some("/tmp")), Ok("/tmp".to_string()));
    assert_eq!(s.cd(None), Ok("/home/user".to_string()));
    assert_eq!(s.cd(Some("/tmp")), Ok("/tmp".to_string()));
    assert_eq!(s.cd(Some("~")), Ok("/home/user".to_string()));
    assert_eq!(s.cd(Some("/tmp")), Ok("/tmp".to_string()));
    assert_eq!(s.cd(Some("")), Ok("/home/user".to_string()));
    assert_eq!(s.oldpwd, Some("/tmp".to_string()));
}

#[test]
fn cd_relative_and_dots() {
    let mut s = ShellState::new();
    assert_eq!(s.cd(Some("docs")), Ok("/home/user/docs".to_string()));
    assert_eq!(s.cd(Some("..")), Ok("/home/user".to_string()));
    assert_eq!(s.cd(Some("/tmp/../var/./log/")), Ok("/var/log".to_string()));
    assert_eq!(s.cd(Some("../../../..")), Ok("/".to_string()));
    assert_eq!(s.cd(Some("//a//b")), Ok("/a/b".to_string()));
}

#[test]
fn cd_dash_without_previous_is_an_error() {
    let mut s = ShellState::new();
    assert_eq!(s.cd(Some("-")), Err("cd: OLDPWD not set"));
    assert_eq!(s.pwd, "/home/user");
    assert_eq!(s.oldpwd, None);
}

#[test]
fn law_cd_dash_goes_back_example() {
    let mut s = ShellState::new();
    assert_eq!(s.cd(Some("docs")), Ok("/home/user/docs".to_string()));
    assert_eq!(s.cd(Some("-")), Ok("/home/user".to_string()));
    assert_eq!(s.oldpwd, Some("/home/user/docs".to_string()));
    assert_eq!(s.cd(Some("-")), Ok("/home/user/docs".to_string()));
}

#[test]
fn law_dot_stays_example() {
    let mut s = ShellState::new();
    assert_eq!(s.cd(Some(".")), Ok("/home/user".to_string()));
    assert_eq!(s.cd(Some("/")), Ok("/".to_string()));
    assert_eq!(s.cd(Some(".")), Ok("/".to_string()));
}

#[test]
fn law_canonical_path_example() {
    let mut s = ShellState::new();
    assert_eq!(s.cd(Some("/usr/local/bin")), Ok("/usr/local/bin".to_string()));
    assert_eq!(s.cd(Some("a/./b/../c")), Ok("/usr/local/bin/a/c".to_string()));
}
