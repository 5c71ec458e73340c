use lib::events::ShellDrivenEvents;

#[test]
fn new_shell_runs() {
    let e = ShellDrivenEvents::new();
    assert_eq!(e.status(0), Ok("running prog=shell".to_string()));
    assert_eq!(e.status(42), Ok("unknown prog=?".to_string()));
}

#[test]
fn process_life_cycle() {
    let mut e = ShellDrivenEvents::new();
    e.fork(0, 5);
    assert_eq!(e.status(5), Ok("running prog=shell".to_string()));
    e.exec(5, "ls");
    assert_eq!(e.status(5), Ok("running prog=ls".to_string()));
    assert_eq!(e.exit(5, 3), 3);
    assert_eq!(e.status(5), Ok("zombie prog=ls".to_string()));
    assert_eq!(e.wait(0, 5, Some(3)), Ok(3));
    assert_eq!(e.status(5), Ok("reaped prog=ls".to_string()));
}

#[test]
fn law_child_is_reaped_once_example() {
    let mut e = ShellDrivenEvents::new();
    e.fork(0, 5);
    assert_eq!(e.wait(0, 5, Some(7)), Ok(7));
    assert_eq!(e.wait(0, 5, Some(7)), Ok(-1));
}

#[test]
fn wait_that_does_not_apply() {
    let mut e = ShellDrivenEvents::new();
    e.fork(0, 5);
    assert_eq!(e.wait(1, 5, Some(2)), Ok(-1));
    assert_eq!(e.wait(0, 6, Some(2)), Ok(-1));
    assert_eq!(e.wait(0, 5, None), Ok(-1));
    assert_eq!(e.status(5), Ok("running prog=shell".to_string()));
}

#[test]
fn unknown_processes_are_ignored() {
    let mut e = ShellDrivenEvents::new();
    e.exec(99, "x");
    assert_eq!(e.exit(99, 1), 1);
    assert_eq!(e.status(99), Ok("unknown prog=?".to_string()));
}

#[test]
fn exit_only_changes_running_processes() {
    let mut e = ShellDrivenEvents::new();
    e.fork(0, 5);
    e.wait(0, 5, Some(0)).unwrap();
    e.exit(5, 1);
    assert_eq!(e.status(5), Ok("reaped prog=shell".to_string()));
}

#[test]
fn state_without_program_is_an_error() {
    let mut e = ShellDrivenEvents::new();
    e.status.insert(7, "running".to_string());
    assert_eq!(e.status(7), Err("ERR: pid={pid} doesn't have program registry"));
}

#[test]
fn law_table_stays_consistent_example() {
    let mut e = ShellDrivenEvents::new();
    e.fork(0, 3);
    e.exec(3, "vim");
    e.exit(3, 0);
    e.wait(0, 3, Some(0)).unwrap();
    e.fork(3, 4);
    e.exec(4, "cat");
    for pid in [0, 3, 4, 5] {
        assert!(e.status(pid).is_ok());
    }
    assert_eq!(e.status(4), Ok("running prog=cat".to_string()));
}
