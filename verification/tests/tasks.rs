use obsidian_cli::kernel::error::Error;
use obsidian_cli::plugins::tasks::{add_task, remove_task, toggle_task};

#[test]
fn add_task_appends_a_line() {
    assert_eq!(add_task("# Todo", "buy milk"), "# Todo\n- [ ] buy milk\n");
    assert_eq!(add_task("# Todo\n", "buy milk"), "# Todo\n- [ ] buy milk\n");
    assert_eq!(add_task("", "x"), "\n- [ ] x\n");
}

#[test]
fn toggle_task_checks_and_unchecks() {
    let c = "# T\n- [ ] one\n- [ ] two\n";
    let done = toggle_task(c, 2, true).unwrap();
    assert_eq!(done, "# T\n- [x] one\n- [ ] two");
    let undone = toggle_task(&done, 2, false).unwrap();
    assert_eq!(undone, "# T\n- [ ] one\n- [ ] two");
    let upper = toggle_task("- [X] big", 1, false).unwrap();
    assert_eq!(upper, "- [ ] big");
}

#[test]
fn toggle_task_rejects_bad_lines() {
    match toggle_task("a\nb", 0, true) {
        Err(Error::InvalidLineNumber(0)) => {}
        other => panic!("unexpected {:?}", other),
    }
    match toggle_task("a\nb", 3, true) {
        Err(Error::InvalidLineNumber(3)) => {}
        other => panic!("unexpected {:?}", other),
    }
    match toggle_task("a\nb", 2, true) {
        Err(Error::NotATask(2)) => {}
        other => panic!("unexpected {:?}", other),
    }
}

#[test]
fn remove_task_drops_the_line() {
    let (c, removed) = remove_task("a\n  - [x] done thing  \nb\n", 2).unwrap();
    assert_eq!(c, "a\nb");
    assert_eq!(removed, "- [x] done thing");
}
