use ockam_kit::doc_blocks::{CommandScope, RunType};
use ockam_kit::test_plan::{
    any_failed, enrollment_plan, first_block_step, select_bats, step_after_enrollment, words,
    BlockStep, RunStatus,
};

fn scope(commands: &str, run_type: RunType, data: &str) -> CommandScope {
    CommandScope {
        commands: commands.to_string(),
        run_type,
        ockam_enroll_data: data.to_string(),
        url: "page.md".to_string(),
    }
}

#[test]
fn only_bats_blocks_run() {
    let kept = select_bats(vec![
        scope("a", RunType::Bats, ""),
        scope("b", RunType::Unknown, ""),
        scope("c", RunType::Bats, "X"),
    ]);
    assert_eq!(kept, vec![scope("a", RunType::Bats, ""), scope("c", RunType::Bats, "X")]);
    assert!(select_bats(vec![scope("b", RunType::Unknown, "")]).is_empty());
}

#[test]
fn splits_words_at_ascii_white_space() {
    assert_eq!(words("  A\tB \n C  "), vec!["A", "B", "C"]);
    assert!(words("").is_empty());
    assert!(words(" \r\n").is_empty());
    assert_eq!(words("one"), vec!["one"]);
    assert_eq!(words("a\u{A0}b"), vec!["a\u{A0}b"]);
}

#[test]
fn enrollments_use_the_client_then_the_server_address() {
    let plan = enrollment_plan(&scope("x", RunType::Bats, "CLIENT_HOME SERVER_HOME")).ok().unwrap();
    assert_eq!(plan.len(), 2);
    assert_eq!(plan[0].directory, "CLIENT_HOME");
    assert_eq!(plan[0].email, "docs-test-client@ockam.io");
    assert_eq!(plan[1].directory, "SERVER_HOME");
    assert_eq!(plan[1].email, "docs-test-server@ockam.io");
    assert!(enrollment_plan(&scope("x", RunType::Bats, "")).ok().unwrap().is_empty());
}

#[test]
fn more_than_two_enrollments_are_refused() {
    let e = enrollment_plan(&scope("x", RunType::Bats, "A B C")).err().unwrap();
    assert_eq!(e.url, "page.md");
    assert_eq!(e.message(), "Invalid number of ockam enroll that can be supported for URL page.md");
}

#[test]
fn a_run_fails_when_one_test_fails() {
    assert!(!any_failed(&vec![]));
    assert!(!any_failed(&vec![RunStatus::Success, RunStatus::Success]));
    assert!(any_failed(&vec![RunStatus::Success, RunStatus::Failure]));
    assert_eq!(RunStatus::default(), RunStatus::Failure);
}

#[test]
fn enrollments_run_in_order_and_stop_at_a_failure() {
    assert_eq!(first_block_step(0), BlockStep::RunTests);
    assert_eq!(first_block_step(2), BlockStep::Enroll(0));
    assert_eq!(step_after_enrollment(2, 0, true), BlockStep::Enroll(1));
    assert_eq!(step_after_enrollment(2, 1, true), BlockStep::RunTests);
    assert_eq!(step_after_enrollment(2, 0, false), BlockStep::Fail);
    assert_eq!(step_after_enrollment(1, 0, false), BlockStep::Fail);
}
