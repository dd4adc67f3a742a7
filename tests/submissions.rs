use ctf_bot::coordination::{find_match, get_score, match_submission, normalize_answer};
use ctf_bot::records::{FlagType, Solve, SubmissionResult, Task};

fn task(name: &str, flag: FlagType, hidden: bool) -> Task {
    Task {
        name: String::from(name),
        flag,
        hint: String::new(),
        id: String::new(),
        hidden,
    }
}

fn single(s: &str) -> FlagType {
    FlagType::Single(String::from(s))
}

#[test]
fn answer_is_trimmed_and_lowercased() {
    assert_eq!(normalize_answer("  CTF{Flag}  "), "ctf{flag}");
    assert_eq!(normalize_answer("\tÄBC\n"), "äbc");
}

#[test]
fn padded_mixed_case_answer_matches() {
    let tasks = vec![
        task("Other", single("nope"), false),
        task("Flag", single("ctf{flag}"), false),
    ];
    assert_eq!(match_submission(&tasks, "  CTF{Flag}  "), Some(1));
}

#[test]
fn hidden_task_still_accepts_answers() {
    let tasks = vec![task("Secret", single("s3cret"), true)];
    assert_eq!(match_submission(&tasks, "S3CRET"), Some(0));
}

#[test]
fn any_of_several_answers_matches() {
    let tasks = vec![task(
        "Multi",
        FlagType::Multi(vec![String::from("a"), String::from("b")]),
        false,
    )];
    assert_eq!(find_match(&tasks, "b"), Some(0));
    assert_eq!(find_match(&tasks, "c"), None);
    assert!(tasks[0].flag.accepts("a"));
    assert!(!tasks[0].flag.accepts("ab"));
}

#[test]
fn overlapping_answers_go_to_first_task() {
    let tasks = vec![
        task("First", single("same"), false),
        task("Second", single("same"), false),
    ];
    assert_eq!(find_match(&tasks, "same"), Some(0));
}

#[test]
fn no_task_matches() {
    let tasks = vec![task("A", single("x"), false)];
    assert_eq!(match_submission(&tasks, "y"), None);
    assert_eq!(match_submission(&Vec::new(), "x"), None);
}

#[test]
fn repeated_correct_submissions_credit_once() {
    let mut ledger = Solve::new();
    let mut solved = 0;
    let mut already = 0;
    for _ in 0..5 {
        match ledger.record_submission("task:abcd1234", "Alpha") {
            SubmissionResult::Solved(name) => {
                assert_eq!(name, "Alpha");
                solved += 1;
            }
            SubmissionResult::AlreadySolved => already += 1,
            SubmissionResult::NotAFlag => panic!("not expected"),
        }
    }
    assert_eq!(solved, 1);
    assert_eq!(already, 4);
    assert_eq!(ledger.solves, vec![String::from("task:abcd1234")]);
    assert_eq!(ledger.score(), 1);
}

#[test]
fn ledger_grows_by_distinct_tasks() {
    let mut ledger = Solve::new();
    assert!(ledger.set_solved("task:a"));
    assert!(ledger.set_solved("task:b"));
    assert!(!ledger.set_solved("task:a"));
    assert!(ledger.is_solved("task:b"));
    assert!(!ledger.is_solved("task:c"));
    assert_eq!(ledger.score(), 2);
}

fn entries(list: &[(&str, u64)]) -> Vec<(String, u64)> {
    list.iter().map(|(k, s)| (String::from(*k), *s)).collect()
}

#[test]
fn rank_follows_descending_score() {
    let e = entries(&[("solve:1", 2), ("solve:2", 5), ("solve:3", 3)]);
    assert_eq!(get_score(&e, "solve:2", false), (1, 5));
    assert_eq!(get_score(&e, "solve:3", false), (2, 3));
    assert_eq!(get_score(&e, "solve:1", false), (3, 2));
}

#[test]
fn ties_keep_enumeration_order() {
    let e = entries(&[("solve:1", 4), ("solve:2", 4), ("solve:3", 9)]);
    assert_eq!(get_score(&e, "solve:1", false), (2, 4));
    assert_eq!(get_score(&e, "solve:2", false), (3, 4));
}

#[test]
fn participant_without_ledger_ranks_last() {
    let e = entries(&[("solve:1", 1), ("solve:2", 2)]);
    assert_eq!(get_score(&e, "solve:9", false), (3, 0));
    assert_eq!(get_score(&Vec::new(), "solve:9", false), (1, 0));
}

#[test]
fn test_group_keeps_score_without_rank() {
    let e = entries(&[("solve:1", 1), ("solve:2", 2)]);
    assert_eq!(get_score(&e, "solve:1", true), (u64::MAX, 1));
    assert_eq!(get_score(&e, "solve:9", true), (u64::MAX, 0));
}

#[test]
fn score_is_ledger_size() {
    let mut ledger = Solve::new();
    ledger.set_solved("task:x");
    ledger.set_solved("task:y");
    ledger.set_solved("task:z");
    let e = vec![(String::from("solve:5"), ledger.score()), (String::from("solve:6"), 1)];
    assert_eq!(get_score(&e, "solve:5", false), (1, 3));
}
