use online_judge::config::{Case as TestCase, Language, Misc, Problem, ProblemType};
use online_judge::jobs::Result;
use online_judge::judger::{aggregate_result, compile, Judging, RunOutcome, Step};
use online_judge::{standard_compare, strict_compare};

fn case(score: u64) -> TestCase {
    TestCase {
        score,
        input_file: "in".to_string(),
        answer_file: "ans".to_string(),
        time_limit: 1_000_000,
        memory_limit: 0,
    }
}

fn problem(scores: &[u64], packing: Option<Vec<Vec<u32>>>) -> Problem {
    Problem {
        id: 0,
        name: "p".to_string(),
        problem_type: ProblemType::Standard,
        misc: Misc { packing, special_judge: None, dynamic_ranking_ratio: None },
        cases: scores.iter().map(|s| case(*s)).collect(),
    }
}

fn completed(output: &str, answer: &str) -> RunOutcome {
    RunOutcome::Completed { time: 10, output: output.as_bytes().to_vec(), answer: answer.as_bytes().to_vec() }
}

/// Drives a judgement: `runs[k]` is the outcome of case `k + 1` when it runs.
fn judge(p: &Problem, compiled: bool, runs: Vec<RunOutcome>) -> (Vec<Result>, u64, Result) {
    let mut j = Judging::start(p, compiled, 5);
    let mut runs = runs.into_iter();
    while !j.is_complete(p) {
        let step = j.next_step(p, compiled);
        let outcome = runs.next();
        let outcome = if step == Step::Run { outcome } else { None };
        j.advance(p, compiled, outcome);
    }
    let verdicts = j.cases.iter().map(|c| c.result).collect();
    (verdicts, j.score(p), aggregate_result(&j.cases))
}

#[test]
fn empty_output_matches_empty_answer() {
    assert!(standard_compare("", ""));
}

#[test]
fn trailing_whitespace_ignored_only_in_standard_mode() {
    assert!(standard_compare("hello\nworld\n", "hello  \nworld\t\n"));
    assert!(!strict_compare(b"hello\nworld\n", b"hello  \nworld\t\n"));
    assert!(strict_compare(b"hello\n", b"hello\n"));
    assert!(strict_compare(&[0xff, 0x00], &[0xff, 0x00]));
    assert!(!strict_compare(&[0xff, 0x00], &[0xfe, 0x00]));
}

#[test]
fn standard_compare_counts_lines() {
    assert!(standard_compare("a\n", "a"));
    assert!(!standard_compare("a\n", "a\n\n"));
    assert!(!standard_compare("a\nb\n", "a\nc\n"));
    assert!(!standard_compare("a", " a"));
    assert!(standard_compare("a\r\n", "a\n"));
}

#[test]
fn accepted_path() {
    let p = problem(&[100], None);
    let (verdicts, score, result) = judge(&p, true, vec![completed("hello\n", "hello\n")]);
    assert_eq!(verdicts, vec![Result::CompilationSuccess, Result::Accepted]);
    assert_eq!(score, 100);
    assert_eq!(result, Result::Accepted);
}

#[test]
fn compilation_error_waits_every_case() {
    let p = problem(&[10, 20, 30], None);
    let (verdicts, score, result) = judge(&p, false, vec![]);
    assert_eq!(
        verdicts,
        vec![Result::CompilationError, Result::Waiting, Result::Waiting, Result::Waiting]
    );
    assert_eq!(score, 0);
    assert_eq!(result, Result::CompilationError);
}

#[test]
fn time_limit_exceeded_records_zero_time() {
    let p = problem(&[100], None);
    let mut j = Judging::start(&p, true, 5);
    assert_eq!(j.next_step(&p, true), Step::Run);
    j.advance(&p, true, Some(RunOutcome::TimedOut));
    assert_eq!(j.cases[1].result, Result::TimeLimitExceeded);
    assert_eq!(j.cases[1].time, 0);
    assert_eq!(j.cases[1].id, 1);
    assert_eq!(j.score(&p), 0);
    assert_eq!(aggregate_result(&j.cases), Result::TimeLimitExceeded);
}

#[test]
fn runtime_error_and_missing_run() {
    let p = problem(&[1, 1], None);
    let (verdicts, score, result) = judge(&p, true, vec![RunOutcome::Crashed { time: 7 }, RunOutcome::Failed]);
    assert_eq!(verdicts, vec![Result::CompilationSuccess, Result::RuntimeError, Result::SystemError]);
    assert_eq!(score, 0);
    assert_eq!(result, Result::RuntimeError);
}

#[test]
fn packing_scores_whole_groups() {
    let p = problem(&[25, 25, 25, 25], Some(vec![vec![1, 2], vec![3, 4]]));
    let (verdicts, score, result) = judge(
        &p,
        true,
        vec![
            completed("1\n", "1\n"),
            completed("2\n", "2\n"),
            completed("x\n", "3\n"),
            completed("4\n", "4\n"),
        ],
    );
    assert_eq!(
        verdicts,
        vec![
            Result::CompilationSuccess,
            Result::Accepted,
            Result::Accepted,
            Result::WrongAnswer,
            Result::Skipped
        ]
    );
    assert_eq!(score, 50);
    assert_eq!(result, Result::WrongAnswer);
}

#[test]
fn packing_group_of_two() {
    let p = problem(&[30, 40], Some(vec![vec![1, 2]]));
    let (_, score, _) = judge(&p, true, vec![completed("a", "a"), completed("b", "b")]);
    assert_eq!(score, 70);
    let p = problem(&[30, 40, 10], Some(vec![vec![1, 2, 3]]));
    let (verdicts, score, _) = judge(&p, true, vec![completed("a", "a"), completed("x", "b")]);
    assert_eq!(score, 0);
    assert_eq!(
        verdicts,
        vec![Result::CompilationSuccess, Result::Accepted, Result::WrongAnswer, Result::Skipped]
    );
}

#[test]
fn missing_executable_waits() {
    let p = problem(&[5], None);
    let mut j = Judging::start(&p, true, 1);
    assert_eq!(j.next_step(&p, false), Step::Wait);
    j.advance(&p, false, None);
    assert_eq!(j.cases[1].result, Result::Waiting);
}

#[test]
fn strict_problem_compares_exactly() {
    let mut p = problem(&[10], None);
    p.problem_type = ProblemType::Strict;
    let (verdicts, score, _) = judge(&p, true, vec![completed("ok \n", "ok\n")]);
    assert_eq!(verdicts[1], Result::WrongAnswer);
    assert_eq!(score, 0);
}

#[test]
fn rerun_with_same_runs_gives_same_result() {
    let p = problem(&[30, 70], None);
    let first = judge(&p, true, vec![completed("a", "a"), completed("b", "c")]);
    let second = judge(
        &p,
        true,
        vec![
            RunOutcome::Completed { time: 999, output: b"a".to_vec(), answer: b"a".to_vec() },
            completed("b", "c"),
        ],
    );
    assert_eq!(first, second);
    assert_eq!(first.1, 30);
}

#[test]
fn compile_argv_substitutes_placeholders() {
    let lang = Language {
        name: "Rust".to_string(),
        file_name: "main.rs".to_string(),
        command: vec![
            "rustc".to_string(),
            "-o".to_string(),
            "%OUTPUT%".to_string(),
            "%INPUT%".to_string(),
        ],
    };
    let argv = compile(&lang, "./TMPDIR/main.rs", "./TMPDIR/main");
    assert_eq!(argv, vec!["rustc", "-o", "./TMPDIR/main", "./TMPDIR/main.rs"]);
}

#[test]
fn problem_type_names() {
    assert_eq!(ProblemType::from_name("standard"), Some(ProblemType::Standard));
    assert_eq!(ProblemType::from_name("strict"), Some(ProblemType::Strict));
    assert_eq!(ProblemType::from_name("dynamic_ranking"), Some(ProblemType::DynamicRanking));
    assert_eq!(ProblemType::from_name("special_judge"), Some(ProblemType::SpecialJudge));
    assert_eq!(ProblemType::from_name("other"), None);
}

#[test]
fn standard_problem_rejects_invalid_utf8_output() {
    let p = problem(&[10], None);
    let (verdicts, _, _) = judge(
        &p,
        true,
        vec![RunOutcome::Completed { time: 1, output: vec![0xff, b'\n'], answer: b"x\n".to_vec() }],
    );
    assert_eq!(verdicts[1], Result::WrongAnswer);
    let (verdicts, _, _) = judge(
        &p,
        true,
        vec![RunOutcome::Completed { time: 1, output: "é \n".as_bytes().to_vec(), answer: "é\n".as_bytes().to_vec() }],
    );
    assert_eq!(verdicts[1], Result::Accepted);
}
