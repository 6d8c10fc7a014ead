use online_judge::config::{Case as TestCase, Config, Language, Misc, Problem, ProblemType, Server};
use online_judge::contests::{ContestRegistry, PostContest};
use online_judge::error::ApiError;
use online_judge::jobs::{JobStore, Response, Submission};
use online_judge::judger::{Judging, RunOutcome};
use online_judge::ranking::{
    get_contests_ranklist, job_rank_score, RankEntry, RankQuery, ScoringRule, TieBreaker,
};
use online_judge::users::{User, UserDirectory};

fn problem(id: u32, score: u64) -> Problem {
    Problem {
        id,
        name: "p".to_string(),
        problem_type: ProblemType::Standard,
        misc: Misc { packing: None, special_judge: None, dynamic_ranking_ratio: None },
        cases: vec![TestCase {
            score,
            input_file: "in".to_string(),
            answer_file: "ans".to_string(),
            time_limit: 1_000_000,
            memory_limit: 0,
        }],
    }
}

fn config(problems: Vec<Problem>) -> Config {
    let rust = Language { name: "Rust".to_string(), file_name: "main.rs".to_string(), command: vec![] };
    Config { server: Server { bind_address: None, bind_port: None }, problems, languages: vec![rust] }
}

fn users() -> UserDirectory {
    let mut users = UserDirectory::new();
    users.post_user(User { id: None, name: "A".to_string() }).unwrap();
    users.post_user(User { id: None, name: "B".to_string() }).unwrap();
    users
}

/// Stores a job of `user` on problem 0 scoring `score` of the problem's 100
/// points, created at second `sec`.
fn submit(store: &mut JobStore, cfg: &Config, user: u32, contest: u32, sec: u32, accepted: bool, time: u64) {
    let users = users();
    let p = &cfg.problems[0];
    let mut j = Judging::start(p, true, 1);
    let output = if accepted { "ok" } else { "no" };
    j.advance(
        p,
        true,
        Some(RunOutcome::Completed { time, output: output.as_bytes().to_vec(), answer: b"ok".to_vec() }),
    );
    store
        .post_jobs(
        cfg,
        &users,
        Submission {
            source_code: String::new(),
            language: "Rust".to_string(),
            user_id: user,
            contest_id: contest,
            problem_id: 0,
        },
        format!("2022-08-27T02:05:{:02}.000Z", sec),
        String::new(),
        j,
    )
        .unwrap();
}

fn set_score(store: &mut JobStore, id: usize, score: u64) {
    store.jobs[id].score = score;
}

fn summary(rows: &[RankEntry]) -> Vec<(u32, u64, Vec<u64>, u64)> {
    rows.iter().map(|r| (r.user.id.unwrap(), r.rank, r.scores.clone(), r.submission_count)).collect()
}

fn query(rule: ScoringRule, tie: Option<TieBreaker>) -> RankQuery {
    RankQuery { contest_id: 0, scoring_rule: rule, tie_breaker: tie }
}

/// User A (id 1) scores 80 then 60; user B (id 2) scores 70.
fn scenario() -> (Config, UserDirectory, JobStore) {
    let cfg = config(vec![problem(0, 100)]);
    let users = users();
    let mut store = JobStore::new();
    submit(&mut store, &cfg, 1, 0, 1, true, 10);
    submit(&mut store, &cfg, 1, 0, 2, true, 10);
    submit(&mut store, &cfg, 2, 0, 3, true, 10);
    set_score(&mut store, 0, 80);
    set_score(&mut store, 1, 60);
    set_score(&mut store, 2, 70);
    (cfg, users, store)
}

#[test]
fn ranklist_latest_default() {
    let (cfg, users, store) = scenario();
    let contests = ContestRegistry::new();
    let rows = get_contests_ranklist(&cfg, &users, &store, &contests, query(ScoringRule::Latest, None)).unwrap();
    assert_eq!(
        summary(&rows),
        vec![(2, 1, vec![70], 1), (1, 2, vec![60], 2), (0, 3, vec![0], 0)]
    );
    assert_eq!(rows[0].user.name, "B");
}

#[test]
fn ranklist_highest_submission_count() {
    let (cfg, users, mut store) = scenario();
    let contests = ContestRegistry::new();
    let q = query(ScoringRule::Highest, Some(TieBreaker::SubmissionCount));
    let rows = get_contests_ranklist(&cfg, &users, &store, &contests, q).unwrap();
    assert_eq!(summary(&rows), vec![(1, 1, vec![80], 2), (2, 2, vec![70], 1), (0, 3, vec![0], 0)]);
    set_score(&mut store, 2, 80);
    let rows = get_contests_ranklist(&cfg, &users, &store, &contests, q).unwrap();
    assert_eq!(summary(&rows), vec![(2, 1, vec![80], 1), (1, 2, vec![80], 2), (0, 3, vec![0], 0)]);
}

#[test]
fn ranklist_ties_share_rank_by_default() {
    let (cfg, users, mut store) = scenario();
    let contests = ContestRegistry::new();
    set_score(&mut store, 1, 70);
    let rows = get_contests_ranklist(&cfg, &users, &store, &contests, query(ScoringRule::Latest, None)).unwrap();
    assert_eq!(summary(&rows), vec![(1, 1, vec![70], 2), (2, 1, vec![70], 1), (0, 3, vec![0], 0)]);
    let q = query(ScoringRule::Latest, Some(TieBreaker::UserId));
    let rows = get_contests_ranklist(&cfg, &users, &store, &contests, q).unwrap();
    assert_eq!(summary(&rows), vec![(1, 1, vec![70], 2), (2, 2, vec![70], 1), (0, 3, vec![0], 0)]);
}

#[test]
fn ranklist_submission_time() {
    let (cfg, users, mut store) = scenario();
    let contests = ContestRegistry::new();
    set_score(&mut store, 1, 70);
    let q = query(ScoringRule::Latest, Some(TieBreaker::SubmissionTime));
    let rows = get_contests_ranklist(&cfg, &users, &store, &contests, q).unwrap();
    // A's counted job was created at second 2, B's at second 3.
    assert_eq!(summary(&rows), vec![(1, 1, vec![70], 2), (2, 2, vec![70], 1), (0, 3, vec![0], 0)]);
}

#[test]
fn ranklist_for_a_contest() {
    let cfg = config(vec![problem(0, 100), problem(5, 100)]);
    let users = users();
    let mut contests = ContestRegistry::new();
    let body = PostContest {
        id: None,
        name: "c".to_string(),
        from: String::new(),
        to: String::new(),
        problem_ids: vec![5, 0],
        user_ids: vec![2, 1],
        submission_limit: 10,
    };
    assert_eq!(contests.post_contest(body, &cfg, &users), Ok(1));
    let mut store = JobStore::new();
    submit(&mut store, &cfg, 1, 1, 1, true, 10);
    submit(&mut store, &cfg, 2, 0, 2, true, 10);
    let q = RankQuery { contest_id: 1, scoring_rule: ScoringRule::Latest, tie_breaker: None };
    let rows = get_contests_ranklist(&cfg, &users, &store, &contests, q).unwrap();
    assert_eq!(summary(&rows), vec![(1, 1, vec![100, 0], 1), (2, 2, vec![0, 0], 0)]);
    let q = RankQuery { contest_id: 2, scoring_rule: ScoringRule::Latest, tie_breaker: None };
    assert_eq!(get_contests_ranklist(&cfg, &users, &store, &contests, q).err(), Some(ApiError::NotFound));
}

#[test]
fn dynamic_ranking_rescoring() {
    let mut p = problem(0, 100);
    p.problem_type = ProblemType::DynamicRanking;
    p.misc.dynamic_ranking_ratio = Some(400);
    let cfg = config(vec![p]);
    let mut store = JobStore::new();
    submit(&mut store, &cfg, 1, 0, 1, true, 100);
    submit(&mut store, &cfg, 2, 0, 2, true, 50);
    submit(&mut store, &cfg, 2, 0, 3, false, 50);
    let all: &Vec<Response> = &store.jobs;
    // 100 * 0.6 + 100 * 0.4 * 50 / 100
    assert_eq!(job_rank_score(&cfg, all, &all[0]), 80);
    assert_eq!(job_rank_score(&cfg, all, &all[1]), 100);
    store.jobs[2].score = 50;
    let all: &Vec<Response> = &store.jobs;
    assert_eq!(job_rank_score(&cfg, all, &all[2]), 20);
}

#[test]
fn rank_parameter_names() {
    assert_eq!(ScoringRule::from_name("highest"), ScoringRule::Highest);
    assert_eq!(ScoringRule::from_name("latest"), ScoringRule::Latest);
    assert_eq!(ScoringRule::from_name(""), ScoringRule::Latest);
    assert_eq!(TieBreaker::from_name("submission_time"), Some(TieBreaker::SubmissionTime));
    assert_eq!(TieBreaker::from_name("submission_count"), Some(TieBreaker::SubmissionCount));
    assert_eq!(TieBreaker::from_name("user_id"), Some(TieBreaker::UserId));
    assert_eq!(TieBreaker::from_name("none"), None);
}

#[test]
fn dynamic_ranking_fastest_keeps_full_score() {
    let mut p = problem(0, 1);
    p.problem_type = ProblemType::DynamicRanking;
    p.misc.dynamic_ranking_ratio = Some(250);
    let cfg = config(vec![p]);
    let mut store = JobStore::new();
    submit(&mut store, &cfg, 1, 0, 1, true, 40);
    // A failed run records a short time; it is not the fastest accepted run.
    submit(&mut store, &cfg, 2, 0, 2, false, 1);
    let all: &Vec<Response> = &store.jobs;
    assert_eq!(job_rank_score(&cfg, all, &all[0]), 1);
    let mut p = problem(0, 10);
    p.problem_type = ProblemType::DynamicRanking;
    p.misc.dynamic_ranking_ratio = Some(250);
    let cfg = config(vec![p]);
    let mut store = JobStore::new();
    submit(&mut store, &cfg, 1, 0, 1, true, 40);
    submit(&mut store, &cfg, 2, 0, 2, true, 80);
    let all: &Vec<Response> = &store.jobs;
    assert_eq!(job_rank_score(&cfg, all, &all[0]), 10);
    // 10 * (0.75 + 0.25 * 40 / 80) = 8.75
    assert_eq!(job_rank_score(&cfg, all, &all[1]), 8);
}
