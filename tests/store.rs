use online_judge::config::{Case as TestCase, Config, Language, Misc, Problem, ProblemType, Server};
use online_judge::contests::{sort_ids, ContestRegistry, PostContest};
use online_judge::error::ApiError;
use online_judge::jobs::{check_submission, JobQuery, JobState, JobStore, Result, Submission};
use online_judge::judger::{Judging, RunOutcome};
use online_judge::users::{User, UserDirectory};

fn config() -> Config {
    let problem = |id: u32| Problem {
        id,
        name: format!("p{}", id),
        problem_type: ProblemType::Standard,
        misc: Misc { packing: None, special_judge: None, dynamic_ranking_ratio: None },
        cases: vec![TestCase {
            score: 100,
            input_file: "in".to_string(),
            answer_file: "ans".to_string(),
            time_limit: 1_000_000,
            memory_limit: 0,
        }],
    };
    Config {
        server: Server { bind_address: None, bind_port: None },
        problems: vec![problem(0), problem(7)],
        languages: vec![Language {
            name: "Rust".to_string(),
            file_name: "main.rs".to_string(),
            command: vec!["rustc".to_string(), "%INPUT%".to_string(), "-o".to_string(), "%OUTPUT%".to_string()],
        }],
    }
}

fn submission(user_id: u32, problem_id: u32) -> Submission {
    Submission {
        source_code: "fn main() {}".to_string(),
        language: "Rust".to_string(),
        user_id,
        contest_id: 0,
        problem_id,
    }
}

fn judged(p: &Problem, accepted: bool) -> Judging {
    let mut j = Judging::start(p, true, 3);
    let output = if accepted { "hello\n" } else { "bye\n" };
    j.advance(
        p,
        true,
        Some(RunOutcome::Completed { time: 4, output: output.as_bytes().to_vec(), answer: b"hello\n".to_vec() }),
    );
    j
}

fn query() -> JobQuery {
    JobQuery {
        user_id: None,
        user_name: None,
        contest_id: None,
        problem_id: None,
        language: None,
        from: None,
        to: None,
        state: None,
        result: None,
    }
}

#[test]
fn rename_to_same_name_is_a_no_op() {
    let mut users = UserDirectory::new();
    let added = users.post_user(User { id: None, name: "alice".to_string() }).unwrap();
    assert_eq!(added.id, Some(1));
    let renamed = users.post_user(User { id: Some(1), name: "alice".to_string() }).unwrap();
    assert_eq!(renamed.id, Some(1));
    assert_eq!(renamed.name, "alice");
    let names: Vec<String> = users.get_user().iter().map(|u| u.name.clone()).collect();
    assert_eq!(names, vec!["root", "alice"]);
}

#[test]
fn user_errors() {
    let mut users = UserDirectory::new();
    users.post_user(User { id: None, name: "alice".to_string() }).unwrap();
    assert_eq!(
        users.post_user(User { id: None, name: "root".to_string() }).err(),
        Some(ApiError::InvalidArgument)
    );
    assert_eq!(
        users.post_user(User { id: Some(1), name: "root".to_string() }).err(),
        Some(ApiError::InvalidArgument)
    );
    assert_eq!(
        users.post_user(User { id: Some(5), name: "bob".to_string() }).err(),
        Some(ApiError::NotFound)
    );
    let bob = users.post_user(User { id: Some(1), name: "bob".to_string() }).unwrap();
    assert_eq!(bob.name, "bob");
    assert_eq!(users.len(), 2);
    assert_eq!(users.get_user()[0].id, Some(0));
}

#[test]
fn error_codes() {
    assert_eq!(ApiError::InvalidArgument.code(), 1);
    assert_eq!(ApiError::InvalidState.code(), 2);
    assert_eq!(ApiError::NotFound.code(), 3);
    assert_eq!(ApiError::NotFound.reason(), "ERR_NOT_FOUND");
    assert_eq!(ApiError::InvalidState.reason(), "ERR_INVALID_STATE");
}

#[test]
fn contest_listing_omits_global_contest() {
    let cfg = config();
    let mut users = UserDirectory::new();
    users.post_user(User { id: None, name: "alice".to_string() }).unwrap();
    let mut contests = ContestRegistry::new();
    assert_eq!(contests.get_contests().len(), 0);
    let body = PostContest {
        id: None,
        name: "c".to_string(),
        from: "2022-08-27T02:05:29.000Z".to_string(),
        to: "2022-08-28T02:05:29.000Z".to_string(),
        problem_ids: vec![7, 0],
        user_ids: vec![1, 0],
        submission_limit: 3,
    };
    assert_eq!(contests.post_contest(body, &cfg, &users), Ok(1));
    let listed = contests.get_contests();
    assert_eq!(listed.len(), 1);
    assert_eq!(listed[0].id, 1);
    assert_eq!(listed[0].problem_ids, vec![0, 7]);
    assert_eq!(listed[0].user_ids, vec![0, 1]);
    assert_eq!(contests.get_contests_by_id(0).unwrap().id, 0);
    assert_eq!(contests.get_contests_by_id(2).err(), Some(ApiError::NotFound));
}

#[test]
fn contest_errors() {
    let cfg = config();
    let users = UserDirectory::new();
    let mut contests = ContestRegistry::new();
    let body = |id: Option<usize>, problems: Vec<usize>, users: Vec<usize>| PostContest {
        id,
        name: "c".to_string(),
        from: String::new(),
        to: String::new(),
        problem_ids: problems,
        user_ids: users,
        submission_limit: 0,
    };
    assert_eq!(contests.post_contest(body(None, vec![3], vec![0]), &cfg, &users), Err(ApiError::NotFound));
    assert_eq!(contests.post_contest(body(None, vec![0], vec![4]), &cfg, &users), Err(ApiError::NotFound));
    assert_eq!(contests.post_contest(body(Some(0), vec![0], vec![0]), &cfg, &users), Err(ApiError::NotFound));
    assert_eq!(contests.post_contest(body(Some(1), vec![0], vec![0]), &cfg, &users), Err(ApiError::NotFound));
    assert_eq!(contests.post_contest(body(None, vec![0], vec![0]), &cfg, &users), Ok(1));
    assert_eq!(contests.post_contest(body(Some(1), vec![7], vec![0]), &cfg, &users), Ok(1));
    assert_eq!(contests.get_contests_by_id(1).unwrap().problem_ids, vec![7]);
}

#[test]
fn sort_ids_orders_ascending() {
    assert_eq!(sort_ids(&vec![5, 1, 4, 1]), vec![1, 1, 4, 5]);
    assert_eq!(sort_ids(&vec![]), Vec::<usize>::new());
}

#[test]
fn submission_checks() {
    let cfg = config();
    let users = UserDirectory::new();
    assert_eq!(check_submission(&cfg, &users, &submission(0, 7)), Ok(1));
    assert_eq!(check_submission(&cfg, &users, &submission(1, 7)), Err(ApiError::NotFound));
    assert_eq!(check_submission(&cfg, &users, &submission(0, 3)), Err(ApiError::NotFound));
    let mut s = submission(0, 0);
    s.language = "Go".to_string();
    assert_eq!(check_submission(&cfg, &users, &s), Err(ApiError::NotFound));
    assert_eq!(cfg.problem_index(7), Some(1));
    assert_eq!(cfg.language_index("Rust"), Some(0));
}

#[test]
fn posted_job_is_returned_by_lookup() {
    let cfg = config();
    let p = &cfg.problems[0];
    let users = UserDirectory::new();
    let mut store = JobStore::new();
    for n in 0..3u32 {
        let id = store.post_jobs(
            &cfg,
            &users,
            submission(0, 0),
            "2022-08-27T02:05:29.000Z".to_string(),
            "2022-08-27T02:05:30.000Z".to_string(),
            judged(p, n % 2 == 0),
        );
        assert_eq!(id, Ok(n));
    }
    let unknown = store.post_jobs(&cfg, &users, submission(3, 0), "t".to_string(), "t".to_string(), judged(p, true));
    assert_eq!(unknown, Err(ApiError::NotFound));
    assert_eq!(store.len(), 3);
    let job = store.get_jobid(1).unwrap();
    assert_eq!(job.id, 1);
    assert_eq!(job.result, Result::WrongAnswer);
    assert_eq!(job.score, 0);
    assert_eq!(job.state, JobState::Finished);
    assert_eq!(job.cases.len(), 2);
    let job = store.get_jobid(2).unwrap();
    assert_eq!(job.result, Result::Accepted);
    assert_eq!(job.score, 100);
    assert_eq!(job.updated_time, "2022-08-27T02:05:30.000Z");
    assert!(store.get_jobid(3).is_err());
}

#[test]
fn rerun_replaces_judgement() {
    let cfg = config();
    let p = &cfg.problems[0];
    let users = UserDirectory::new();
    let mut store = JobStore::new();
    store.post_jobs(&cfg, &users, submission(0, 0), "t0".to_string(), "t1".to_string(), judged(p, false)).unwrap();
    assert!(store.rerun_target(0).is_ok());
    assert_eq!(store.rerun_target(1).err(), Some(ApiError::NotFound));
    assert_eq!(store.put_jobid(&cfg, 1, "t2".to_string(), judged(p, true)), Err(ApiError::NotFound));
    assert_eq!(store.put_jobid(&cfg, 0, "t2".to_string(), judged(p, true)), Ok(()));
    let job = store.get_jobid(0).unwrap();
    assert_eq!(job.created_time, "t0");
    assert_eq!(job.updated_time, "t2");
    assert_eq!(job.result, Result::Accepted);
    assert_eq!(job.score, 100);
    store.jobs[0].state = JobState::Running;
    assert_eq!(store.rerun_target(0).err(), Some(ApiError::InvalidState));
    assert_eq!(store.put_jobid(&cfg, 0, "t3".to_string(), judged(p, false)), Err(ApiError::InvalidState));
    assert_eq!(store.get_jobid(0).unwrap().updated_time, "t2");
}

#[test]
fn job_listing_filters_and_sorts() {
    let cfg = config();
    let p = &cfg.problems[0];
    let mut users = UserDirectory::new();
    users.post_user(User { id: None, name: "alice".to_string() }).unwrap();
    let mut store = JobStore::new();
    store.post_jobs(&cfg, &users, submission(1, 0), "2022-08-27T02:05:31.000Z".to_string(), "x".to_string(), judged(p, true)).unwrap();
    store.post_jobs(&cfg, &users, submission(0, 0), "2022-08-27T02:05:29.000Z".to_string(), "x".to_string(), judged(p, false)).unwrap();
    store.post_jobs(&cfg, &users, submission(1, 7), "2022-08-27T02:05:30.000Z".to_string(), "x".to_string(), judged(p, true)).unwrap();
    assert_eq!(store.get_jobs(&query(), &users), Ok(vec![1, 2, 0]));
    let mut q = query();
    q.user_name = Some("alice".to_string());
    assert_eq!(store.get_jobs(&q, &users), Ok(vec![2, 0]));
    let mut q = query();
    q.result = Some(Result::Accepted);
    q.problem_id = Some(0);
    assert_eq!(store.get_jobs(&q, &users), Ok(vec![0]));
    let mut q = query();
    q.from = Some("2022-08-27T02:05:30.000Z".to_string());
    assert_eq!(store.get_jobs(&q, &users), Ok(vec![2, 0]));
    let mut q = query();
    q.to = Some("2022-08-27T10:05:30.000+08:00".to_string());
    assert_eq!(store.get_jobs(&q, &users), Ok(vec![1, 2]));
    let mut q = query();
    q.state = Some("Finished".to_string());
    q.language = Some("Rust".to_string());
    assert_eq!(store.get_jobs(&q, &users), Ok(vec![1, 2, 0]));
    let mut q = query();
    q.state = Some("Queueing".to_string());
    assert_eq!(store.get_jobs(&q, &users), Ok(vec![]));
    let mut q = query();
    q.from = Some("yesterday".to_string());
    assert_eq!(store.get_jobs(&q, &users), Err(ApiError::InvalidArgument));
}
