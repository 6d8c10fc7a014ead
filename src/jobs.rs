//! Jobs: submissions, their verdicts, and the store that keeps them.
use vstd::prelude::*;

use crate::config::{problem_index_from, Config, Problem};
use crate::error::ApiError;
use crate::judger::{
    aggregate_spec, job_score, lemma_no_case_counts_while_waiting, lemma_same_verdicts_same_outcome,
    same_verdicts, Judging,
};
use crate::sorting::{comes_before, is_ordering, sort_rows, sorted_by};
use crate::text::str_eq;
use crate::time::{instant_key, instant_key_spec, parse_instant, rfc3339_instant, INSTANT_KEYS};
use crate::users::UserDirectory;

verus! {

/// The verdict of one phase of a job, and of the job as a whole.
#[derive(Clone, Copy, Debug, PartialEq, Eq, Structural)]
pub enum Result {
    CompilationSuccess,
    CompilationError,
    Accepted,
    WrongAnswer,
    RuntimeError,
    TimeLimitExceeded,
    Waiting,
    Skipped,
    SystemError,
}

/// The result of one phase: id 0 is the compilation, id `k` the `k`-th case.
pub struct Case {
    pub id: u32,
    pub result: Result,
    /// Wall-clock time in microseconds.
    pub time: u64,
    /// Not measured; always 0.
    pub memory: u32,
    pub info: String,
}

/// What a user submitted.
pub struct Submission {
    pub source_code: String,
    pub language: String,
    pub user_id: u32,
    pub contest_id: u32,
    pub problem_id: u32,
}

/// Where a job is in its life.
#[derive(Clone, Copy, Debug, PartialEq, Eq, Structural)]
pub enum JobState {
    Queueing,
    Running,
    Finished,
    Canceled,
}

impl JobState {
    /// The name of the state as requests write it.
    pub open spec fn name_spec(self) -> Seq<char> {
        match self {
            JobState::Queueing => "Queueing"@,
            JobState::Running => "Running"@,
            JobState::Finished => "Finished"@,
            JobState::Canceled => "Canceled"@,
        }
    }

    /// The name of the state as requests write it.
    pub fn name(&self) -> (r: &'static str)
        ensures
            r@ == self.name_spec(),
    {
        proof {
            reveal_strlit("Queueing");
            reveal_strlit("Running");
            reveal_strlit("Finished");
            reveal_strlit("Canceled");
        }
        match self {
            JobState::Queueing => "Queueing",
            JobState::Running => "Running",
            JobState::Finished => "Finished",
            JobState::Canceled => "Canceled",
        }
    }
}

/// A job: a submission with its judgement.
pub struct Response {
    pub id: u32,
    pub created_time: String,
    pub updated_time: String,
    pub submission: Submission,
    pub state: JobState,
    pub result: Result,
    pub score: u64,
    pub cases: Vec<Case>,
}

/// The submission names a known language, user and problem.
pub open spec fn submission_valid(config: &Config, users: &UserDirectory, s: &Submission) -> bool {
    &&& exists|i: int| 0 <= i < config.languages@.len() && #[trigger] config.languages@[i].name@ == s.language@
    &&& s.user_id < users@.len()
    &&& problem_index_from(config.problems@, s.problem_id, 0) is Some
}

/// Checks a submission before it is judged: the language, the user and the
/// problem must exist, else `NotFound`. Gives the problem's catalog position.
pub fn check_submission(config: &Config, users: &UserDirectory, s: &Submission) -> (r:
    std::result::Result<usize, ApiError>)
    requires
        users.wf(),
    ensures
        submission_valid(config, users, s) ==> r == Ok::<usize, ApiError>(
            problem_index_from(config.problems@, s.problem_id, 0)->Some_0,
        ),
        !submission_valid(config, users, s) ==> r == Err::<usize, ApiError>(ApiError::NotFound),
        r matches Ok(i) ==> i < config.problems@.len() && config.problems@[i as int].id == s.problem_id,
{
    match config.language_index(s.language.as_str()) {
        None => { return Err(ApiError::NotFound); },
        Some(_) => {},
    }
    if !users.contains(s.user_id) {
        return Err(ApiError::NotFound);
    }
    match config.problem_index(s.problem_id) {
        None => Err(ApiError::NotFound),
        Some(i) => Ok(i),
    }
}

/// Which jobs a listing shows; every given field must match.
pub struct JobQuery {
    pub user_id: Option<u32>,
    pub user_name: Option<String>,
    pub contest_id: Option<u32>,
    pub problem_id: Option<u32>,
    pub language: Option<String>,
    /// Earliest creation time, RFC 3339, inclusive.
    pub from: Option<String>,
    /// Latest creation time, RFC 3339, inclusive.
    pub to: Option<String>,
    /// The name of a job state.
    pub state: Option<String>,
    pub result: Option<Result>,
}

/// The creation time of the job is at or after (`after`) or at or before the
/// bound; a job whose creation time cannot be read matches no bound.
pub open spec fn within(bound: Option<(i64, u32)>, created: Seq<char>, after: bool) -> bool {
    match bound {
        None => true,
        Some(b) => match rfc3339_instant(created) {
            None => false,
            Some(t) => if after {
                instant_key_spec(t) >= instant_key_spec(b)
            } else {
                instant_key_spec(t) <= instant_key_spec(b)
            },
        },
    }
}

/// The job matches every field of the query; `from` and `to` are the
/// query's bounds, read as instants.
pub open spec fn job_matches(
    q: &JobQuery,
    users: Seq<Seq<char>>,
    from: Option<(i64, u32)>,
    to: Option<(i64, u32)>,
    job: &Response,
) -> bool {
    &&& (q.user_id matches Some(u) ==> job.submission.user_id == u)
    &&& (q.user_name matches Some(n) ==> job.submission.user_id < users.len()
        && users[job.submission.user_id as int] == n@)
    &&& (q.contest_id matches Some(c) ==> job.submission.contest_id == c)
    &&& (q.problem_id matches Some(p) ==> job.submission.problem_id == p)
    &&& (q.language matches Some(l) ==> job.submission.language@ == l@)
    &&& within(from, job.created_time@, true)
    &&& within(to, job.created_time@, false)
    &&& (q.state matches Some(st) ==> job.state.name_spec() == st@)
    &&& (q.result matches Some(res) ==> job.result == res)
}

fn within_bound(bound: Option<(i64, u32)>, created: &String, after: bool) -> (r: bool)
    ensures
        r == within(bound, created@, after),
{
    match bound {
        None => true,
        Some(b) => match parse_instant(created.as_str()) {
            None => false,
            Some(t) => {
                let kt = instant_key(t);
                let kb = instant_key(b);
                if after {
                    kt >= kb
                } else {
                    kt <= kb
                }
            },
        },
    }
}

fn matches_query(
    q: &JobQuery,
    users: &UserDirectory,
    from: Option<(i64, u32)>,
    to: Option<(i64, u32)>,
    job: &Response,
) -> (r: bool)
    requires
        users.wf(),
    ensures
        r == job_matches(q, users@, from, to, job),
{
    if let Some(u) = q.user_id {
        if job.submission.user_id != u {
            return false;
        }
    }
    if let Some(n) = &q.user_name {
        let uid = job.submission.user_id as usize;
        if uid >= users.users.len() {
            return false;
        }
        if !str_eq(users.users[uid].name.as_str(), n.as_str()) {
            return false;
        }
    }
    if let Some(c) = q.contest_id {
        if job.submission.contest_id != c {
            return false;
        }
    }
    if let Some(p) = q.problem_id {
        if job.submission.problem_id != p {
            return false;
        }
    }
    if let Some(l) = &q.language {
        if !str_eq(job.submission.language.as_str(), l.as_str()) {
            return false;
        }
    }
    if !within_bound(from, &job.created_time, true) || !within_bound(to, &job.created_time, false) {
        return false;
    }
    if let Some(st) = &q.state {
        if !str_eq(job.state.name(), st.as_str()) {
            return false;
        }
    }
    if let Some(res) = q.result {
        if job.result != res {
            return false;
        }
    }
    true
}

/// Marks off the jobs that do not match the query: entry `i` stays `true`
/// only when it was `true` and job `i` matches.
pub fn filter(
    q: &JobQuery,
    users: &UserDirectory,
    from: Option<(i64, u32)>,
    to: Option<(i64, u32)>,
    response_list: &Vec<Response>,
    filtered: &mut Vec<bool>,
)
    requires
        users.wf(),
        old(filtered)@.len() == response_list@.len(),
    ensures
        final(filtered)@.len() == response_list@.len(),
        forall|i: int|
            0 <= i < response_list@.len() ==> #[trigger] final(filtered)@[i] == (old(filtered)@[i]
                && job_matches(q, users@, from, to, &response_list@[i])),
{
    let mut i: usize = 0;
    while i < response_list.len()
        invariant
            users.wf(),
            filtered@.len() == response_list@.len(),
            0 <= i <= response_list@.len(),
            forall|j: int|
                0 <= j < i ==> #[trigger] filtered@[j] == (old(filtered)@[j] && job_matches(
                    q,
                    users@,
                    from,
                    to,
                    &response_list@[j],
                )),
            forall|j: int| i <= j < response_list@.len() ==> #[trigger] filtered@[j] == old(filtered)@[j],
        decreases response_list@.len() - i,
    {
        if !matches_query(q, users, from, to, &response_list[i]) {
            filtered.set(i, false);
        }
        i = i + 1;
    }
}

/// The order key of a job's creation time: unreadable times first, then by
/// time.
pub open spec fn created_key(created: Seq<char>) -> u128 {
    match rfc3339_instant(created) {
        None => 0,
        Some(t) => (INSTANT_KEYS + instant_key_spec(t)) as u128,
    }
}

pub(crate) fn created_key_of(created: &String) -> (r: u128)
    ensures
        r == created_key(created@),
{
    match parse_instant(created.as_str()) {
        None => 0,
        Some(t) => INSTANT_KEYS + instant_key(t),
    }
}

/// Reads an optional RFC 3339 bound; `None` when the text is no timestamp.
fn read_bound(b: &Option<String>) -> (r: Option<Option<(i64, u32)>>)
    ensures
        match b {
            None => r == Some(None::<(i64, u32)>),
            Some(s) => match rfc3339_instant(s@) {
                None => r is None,
                Some(t) => r == Some(Some(t)),
            },
        },
{
    match b {
        None => Some(None),
        Some(s) => match parse_instant(s.as_str()) {
            None => None,
            Some(t) => Some(Some(t)),
        },
    }
}

/// The creation-time keys of the jobs, each paired with 0.
pub open spec fn job_keys(jobs: Seq<Response>) -> Seq<(u128, u128)> {
    Seq::new(jobs.len(), |i: int| (created_key(jobs[i].created_time@), 0u128))
}

/// An ordering of `n` rows lists every row.
proof fn lemma_ordering_covers(order: Seq<usize>, n: int, j: int)
    requires
        is_ordering(order, n),
        0 <= j < n,
    ensures
        exists|a: int| 0 <= a < n && order[a] == j,
{
    let m = order.map_values(|x: usize| x as int);
    assert(m.no_duplicates()) by {
        assert forall|a: int, b: int| 0 <= a < m.len() && 0 <= b < m.len() && a != b implies m[a]
            != m[b] by {
            if a < b {
                assert(order[a] != order[b]);
            } else {
                assert(order[b] != order[a]);
            }
        }
    }
    m.unique_seq_to_set();
    vstd::set_lib::lemma_int_range(0, n);
    let range = vstd::set_lib::set_int_range(0, n);
    assert(m.to_set().subset_of(range)) by {
        assert forall|x: int| m.to_set().contains(x) implies range.contains(x) by {
            let a = choose|a: int| 0 <= a < m.len() && m[a] == x;
            assert(order[a] < n);
        }
    }
    vstd::seq_lib::seq_to_set_is_finite(m);
    vstd::set_lib::lemma_subset_equality(m.to_set(), range);
    assert(range.contains(j));
    assert(m.to_set().contains(j));
    let a = choose|a: int| 0 <= a < m.len() && m[a] == j;
    assert(order[a] == j);
}

/// The catalog position of the job's problem.
pub open spec fn job_problem_index(config: &Config, job: Response) -> Option<usize> {
    problem_index_from(config.problems@, job.submission.problem_id, 0)
}

/// The job's record is a finished judgement of its problem: one result per
/// case after the compilation's, which is a success or an error; after a
/// compilation error every case waits; the verdict and score are those of
/// the case results.
pub open spec fn job_judged(config: &Config, job: Response) -> bool {
    match job_problem_index(config, job) {
        None => false,
        Some(p) => {
            let problem = config.problems@[p as int];
            &&& job.cases@.len() == problem.cases@.len() + 1
            &&& (job.cases@[0].result == Result::CompilationSuccess || job.cases@[0].result
                == Result::CompilationError)
            &&& (job.cases@[0].result == Result::CompilationError ==> forall|k: int|
                1 <= k < job.cases@.len() ==> (#[trigger] job.cases@[k]).result == Result::Waiting)
            &&& job.state == JobState::Finished
            &&& job.result == aggregate_spec(job.cases@)
            &&& job.score == job_score(&problem, job.cases@)
        },
    }
}

/// All jobs, in order of id.
pub struct JobStore {
    pub jobs: Vec<Response>,
}

impl JobStore {
    /// Each job's id is its position.
    pub open spec fn wf(&self) -> bool {
        &&& self.jobs@.len() <= u32::MAX as int + 1
        &&& forall|i: int| 0 <= i < self.jobs@.len() ==> (#[trigger] self.jobs@[i]).id == i
    }

    /// Every stored job is a finished judgement of its problem (see
    /// `job_judged`).
    pub open spec fn judged(&self, config: &Config) -> bool {
        forall|i: int| 0 <= i < self.jobs@.len() ==> job_judged(config, #[trigger] self.jobs@[i])
    }

    /// An empty store.
    pub fn new() -> (r: JobStore)
        ensures
            r.wf(),
            forall|config: &Config| r.judged(config),
            r.jobs@.len() == 0,
    {
        JobStore { jobs: Vec::new() }
    }

    /// The number of jobs, which is also the next id.
    pub fn len(&self) -> (r: usize)
        ensures
            r == self.jobs@.len(),
    {
        self.jobs.len()
    }

    /// The ids of the jobs that match the query, ordered by creation time
    /// (jobs created at the same instant by id). A `from` or `to` that is no
    /// RFC 3339 timestamp is `InvalidArgument`.
    pub fn get_jobs(&self, q: &JobQuery, users: &UserDirectory) -> (r: std::result::Result<
        Vec<u32>,
        ApiError,
    >)
        requires
            self.wf(),
            users.wf(),
        ensures
            (r is Err) == ((q.from matches Some(f) && rfc3339_instant(f@) is None) || (
            q.to matches Some(t) && rfc3339_instant(t@) is None)),
            r is Err ==> r == Err::<Vec<u32>, ApiError>(ApiError::InvalidArgument),
            r matches Ok(ids) ==> {
                let from = match q.from {
                    Some(f) => rfc3339_instant(f@),
                    None => None,
                };
                let to = match q.to {
                    Some(t) => rfc3339_instant(t@),
                    None => None,
                };
                &&& forall|k: int|
                    0 <= k < ids@.len() ==> #[trigger] ids@[k] < self.jobs@.len() && job_matches(
                        q,
                        users@,
                        from,
                        to,
                        &self.jobs@[ids@[k] as int],
                    )
                &&& forall|j: int|
                    0 <= j < self.jobs@.len() && job_matches(q, users@, from, to, &#[trigger] self.jobs@[j])
                        ==> ids@.contains(j as u32)
                &&& forall|a: int, b: int|
                    0 <= a < b < ids@.len() ==> comes_before(
                        job_keys(self.jobs@),
                        #[trigger] ids@[a] as int,
                        #[trigger] ids@[b] as int,
                    )
            },
    {
        let from = match read_bound(&q.from) {
            None => { return Err(ApiError::InvalidArgument); },
            Some(f) => f,
        };
        let to = match read_bound(&q.to) {
            None => { return Err(ApiError::InvalidArgument); },
            Some(t) => t,
        };
        let n = self.jobs.len();
        let mut filtered: Vec<bool> = Vec::new();
        let mut keys: Vec<(u128, u128)> = Vec::new();
        let mut i: usize = 0;
        while i < n
            invariant
                n == self.jobs@.len(),
                0 <= i <= n,
                filtered@.len() == i,
                keys@.len() == i,
                forall|j: int| 0 <= j < i ==> #[trigger] filtered@[j],
                forall|j: int| 0 <= j < i ==> #[trigger] keys@[j] == job_keys(self.jobs@)[j],
            decreases n - i,
        {
            filtered.push(true);
            keys.push((created_key_of(&self.jobs[i].created_time), 0));
            i = i + 1;
        }
        assert(keys@ =~= job_keys(self.jobs@));
        filter(q, users, from, to, &self.jobs, &mut filtered);
        let order = sort_rows(&keys);
        let mut ids: Vec<u32> = Vec::new();
        let mut k: usize = 0;
        while k < n
            invariant
                self.wf(),
                n == self.jobs@.len(),
                keys@ == job_keys(self.jobs@),
                is_ordering(order@, n as int),
                sorted_by(keys@, order@),
                filtered@.len() == n,
                forall|j: int| 0 <= j < n ==> #[trigger] filtered@[j] == job_matches(
                    q,
                    users@,
                    from,
                    to,
                    &self.jobs@[j],
                ),
                0 <= k <= n,
                forall|a: int| 0 <= a < ids@.len() ==> #[trigger] ids@[a] < n && filtered@[ids@[a] as int],
                forall|a: int| 0 <= a < k && filtered@[#[trigger] order@[a] as int] ==> ids@.contains(order@[a] as u32),
                forall|a: int|
                    0 <= a < ids@.len() ==> exists|b: int| 0 <= b < k && #[trigger] order@[b] == #[trigger] ids@[a] as usize,
                forall|a: int, b: int|
                    0 <= a < b < ids@.len() ==> comes_before(
                        keys@,
                        #[trigger] ids@[a] as int,
                        #[trigger] ids@[b] as int,
                    ),
            decreases n - k,
        {
            let j = order[k];
            if filtered[j] {
                let ghost before = ids@;
                ids.push(j as u32);
                proof {
                    assert forall|a: int, b: int|
                        0 <= a < b < ids@.len() implies comes_before(
                        keys@,
                        #[trigger] ids@[a] as int,
                        #[trigger] ids@[b] as int,
                    ) by {
                        if b == ids@.len() - 1 {
                            let c = choose|c: int| 0 <= c < k && #[trigger] order@[c] == ids@[a] as usize;
                            assert(order@[c] == ids@[a] as usize);
                            assert(comes_before(keys@, order@[c] as int, order@[k as int] as int));
                        } else {
                            assert(ids@[a] == before[a] && ids@[b] == before[b]);
                        }
                    }
                    assert forall|a: int| 0 <= a < ids@.len() implies exists|b: int|
                        0 <= b < k + 1 && #[trigger] order@[b] == #[trigger] ids@[a] as usize by {
                        if a == ids@.len() - 1 {
                            assert(order@[k as int] == ids@[a] as usize);
                        } else {
                            assert(ids@[a] == before[a]);
                            let c = choose|c: int| 0 <= c < k && #[trigger] order@[c] == before[a] as usize;
                            assert(order@[c] == ids@[a] as usize);
                        }
                    }
                    assert forall|a: int| 0 <= a < k + 1 && filtered@[#[trigger] order@[a] as int] implies ids@.contains(
                        order@[a] as u32,
                    ) by {
                        if a == k {
                            assert(ids@[ids@.len() - 1] == order@[a] as u32);
                        } else {
                            assert(before.contains(order@[a] as u32));
                            let w = choose|w: int| 0 <= w < before.len() && before[w] == order@[a] as u32;
                            assert(ids@[w] == order@[a] as u32);
                        }
                    }
                }
            }
            k = k + 1;
        }
        proof {
            assert forall|j: int|
                0 <= j < self.jobs@.len() && job_matches(q, users@, from, to, &#[trigger] self.jobs@[j])
                    implies ids@.contains(j as u32) by {
                lemma_ordering_covers(order@, n as int, j);
                let a = choose|a: int| 0 <= a < n && order@[a] == j;
                assert(filtered@[order@[a] as int]);
            }
        }
        Ok(ids)
    }

    /// The job with the given id; `NotFound` when there is none.
    pub fn get_jobid(&self, id: u32) -> (r: std::result::Result<&Response, ApiError>)
        ensures
            id < self.jobs@.len() ==> r == Ok::<&Response, ApiError>(&self.jobs@[id as int]),
            id >= self.jobs@.len() ==> r == Err::<&Response, ApiError>(ApiError::NotFound),
    {
        if (id as usize) < self.jobs.len() {
            Ok(&self.jobs[id as usize])
        } else {
            Err(ApiError::NotFound)
        }
    }

    /// The job a rerun would judge again: `NotFound` when there is none,
    /// `InvalidState` when it is not finished.
    pub fn rerun_target(&self, id: u32) -> (r: std::result::Result<&Response, ApiError>)
        ensures
            id >= self.jobs@.len() ==> r == Err::<&Response, ApiError>(ApiError::NotFound),
            id < self.jobs@.len() && self.jobs@[id as int].state != JobState::Finished ==> r
                == Err::<&Response, ApiError>(ApiError::InvalidState),
            id < self.jobs@.len() && self.jobs@[id as int].state == JobState::Finished ==> r
                == Ok::<&Response, ApiError>(&self.jobs@[id as int]),
    {
        if (id as usize) >= self.jobs.len() {
            return Err(ApiError::NotFound);
        }
        let job = &self.jobs[id as usize];
        if job.state != JobState::Finished {
            return Err(ApiError::InvalidState);
        }
        Ok(job)
    }

    /// Stores a judged submission as a finished job with the next id, and
    /// gives that id; its verdict and score are those of the judgement. A
    /// submission that names an unknown language, user or problem is
    /// `NotFound`, and the store is left as it was.
    pub fn post_jobs(
        &mut self,
        config: &Config,
        users: &UserDirectory,
        submission: Submission,
        created_time: String,
        updated_time: String,
        judging: Judging,
    ) -> (r: std::result::Result<u32, ApiError>)
        requires
            old(self).wf(),
            old(self).jobs@.len() <= u32::MAX,
            users.wf(),
            submission_valid(config, users, &submission) ==> {
                let problem = config.problems@[problem_index_from(
                    config.problems@,
                    submission.problem_id,
                    0,
                )->Some_0 as int];
                judging.wf(&problem) && judging.complete(&problem)
            },
        ensures
            final(self).wf(),
            old(self).judged(config) ==> final(self).judged(config),
            !submission_valid(config, users, &submission) ==> r == Err::<u32, ApiError>(
                ApiError::NotFound,
            ) && final(self).jobs@ == old(self).jobs@,
            submission_valid(config, users, &submission) ==> {
                let problem = config.problems@[problem_index_from(
                    config.problems@,
                    submission.problem_id,
                    0,
                )->Some_0 as int];
                let id = old(self).jobs@.len() as u32;
                &&& r == Ok::<u32, ApiError>(id)
                &&& final(self).jobs@ == old(self).jobs@.push(
                    Response {
                        id,
                        created_time,
                        updated_time,
                        submission,
                        state: JobState::Finished,
                        result: aggregate_spec(judging.cases@),
                        score: job_score(&problem, judging.cases@) as u64,
                        cases: judging.cases,
                    },
                )
            },
    {
        let index = match check_submission(config, users, &submission) {
            Err(e) => { return Err(e); },
            Ok(i) => i,
        };
        let problem = &config.problems[index];
        let result = crate::judger::aggregate_result(&judging.cases);
        let score = judging.score(problem);
        proof {
            crate::judger::lemma_finished_judgement(judging, problem);
        }
        let id = self.jobs.len() as u32;
        let ghost before = self.jobs@;
        self.jobs.push(
            Response {
                id,
                created_time,
                updated_time,
                submission,
                state: JobState::Finished,
                result,
                score,
                cases: judging.cases,
            },
        );
        proof {
            assert forall|i: int| 0 <= i < self.jobs@.len() && old(self).judged(config) implies job_judged(
                config,
                #[trigger] self.jobs@[i],
            ) by {
                if i < before.len() {
                    assert(self.jobs@[i] == before[i]);
                }
            }
        }
        Ok(id)
    }

    /// Judges a job again: the id, the creation time and the submission
    /// stay; the update time, verdict, score and case results are the new
    /// judgement's. An id at or past the next id is `NotFound`, a job that
    /// is not finished `InvalidState`, a job whose problem is gone from the
    /// catalog `NotFound`; on an error the store is left as it was.
    pub fn put_jobid(&mut self, config: &Config, id: u32, updated_time: String, judging: Judging) -> (r:
        std::result::Result<(), ApiError>)
        requires
            old(self).wf(),
            id < old(self).jobs@.len() && old(self).jobs@[id as int].state == JobState::Finished
                && job_problem_index(config, old(self).jobs@[id as int]) is Some ==> {
                let problem = config.problems@[job_problem_index(
                    config,
                    old(self).jobs@[id as int],
                )->Some_0 as int];
                judging.wf(&problem) && judging.complete(&problem)
            },
        ensures
            final(self).wf(),
            old(self).judged(config) ==> final(self).judged(config),
            id >= old(self).jobs@.len() ==> r == Err::<(), ApiError>(ApiError::NotFound)
                && final(self).jobs@ == old(self).jobs@,
            id < old(self).jobs@.len() && old(self).jobs@[id as int].state != JobState::Finished ==> r
                == Err::<(), ApiError>(ApiError::InvalidState) && final(self).jobs@ == old(self).jobs@,
            id < old(self).jobs@.len() && old(self).jobs@[id as int].state == JobState::Finished
                && job_problem_index(config, old(self).jobs@[id as int]) is None ==> r == Err::<
                (),
                ApiError,
            >(ApiError::NotFound) && final(self).jobs@ == old(self).jobs@,
            id < old(self).jobs@.len() && old(self).jobs@[id as int].state == JobState::Finished
                && job_problem_index(config, old(self).jobs@[id as int]) is Some ==> {
                let old_job = old(self).jobs@[id as int];
                let problem = config.problems@[job_problem_index(config, old_job)->Some_0 as int];
                &&& r == Ok::<(), ApiError>(())
                &&& final(self).jobs@ == old(self).jobs@.update(
                    id as int,
                    Response {
                        id,
                        created_time: old_job.created_time,
                        updated_time,
                        submission: old_job.submission,
                        state: JobState::Finished,
                        result: aggregate_spec(judging.cases@),
                        score: job_score(&problem, judging.cases@) as u64,
                        cases: judging.cases,
                    },
                )
            },
    {
        if (id as usize) >= self.jobs.len() {
            return Err(ApiError::NotFound);
        }
        if self.jobs[id as usize].state != JobState::Finished {
            return Err(ApiError::InvalidState);
        }
        let index = match config.problem_index(self.jobs[id as usize].submission.problem_id) {
            None => { return Err(ApiError::NotFound); },
            Some(i) => i,
        };
        let problem = &config.problems[index];
        let result = crate::judger::aggregate_result(&judging.cases);
        let score = judging.score(problem);
        proof {
            crate::judger::lemma_finished_judgement(judging, problem);
        }
        let ghost before = self.jobs@;
        let job = &mut self.jobs[id as usize];
        job.updated_time = updated_time;
        job.state = JobState::Finished;
        job.result = result;
        job.score = score;
        job.cases = judging.cases;
        proof {
            assert(self.jobs@ =~= before.update(id as int, self.jobs@[id as int]));
            assert forall|i: int| 0 <= i < self.jobs@.len() && old(self).judged(config) implies job_judged(
                config,
                #[trigger] self.jobs@[i],
            ) by {
                if i != id {
                    assert(self.jobs@[i] == before[i]);
                }
            }
        }
        Ok(())
    }
}

/// Job ids are dense and follow the order of submission: storing a job
/// into a well-formed store of `n` jobs gives it id `n` and keeps ids `0..n`
/// as they were, so after `n` submissions into an empty store the ids are
/// exactly `0..n`.
pub proof fn lemma_ids_dense(before: JobStore, after: JobStore, id: u32)
    requires
        before.wf(),
        after.wf(),
        id == before.jobs@.len(),
        after.jobs@.len() == before.jobs@.len() + 1,
        after.jobs@.subrange(0, id as int) == before.jobs@,
    ensures
        forall|i: int| 0 <= i <= id ==> (#[trigger] after.jobs@[i]).id == i,
        after.jobs@.last().id == id,
{
}

/// Looking up the id that storing a job gave back finds the job just stored,
/// and every earlier job is found as before.
pub proof fn lemma_post_then_get(before: JobStore, after: JobStore, id: u32, job: Response)
    requires
        before.wf(),
        id == before.jobs@.len(),
        after.jobs@.len() == before.jobs@.len() + 1,
        after.jobs@.subrange(0, id as int) == before.jobs@,
        after.jobs@[id as int] == job,
    ensures
        id < after.jobs@.len(),
        after.jobs@[id as int] == job,
        forall|j: int| 0 <= j < id ==> #[trigger] after.jobs@[j] == before.jobs@[j],
{
    assert forall|j: int| 0 <= j < id implies #[trigger] after.jobs@[j] == before.jobs@[j] by {
        assert(after.jobs@.subrange(0, id as int)[j] == after.jobs@[j]);
    }
}

/// Every job in a store of judged jobs has one result per case of its
/// problem plus the compilation's, which comes first and is a success or an
/// error; a job whose compilation failed has the verdict `CompilationError`,
/// scores 0 and has no accepted case.
pub proof fn lemma_stored_jobs(store: JobStore, config: &Config, i: int)
    requires
        store.judged(config),
        0 <= i < store.jobs@.len(),
    ensures
        ({
            let job = store.jobs@[i];
            let problem = config.problems@[job_problem_index(config, job)->Some_0 as int];
            &&& job.cases@.len() == problem.cases@.len() + 1
            &&& (job.cases@[0].result == Result::CompilationSuccess || job.cases@[0].result
                == Result::CompilationError)
            &&& (job.cases@[0].result == Result::CompilationError ==> {
                &&& job.result == Result::CompilationError
                &&& job.score == 0
                &&& forall|k: int|
                    1 <= k < job.cases@.len() ==> (#[trigger] job.cases@[k]).result != Result::Accepted
            })
        }),
{
    let job = store.jobs@[i];
    assert(job_judged(config, job));
    let problem = config.problems@[job_problem_index(config, job)->Some_0 as int];
    if job.cases@[0].result == Result::CompilationError {
        lemma_no_case_counts_while_waiting(&problem, job.cases@, problem.cases@.len() as int);
    }
}

/// Judging a stored job again, with the same problem, to the same verdicts
/// leaves its verdict and score as they were; only times may differ.
pub proof fn lemma_rerun_keeps_outcome(config: &Config, before: Response, after: Response)
    requires
        job_judged(config, before),
        job_judged(config, after),
        after.submission.problem_id == before.submission.problem_id,
        same_verdicts(before.cases@, after.cases@),
    ensures
        after.result == before.result,
        after.score == before.score,
{
    let problem = config.problems@[job_problem_index(config, before)->Some_0 as int];
    lemma_same_verdicts_same_outcome(&problem, before.cases@, after.cases@);
}

} // verus!
