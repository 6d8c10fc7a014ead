//! The ranking engine: from the job store to a contest's rank list.
use vstd::prelude::*;

use crate::config::{problem_index_from, Config, Problem, ProblemType};
use crate::jobs::{created_key, created_key_of, Response, Result};
use crate::sorting::{comes_before, is_ordering, sort_rows, sorted_by};
use crate::contests::{Contest, ContestRegistry};
use crate::error::ApiError;
use crate::jobs::JobStore;
use crate::text::str_eq;
use crate::users::{User, UserDirectory};

verus! {

/// The position of the job's problem in the catalog.
pub open spec fn job_problem(config: &Config, job: Response) -> Option<usize> {
    problem_index_from(config.problems@, job.submission.problem_id, 0)
}

/// The least time of an accepted run of case `i` (0-based) among the first
/// `k` jobs of the store that were judged on problem `pid`.
pub open spec fn shortest_upto(all: Seq<Response>, pid: u32, i: int, k: int) -> Option<u64>
    decreases k,
{
    if k <= 0 || k > all.len() {
        None
    } else {
        let prev = shortest_upto(all, pid, i, k - 1);
        let job = all[k - 1];
        if job.submission.problem_id == pid && i + 1 < job.cases@.len() && job.cases@[i + 1].result
            == Result::Accepted {
            let t = job.cases@[i + 1].time;
            match prev {
                None => Some(t),
                Some(m) => Some(if t < m { t } else { m }),
            }
        } else {
            prev
        }
    }
}

/// The points a case of score `s` keeps under ratio `r` (thousandths) for a
/// run of `t` microseconds when the fastest accepted run took `fastest`:
/// `s * ((1 - r) + r * fastest / t)`, rounded down once. The fastest run
/// (`fastest == t`) keeps all of `s`; the fastest time is taken as at most `t`.
pub open spec fn dynamic_term(s: u64, r: u64, t: u64, fastest: Option<u64>) -> int {
    if t == 0 {
        s as int
    } else {
        let m: int = match fastest {
            None => t as int,
            Some(x) => if x < t { x as int } else { t as int },
        };
        (s as int * ((1000 - r) as int * t as int + r as int * m)) / (1000 * t as int)
    }
}

/// The dynamic score of an accepted job over its first `c` cases, added up
/// with saturation at `u64::MAX`.
pub open spec fn dynamic_sum(all: Seq<Response>, problem: &Problem, r: u64, job: Response, c: int) -> int
    decreases c,
{
    if c <= 0 {
        0
    } else {
        let prev = dynamic_sum(all, problem, r, job, c - 1);
        let i = c - 1;
        let term = if c < job.cases@.len() && job.cases@[c].result == Result::Accepted {
            dynamic_term(
                problem.cases@[i].score,
                r,
                job.cases@[c].time,
                shortest_upto(all, job.submission.problem_id, i, all.len() as int),
            )
        } else {
            0
        };
        if prev + term > u64::MAX {
            u64::MAX as int
        } else {
            prev + term
        }
    }
}

/// The score a job counts with in a rank list. On a dynamic-ranking problem
/// with a ratio `r`, an accepted job scores by its speed against the fastest
/// run of each case in the whole store, and any other job keeps the share `r`
/// of its score; elsewhere the job's own score counts.
pub open spec fn effective_score(config: &Config, all: Seq<Response>, job: Response) -> u64 {
    match job_problem(config, job) {
        Some(p) => {
            let problem = config.problems@[p as int];
            if problem.problem_type == ProblemType::DynamicRanking
                && problem.misc.dynamic_ranking_ratio is Some {
                let r = problem.misc.dynamic_ranking_ratio->Some_0;
                if job.result == Result::Accepted {
                    dynamic_sum(all, &problem, r, job, problem.cases@.len() as int) as u64
                } else {
                    ((job.score * r) as int / 1000) as u64
                }
            } else {
                job.score
            }
        },
        None => job.score,
    }
}

fn shortest(all: &Vec<Response>, pid: u32, i: usize) -> (r: Option<u64>)
    requires
        i < usize::MAX,
    ensures
        r == shortest_upto(all@, pid, i as int, all@.len() as int),
{
    let mut best: Option<u64> = None;
    let mut k: usize = 0;
    while k < all.len()
        invariant
            i < usize::MAX,
            0 <= k <= all@.len(),
            best == shortest_upto(all@, pid, i as int, k as int),
        decreases all@.len() - k,
    {
        let job = &all[k];
        if job.submission.problem_id == pid && i + 1 < job.cases.len() && job.cases[i + 1].result
            == Result::Accepted {
            let t = job.cases[i + 1].time;
            best = match best {
                None => Some(t),
                Some(m) => Some(if t < m { t } else { m }),
            };
        }
        k = k + 1;
    }
    best
}

fn term(s: u64, r: u64, t: u64, fastest: Option<u64>) -> (out: u128)
    requires
        r <= 1000,
    ensures
        out == dynamic_term(s, r, t, fastest),
        out <= s,
{
    if t == 0 {
        return s as u128;
    }
    let m: u64 = match fastest {
        None => t,
        Some(x) => if x < t { x } else { t },
    };
    let s2 = s as u128;
    let r2 = r as u128;
    let t2 = t as u128;
    let m2 = m as u128;
    assert(s2 * r2 <= s2 * 1000) by (nonlinear_arith)
        requires
            r2 <= 1000,
    ;
    assert(s2 * (1000 - r2) <= s2 * 1000) by (nonlinear_arith)
        requires
            r2 <= 1000,
    ;
    let g = s2 * r2;
    let qq = g / t2;
    let rr = g % t2;
    proof {
        vstd::arithmetic::div_mod::lemma_fundamental_div_mod(g as int, t2 as int);
    }
    assert(qq * m2 <= g) by (nonlinear_arith)
        requires
            g == t2 * qq + rr,
            0 <= rr,
            m2 <= t2,
            0 <= qq,
    ;
    assert(rr * m2 < 0x1_0000_0000_0000_0000 * 0x1_0000_0000_0000_0000) by (nonlinear_arith)
        requires
            rr < t2,
            m2 <= t2,
            t2 < 0x1_0000_0000_0000_0000,
    ;
    let low = rr * m2 / t2;
    assert(low <= m2) by (nonlinear_arith)
        requires
            low == (rr * m2) / (t2 as int),
            rr < t2,
            0 < t2,
    ;
    let f = qq * m2 + low;
    let a = s2 * (1000 - r2) + f;
    let out = a / 1000;
    proof {
        let si = s as int;
        let ri = r as int;
        let ti = t as int;
        let mi = m as int;
        let gi = g as int;
        assert(gi == si * ri);
        // floor(g * m / t) == f
        assert(gi * mi == (rr as int * mi) + (qq as int * mi) * ti) by (nonlinear_arith)
            requires
                gi == ti * qq + rr,
        ;
        vstd::arithmetic::div_mod::lemma_hoist_over_denominator(rr as int * mi, qq as int * mi, ti as nat);
        assert(f as int == (gi * mi) / ti);
        // floor(s * W / t) == a
        let w = (1000 - ri) * ti + ri * mi;
        assert(si * w == gi * mi + (si * (1000 - ri)) * ti) by (nonlinear_arith)
            requires
                gi == si * ri,
                w == (1000 - ri) * ti + ri * mi,
        ;
        vstd::arithmetic::div_mod::lemma_hoist_over_denominator(gi * mi, si * (1000 - ri), ti as nat);
        assert(a as int == (si * w) / ti);
        assert(0 <= si * w) by (nonlinear_arith)
            requires
                0 <= si,
                0 <= ri <= 1000,
                0 <= mi,
                0 <= ti,
                w == (1000 - ri) * ti + ri * mi,
        ;
        vstd::arithmetic::div_mod::lemma_div_denominator(si * w, ti, 1000);
        assert(ti * 1000 == 1000 * ti);
        assert(out as int == (si * w) / (1000 * ti));
        // the fastest run keeps at most its score
        assert(si * w <= si * (1000 * ti)) by (nonlinear_arith)
            requires
                0 <= si,
                0 <= ri <= 1000,
                mi <= ti,
                w == (1000 - ri) * ti + ri * mi,
        ;
        vstd::arithmetic::div_mod::lemma_div_is_ordered(si * w, si * (1000 * ti), 1000 * ti);
        vstd::arithmetic::div_mod::lemma_div_by_multiple(si, 1000 * ti);
    }
    out
}

fn dynamic_score(all: &Vec<Response>, problem: &Problem, r: u64, job: &Response) -> (out: u64)
    requires
        r <= 1000,
        problem.wf(),
    ensures
        out == dynamic_sum(all@, problem, r, *job, problem.cases@.len() as int),
{
    let n = problem.cases.len();
    let mut acc: u128 = 0;
    let mut c: usize = 1;
    while c <= n
        invariant
            r <= 1000,
            n == problem.cases@.len(),
            n < u32::MAX,
            1 <= c <= n + 1,
            acc == dynamic_sum(all@, problem, r, *job, c - 1),
            acc <= u64::MAX,
        decreases n + 1 - c,
    {
        let i = c - 1;
        let t: u128 = if c < job.cases.len() && job.cases[c].result == Result::Accepted {
            let fastest = shortest(all, job.submission.problem_id, i);
            term(problem.cases[i].score, r, job.cases[c].time, fastest)
        } else {
            0
        };
        if acc + t > u64::MAX as u128 {
            acc = u64::MAX as u128;
        } else {
            acc = acc + t;
        }
        c = c + 1;
    }
    acc as u64
}

/// The score a job counts with in a rank list (see `effective_score`).
pub fn job_rank_score(config: &Config, all: &Vec<Response>, job: &Response) -> (r: u64)
    requires
        config.wf(),
    ensures
        r == effective_score(config, all@, *job),
{
    match config.problem_index(job.submission.problem_id) {
        None => job.score,
        Some(p) => {
            let problem = &config.problems[p];
            assert(problem.wf());
            if problem.problem_type == ProblemType::DynamicRanking {
                match problem.misc.dynamic_ranking_ratio {
                    None => job.score,
                    Some(r) => {
                        if job.result == Result::Accepted {
                            dynamic_score(all, problem, r, job)
                        } else {
                            assert(job.score as int * r as int <= u64::MAX as int * 1000)
                                by (nonlinear_arith)
                                requires
                                    r <= 1000,
                                    job.score <= u64::MAX,
                            ;
                            let x = job.score as u128 * r as u128;
                            assert(x / 1000 <= u64::MAX) by (nonlinear_arith)
                                requires
                                    x == job.score as int * r as int,
                                    r <= 1000,
                                    job.score <= u64::MAX,
                            ;
                            (x / 1000) as u64
                        }
                    },
                }
            } else {
                job.score
            }
        },
    }
}

/// Which of a user's submissions to a problem counts.
#[derive(Clone, Copy, Debug, PartialEq, Eq, Structural)]
pub enum ScoringRule {
    /// The one created last.
    Latest,
    /// The one with the highest score; the earliest among equals.
    Highest,
}

impl ScoringRule {
    /// The rule a request names: `highest`, and otherwise the default, `latest`.
    pub fn from_name(name: &str) -> (r: ScoringRule)
        ensures
            r == (if name@ == "highest"@ {
                ScoringRule::Highest
            } else {
                ScoringRule::Latest
            }),
    {
        if str_eq(name, "highest") {
            ScoringRule::Highest
        } else {
            ScoringRule::Latest
        }
    }
}

/// How users with equal totals are ordered and ranked.
#[derive(Clone, Copy, Debug, PartialEq, Eq, Structural)]
pub enum TieBreaker {
    /// Earlier last counted submission first; users without one last.
    SubmissionTime,
    /// Fewer submissions first.
    SubmissionCount,
    /// By user id, with no shared ranks.
    UserId,
}

impl TieBreaker {
    /// The tie-breaker a request names; `None` (the default) for any other name.
    pub fn from_name(name: &str) -> (r: Option<TieBreaker>)
        ensures
            r == (if name@ == "submission_time"@ {
                Some(TieBreaker::SubmissionTime)
            } else if name@ == "submission_count"@ {
                Some(TieBreaker::SubmissionCount)
            } else if name@ == "user_id"@ {
                Some(TieBreaker::UserId)
            } else {
                None
            }),
    {
        if str_eq(name, "submission_time") {
            Some(TieBreaker::SubmissionTime)
        } else if str_eq(name, "submission_count") {
            Some(TieBreaker::SubmissionCount)
        } else if str_eq(name, "user_id") {
            Some(TieBreaker::UserId)
        } else {
            None
        }
    }
}

/// The parameters of a rank list.
#[derive(Clone, Copy, Debug, PartialEq, Eq, Structural)]
pub struct RankQuery {
    /// 0 for all jobs, users and problems.
    pub contest_id: u32,
    pub scoring_rule: ScoringRule,
    /// `None`: by user id, with equal totals sharing a rank.
    pub tie_breaker: Option<TieBreaker>,
}

/// The job counts in the rank list: it is in the contest (any job for
/// contest 0) and names a known user and a known problem.
pub open spec fn counted(config: &Config, n_users: int, q: RankQuery, job: Response) -> bool {
    &&& (q.contest_id == 0 || job.submission.contest_id == q.contest_id)
    &&& job.submission.user_id < n_users
    &&& job_problem(config, job) is Some
}

/// The cell of user `u` and problem position `p` after the first `k` jobs:
/// the counting score and the creation key of the job that set it.
pub open spec fn cell_after(
    config: &Config,
    all: Seq<Response>,
    n_users: int,
    q: RankQuery,
    u: int,
    p: int,
    k: int,
) -> (u64, Option<u128>)
    decreases k,
{
    if k <= 0 || k > all.len() {
        (0, None)
    } else {
        let prev = cell_after(config, all, n_users, q, u, p, k - 1);
        let job = all[k - 1];
        if counted(config, n_users, q, job) && job.submission.user_id == u && job_problem(
            config,
            job,
        ) == Some(p as usize) {
            let s = effective_score(config, all, job);
            let t = created_key(job.created_time@);
            match q.scoring_rule {
                ScoringRule::Highest => if s > prev.0 {
                    (s, Some(t))
                } else {
                    prev
                },
                ScoringRule::Latest => if prev.1 is None || t > prev.1->Some_0 {
                    (s, Some(t))
                } else {
                    prev
                },
            }
        } else {
            prev
        }
    }
}

/// The number of counted jobs of user `u` among the first `k`.
pub open spec fn count_after(config: &Config, all: Seq<Response>, n_users: int, q: RankQuery, u: int, k: int) -> int
    decreases k,
{
    if k <= 0 || k > all.len() {
        0
    } else {
        count_after(config, all, n_users, q, u, k - 1) + if counted(config, n_users, q, all[k - 1])
            && all[k - 1].submission.user_id == u {
            1int
        } else {
            0
        }
    }
}

/// The final cell of user `u` and problem position `p`.
pub open spec fn cell(config: &Config, all: Seq<Response>, n_users: int, q: RankQuery, u: int, p: int) -> (u64, Option<u128>) {
    cell_after(config, all, n_users, q, u, p, all.len() as int)
}

/// The number of counted jobs of user `u`.
pub open spec fn submissions(config: &Config, all: Seq<Response>, n_users: int, q: RankQuery, u: int) -> int {
    count_after(config, all, n_users, q, u, all.len() as int)
}

proof fn lemma_count_bound(config: &Config, all: Seq<Response>, n_users: int, q: RankQuery, u: int, k: int)
    requires
        0 <= k <= all.len(),
    ensures
        0 <= count_after(config, all, n_users, q, u, k) <= k,
    decreases k,
{
    if k > 0 {
        lemma_count_bound(config, all, n_users, q, u, k - 1);
    }
}

/// The score table (users by problem positions) and each user's number of
/// counted jobs.
fn build_table(config: &Config, all: &Vec<Response>, n_users: usize, q: RankQuery) -> (r: (
    Vec<Vec<(u64, Option<u128>)>>,
    Vec<u64>,
))
    requires
        config.wf(),
        all@.len() <= u64::MAX,
    ensures
        r.0@.len() == n_users,
        r.1@.len() == n_users,
        forall|u: int| 0 <= u < n_users ==> (#[trigger] r.0@[u])@.len() == config.problems@.len(),
        forall|u: int, p: int|
            0 <= u < n_users && 0 <= p < config.problems@.len() ==> #[trigger] r.0@[u]@[p] == cell(
                config,
                all@,
                n_users as int,
                q,
                u,
                p,
            ),
        forall|u: int| 0 <= u < n_users ==> #[trigger] r.1@[u] == submissions(config, all@, n_users as int, q, u),
{
    let np = config.problems.len();
    let mut table: Vec<Vec<(u64, Option<u128>)>> = Vec::new();
    let mut counts: Vec<u64> = Vec::new();
    let mut u: usize = 0;
    while u < n_users
        invariant
            0 <= u <= n_users,
            np == config.problems@.len(),
            table@.len() == u,
            counts@.len() == u,
            forall|v: int| 0 <= v < u ==> (#[trigger] table@[v])@.len() == np,
            forall|v: int, p: int| 0 <= v < u && 0 <= p < np ==> #[trigger] table@[v]@[p] == (0u64, None::<u128>),
            forall|v: int| 0 <= v < u ==> #[trigger] counts@[v] == 0,
        decreases n_users - u,
    {
        let mut row: Vec<(u64, Option<u128>)> = Vec::new();
        let mut p: usize = 0;
        while p < np
            invariant
                0 <= p <= np,
                row@.len() == p,
                forall|x: int| 0 <= x < p ==> #[trigger] row@[x] == (0u64, None::<u128>),
            decreases np - p,
        {
            row.push((0, None));
            p = p + 1;
        }
        table.push(row);
        counts.push(0);
        u = u + 1;
    }
    let mut k: usize = 0;
    while k < all.len()
        invariant
            config.wf(),
            all@.len() <= u64::MAX,
            np == config.problems@.len(),
            0 <= k <= all@.len(),
            table@.len() == n_users,
            counts@.len() == n_users,
            forall|v: int| 0 <= v < n_users ==> (#[trigger] table@[v])@.len() == np,
            forall|v: int, p: int|
                0 <= v < n_users && 0 <= p < np ==> #[trigger] table@[v]@[p] == cell_after(
                    config,
                    all@,
                    n_users as int,
                    q,
                    v,
                    p,
                    k as int,
                ),
            forall|v: int| 0 <= v < n_users ==> #[trigger] counts@[v] == count_after(config, all@, n_users as int, q, v, k as int),
        decreases all@.len() - k,
    {
        let job = &all[k];
        let uid = job.submission.user_id as usize;
        let in_scope = q.contest_id == 0 || job.submission.contest_id == q.contest_id;
        if in_scope && uid < n_users {
            match config.problem_index(job.submission.problem_id) {
                None => {},
                Some(p) => {
                    let s = job_rank_score(config, all, job);
                    let t = created_key_of(&job.created_time);
                    let prev = table[uid][p];
                    let replace = match q.scoring_rule {
                        ScoringRule::Highest => s > prev.0,
                        ScoringRule::Latest => match prev.1 {
                            None => true,
                            Some(pt) => t > pt,
                        },
                    };
                    if replace {
                        table[uid].set(p, (s, Some(t)));
                    }
                    proof {
                        lemma_count_bound(config, all@, n_users as int, q, uid as int, k as int);
                    }
                    let c = counts[uid];
                    counts.set(uid, c + 1);
                },
            }
        }
        k = k + 1;
    }
    (table, counts)
}

/// The sum of the first `p` cells of user `u`.
pub open spec fn total_upto(config: &Config, all: Seq<Response>, n_users: int, q: RankQuery, u: int, p: int) -> int
    decreases p,
{
    if p <= 0 {
        0
    } else {
        total_upto(config, all, n_users, q, u, p - 1) + cell(config, all, n_users, q, u, p - 1).0
    }
}

/// The latest creation key among the first `p` cells of user `u`.
pub open spec fn latest_upto(config: &Config, all: Seq<Response>, n_users: int, q: RankQuery, u: int, p: int) -> Option<u128>
    decreases p,
{
    if p <= 0 {
        None
    } else {
        let prev = latest_upto(config, all, n_users, q, u, p - 1);
        match cell(config, all, n_users, q, u, p - 1).1 {
            None => prev,
            Some(t) => match prev {
                None => Some(t),
                Some(m) => Some(if t > m { t } else { m }),
            },
        }
    }
}

/// The tie key of a user who has no counted submission under the
/// submission-time tie-breaker: after every creation key.
pub const NO_SUBMISSION: u128 = 0x4_0000_0000_0000_0000_0000_0000;

/// The part of a user's sort key that breaks ties between equal totals.
pub open spec fn tie_key(config: &Config, all: Seq<Response>, n_users: int, q: RankQuery, u: int) -> u128 {
    match q.tie_breaker {
        Some(TieBreaker::SubmissionCount) => submissions(config, all, n_users, q, u) as u128,
        Some(TieBreaker::SubmissionTime) => match latest_upto(
            config,
            all,
            n_users,
            q,
            u,
            config.problems@.len() as int,
        ) {
            None => NO_SUBMISSION,
            Some(t) => t,
        },
        _ => 0,
    }
}

/// The total score of user `u`.
pub open spec fn user_total(config: &Config, all: Seq<Response>, n_users: int, q: RankQuery, u: int) -> int {
    total_upto(config, all, n_users, q, u, config.problems@.len() as int)
}

/// The sort keys of the users: higher totals first, then the tie key.
pub open spec fn row_keys(config: &Config, all: Seq<Response>, n_users: int, q: RankQuery) -> Seq<(u128, u128)> {
    Seq::new(
        n_users as nat,
        |u: int|
            (
                (u128::MAX - user_total(config, all, n_users, q, u)) as u128,
                tie_key(config, all, n_users, q, u),
            ),
    )
}

/// The rank of the `k`-th row: one more than the rows before it, unless it
/// ties with the row above (same sort key, and a tie-breaker other than the
/// user id), in which case it shares that row's rank.
pub open spec fn rank_at(keys: Seq<(u128, u128)>, order: Seq<usize>, tie: Option<TieBreaker>, k: int) -> int
    decreases k,
{
    if k <= 0 {
        1
    } else if tie == Some(TieBreaker::UserId) {
        k + 1
    } else if keys[order[k] as int] == keys[order[k - 1] as int] {
        rank_at(keys, order, tie, k - 1)
    } else {
        k + 1
    }
}

/// One row of a rank list.
pub struct RankEntry {
    pub user: User,
    pub rank: u64,
    /// Per problem: by catalog position, or in the contest's problem order.
    pub scores: Vec<u64>,
    pub submission_count: u64,
}

/// The user ids of the rows, in row order.
pub open spec fn row_users(rows: Seq<RankEntry>) -> Seq<usize> {
    Seq::new(rows.len(), |k: int| rows[k].user.id->Some_0 as usize)
}

/// `rows` is the rank list of every user: sorted by key (ties by user id),
/// ranked, with each user's name, scores by catalog position, and number of
/// counted jobs.
pub open spec fn ranked(config: &Config, users: Seq<Seq<char>>, all: Seq<Response>, q: RankQuery, rows: Seq<RankEntry>) -> bool {
    let n = users.len() as int;
    let keys = row_keys(config, all, n, q);
    let ids = row_users(rows);
    &&& rows.len() == n
    &&& forall|k: int| 0 <= k < rows.len() ==> (#[trigger] rows[k]).user.id is Some
    &&& is_ordering(ids, n)
    &&& sorted_by(keys, ids)
    &&& forall|k: int|
        0 <= k < rows.len() ==> {
            let u = ids[k] as int;
            &&& (#[trigger] rows[k]).rank == rank_at(keys, ids, q.tie_breaker, k)
            &&& rows[k].user.name@ == users[u]
            &&& rows[k].submission_count == submissions(config, all, n, q, u)
            &&& rows[k].scores@ == Seq::new(
                config.problems@.len(),
                |p: int| cell(config, all, n, q, u, p).0,
            )
        }
}

proof fn lemma_total_bound(config: &Config, all: Seq<Response>, n_users: int, q: RankQuery, u: int, p: int)
    requires
        0 <= p <= config.problems@.len(),
    ensures
        0 <= total_upto(config, all, n_users, q, u, p) <= p * (u64::MAX as int),
    decreases p,
{
    if p > 0 {
        lemma_total_bound(config, all, n_users, q, u, p - 1);
    }
}

proof fn lemma_total_fits(p: int)
    requires
        0 <= p <= usize::MAX,
    ensures
        p * (u64::MAX as int) <= u128::MAX,
{
    assert(p * (u64::MAX as int) <= (usize::MAX as int) * (u64::MAX as int)) by (nonlinear_arith)
        requires
            0 <= p <= usize::MAX,
    ;
}

/// The total and the latest creation key of one row of the table.
fn row_summary(
    config: &Config,
    all: &Vec<Response>,
    n_users: usize,
    q: RankQuery,
    u: usize,
    row: &Vec<(u64, Option<u128>)>,
) -> (r: (u128, Option<u128>))
    requires
        row@.len() == config.problems@.len(),
        forall|p: int| 0 <= p < row@.len() ==> #[trigger] row@[p] == cell(config, all@, n_users as int, q, u as int, p),
    ensures
        r.0 == user_total(config, all@, n_users as int, q, u as int),
        r.1 == latest_upto(config, all@, n_users as int, q, u as int, config.problems@.len() as int),
{
    let np = row.len();
    let mut total: u128 = 0;
    let mut latest: Option<u128> = None;
    let mut p: usize = 0;
    while p < np
        invariant
            np == row@.len(),
            row@.len() == config.problems@.len(),
            forall|x: int| 0 <= x < row@.len() ==> #[trigger] row@[x] == cell(config, all@, n_users as int, q, u as int, x),
            0 <= p <= np,
            total == total_upto(config, all@, n_users as int, q, u as int, p as int),
            latest == latest_upto(config, all@, n_users as int, q, u as int, p as int),
        decreases np - p,
    {
        proof {
            lemma_total_bound(config, all@, n_users as int, q, u as int, p as int + 1);
            lemma_total_fits(p as int + 1);
        }
        let c = row[p];
        total = total + c.0 as u128;
        match c.1 {
            None => {},
            Some(t) => {
                latest = match latest {
                    None => Some(t),
                    Some(m) => Some(if t > m { t } else { m }),
                };
            },
        }
        p = p + 1;
    }
    (total, latest)
}

/// The rank list of every user (no contest projection): users ordered by
/// total, highest first, then by the tie-breaker, then by id; ranks as
/// `rank_at` gives them.
pub fn rank_rows(config: &Config, users: &UserDirectory, all: &Vec<Response>, q: RankQuery) -> (r: Vec<RankEntry>)
    requires
        config.wf(),
        users.wf(),
        all@.len() <= u64::MAX,
    ensures
        ranked(config, users@, all@, q, r@),
{
    let nu = users.users.len();
    let ghost n = nu as int;
    let np = config.problems.len();
    let (table, counts) = build_table(config, all, nu, q);
    let mut keys: Vec<(u128, u128)> = Vec::new();
    let mut u: usize = 0;
    while u < nu
        invariant
            nu == users@.len(),
            n == nu,
            np == config.problems@.len(),
            0 <= u <= nu,
            table@.len() == nu,
            counts@.len() == nu,
            forall|v: int| 0 <= v < nu ==> (#[trigger] table@[v])@.len() == np,
            forall|v: int, p: int|
                0 <= v < nu && 0 <= p < np ==> #[trigger] table@[v]@[p] == cell(config, all@, n, q, v, p),
            forall|v: int| 0 <= v < nu ==> #[trigger] counts@[v] == submissions(config, all@, n, q, v),
            keys@.len() == u,
            forall|v: int| 0 <= v < u ==> #[trigger] keys@[v] == row_keys(config, all@, n, q)[v],
        decreases nu - u,
    {
        let (total, latest) = row_summary(config, all, nu, q, u, &table[u]);
        let tie: u128 = match q.tie_breaker {
            Some(TieBreaker::SubmissionCount) => counts[u] as u128,
            Some(TieBreaker::SubmissionTime) => match latest {
                None => NO_SUBMISSION,
                Some(t) => t,
            },
            _ => 0,
        };
        keys.push((u128::MAX - total, tie));
        u = u + 1;
    }
    assert(keys@ =~= row_keys(config, all@, n, q));
    let order = sort_rows(&keys);
    let mut rows: Vec<RankEntry> = Vec::new();
    let mut k: usize = 0;
    let mut rank: u64 = 1;
    while k < nu
        invariant
            users.wf(),
            nu == users@.len(),
            n == nu,
            np == config.problems@.len(),
            table@.len() == nu,
            counts@.len() == nu,
            forall|v: int| 0 <= v < nu ==> (#[trigger] table@[v])@.len() == np,
            forall|v: int, p: int|
                0 <= v < nu && 0 <= p < np ==> #[trigger] table@[v]@[p] == cell(config, all@, n, q, v, p),
            forall|v: int| 0 <= v < nu ==> #[trigger] counts@[v] == submissions(config, all@, n, q, v),
            keys@ == row_keys(config, all@, n, q),
            is_ordering(order@, n),
            sorted_by(keys@, order@),
            0 <= k <= nu,
            rows@.len() == k,
            k > 0 ==> rank == rank_at(keys@, order@, q.tie_breaker, k - 1),
            forall|j: int| 0 <= j < k ==> (#[trigger] rows@[j]).user.id == Some(order@[j] as u32),
            forall|j: int|
                0 <= j < k ==> {
                    let v = order@[j] as int;
                    &&& (#[trigger] rows@[j]).rank == rank_at(keys@, order@, q.tie_breaker, j)
                    &&& rows@[j].user.name@ == users@[v]
                    &&& rows@[j].submission_count == submissions(config, all@, n, q, v)
                    &&& rows@[j].scores@ == Seq::new(np as nat, |p: int| cell(config, all@, n, q, v, p).0)
                },
        decreases nu - k,
    {
        let v = order[k];
        if k == 0 {
            rank = 1;
        } else if q.tie_breaker == Some(TieBreaker::UserId) {
            rank = k as u64 + 1;
        } else if keys[order[k]].0 != keys[order[k - 1]].0 || keys[order[k]].1 != keys[order[k
            - 1]].1 {
            rank = k as u64 + 1;
        }
        let mut scores: Vec<u64> = Vec::new();
        let mut p: usize = 0;
        while p < np
            invariant
                v < nu,
                table@.len() == nu,
                np == config.problems@.len(),
                (table@[v as int])@.len() == np,
                forall|x: int| 0 <= x < np ==> #[trigger] table@[v as int]@[x] == cell(config, all@, n, q, v as int, x),
                0 <= p <= np,
                scores@.len() == p,
                forall|x: int| 0 <= x < p ==> #[trigger] scores@[x] == cell(config, all@, n, q, v as int, x).0,
            decreases np - p,
        {
            scores.push(table[v][p].0);
            p = p + 1;
        }
        assert(scores@ =~= Seq::new(np as nat, |p: int| cell(config, all@, n, q, v as int, p).0));
        let user = User { id: Some(v as u32), name: users.users[v].name.clone() };
        rows.push(RankEntry { user, rank, scores, submission_count: counts[v] });
        k = k + 1;
    }
    proof {
        assert(row_users(rows@) =~= order@);
    }
    rows
}

/// The positions among the first `k` rows whose user takes part in the
/// contest, in order.
pub open spec fn kept_upto(rows: Seq<RankEntry>, members: Seq<usize>, k: int) -> Seq<int>
    decreases k,
{
    if k <= 0 {
        seq![]
    } else {
        let prev = kept_upto(rows, members, k - 1);
        if rows[k - 1].user.id is Some && members.contains(rows[k - 1].user.id->Some_0 as usize) {
            prev.push(k - 1)
        } else {
            prev
        }
    }
}

/// The score, among scores by catalog position, of the problem with the
/// given external id; 0 when there is no such problem.
pub open spec fn contest_score(config: &Config, scores: Seq<u64>, pid: usize) -> u64 {
    if pid <= u32::MAX {
        match problem_index_from(config.problems@, pid as u32, 0) {
            Some(i) => if i < scores.len() {
                scores[i as int]
            } else {
                0
            },
            None => 0,
        }
    } else {
        0
    }
}

/// `out` is `rows` cut down to the contest: only its users, in the same
/// order and with the same ranks, and scores only for its problems, in its
/// order.
pub open spec fn projected(config: &Config, contest: &Contest, rows: Seq<RankEntry>, out: Seq<RankEntry>) -> bool {
    let kept = kept_upto(rows, contest.user_ids@, rows.len() as int);
    &&& out.len() == kept.len()
    &&& forall|m: int|
        0 <= m < out.len() ==> {
            let row = rows[kept[m]];
            &&& (#[trigger] out[m]).user.id == row.user.id
            &&& out[m].user.name@ == row.user.name@
            &&& out[m].rank == row.rank
            &&& out[m].submission_count == row.submission_count
            &&& out[m].scores@ == Seq::new(
                contest.problem_ids@.len(),
                |j: int| contest_score(config, row.scores@, contest.problem_ids@[j]),
            )
        }
}

fn has_id(ids: &Vec<usize>, x: usize) -> (r: bool)
    ensures
        r == ids@.contains(x),
{
    let mut i: usize = 0;
    while i < ids.len()
        invariant
            0 <= i <= ids@.len(),
            forall|j: int| 0 <= j < i ==> ids@[j] != x,
        decreases ids@.len() - i,
    {
        if ids[i] == x {
            assert(ids@[i as int] == x);
            return true;
        }
        i = i + 1;
    }
    false
}

proof fn lemma_kept_bounds(rows: Seq<RankEntry>, members: Seq<usize>, k: int)
    requires
        0 <= k <= rows.len(),
    ensures
        kept_upto(rows, members, k).len() <= k,
        forall|m: int|
            0 <= m < kept_upto(rows, members, k).len() ==> 0 <= #[trigger] kept_upto(rows, members, k)[m] < k,
    decreases k,
{
    if k > 0 {
        lemma_kept_bounds(rows, members, k - 1);
    }
}

/// Cuts a rank list down to a contest's users and problems.
pub fn project_to_contest(config: &Config, contest: &Contest, rows: &Vec<RankEntry>) -> (out: Vec<RankEntry>)
    ensures
        projected(config, contest, rows@, out@),
{
    let mut out: Vec<RankEntry> = Vec::new();
    let mut k: usize = 0;
    while k < rows.len()
        invariant
            0 <= k <= rows@.len(),
            out@.len() == kept_upto(rows@, contest.user_ids@, k as int).len(),
            forall|m: int|
                0 <= m < out@.len() ==> {
                    let row = rows@[kept_upto(rows@, contest.user_ids@, k as int)[m]];
                    &&& (#[trigger] out@[m]).user.id == row.user.id
                    &&& out@[m].user.name@ == row.user.name@
                    &&& out@[m].rank == row.rank
                    &&& out@[m].submission_count == row.submission_count
                    &&& out@[m].scores@ == Seq::new(
                        contest.problem_ids@.len(),
                        |j: int| contest_score(config, row.scores@, contest.problem_ids@[j]),
                    )
                },
        decreases rows@.len() - k,
    {
        let row = &rows[k];
        let uid: usize = match row.user.id {
            Some(id) => id as usize,
            None => 0,
        };
        proof {
            lemma_kept_bounds(rows@, contest.user_ids@, k as int);
        }
        let ghost before = out@;
        if row.user.id.is_some() && has_id(&contest.user_ids, uid) {
            let mut scores: Vec<u64> = Vec::new();
            let mut j: usize = 0;
            while j < contest.problem_ids.len()
                invariant
                    0 <= j <= contest.problem_ids@.len(),
                    scores@.len() == j,
                    forall|x: int|
                        0 <= x < j ==> #[trigger] scores@[x] == contest_score(
                            config,
                            row.scores@,
                            contest.problem_ids@[x],
                        ),
                decreases contest.problem_ids@.len() - j,
            {
                let pid = contest.problem_ids[j];
                let mut sc: u64 = 0;
                if pid <= u32::MAX as usize {
                    match config.problem_index(pid as u32) {
                        Some(i) => {
                            if i < row.scores.len() {
                                sc = row.scores[i];
                            }
                        },
                        None => {},
                    }
                }
                scores.push(sc);
                j = j + 1;
            }
            assert(scores@ =~= Seq::new(
                contest.problem_ids@.len(),
                |x: int| contest_score(config, row.scores@, contest.problem_ids@[x]),
            ));
            let user = User { id: row.user.id, name: row.user.name.clone() };
            out.push(
                RankEntry {
                    user,
                    rank: row.rank,
                    scores,
                    submission_count: row.submission_count,
                },
            );
            proof {
                let kept = kept_upto(rows@, contest.user_ids@, k as int + 1);
                assert(kept == kept_upto(rows@, contest.user_ids@, k as int).push(k as int));
                assert forall|m: int| 0 <= m < out@.len() implies {
                    let row = rows@[kept[m]];
                    &&& (#[trigger] out@[m]).user.id == row.user.id
                    &&& out@[m].user.name@ == row.user.name@
                    &&& out@[m].rank == row.rank
                    &&& out@[m].submission_count == row.submission_count
                    &&& out@[m].scores@ == Seq::new(
                        contest.problem_ids@.len(),
                        |j: int| contest_score(config, row.scores@, contest.problem_ids@[j]),
                    )
                } by {
                    if m < before.len() {
                        assert(out@[m] == before[m]);
                    }
                }
            }
        }
        k = k + 1;
    }
    out
}

/// The rank list of a contest. Contest 0 ranks every user on every problem;
/// another contest ranks only its jobs, keeps only its users (with the ranks
/// they had among all users), and lists scores only for its problems. An
/// unknown contest is `NotFound`.
pub fn get_contests_ranklist(
    config: &Config,
    users: &UserDirectory,
    jobs: &JobStore,
    contests: &ContestRegistry,
    q: RankQuery,
) -> (r: std::result::Result<Vec<RankEntry>, ApiError>)
    requires
        config.wf(),
        users.wf(),
        jobs.wf(),
    ensures
        q.contest_id >= contests.contests@.len() ==> r == Err::<Vec<RankEntry>, ApiError>(
            ApiError::NotFound,
        ),
        q.contest_id == 0 && contests.contests@.len() > 0 ==> (r matches Ok(out) && ranked(
            config,
            users@,
            jobs.jobs@,
            q,
            out@,
        )),
        0 < q.contest_id < contests.contests@.len() ==> (r matches Ok(out) && exists|
            rows: Seq<RankEntry>,
        |
            ranked(config, users@, jobs.jobs@, q, rows) && projected(
                config,
                &contests.contests@[q.contest_id as int],
                rows,
                out@,
            )),
{
    if q.contest_id as usize >= contests.contests.len() {
        return Err(ApiError::NotFound);
    }
    let rows = rank_rows(config, users, &jobs.jobs, q);
    if q.contest_id == 0 {
        Ok(rows)
    } else {
        let out = project_to_contest(config, &contests.contests[q.contest_id as usize], &rows);
        Ok(out)
    }
}

} // verus!
