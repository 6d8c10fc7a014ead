//! The contest registry. Contest 0 is the global contest: every job, every
//! user, every problem.
use vstd::prelude::*;

use crate::config::{problem_index_from, Config};
use crate::error::ApiError;
use crate::users::UserDirectory;

verus! {

broadcast use {vstd::seq_lib::to_multiset_build, vstd::seq_lib::to_multiset_insert};

/// A contest: a time window, the problems and users it admits, and a cap on
/// submissions.
pub struct Contest {
    pub id: usize,
    pub name: String,
    pub from: String,
    pub to: String,
    /// External problem ids, ascending.
    pub problem_ids: Vec<usize>,
    /// User ids, ascending.
    pub user_ids: Vec<usize>,
    pub submission_limit: u32,
}

/// A request to create (no id) or update (with an id) a contest.
pub struct PostContest {
    pub id: Option<usize>,
    pub name: String,
    pub from: String,
    pub to: String,
    pub problem_ids: Vec<usize>,
    pub user_ids: Vec<usize>,
    pub submission_limit: u32,
}

/// All contests, in order of id.
pub struct ContestRegistry {
    pub contests: Vec<Contest>,
}

/// The sequence is in ascending order.
pub open spec fn ascending(s: Seq<usize>) -> bool {
    forall|i: int, j: int| 0 <= i <= j < s.len() ==> s[i] <= s[j]
}

/// The ids in ascending order.
pub fn sort_ids(v: &Vec<usize>) -> (r: Vec<usize>)
    ensures
        ascending(r@),
        r@.to_multiset() == v@.to_multiset(),
{
    let mut r: Vec<usize> = Vec::new();
    let mut i: usize = 0;
    assert(r@ =~= v@.subrange(0, 0));
    while i < v.len()
        invariant
            0 <= i <= v@.len(),
            ascending(r@),
            r@.to_multiset() == v@.subrange(0, i as int).to_multiset(),
        decreases v@.len() - i,
    {
        let x = v[i];
        let mut p: usize = r.len();
        while p > 0 && r[p - 1] > x
            invariant
                0 <= p <= r@.len(),
                forall|j: int| p <= j < r@.len() ==> r@[j] > x,
            decreases p,
        {
            p = p - 1;
        }
        let ghost before = r@;
        r.insert(p, x);
        proof {
            assert(v@.subrange(0, i + 1) =~= v@.subrange(0, i as int).push(x));
            assert(r@ =~= before.insert(p as int, x));
            assert forall|a: int, b: int| 0 <= a <= b < r@.len() implies r@[a] <= r@[b] by {
                if a < p && b > p {
                    assert(r@[a] == before[a]);
                    assert(r@[b] == before[b - 1]);
                    if p > 0 {
                        assert(before[p - 1] <= x);
                    }
                } else if a < p && b == p {
                    assert(before[a] <= before[p - 1]);
                } else if a == p && b > p {
                    assert(r@[b] == before[b - 1]);
                } else if a > p {
                    assert(r@[a] == before[a - 1]);
                    assert(r@[b] == before[b - 1]);
                }
            }
        }
        i = i + 1;
    }
    assert(v@.subrange(0, v@.len() as int) =~= v@);
    r
}

/// Every external problem id names a problem of the catalog.
pub open spec fn problems_valid(config: &Config, ids: Seq<usize>) -> bool {
    forall|i: int|
        0 <= i < ids.len() ==> (#[trigger] ids[i]) <= u32::MAX && problem_index_from(
            config.problems@,
            ids[i] as u32,
            0,
        ) is Some
}

/// Every user id names a user of the directory.
pub open spec fn users_valid(users: Seq<Seq<char>>, ids: Seq<usize>) -> bool {
    forall|i: int| 0 <= i < ids.len() ==> #[trigger] ids[i] < users.len()
}

fn all_problems_valid(config: &Config, ids: &Vec<usize>) -> (r: bool)
    ensures
        r == problems_valid(config, ids@),
{
    let mut i: usize = 0;
    while i < ids.len()
        invariant
            0 <= i <= ids@.len(),
            forall|j: int|
                0 <= j < i ==> (#[trigger] ids@[j]) <= u32::MAX && problem_index_from(
                    config.problems@,
                    ids@[j] as u32,
                    0,
                ) is Some,
        decreases ids@.len() - i,
    {
        if ids[i] > u32::MAX as usize {
            return false;
        }
        if config.problem_index(ids[i] as u32).is_none() {
            return false;
        }
        i = i + 1;
    }
    true
}

fn all_users_valid(users: &UserDirectory, ids: &Vec<usize>) -> (r: bool)
    ensures
        r == users_valid(users@, ids@),
{
    let mut i: usize = 0;
    while i < ids.len()
        invariant
            0 <= i <= ids@.len(),
            forall|j: int| 0 <= j < i ==> #[trigger] ids@[j] < users@.len(),
        decreases ids@.len() - i,
    {
        if ids[i] >= users.len() {
            return false;
        }
        i = i + 1;
    }
    true
}

/// The global contest: no name, no time window, no listed problems or users
/// (meaning all of them), and no submission cap.
pub open spec fn is_global(c: Contest) -> bool {
    &&& c.id == 0
    &&& c.name@.len() == 0
    &&& c.from@.len() == 0
    &&& c.to@.len() == 0
    &&& c.problem_ids@.len() == 0
    &&& c.user_ids@.len() == 0
    &&& c.submission_limit == 0
}

impl ContestRegistry {
    /// Each contest's id is its position; contest 0 is the global one.
    pub open spec fn wf(&self) -> bool {
        &&& self.contests@.len() >= 1
        &&& forall|i: int| 0 <= i < self.contests@.len() ==> (#[trigger] self.contests@[i]).id == i
        &&& is_global(self.contests@[0])
    }

    /// A registry that holds the global contest alone.
    pub fn new() -> (r: ContestRegistry)
        ensures
            r.wf(),
            r.contests@.len() == 1,
            is_global(r.contests@[0]),
    {
        let mut contests: Vec<Contest> = Vec::new();
        contests.push(
            Contest {
                id: 0,
                name: String::new(),
                from: String::new(),
                to: String::new(),
                problem_ids: Vec::new(),
                user_ids: Vec::new(),
                submission_limit: 0,
            },
        );
        ContestRegistry { contests }
    }

    /// Creates a contest (no id: it gets the next id) or replaces one (with
    /// an id). Fails with `NotFound` when a problem id or a user id is
    /// unknown, when the id is 0, or when it names no contest. The stored
    /// contest keeps its problem and user ids in ascending order. Returns its id.
    pub fn post_contest(&mut self, body: PostContest, config: &Config, users: &UserDirectory) -> (r:
        std::result::Result<usize, ApiError>)
        requires
            old(self).wf(),
            body.id is None ==> old(self).contests@.len() < usize::MAX,
        ensures
            final(self).wf(),
            (r is Err) == (!problems_valid(config, body.problem_ids@) || !users_valid(
                users@,
                body.user_ids@,
            ) || body.id == Some(0usize) || (body.id matches Some(id) && id >= old(
                self,
            ).contests@.len())),
            r is Err ==> r == Err::<usize, ApiError>(ApiError::NotFound) && final(self).contests@
                == old(self).contests@,
            r matches Ok(id) ==> {
                &&& id == match body.id {
                    Some(i) => i,
                    None => old(self).contests@.len() as usize,
                }
                &&& final(self).contests@.len() == if body.id is None {
                    old(self).contests@.len() + 1
                } else {
                    old(self).contests@.len() + 0
                }
                &&& forall|j: int|
                    0 <= j < final(self).contests@.len() && j != id ==> final(self).contests@[j]
                        == old(self).contests@[j]
                &&& final(self).contests@[id as int].name@ == body.name@
                &&& final(self).contests@[id as int].from@ == body.from@
                &&& final(self).contests@[id as int].to@ == body.to@
                &&& ascending(final(self).contests@[id as int].problem_ids@)
                &&& final(self).contests@[id as int].problem_ids@.to_multiset()
                    == body.problem_ids@.to_multiset()
                &&& ascending(final(self).contests@[id as int].user_ids@)
                &&& final(self).contests@[id as int].user_ids@.to_multiset()
                    == body.user_ids@.to_multiset()
                &&& final(self).contests@[id as int].submission_limit == body.submission_limit
            },
    {
        let problem_ids = sort_ids(&body.problem_ids);
        let user_ids = sort_ids(&body.user_ids);
        if !all_problems_valid(config, &body.problem_ids) {
            return Err(ApiError::NotFound);
        }
        if body.id == Some(0usize) {
            return Err(ApiError::NotFound);
        }
        if !all_users_valid(users, &body.user_ids) {
            return Err(ApiError::NotFound);
        }
        let id = match body.id {
            None => self.contests.len(),
            Some(id) => {
                if id >= self.contests.len() {
                    return Err(ApiError::NotFound);
                }
                id
            },
        };
        let contest = Contest {
            id,
            name: body.name,
            from: body.from,
            to: body.to,
            problem_ids,
            user_ids,
            submission_limit: body.submission_limit,
        };
        if id == self.contests.len() {
            self.contests.push(contest);
        } else {
            self.contests.set(id, contest);
        }
        Ok(id)
    }

    /// Every contest but the global one.
    pub fn get_contests(&self) -> (r: &[Contest])
        requires
            self.wf(),
        ensures
            r@ == self.contests@.subrange(1, self.contests@.len() as int),
    {
        vstd::slice::slice_subrange(self.contests.as_slice(), 1, self.contests.len())
    }

    /// The contest with the given id; `NotFound` when there is none. Id 0
    /// gives the global contest.
    pub fn get_contests_by_id(&self, id: usize) -> (r: std::result::Result<&Contest, ApiError>)
        ensures
            id < self.contests@.len() ==> r == Ok::<&Contest, ApiError>(&self.contests@[id as int]),
            self.wf() && id == 0 ==> (r matches Ok(c) && is_global(*c)),
            id >= self.contests@.len() ==> r == Err::<&Contest, ApiError>(ApiError::NotFound),
    {
        if id < self.contests.len() {
            Ok(&self.contests[id])
        } else {
            Err(ApiError::NotFound)
        }
    }
}

/// The registry never lists the global contest.
pub proof fn lemma_listing_omits_global(reg: ContestRegistry)
    requires
        reg.wf(),
    ensures
        forall|i: int|
            0 <= i < reg.contests@.len() - 1 ==> (#[trigger] reg.contests@.subrange(
                1,
                reg.contests@.len() as int,
            )[i]).id != 0,
{
}

} // verus!
