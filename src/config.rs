//! The configuration: problem catalog and language toolchains.
use vstd::prelude::*;

use crate::text::str_eq;

verus! {

/// Where the server listens.
pub struct Server {
    pub bind_address: Option<String>,
    pub bind_port: Option<u32>,
}

/// The whole configuration, loaded once and never changed.
pub struct Config {
    pub server: Server,
    pub problems: Vec<Problem>,
    pub languages: Vec<Language>,
}

/// How the output of a case is judged and how the problem is ranked.
#[derive(Clone, Copy, Debug, PartialEq, Eq, Structural)]
pub enum ProblemType {
    /// Line by line, ignoring trailing whitespace.
    Standard,
    /// Character for character.
    Strict,
    /// Judged as `Standard`; ranked against the fastest runs.
    DynamicRanking,
    /// Reserved; judged as `Standard`.
    SpecialJudge,
}

impl ProblemType {
    /// The name of the type in a configuration document.
    pub open spec fn name_spec(self) -> Seq<char> {
        match self {
            ProblemType::Standard => "standard"@,
            ProblemType::Strict => "strict"@,
            ProblemType::DynamicRanking => "dynamic_ranking"@,
            ProblemType::SpecialJudge => "special_judge"@,
        }
    }

    /// The type with the given name, if there is one.
    pub fn from_name(name: &str) -> (r: Option<ProblemType>)
        ensures
            match r {
                Some(t) => name@ == t.name_spec(),
                None => forall|t: ProblemType| name@ != t.name_spec(),
            },
    {
        proof {
            reveal_strlit("standard");
            reveal_strlit("strict");
            reveal_strlit("dynamic_ranking");
            reveal_strlit("special_judge");
        }
        if str_eq(name, "standard") {
            Some(ProblemType::Standard)
        } else if str_eq(name, "strict") {
            Some(ProblemType::Strict)
        } else if str_eq(name, "dynamic_ranking") {
            Some(ProblemType::DynamicRanking)
        } else if str_eq(name, "special_judge") {
            Some(ProblemType::SpecialJudge)
        } else {
            proof {
                assert forall|t: ProblemType| name@ != t.name_spec() by {
                    match t {
                        ProblemType::Standard => {},
                        ProblemType::Strict => {},
                        ProblemType::DynamicRanking => {},
                        ProblemType::SpecialJudge => {},
                    }
                }
            }
            None
        }
    }
}

/// A problem of the catalog.
pub struct Problem {
    /// The id by which submissions name the problem (not its catalog position).
    pub id: u32,
    pub name: String,
    pub problem_type: ProblemType,
    pub misc: Misc,
    pub cases: Vec<Case>,
}

/// One test case: input and answer files, a score and a time limit.
pub struct Case {
    /// Points awarded when the case is passed, as an integer count of a
    /// fixed unit (the server counts thousandths of a point).
    pub score: u64,
    pub input_file: String,
    pub answer_file: String,
    /// Time limit in microseconds.
    pub time_limit: u64,
    pub memory_limit: u32,
}

/// A language toolchain.
pub struct Language {
    pub name: String,
    /// The name of the source file the submission is written to.
    pub file_name: String,
    /// The compiler's argv; `%INPUT%` and `%OUTPUT%` stand for the source
    /// file and the executable.
    pub command: Vec<String>,
}

/// Optional problem settings.
pub struct Misc {
    /// Groups of 1-based case ids; a group scores only when all its cases pass.
    pub packing: Option<Vec<Vec<u32>>>,
    pub special_judge: Option<Vec<String>>,
    /// For dynamic-ranking problems: the share of the score that depends on
    /// speed, in thousandths (0 to 1000).
    pub dynamic_ranking_ratio: Option<u64>,
}

/// The sum of the scores of the cases.
pub open spec fn cases_total(cases: Seq<Case>) -> int
    decreases cases.len(),
{
    if cases.len() == 0 {
        0
    } else {
        cases_total(cases.drop_last()) + cases.last().score
    }
}

impl Problem {
    /// The problem's scores add up within `u64`, its case ids fit in `u32`,
    /// and a dynamic-ranking ratio is at most 1000 thousandths.
    pub open spec fn wf(&self) -> bool {
        &&& cases_total(self.cases@) <= u64::MAX
        &&& self.cases@.len() < u32::MAX
        &&& (self.misc.dynamic_ranking_ratio matches Some(r) ==> r <= 1000)
    }
}

/// The position of the first problem at or after `from` with the given id.
pub open spec fn problem_index_from(problems: Seq<Problem>, id: u32, from: int) -> Option<usize>
    decreases problems.len() - from,
{
    if from < 0 || from >= problems.len() {
        None
    } else if problems[from].id == id {
        Some(from as usize)
    } else {
        problem_index_from(problems, id, from + 1)
    }
}

impl Config {
    /// Every problem is well formed.
    pub open spec fn wf(&self) -> bool {
        forall|i: int| 0 <= i < self.problems@.len() ==> #[trigger] self.problems@[i].wf()
    }

    /// Looks a problem up by its id and gives its catalog position.
    pub fn problem_index(&self, id: u32) -> (r: Option<usize>)
        ensures
            match r {
                Some(i) => i < self.problems@.len() && self.problems@[i as int].id == id
                    && forall|j: int| 0 <= j < i ==> self.problems@[j].id != id,
                None => forall|j: int| 0 <= j < self.problems@.len() ==> self.problems@[j].id != id,
            },
            r == problem_index_from(self.problems@, id, 0),
    {
        let mut i: usize = 0;
        while i < self.problems.len()
            invariant
                0 <= i <= self.problems@.len(),
                forall|j: int| 0 <= j < i ==> self.problems@[j].id != id,
                problem_index_from(self.problems@, id, 0) == problem_index_from(
                    self.problems@,
                    id,
                    i as int,
                ),
            decreases self.problems@.len() - i,
        {
            if self.problems[i].id == id {
                return Some(i);
            }
            i = i + 1;
        }
        None
    }

    /// The position of the first language with the given name.
    pub fn language_index(&self, name: &str) -> (r: Option<usize>)
        ensures
            match r {
                Some(i) => i < self.languages@.len() && self.languages@[i as int].name@ == name@
                    && forall|j: int| 0 <= j < i ==> self.languages@[j].name@ != name@,
                None => forall|j: int|
                    0 <= j < self.languages@.len() ==> self.languages@[j].name@ != name@,
            },
    {
        let mut i: usize = 0;
        while i < self.languages.len()
            invariant
                0 <= i <= self.languages@.len(),
                forall|j: int| 0 <= j < i ==> self.languages@[j].name@ != name@,
            decreases self.languages@.len() - i,
        {
            if str_eq(self.languages[i].name.as_str(), name) {
                return Some(i);
            }
            i = i + 1;
        }
        None
    }
}

} // verus!
