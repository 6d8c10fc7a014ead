//! The judging pipeline's decisions: the compiler's argv, what to do with
//! each case, the verdict of a run, and the score.
use vstd::prelude::*;

use crate::config::{cases_total, Language, Problem, ProblemType};
use crate::jobs::{Case, Result};
use crate::text::{decode_utf8, standard_compare, str_eq, strict_compare, trimmed_lines, utf8_text};

verus! {

/// One token of a command template with its placeholders filled in.
pub open spec fn substituted(token: Seq<char>, input: Seq<char>, output: Seq<char>) -> Seq<char> {
    if token == "%INPUT%"@ {
        input
    } else if token == "%OUTPUT%"@ {
        output
    } else {
        token
    }
}

/// The argv that compiles a source file: the language's command with
/// `%INPUT%` replaced by the source path and `%OUTPUT%` by the executable's.
/// Element 0 is the program to run.
pub fn compile(language: &Language, input: &str, output: &str) -> (r: Vec<String>)
    ensures
        r@.len() == language.command@.len(),
        forall|i: int|
            0 <= i < r@.len() ==> #[trigger] r@[i]@ == substituted(
                language.command@[i]@,
                input@,
                output@,
            ),
{
    proof {
        reveal_strlit("%INPUT%");
        reveal_strlit("%OUTPUT%");
    }
    let mut r: Vec<String> = Vec::new();
    let mut i: usize = 0;
    while i < language.command.len()
        invariant
            0 <= i <= language.command@.len(),
            r@.len() == i,
            forall|j: int|
                0 <= j < i ==> #[trigger] r@[j]@ == substituted(
                    language.command@[j]@,
                    input@,
                    output@,
                ),
        decreases language.command@.len() - i,
    {
        let token = &language.command[i];
        if str_eq(token.as_str(), "%INPUT%") {
            r.push(String::from_str(input));
        } else if str_eq(token.as_str(), "%OUTPUT%") {
            r.push(String::from_str(output));
        } else {
            r.push(token.clone());
        }
        i = i + 1;
    }
    r
}

/// What happened when a compiled submission was run on one case.
pub enum RunOutcome {
    /// The time limit passed and the program was killed.
    TimedOut,
    /// The program exited with a failure status after `time` microseconds.
    Crashed { time: u64 },
    /// The program exited normally after `time` microseconds; `output` is
    /// what it wrote, `answer` the expected output, both as bytes.
    Completed { time: u64, output: Vec<u8>, answer: Vec<u8> },
    /// The run could not be carried out (the program could not be started,
    /// a file could not be read).
    Failed,
}

/// What to do with the next case.
#[derive(Clone, Copy, Debug, PartialEq, Eq, Structural)]
pub enum Step {
    /// Run the program on it.
    Run,
    /// Record it as skipped: an earlier case of its pack failed.
    Skip,
    /// Record it as waiting: there is nothing to run.
    Wait,
}

/// Whether an output is accepted for an answer under the problem's type:
/// byte for byte for a strict problem; otherwise both must be UTF-8 text
/// and agree line by line, ignoring trailing whitespace.
pub open spec fn output_matches(t: ProblemType, answer: Seq<u8>, output: Seq<u8>) -> bool {
    if t == ProblemType::Strict {
        output == answer
    } else {
        match (utf8_text(answer), utf8_text(output)) {
            (Some(a), Some(o)) => trimmed_lines(o) == trimmed_lines(a),
            _ => false,
        }
    }
}

/// Whether an output is accepted for an answer under the problem's type.
pub fn outputs_match(t: ProblemType, answer: &[u8], output: &[u8]) -> (r: bool)
    ensures
        r == output_matches(t, answer@, output@),
{
    if t == ProblemType::Strict {
        return strict_compare(answer, output);
    }
    match (decode_utf8(answer), decode_utf8(output)) {
        (Some(a), Some(o)) => standard_compare(a, o),
        _ => false,
    }
}

/// The verdict and the recorded time of a run.
pub open spec fn run_verdict(t: ProblemType, o: RunOutcome) -> (Result, u64) {
    match o {
        RunOutcome::TimedOut => (Result::TimeLimitExceeded, 0),
        RunOutcome::Crashed { time } => (Result::RuntimeError, time),
        RunOutcome::Completed { time, output, answer } => (
            if output_matches(t, answer@, output@) {
                Result::Accepted
            } else {
                Result::WrongAnswer
            },
            time,
        ),
        RunOutcome::Failed => (Result::SystemError, 0),
    }
}

/// Some case of the group, with an id below `k`, has not been accepted.
pub open spec fn failed_before(group: Seq<u32>, cases: Seq<Case>, k: int) -> bool {
    exists|m: int|
        0 <= m < group.len() && 1 <= #[trigger] group[m] < k && cases[group[m] as int].result
            != Result::Accepted
}

/// Every case of the group that has been judged has been accepted.
pub open spec fn group_passed(group: Seq<u32>, cases: Seq<Case>) -> bool {
    forall|m: int|
        0 <= m < group.len() && 1 <= #[trigger] group[m] < cases.len() ==> cases[group[m] as int].result
            == Result::Accepted
}

/// Case `k` is to be skipped: a pack that holds it has a failed case before it.
pub open spec fn blocked(problem: &Problem, cases: Seq<Case>, k: int) -> bool {
    match problem.misc.packing {
        None => false,
        Some(p) => exists|g: int|
            0 <= g < p@.len() && (#[trigger] p@[g])@.contains(k as u32) && failed_before(
                p@[g]@,
                cases,
                k,
            ),
    }
}

/// What to do with the next case, given the results so far.
pub open spec fn step_spec(problem: &Problem, cases: Seq<Case>, artifact_present: bool) -> Step {
    if cases[0].result == Result::CompilationError {
        Step::Wait
    } else if blocked(problem, cases, cases.len() as int) {
        Step::Skip
    } else if !artifact_present {
        Step::Wait
    } else {
        Step::Run
    }
}

/// The verdict and time recorded for the next case.
pub open spec fn next_verdict(
    problem: &Problem,
    cases: Seq<Case>,
    artifact_present: bool,
    outcome: Option<RunOutcome>,
) -> (Result, u64) {
    match step_spec(problem, cases, artifact_present) {
        Step::Wait => (Result::Waiting, 0),
        Step::Skip => (Result::Skipped, 0),
        Step::Run => match outcome {
            Some(o) => run_verdict(problem.problem_type, o),
            None => (Result::SystemError, 0),
        },
    }
}

/// Case `k` earns its score: it was accepted, and so was every judged case of
/// each pack that holds it.
pub open spec fn case_counts(problem: &Problem, cases: Seq<Case>, k: int) -> bool {
    &&& cases[k].result == Result::Accepted
    &&& match problem.misc.packing {
        None => true,
        Some(p) => forall|g: int|
            0 <= g < p@.len() && (#[trigger] p@[g])@.contains(k as u32) ==> group_passed(
                p@[g]@,
                cases,
            ),
    }
}

/// The points earned by cases `1..=k`.
pub open spec fn score_upto(problem: &Problem, cases: Seq<Case>, k: int) -> int
    decreases k,
{
    if k <= 0 {
        0
    } else {
        score_upto(problem, cases, k - 1) + if case_counts(problem, cases, k) {
            problem.cases@[k - 1].score as int
        } else {
            0
        }
    }
}

/// The score of a finished judgement.
pub open spec fn job_score(problem: &Problem, cases: Seq<Case>) -> int {
    score_upto(problem, cases, problem.cases@.len() as int)
}

/// The verdict of a whole job: a compilation error, else the first case that
/// was not accepted, else acceptance.
pub open spec fn aggregate_spec(cases: Seq<Case>) -> Result {
    if cases[0].result == Result::CompilationError {
        Result::CompilationError
    } else {
        first_failure_from(cases, 1)
    }
}

/// The verdict of the first case at or after `from` that was not accepted.
pub open spec fn first_failure_from(cases: Seq<Case>, from: int) -> Result
    decreases cases.len() - from,
{
    if from < 0 || from >= cases.len() {
        Result::Accepted
    } else if cases[from].result != Result::Accepted {
        cases[from].result
    } else {
        first_failure_from(cases, from + 1)
    }
}

/// The verdict of a job from its case results.
pub fn aggregate_result(cases: &Vec<Case>) -> (r: Result)
    requires
        cases@.len() >= 1,
    ensures
        r == aggregate_spec(cases@),
{
    if cases[0].result == Result::CompilationError {
        return Result::CompilationError;
    }
    let mut i: usize = 1;
    while i < cases.len()
        invariant
            1 <= i <= cases@.len(),
            cases@[0].result != Result::CompilationError,
            first_failure_from(cases@, 1) == first_failure_from(cases@, i as int),
        decreases cases@.len() - i,
    {
        if cases[i].result != Result::Accepted {
            return cases[i].result;
        }
        i = i + 1;
    }
    Result::Accepted
}

fn group_contains(group: &Vec<u32>, k: u32) -> (r: bool)
    ensures
        r == group@.contains(k),
{
    let mut m: usize = 0;
    while m < group.len()
        invariant
            0 <= m <= group@.len(),
            forall|j: int| 0 <= j < m ==> group@[j] != k,
        decreases group@.len() - m,
    {
        if group[m] == k {
            return true;
        }
        m = m + 1;
    }
    false
}

fn group_failed_before(group: &Vec<u32>, cases: &Vec<Case>, k: u32) -> (r: bool)
    requires
        k <= cases@.len(),
    ensures
        r == failed_before(group@, cases@, k as int),
{
    let mut m: usize = 0;
    while m < group.len()
        invariant
            k <= cases@.len(),
            0 <= m <= group@.len(),
            forall|j: int|
                0 <= j < m && 1 <= #[trigger] group@[j] < k ==> cases@[group@[j] as int].result
                    == Result::Accepted,
        decreases group@.len() - m,
    {
        let c = group[m];
        if 1 <= c && c < k && cases[c as usize].result != Result::Accepted {
            return true;
        }
        m = m + 1;
    }
    false
}

fn group_all_passed(group: &Vec<u32>, cases: &Vec<Case>) -> (r: bool)
    ensures
        r == group_passed(group@, cases@),
{
    let mut m: usize = 0;
    while m < group.len()
        invariant
            0 <= m <= group@.len(),
            forall|j: int|
                0 <= j < m && 1 <= #[trigger] group@[j] < cases@.len() ==> cases@[group@[j] as int].result
                    == Result::Accepted,
        decreases group@.len() - m,
    {
        let c = group[m];
        if 1 <= c && (c as usize) < cases.len() && cases[c as usize].result != Result::Accepted {
            return false;
        }
        m = m + 1;
    }
    true
}

fn is_blocked(problem: &Problem, cases: &Vec<Case>, k: u32) -> (r: bool)
    requires
        k <= cases@.len(),
    ensures
        r == blocked(problem, cases@, k as int),
{
    match &problem.misc.packing {
        None => false,
        Some(p) => {
            let mut g: usize = 0;
            while g < p.len()
                invariant
                    k <= cases@.len(),
                    problem.misc.packing == Some(*p),
                    0 <= g <= p@.len(),
                    forall|h: int|
                        0 <= h < g ==> !((#[trigger] p@[h])@.contains(k) && failed_before(
                            p@[h]@,
                            cases@,
                            k as int,
                        )),
                decreases p@.len() - g,
            {
                if group_contains(&p[g], k) && group_failed_before(&p[g], cases, k) {
                    assert(k as int as u32 == k);
                    assert(0 <= g < p@.len() && (p@[g as int])@.contains(k as int as u32)
                        && failed_before(p@[g as int]@, cases@, k as int));
                    assert(problem.misc.packing->Some_0 == *p);
                    assert(blocked(problem, cases@, k as int));
                    return true;
                }
                g = g + 1;
            }
            proof {
                assert forall|h: int|
                    0 <= h < p@.len() && (#[trigger] p@[h])@.contains(k as int as u32) implies !failed_before(
                    p@[h]@,
                    cases@,
                    k as int,
                ) by {
                    assert(k as int as u32 == k);
                }
            }
            false
        },
    }
}

fn counts(problem: &Problem, cases: &Vec<Case>, k: usize) -> (r: bool)
    requires
        1 <= k < cases@.len(),
        k < u32::MAX,
    ensures
        r == case_counts(problem, cases@, k as int),
{
    if cases[k].result != Result::Accepted {
        return false;
    }
    match &problem.misc.packing {
        None => true,
        Some(p) => {
            let mut g: usize = 0;
            while g < p.len()
                invariant
                    1 <= k < cases@.len(),
                    k < u32::MAX,
                    problem.misc.packing == Some(*p),
                    0 <= g <= p@.len(),
                    forall|h: int|
                        0 <= h < g && (#[trigger] p@[h])@.contains(k as u32) ==> group_passed(
                            p@[h]@,
                            cases@,
                        ),
                decreases p@.len() - g,
            {
                if group_contains(&p[g], k as u32) && !group_all_passed(&p[g], cases) {
                    assert(k as int as u32 == k as u32);
                    assert(0 <= g < p@.len() && (p@[g as int])@.contains(k as int as u32)
                        && !group_passed(p@[g as int]@, cases@));
                    assert(problem.misc.packing->Some_0 == *p);
                    assert(!case_counts(problem, cases@, k as int));
                    return false;
                }
                g = g + 1;
            }
            proof {
                assert forall|h: int|
                    0 <= h < p@.len() && (#[trigger] p@[h])@.contains(k as int as u32) implies group_passed(
                    p@[h]@,
                    cases@,
                ) by {
                    assert(k as int as u32 == k as u32);
                }
            }
            true
        },
    }
}

proof fn lemma_score_bound(problem: &Problem, cases: Seq<Case>, k: int)
    requires
        0 <= k <= problem.cases@.len(),
    ensures
        0 <= score_upto(problem, cases, k) <= cases_total(problem.cases@.subrange(0, k)),
    decreases k,
{
    if k > 0 {
        lemma_score_bound(problem, cases, k - 1);
        assert(problem.cases@.subrange(0, k).drop_last() =~= problem.cases@.subrange(0, k - 1));
    }
}

/// The judgement of one submission, case by case. `cases[0]` is the
/// compilation; `cases[k]` is the `k`-th case of the problem.
pub struct Judging {
    pub cases: Vec<Case>,
}

impl Judging {
    /// The judgement is consistent with the problem: ids follow positions, the
    /// first entry is the compilation, and after a failed compilation every
    /// case waits.
    pub open spec fn wf(&self, problem: &Problem) -> bool {
        &&& problem.wf()
        &&& 1 <= self.cases@.len() <= problem.cases@.len() + 1
        &&& self.cases@[0].id == 0
        &&& (self.cases@[0].result == Result::CompilationSuccess || self.cases@[0].result
            == Result::CompilationError)
        &&& forall|k: int| 1 <= k < self.cases@.len() ==> (#[trigger] self.cases@[k]).id == k
        &&& self.cases@[0].result == Result::CompilationError ==> forall|k: int|
            1 <= k < self.cases@.len() ==> (#[trigger] self.cases@[k]).result == Result::Waiting
        &&& forall|k: int|
            1 <= k < self.cases@.len() && self.cases@[0].result != Result::CompilationError
                && blocked(problem, self.cases@, k) ==> (#[trigger] self.cases@[k]).result
                == Result::Skipped
    }

    /// Every case of the problem has its result.
    pub open spec fn complete(&self, problem: &Problem) -> bool {
        self.cases@.len() == problem.cases@.len() + 1
    }

    /// Starts a judgement from the outcome of the compilation.
    pub fn start(problem: &Problem, compiled: bool, compile_time: u64) -> (r: Judging)
        requires
            problem.wf(),
        ensures
            r.wf(problem),
            r.cases@.len() == 1,
            r.cases@[0].result == if compiled {
                Result::CompilationSuccess
            } else {
                Result::CompilationError
            },
            r.cases@[0].time == compile_time,
            r.cases@[0].memory == 0,
            r.cases@[0].info@ == Seq::<char>::empty(),
    {
        let result = if compiled {
            Result::CompilationSuccess
        } else {
            Result::CompilationError
        };
        let mut cases: Vec<Case> = Vec::new();
        cases.push(Case { id: 0, result, time: compile_time, memory: 0, info: String::new() });
        Judging { cases }
    }

    /// Whether every case has its result.
    pub fn is_complete(&self, problem: &Problem) -> (r: bool)
        requires
            self.wf(problem),
        ensures
            r == self.complete(problem),
    {
        self.cases.len() - 1 == problem.cases.len()
    }

    /// What to do with the next case: wait after a failed compilation, skip
    /// when a pack holding it already failed, wait when there is no
    /// executable, and otherwise run it.
    pub fn next_step(&self, problem: &Problem, artifact_present: bool) -> (r: Step)
        requires
            self.wf(problem),
            !self.complete(problem),
        ensures
            r == step_spec(problem, self.cases@, artifact_present),
    {
        if self.cases[0].result == Result::CompilationError {
            Step::Wait
        } else if is_blocked(problem, &self.cases, self.cases.len() as u32) {
            Step::Skip
        } else if !artifact_present {
            Step::Wait
        } else {
            Step::Run
        }
    }

    /// Records the result of the next case. `outcome` is the run's outcome
    /// when the step was `Run`, and is not consulted otherwise; a run that was
    /// owed but is missing counts as a system error.
    pub fn advance(&mut self, problem: &Problem, artifact_present: bool, outcome: Option<RunOutcome>)
        requires
            old(self).wf(problem),
            !old(self).complete(problem),
        ensures
            final(self).wf(problem),
            final(self).cases@.len() == old(self).cases@.len() + 1,
            final(self).cases@.subrange(0, old(self).cases@.len() as int) == old(self).cases@,
            final(self).cases@.last().id == old(self).cases@.len(),
            (final(self).cases@.last().result, final(self).cases@.last().time) == next_verdict(
                problem,
                old(self).cases@,
                artifact_present,
                outcome,
            ),
            final(self).cases@.last().memory == 0,
            final(self).cases@.last().info@ == Seq::<char>::empty(),
    {
        let step = self.next_step(problem, artifact_present);
        let (result, time) = match step {
            Step::Wait => (Result::Waiting, 0),
            Step::Skip => (Result::Skipped, 0),
            Step::Run => match outcome {
                None => (Result::SystemError, 0),
                Some(RunOutcome::TimedOut) => (Result::TimeLimitExceeded, 0),
                Some(RunOutcome::Crashed { time }) => (Result::RuntimeError, time),
                Some(RunOutcome::Failed) => (Result::SystemError, 0),
                Some(RunOutcome::Completed { time, output, answer }) => {
                    let ok = outputs_match(problem.problem_type, answer.as_slice(), output.as_slice());
                    (if ok { Result::Accepted } else { Result::WrongAnswer }, time)
                },
            },
        };
        let id = self.cases.len() as u32;
        let ghost before = self.cases@;
        self.cases.push(Case { id, result, time, memory: 0, info: String::new() });
        assert(self.cases@.subrange(0, before.len() as int) =~= before);
        proof {
            assert forall|k: int|
                1 <= k < self.cases@.len() && self.cases@[0].result != Result::CompilationError
                    && blocked(problem, self.cases@, k) implies (#[trigger] self.cases@[k]).result
                == Result::Skipped by {
                lemma_blocked_prefix(problem, before, self.cases@, k);
                if k < before.len() {
                    assert(self.cases@[k] == before[k]);
                }
            }
        }
    }

    /// The score of a complete judgement: the points of every accepted case
    /// whose packs were accepted in full.
    pub fn score(&self, problem: &Problem) -> (r: u64)
        requires
            self.wf(problem),
            self.complete(problem),
        ensures
            r == job_score(problem, self.cases@),
    {
        let n = problem.cases.len();
        let mut total: u64 = 0;
        let mut k: usize = 1;
        proof {
            assert(problem.cases@.subrange(0, n as int) =~= problem.cases@);
        }
        while k <= n
            invariant
                self.wf(problem),
                self.complete(problem),
                n == problem.cases@.len(),
                1 <= k <= n + 1,
                total == score_upto(problem, self.cases@, k - 1),
            decreases n + 1 - k,
        {
            proof {
                lemma_score_bound(problem, self.cases@, k as int);
                lemma_prefix_total(problem.cases@, k as int);
            }
            if counts(problem, &self.cases, k) {
                total = total + problem.cases[k - 1].score;
            }
            k = k + 1;
        }
        total
    }
}

proof fn lemma_prefix_total(cases: Seq<crate::config::Case>, k: int)
    requires
        0 <= k <= cases.len(),
    ensures
        cases_total(cases.subrange(0, k)) <= cases_total(cases),
    decreases cases.len() - k,
{
    if k < cases.len() {
        lemma_prefix_total(cases, k + 1);
        assert(cases.subrange(0, k + 1).drop_last() =~= cases.subrange(0, k));
    } else {
        assert(cases.subrange(0, k) =~= cases);
    }
}

pub(crate) proof fn lemma_no_case_counts_while_waiting(problem: &Problem, cases: Seq<Case>, k: int)
    requires
        0 <= k < cases.len(),
        forall|j: int| 1 <= j < cases.len() ==> (#[trigger] cases[j]).result == Result::Waiting,
    ensures
        score_upto(problem, cases, k) == 0,
    decreases k,
{
    if k > 0 {
        lemma_no_case_counts_while_waiting(problem, cases, k - 1);
        assert(cases[k].result == Result::Waiting);
    }
}

/// A finished judgement has one result per case of the problem plus the
/// compilation's, which comes first and is a success or an error; after a
/// compilation error the job's verdict is a compilation error and it scores 0.
pub proof fn lemma_finished_judgement(judging: Judging, problem: &Problem)
    requires
        judging.wf(problem),
        judging.complete(problem),
    ensures
        judging.cases@.len() == problem.cases@.len() + 1,
        judging.cases@[0].result == Result::CompilationSuccess || judging.cases@[0].result
            == Result::CompilationError,
        judging.cases@[0].result == Result::CompilationError ==> aggregate_spec(judging.cases@)
            == Result::CompilationError && job_score(problem, judging.cases@) == 0,
{
    if judging.cases@[0].result == Result::CompilationError {
        lemma_no_case_counts_while_waiting(problem, judging.cases@, problem.cases@.len() as int);
    }
}

/// The verdicts of cases `1..k` agree.
pub open spec fn same_verdicts(a: Seq<Case>, b: Seq<Case>) -> bool {
    &&& a.len() == b.len()
    &&& forall|j: int| 0 <= j < a.len() ==> (#[trigger] a[j]).result == b[j].result
}

proof fn lemma_score_depends_on_verdicts(problem: &Problem, a: Seq<Case>, b: Seq<Case>, k: int)
    requires
        same_verdicts(a, b),
        0 <= k < a.len(),
    ensures
        score_upto(problem, a, k) == score_upto(problem, b, k),
    decreases k,
{
    if k > 0 {
        lemma_score_depends_on_verdicts(problem, a, b, k - 1);
        assert(a[k].result == b[k].result);
        match problem.misc.packing {
            None => {},
            Some(p) => {
                assert forall|g: int| 0 <= g < p@.len() implies group_passed(p@[g]@, a) == group_passed(
                    p@[g]@,
                    b,
                ) by {
                    if !group_passed(p@[g]@, a) {
                        let m = choose|m: int|
                            0 <= m < p@[g]@.len() && 1 <= #[trigger] p@[g]@[m] < a.len() && a[p@[g]@[m] as int].result
                                != Result::Accepted;
                        assert(a[p@[g]@[m] as int].result == b[p@[g]@[m] as int].result);
                    }
                    if !group_passed(p@[g]@, b) {
                        let m = choose|m: int|
                            0 <= m < p@[g]@.len() && 1 <= #[trigger] p@[g]@[m] < b.len() && b[p@[g]@[m] as int].result
                                != Result::Accepted;
                        assert(a[p@[g]@[m] as int].result == b[p@[g]@[m] as int].result);
                    }
                }
            },
        }
        assert(case_counts(problem, a, k) == case_counts(problem, b, k));
    }
}

proof fn lemma_first_failure_depends_on_verdicts(a: Seq<Case>, b: Seq<Case>, from: int)
    requires
        same_verdicts(a, b),
    ensures
        first_failure_from(a, from) == first_failure_from(b, from),
    decreases a.len() - from,
{
    if 0 <= from < a.len() {
        assert(a[from].result == b[from].result);
        lemma_first_failure_depends_on_verdicts(a, b, from + 1);
    }
}

/// Two finished judgements of a problem that reach the same verdicts,
/// whatever the times recorded, give the same job verdict and the same score:
/// a rerun whose runs behave as before changes neither.
pub proof fn lemma_same_verdicts_same_outcome(problem: &Problem, a: Seq<Case>, b: Seq<Case>)
    requires
        a.len() == problem.cases@.len() + 1,
        same_verdicts(a, b),
    ensures
        aggregate_spec(a) == aggregate_spec(b),
        job_score(problem, a) == job_score(problem, b),
{
    assert(a[0].result == b[0].result);
    lemma_first_failure_depends_on_verdicts(a, b, 1);
    lemma_score_depends_on_verdicts(problem, a, b, problem.cases@.len() as int);
}

/// The recorded time of a run does not change its verdict.
pub proof fn lemma_verdict_ignores_time(t: ProblemType, time1: u64, time2: u64, output: Vec<u8>, answer: Vec<u8>)
    ensures
        run_verdict(t, RunOutcome::Completed { time: time1, output, answer }).0 == run_verdict(
            t,
            RunOutcome::Completed { time: time2, output, answer },
        ).0,
{
}

proof fn lemma_blocked_prefix(problem: &Problem, a: Seq<Case>, b: Seq<Case>, k: int)
    requires
        0 <= k <= a.len(),
        k <= b.len(),
        forall|j: int| 0 <= j < k ==> a[j] == b[j],
    ensures
        blocked(problem, a, k) == blocked(problem, b, k),
{
    match problem.misc.packing {
        None => {},
        Some(p) => {
            assert forall|g: int| 0 <= g < p@.len() implies failed_before(p@[g]@, a, k) == failed_before(
                p@[g]@,
                b,
                k,
            ) by {
                if failed_before(p@[g]@, a, k) {
                    let m = choose|m: int|
                        0 <= m < p@[g]@.len() && 1 <= #[trigger] p@[g]@[m] < k && a[p@[g]@[m] as int].result
                            != Result::Accepted;
                    assert(a[p@[g]@[m] as int] == b[p@[g]@[m] as int]);
                }
                if failed_before(p@[g]@, b, k) {
                    let m = choose|m: int|
                        0 <= m < p@[g]@.len() && 1 <= #[trigger] p@[g]@[m] < k && b[p@[g]@[m] as int].result
                            != Result::Accepted;
                    assert(a[p@[g]@[m] as int] == b[p@[g]@[m] as int]);
                }
            }
            if blocked(problem, a, k) {
                let g = choose|g: int|
                    0 <= g < p@.len() && (#[trigger] p@[g])@.contains(k as u32) && failed_before(
                        p@[g]@,
                        a,
                        k,
                    );
                assert(failed_before(p@[g]@, b, k));
            }
            if blocked(problem, b, k) {
                let g = choose|g: int|
                    0 <= g < p@.len() && (#[trigger] p@[g])@.contains(k as u32) && failed_before(
                        p@[g]@,
                        b,
                        k,
                    );
                assert(failed_before(p@[g]@, a, k));
            }
        },
    }
}

/// In a pack, once a case fails every later case of the pack is skipped,
/// and no case of the pack earns points: the pack contributes 0.
pub proof fn lemma_failed_case_voids_pack(
    judging: Judging,
    problem: &Problem,
    g: int,
    first: int,
    later: int,
)
    requires
        judging.wf(problem),
        judging.complete(problem),
        judging.cases@[0].result != Result::CompilationError,
        problem.misc.packing is Some,
        0 <= g < problem.misc.packing->Some_0@.len(),
        problem.misc.packing->Some_0@[g]@.contains(first as u32),
        problem.misc.packing->Some_0@[g]@.contains(later as u32),
        1 <= first < later < judging.cases@.len(),
        judging.cases@[first].result != Result::Accepted,
    ensures
        judging.cases@[later].result == Result::Skipped,
        forall|k: int|
            1 <= k < judging.cases@.len() && problem.misc.packing->Some_0@[g]@.contains(k as u32)
                ==> !case_counts(problem, judging.cases@, k),
{
    let p = problem.misc.packing->Some_0;
    let group = p@[g]@;
    let cases = judging.cases@;
    let m = choose|m: int| 0 <= m < group.len() && group[m] == first as u32;
    assert(group[m] as int == first);
    assert(failed_before(group, cases, later));
    assert(blocked(problem, cases, later));
    assert(!group_passed(group, cases));
    assert forall|k: int|
        1 <= k < cases.len() && group.contains(k as u32) implies !case_counts(problem, cases, k) by {
        assert(0 <= g < p@.len() && p@[g]@.contains(k as u32));
    }
}

/// A case is judged by one fixed rule: a run stopped at the time limit is
/// `TimeLimitExceeded` with time 0, and a run that finished in time is judged
/// by its output alone, so the same outcome always gets the same verdict.
pub proof fn lemma_time_limit_rule(problem: &Problem, cases: Seq<Case>, artifact_present: bool, o: RunOutcome)
    requires
        step_spec(problem, cases, artifact_present) == Step::Run,
    ensures
        o is TimedOut ==> next_verdict(problem, cases, artifact_present, Some(o)) == (
        Result::TimeLimitExceeded, 0u64),
        o matches RunOutcome::Completed { time, output, answer } ==> next_verdict(
            problem,
            cases,
            artifact_present,
            Some(o),
        ) == (
            if output_matches(problem.problem_type, answer@, output@) {
                Result::Accepted
            } else {
                Result::WrongAnswer
            },
            time,
        ),
{
}

} // verus!
