use vstd::prelude::*;

use vstd::string::StringSliceAdditionalSpecFns;

use crate::grade::{grade, settle, task_grade, GradeModel};
use crate::model::{Req, Resp, Sample, Task};
use crate::text::{
    begins_with, chars_of, contains_part, extend, find_first, first_occurrence, front_run,
    has_part, lemma_occurs_skip, matches_at, occurs_at, strip_both, strip_front, text_eq, to_text, trim_both, trim_front, CharSet,
};

verus! {

/// The neutral solver prompt that every arm starts from.
pub const BASE_SYS: &'static str =
    "You solve problems precisely. Reason internally as much as you need, then give exactly what is asked for.";

/// The system prompt of an arm: the `caveman` arm appends the skill body to the base
/// prompt, every other arm gets the base prompt alone.
pub open spec fn arm_prompt(arm: Seq<char>, skill: Seq<char>) -> Seq<char> {
    if arm == "caveman"@ {
        BASE_SYS@ + "\n\n"@ + skill
    } else {
        BASE_SYS@
    }
}

/// The system prompt of arm `arm` with skill body `skill`.
pub fn arm_sys(arm: &str, skill: &str) -> (r: String)
    ensures
        r@ == arm_prompt(arm@, skill@),
{
    let mut out = chars_of(BASE_SYS);
    if text_eq(arm, "caveman") {
        let sep = chars_of("\n\n");
        extend(&mut out, sep.as_slice());
        let sk = chars_of(skill);
        extend(&mut out, sk.as_slice());
    }
    to_text(out.as_slice())
}

/// The body of a skill file: when it opens with `---` and a later line starts with
/// `---`, what follows that marker with its leading line breaks dropped; otherwise the
/// whole file.
pub open spec fn skill_body_of(txt: Seq<char>) -> Seq<char> {
    if begins_with(txt, "---"@) {
        let rest = txt.skip(3);
        match first_occurrence(rest, "\n---"@) {
            Some(k) => strip_front(rest.skip(k + 4int), CharSet::LineEnd),
            None => txt,
        }
    } else {
        txt
    }
}

/// The skill text handed to the model: the body of the file, trimmed.
pub open spec fn skill_text(txt: Seq<char>) -> Seq<char> {
    strip_both(skill_body_of(txt), CharSet::Space)
}

/// The skill text of a skill file: its body without frontmatter, trimmed.
pub fn strip_frontmatter(txt: &str) -> (r: String)
    ensures
        r@ == skill_text(txt@),
{
    proof {
        reveal_strlit("---");
        reveal_strlit("\n---");
    }
    let cs = chars_of(txt);
    let open = chars_of("---");
    let body: Vec<char> = if matches_at(cs.as_slice(), open.as_slice(), 0) {
        let rest = trim_front_n(cs.as_slice(), 3);
        let marker = chars_of("\n---");
        match find_first(rest.as_slice(), marker.as_slice()) {
            Some(k) => {
                proof {
                    first_occurrence_bound(rest@, marker@);
                }
                assert(marker@.len() == 4);
                assert(k + 4 <= rest@.len());
                assert(rest@.len() == rest.len());
                let after = trim_front_n(rest.as_slice(), k + 4);
                trim_front(after.as_slice(), CharSet::LineEnd)
            },
            None => cs,
        }
    } else {
        cs
    };
    let t = trim_both(body.as_slice(), CharSet::Space);
    to_text(t.as_slice())
}

proof fn first_occurrence_bound(s: Seq<char>, p: Seq<char>)
    ensures
        first_occurrence(s, p) matches Some(k) ==> k + p.len() <= s.len(),
    decreases s.len(),
{
    if !(first_occurrence(s, p) == Some(0nat)) && s.len() > 0 {
        first_occurrence_bound(s.drop_first(), p);
    }
}

/// `s` without its first `n` characters.
fn trim_front_n(s: &[char], n: usize) -> (r: Vec<char>)
    requires
        n <= s.len(),
    ensures
        r@ == s@.skip(n as int),
{
    let mut r: Vec<char> = Vec::new();
    let mut i: usize = n;
    while i < s.len()
        invariant
            n <= i <= s.len(),
            r@ == s@.subrange(n as int, i as int),
        decreases s.len() - i,
    {
        r.push(s[i]);
        i = i + 1;
    }
    r
}

/// The billed output that the stand-in model reports for a request: 1200 tokens plus
/// 150 for each unit of the user message's UTF-8 byte length modulo 5, cut to a quarter when
/// the system prompt holds `smart caveman`.
pub open spec fn mock_output(system: Seq<char>, user: Seq<char>) -> int {
    let base: int = 1200 + ((vstd::utf8::encode_utf8(user).len() as usize) as int % 5) * 150;
    if has_part(system, "smart caveman"@) {
        base * 25 / 100
    } else {
        base
    }
}

/// A stand-in for the model that answers without any call: it checks the wiring, the
/// grading and the report before real tokens are spent.
pub struct MockLlm;

impl MockLlm {
    /// The stand-in completion of `req`.
    pub fn complete(&self, req: &Req) -> (r: Resp)
        ensures
            r.input == 40,
            r.output == mock_output(req.system@, req.user@),
            r.thinking == r.output * 90 / 100,
            r.answer@ == "42"@,
            r.summary@ == Seq::<char>::empty(),
            r.stop@ == "end_turn"@,
    {
        let bytes = req.user.as_str().len();
        let us = req.user.as_str();
        assert(bytes == us.spec_bytes().len() as usize);
        let base: i64 = 1200 + ((bytes % 5) as i64) * 150;
        let sys = chars_of(req.system.as_str());
        let mark = chars_of("smart caveman");
        let output: i64 = if contains_part(sys.as_slice(), mark.as_slice()) {
            base * 25 / 100
        } else {
            base
        };
        let thinking: i64 = output * 90 / 100;
        Resp {
            input: 40,
            output,
            thinking,
            answer: to_text(chars_of("42").as_slice()),
            summary: String::new(),
            stop: to_text(chars_of("end_turn").as_slice()),
        }
    }
}

/// The step after `(task, arm, rep)` when every task runs every arm `reps` times, reps
/// innermost.
pub open spec fn next_slot(pos: (nat, nat, nat), arms: nat, reps: nat) -> (nat, nat, nat) {
    let (t, a, r) = pos;
    if r < reps {
        (t, a, r + 1)
    } else if a + 1 < arms {
        (t, a + 1, 1)
    } else {
        (t + 1, 0, 1)
    }
}

/// The `(task, arm, rep)` of the `k`-th completion of a run (reps count from 1).
pub open spec fn slot(k: nat, arms: nat, reps: nat) -> (nat, nat, nat)
    decreases k,
{
    if k == 0 {
        (0, 0, 1)
    } else {
        next_slot(slot((k - 1) as nat, arms, reps), arms, reps)
    }
}

/// The user message of a task: its prompt, a blank line, its instruction.
pub open spec fn user_text(t: Task) -> Seq<char> {
    t.prompt@ + "\n\n"@ + t.instruction@
}

/// `s` records the completion `r` of task `t` under arm `arm`, rep `rep`, judged `correct`.
pub open spec fn sample_of(
    s: Sample,
    t: Task,
    arm: Seq<char>,
    rep: nat,
    r: Resp,
    correct: bool,
) -> bool {
    &&& s.suite@ == t.suite@
    &&& s.domain@ == t.domain@
    &&& s.id@ == t.id@
    &&& s.arm@ == arm
    &&& s.rep == rep
    &&& s.thinking == r.thinking
    &&& s.output == r.output
    &&& s.stop@ == r.stop@
    &&& s.correct == correct
}

/// The verdict on an answer when every run it needed came out as `run_passed`.
pub open spec fn verdict(t: Task, answer: Seq<char>, run_passed: bool) -> bool {
    match task_grade(t, answer) {
        GradeModel::Graded(b) => b,
        _ => run_passed,
    }
}

/// A benchmark run: every task under every arm, `reps` times each, one completion at a
/// time. The caller asks for the next request, has it completed, and records the
/// response; the run grades it and keeps the sample.
pub struct BenchRun {
    pub tasks: Vec<Task>,
    pub arms: Vec<String>,
    pub skill: String,
    pub reps: usize,
    /// The slot of the next completion (meaningless once `task == tasks.len()`).
    pub task: usize,
    pub arm: usize,
    pub rep: usize,
    pub samples: Vec<Sample>,
}

impl BenchRun {
    /// The run has completed every slot.
    pub open spec fn finished(&self) -> bool {
        self.task >= self.tasks.len()
    }

    pub open spec fn wf(&self) -> bool {
        &&& self.task <= self.tasks.len()
        &&& (self.arms.len() == 0 || self.reps == 0) ==> self.finished()
        &&& !self.finished() ==> {
            &&& self.arm < self.arms.len()
            &&& 1 <= self.rep <= self.reps
            &&& slot(self.samples.len() as nat, self.arms.len() as nat, self.reps as nat) == (
                self.task as nat,
                self.arm as nat,
                self.rep as nat,
            )
        }
        &&& self.finished() ==> self.samples.len() == self.tasks.len() * self.arms.len()
            * self.reps
        &&& !self.finished() ==> self.samples.len() == (self.task * self.arms.len() + self.arm)
            * self.reps + self.rep - 1
        &&& forall|k: int|
            0 <= k < self.samples.len() ==> {
                let (t, a, r) = #[trigger] slot(
                    k as nat,
                    self.arms.len() as nat,
                    self.reps as nat,
                );
                t < self.tasks.len() && a < self.arms.len() && r >= 1 && self.samples[k].id@
                    == self.tasks[t as int].id@ && self.samples[k].arm@ == self.arms[a as int]@
                    && self.samples[k].rep == r
            }
    }

    /// A run over every task, arm and rep, with nothing done yet.
    pub fn new(tasks: Vec<Task>, arms: Vec<String>, skill: String, reps: usize) -> (run: Self)
        ensures
            run.wf(),
            run.tasks@ == tasks@,
            run.arms@ == arms@,
            run.skill@ == skill@,
            run.reps == reps,
            run.samples@.len() == 0,
    {
        let empty = arms.len() == 0 || reps == 0;
        let task = if empty {
            tasks.len()
        } else {
            0
        };
        let run = BenchRun {
            tasks,
            arms,
            skill,
            reps,
            task,
            arm: 0,
            rep: 1,
            samples: Vec::new(),
        };
        proof {
            if empty {
                assert(run.tasks.len() * run.arms.len() * run.reps == 0) by (nonlinear_arith)
                    requires
                        run.arms.len() == 0 || run.reps == 0,
                ;
            } else {
                assert((0 * run.arms.len() + 0) * run.reps + 1 - 1 == 0) by (nonlinear_arith);
                assert(slot(0, run.arms.len() as nat, run.reps as nat) == (0nat, 0nat, 1nat));
            }
        }
        run
    }

    /// The request of the next completion, or `None` once the run is complete. Arms
    /// differ in the system prompt only.
    pub fn next_request(&self) -> (r: Option<Req>)
        requires
            self.wf(),
        ensures
            self.finished() ==> r is None,
            !self.finished() ==> (r matches Some(req) && req.system@ == arm_prompt(
                self.arms[self.arm as int]@,
                self.skill@,
            ) && req.user@ == user_text(self.tasks[self.task as int]) && req.display@
                == "omitted"@),
    {
        if self.task >= self.tasks.len() {
            return None;
        }
        let t = &self.tasks[self.task];
        let system = arm_sys(self.arms[self.arm].as_str(), self.skill.as_str());
        let mut user = chars_of(t.prompt.as_str());
        let sep = chars_of("\n\n");
        extend(&mut user, sep.as_slice());
        let ins = chars_of(t.instruction.as_str());
        extend(&mut user, ins.as_slice());
        Some(
            Req {
                system,
                user: to_text(user.as_slice()),
                display: to_text(chars_of("omitted").as_slice()),
            },
        )
    }

    /// The task of the next completion.
    pub fn current_task(&self) -> (t: Option<&Task>)
        requires
            self.wf(),
        ensures
            self.finished() ==> t is None,
            !self.finished() ==> t == Some(&self.tasks[self.task as int]),
    {
        if self.task >= self.tasks.len() {
            None
        } else {
            Some(&self.tasks[self.task])
        }
    }

    /// Grades the completion `resp` of the pending slot, keeps its sample and moves to
    /// the next slot. `run_passed` is the outcome of the run the answer's grade called
    /// for, if it called for one (see `grade` and `settle`).
    pub fn record(&mut self, resp: Resp, run_passed: bool)
        requires
            old(self).wf(),
            !old(self).finished(),
        ensures
            final(self).wf(),
            final(self).tasks@ == old(self).tasks@,
            final(self).arms@ == old(self).arms@,
            final(self).skill@ == old(self).skill@,
            final(self).reps == old(self).reps,
            final(self).samples@.len() == old(self).samples@.len() + 1,
            final(self).samples@.take(old(self).samples@.len() as int) == old(self).samples@,
            sample_of(
                final(self).samples@.last(),
                old(self).tasks@[old(self).task as int],
                old(self).arms@[old(self).arm as int]@,
                old(self).rep as nat,
                resp,
                verdict(old(self).tasks@[old(self).task as int], resp.answer@, run_passed),
            ),
            (final(self).task as nat, final(self).arm as nat, final(self).rep as nat) == next_slot(
                (old(self).task as nat, old(self).arm as nat, old(self).rep as nat),
                old(self).arms.len() as nat,
                old(self).reps as nat,
            ),
    {
        let ghost k = self.samples.len();
        let ghost a = self.arms.len();
        let ghost n = self.reps;
        let t = &self.tasks[self.task];
        let g = grade(t, resp.answer.as_str());
        let correct = settle(&g, run_passed);
        let s = Sample {
            suite: t.suite.clone(),
            domain: t.domain.clone(),
            id: t.id.clone(),
            arm: self.arms[self.arm].clone(),
            rep: self.rep,
            thinking: resp.thinking,
            output: resp.output,
            stop: resp.stop,
            correct,
        };
        self.samples.push(s);
        let ghost ot = self.task;
        let ghost oa = self.arm;
        let ghost orp = self.rep;
        if self.rep < self.reps {
            self.rep = self.rep + 1;
            assert(k + 1 == (ot * a + oa) * n + (orp + 1) - 1);
        } else if self.arm + 1 < self.arms.len() {
            self.arm = self.arm + 1;
            self.rep = 1;
            assert(k + 1 == (ot * a + (oa + 1)) * n + 1 - 1) by (nonlinear_arith)
                requires
                    k == (ot * a + oa) * n + orp - 1,
                    orp == n,
            ;
        } else {
            self.task = self.task + 1;
            self.arm = 0;
            self.rep = 1;
            if self.task < self.tasks.len() {
                assert(k + 1 == ((ot + 1) * a + 0) * n + 1 - 1) by (nonlinear_arith)
                    requires
                        k == (ot * a + oa) * n + orp - 1,
                        orp == n,
                        oa + 1 == a,
                ;
            } else {
                assert(k + 1 == (ot + 1) * a * n) by (nonlinear_arith)
                    requires
                        k == (ot * a + oa) * n + orp - 1,
                        orp == n,
                        oa + 1 == a,
                ;
            }
        }
        assert(self.samples@.take(k as int) =~= old(self).samples@);
        assert(slot((k + 1) as nat, a as nat, n as nat) == next_slot(
            slot(k as nat, a as nat, n as nat),
            a as nat,
            n as nat,
        ));
        assert forall|j: int| 0 <= j < self.samples.len() implies {
            let (t, a2, r) = #[trigger] slot(j as nat, a as nat, n as nat);
            t < self.tasks.len() && a2 < self.arms.len() && r >= 1 && self.samples[j].id@
                == self.tasks[t as int].id@ && self.samples[j].arm@ == self.arms[a2 as int]@
                && self.samples[j].rep == r
        } by {
            if j < k {
                assert(self.samples[j] == old(self).samples[j]);
            }
        }
    }
}

/// The `k`-th slot sits at `k == (task * arms + arm) * reps + rep - 1`.
pub proof fn lemma_slot_index(k: nat, arms: nat, reps: nat)
    requires
        arms > 0,
        reps > 0,
    ensures
        ({
            let (t, a, r) = slot(k, arms, reps);
            a < arms && 1 <= r <= reps && k == (t * arms + a) * reps + r - 1
        }),
    decreases k,
{
    if k == 0 {
        assert((0 * arms + 0) * reps + 1 - 1 == 0) by (nonlinear_arith);
    } else {
        lemma_slot_index((k - 1) as nat, arms, reps);
        let (t, a, r) = slot((k - 1) as nat, arms, reps);
        assert(slot(k, arms, reps) == next_slot((t, a, r), arms, reps));
        if r == reps {
            if a + 1 < arms {
                assert(k == (t * arms + (a + 1)) * reps + 1 - 1) by (nonlinear_arith)
                    requires
                        k - 1 == (t * arms + a) * reps + r - 1,
                        r == reps,
                ;
            } else {
                assert(k == ((t + 1) * arms + 0) * reps + 1 - 1) by (nonlinear_arith)
                    requires
                        k - 1 == (t * arms + a) * reps + r - 1,
                        r == reps,
                        a + 1 == arms,
                ;
            }
        }
    }
}

/// Runs go task by task, then arm by arm, then rep by rep: the `k`-th completion is of
/// task `k / (arms * reps)`, arm `(k / reps) % arms`, rep `k % reps + 1`.
pub proof fn lemma_slot_decode(k: nat, arms: nat, reps: nat)
    requires
        arms > 0,
        reps > 0,
    ensures
        slot(k, arms, reps) == ((k / (arms * reps)) as nat, ((k / reps) % arms) as nat, (k
            % reps + 1) as nat),
{
    lemma_slot_index(k, arms, reps);
    let (t, a, r) = slot(k, arms, reps);
    vstd::arithmetic::div_mod::lemma_fundamental_div_mod_converse(
        k as int,
        reps as int,
        (t * arms + a) as int,
        r - 1,
    );
    vstd::arithmetic::div_mod::lemma_fundamental_div_mod_converse(
        (t * arms + a) as int,
        arms as int,
        t as int,
        a as int,
    );
    vstd::arithmetic::div_mod::lemma_div_denominator(k as int, reps as int, arms as int);
    assert(reps * arms == arms * reps) by (nonlinear_arith);
}

/// Every sample of a run sits where the nested order puts it: sample `k` is of task
/// `k / (arms * reps)`, arm `(k / reps) % arms` and rep `k % reps + 1`.
pub proof fn lemma_run_order(run: BenchRun, k: int)
    requires
        run.wf(),
        0 <= k < run.samples.len(),
    ensures
        run.arms.len() > 0 && run.reps > 0,
        run.samples[k].id@ == run.tasks[k / (run.arms.len() * run.reps) as int].id@,
        run.samples[k].arm@ == run.arms[(k / run.reps as int) % run.arms.len() as int]@,
        run.samples[k].rep == k % run.reps as int + 1,
{
    let a = run.arms.len() as nat;
    let n = run.reps as nat;
    if a == 0 || n == 0 {
        assert(run.tasks.len() * run.arms.len() * run.reps == 0) by (nonlinear_arith)
            requires
                run.arms.len() == 0 || run.reps == 0,
        ;
    }
    let _ = slot(k as nat, a, n);
    lemma_slot_decode(k as nat, a, n);
}

/// The arms differ only in the system prompt, and only by the skill: the caveman prompt
/// is the baseline prompt followed by a blank line and the skill, and any arm other
/// than `caveman` gets the base prompt whatever the skill.
pub proof fn lemma_arm_prompts(skill: Seq<char>, other: Seq<char>)
    requires
        other != "caveman"@,
    ensures
        arm_prompt("caveman"@, skill) == arm_prompt("baseline"@, skill) + "\n\n"@ + skill,
        arm_prompt(other, skill) == BASE_SYS@,
{
    reveal_strlit("caveman");
    reveal_strlit("baseline");
    assert("baseline"@ != "caveman"@) by {
        assert("baseline"@[0] != "caveman"@[0]);
    }
}

/// The stand-in model shrinks the output of a caveman prompt without touching the
/// answer: for the same user message, a system prompt that holds `smart caveman` gets
/// a quarter of the output that one without it gets, and both answer `42`.
pub proof fn lemma_mock_shrinks(caveman: Seq<char>, baseline: Seq<char>, user: Seq<char>)
    requires
        has_part(caveman, "smart caveman"@),
        !has_part(baseline, "smart caveman"@),
    ensures
        mock_output(caveman, user) == mock_output(baseline, user) * 25 / 100,
        0 < mock_output(caveman, user) < mock_output(baseline, user),
{
    let n = (vstd::utf8::encode_utf8(user).len() as usize) as int;
    assert(0 <= n % 5 < 5);
}

/// A finished run holds one sample for every task, arm and rep.
pub proof fn lemma_run_size(run: BenchRun)
    requires
        run.wf(),
        run.finished(),
    ensures
        run.samples.len() == run.tasks.len() * run.arms.len() * run.reps,
{
}

/// The first occurrence is the one with no occurrence before it.
proof fn lemma_first_occurrence_at(s: Seq<char>, p: Seq<char>, k: int)
    requires
        occurs_at(s, p, k),
        forall|j: int| 0 <= j < k ==> !occurs_at(s, p, j),
    ensures
        first_occurrence(s, p) == Some(k as nat),
    decreases k,
{
    if k > 0 {
        assert(!occurs_at(s, p, 0));
        let t = s.drop_first();
        assert forall|j: int| 0 <= j < k - 1 implies !occurs_at(t, p, j) by {
            lemma_occurs_skip(s, p, 1, j);
            assert(s.skip(1) =~= t);
        }
        lemma_occurs_skip(s, p, 1, k - 1);
        assert(s.skip(1) =~= t);
        lemma_first_occurrence_at(t, p, k - 1);
    }
}

/// A skill file that opens with `---`, a frontmatter `fm` and a line starting with
/// `---` hands over what follows that marker, trimmed; one that does not open with
/// `---` hands over the whole file, trimmed.
pub proof fn lemma_skill_frontmatter(fm: Seq<char>, b: Seq<char>, other: Seq<char>)
    requires
        !has_part(fm + "\n--"@, "\n---"@),
        b.len() == 0 || (b[0] != '\n' && b[0] != '\r'),
        !begins_with(other, "---"@),
    ensures
        skill_text("---"@ + fm + "\n---"@ + b) == strip_both(b, CharSet::Space),
        skill_text(other) == strip_both(other, CharSet::Space),
{
    reveal_strlit("---");
    reveal_strlit("\n---");
    reveal_strlit("\n--");
    let m = "\n---"@;
    let txt = "---"@ + fm + m + b;
    assert(txt.subrange(0, 3) =~= "---"@);
    assert(begins_with(txt, "---"@));
    let rest = txt.skip(3);
    assert(rest =~= fm + m + b);
    let k = fm.len() as int;
    assert(rest.subrange(k, k + 4) =~= m);
    assert(occurs_at(rest, m, k));
    let q = fm + "\n--"@;
    assert forall|j: int| 0 <= j < k implies !occurs_at(rest, m, j) by {
        if occurs_at(rest, m, j) {
            assert(rest.subrange(j, j + 4) =~= q.subrange(j, j + 4));
            assert(occurs_at(q, m, j));
        }
    }
    lemma_first_occurrence_at(rest, m, k);
    assert(rest.skip(k + 4) =~= b);
    assert(front_run(b, CharSet::LineEnd) == 0);
    assert(strip_front(b, CharSet::LineEnd) =~= b);
}

} // verus!
