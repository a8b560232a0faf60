use vstd::prelude::*;

use crate::model::Sample;
use crate::stats::{
    arm_acc, arm_suite_acc, chosen, correct_count, firsts, pair_texts, suites_of,
};
use crate::text::{chars_of, extend, push_decimal, push_signed, signed_decimal, text_eq, to_text};

verus! {

/// The reasoning effort asked of the model.
pub const EFFORT: &'static str = "high";

/// The report's title and the start of its header line.
pub const TITLE: &'static str = "# skillbench — caveman SKILL.md, head to head vs baseline\n\n**Model:** `";

/// The question, the arms, the evals, the limits and the head of the results table.
pub const INTRO: &'static str = "## Question\n\nThe caveman skill claims it cuts billed output ~75% while keeping full technical accuracy. **Holding the model, effort, task and answer format fixed, does adding the caveman `SKILL.md` to the system prompt change billed output tokens, and does accuracy survive?**\n\n## Arms\n\n| arm | system prompt |\n|---|---|\n| `baseline` | neutral solver prompt only |\n| `caveman` | same prompt + the full `skills/caveman/SKILL.md` body (YAML frontmatter stripped) |\n\n**Evals:** AIME + Hendrycks MATH level-5 (math); MMLU-Pro computer science + HumanEval (cs). Metric = API `usage.output_tokens` (full billed generation; `thinking_tokens` shown alongside). Only the system prompt differs across arms.\n\n> **Limits:** these splits force a terse final answer (bare integer / letter / function body), so there is little prose for caveman to compress and HumanEval output is code (\"code blocks unchanged\" by the skill's own rule). This bench therefore measures whether the SKILL.md is *safe* — accuracy preserved, output not bloated — not the README's ~75% prose figure, which is measured on explanatory prompts in `benchmarks/`. Raw chain of thought is never returned; we measure its billed footprint, not its content.\n\n## Results — median output tokens, by arm\n\n| arm | median output | median thinking | Δ output vs baseline | accuracy |\n|---|---:|---:|---:|:--:|\n";

/// The caveats that close the summary.
pub const CAVEATS: &'static str = ". Caveats: AIME / MMLU-Pro-CS are largely one-shot (output≈answer, so they barely separate the arms); MATH-L5 carries most of the output signal; MATH grading is normalized-string (approximate); HumanEval output is code the skill leaves unchanged by rule. The headline ~75% compression is a *prose* claim measured separately — this bench's job is to show the SKILL.md neither breaks accuracy nor inflates token cost on hard answer-only evals.\n";

/// The head of the per-rep table.
pub const DETAIL_HEAD: &'static str = "\n## Per-rep detail\n\n| id | suite | arm | rep | output | thinking | stop | ok |\n|---|---|---|--:|--:|--:|---|:--:|\n";

/// The figures of one arm, formatted by the caller: median output and thinking, and
/// the signed change of the median output against the baseline in percent.
pub struct ArmFigures {
    pub median_output: String,
    pub median_thinking: String,
    pub delta: String,
}

/// The figures of a report that rest on averages, formatted by the caller, in the
/// order the report lists arms (`report_arms`) and suites (`suites_of`).
pub struct ReportFigures {
    pub arms: Vec<ArmFigures>,
    /// Per suite, per arm: the median output.
    pub suite_medians: Vec<Vec<String>>,
    pub base_out: String,
    pub cave_out: String,
    pub delta_out: String,
}

/// Some sample of `s` is of arm `arm`.
pub open spec fn has_arm(s: Seq<Sample>, arm: Seq<char>) -> bool {
    exists|k: int| 0 <= k < s.len() && (#[trigger] s[k]).arm@ == arm
}

/// The arms that have samples, in report order.
pub open spec fn present_arms(s: Seq<Sample>) -> Seq<Seq<char>> {
    (if has_arm(s, "baseline"@) {
        seq!["baseline"@]
    } else {
        seq![]
    }) + (if has_arm(s, "caveman"@) {
        seq!["caveman"@]
    } else {
        seq![]
    })
}

pub open spec fn string_texts(v: Seq<String>) -> Seq<Seq<char>> {
    v.map_values(|x: String| x@)
}

fn any_arm(s: &[Sample], arm: &str) -> (b: bool)
    ensures
        b == has_arm(s@, arm@),
{
    let mut i: usize = 0;
    while i < s.len()
        invariant
            i <= s.len(),
            forall|k: int| 0 <= k < i ==> (#[trigger] s@[k]).arm@ != arm@,
        decreases s.len() - i,
    {
        if text_eq(s[i].arm.as_str(), arm) {
            return true;
        }
        i = i + 1;
    }
    false
}

/// The arms that have samples, in report order (`baseline`, then `caveman`).
pub fn report_arms(s: &[Sample]) -> (r: Vec<String>)
    ensures
        string_texts(r@) == present_arms(s@),
{
    let mut r: Vec<String> = Vec::new();
    if any_arm(s, "baseline") {
        r.push(to_text(chars_of("baseline").as_slice()));
    }
    if any_arm(s, "caveman") {
        r.push(to_text(chars_of("caveman").as_slice()));
    }
    assert(string_texts(r@) =~= present_arms(s@));
    r
}

/// The largest rep number of `s`, or 0 when there is none.
pub open spec fn top_rep(s: Seq<Sample>) -> nat
    decreases s.len(),
{
    if s.len() == 0 {
        0
    } else {
        let m = top_rep(s.drop_last());
        if s.last().rep > m {
            s.last().rep as nat
        } else {
            m
        }
    }
}

/// The largest rep number of the samples, or 0.
pub fn max_rep(s: &[Sample]) -> (r: usize)
    ensures
        r == top_rep(s@),
{
    let mut m: usize = 0;
    let mut i: usize = 0;
    assert(s@.take(0) =~= Seq::<Sample>::empty());
    while i < s.len()
        invariant
            i <= s.len(),
            m == top_rep(s@.take(i as int)),
        decreases s.len() - i,
    {
        assert(s@.take(i + 1).drop_last() =~= s@.take(i as int));
        if s[i].rep > m {
            m = s[i].rep;
        }
        i = i + 1;
    }
    assert(s@.take(s.len() as int) =~= s@);
    m
}

/// A count as the report writes it.
pub open spec fn num(n: int) -> Seq<char> {
    signed_decimal(n)
}

/// `c/n`.
pub open spec fn frac(c: int, n: int) -> Seq<char> {
    num(c) + "/"@ + num(n)
}

/// The report's header, down to the head of the results table.
pub open spec fn head_text(model: Seq<char>, reps: int, n: int) -> Seq<char> {
    TITLE@ + model + "` · **effort:** `"@ + EFFORT@ + "` · **thinking:** adaptive · **reps/cell:** "@
        + num(reps) + " · **n samples:** "@ + num(n) + "\n\n"@ + INTRO@
}

/// The results row of arm `a`.
pub open spec fn result_row(s: Seq<Sample>, a: Seq<char>, f: ArmFigures) -> Seq<char> {
    let sel = chosen(s, None, a, None);
    "| `"@ + a + "` | "@ + f.median_output@ + " | "@ + f.median_thinking@ + " | "@ + (if a
        == "baseline"@ {
        "—"@
    } else {
        f.delta@ + "%"@
    }) + " | "@ + frac(correct_count(sel) as int, sel.len() as int) + " |\n"@
}

pub open spec fn result_rows(s: Seq<Sample>, arms: Seq<Seq<char>>, fs: Seq<ArmFigures>) -> Seq<
    char,
>
    decreases arms.len(),
{
    if arms.len() == 0 {
        seq![]
    } else {
        result_rows(s, arms.drop_last(), fs) + result_row(s, arms.last(), fs[arms.len() - 1])
    }
}

/// ` a |` for every arm.
pub open spec fn arm_cells(arms: Seq<Seq<char>>) -> Seq<char>
    decreases arms.len(),
{
    if arms.len() == 0 {
        seq![]
    } else {
        arm_cells(arms.drop_last()) + " "@ + arms.last() + " |"@
    }
}

/// `cell` once for every arm.
pub open spec fn repeat(cell: Seq<char>, k: nat) -> Seq<char>
    decreases k,
{
    if k == 0 {
        seq![]
    } else {
        repeat(cell, (k - 1) as nat) + cell
    }
}

/// The median row of suite `su` with domain `dom`.
pub open spec fn median_row(su: Seq<char>, dom: Seq<char>, meds: Seq<Seq<char>>) -> Seq<char> {
    "| `"@ + su + "` | "@ + dom + " |"@ + arm_cells(meds) + "\n"@
}

pub open spec fn median_rows(
    suites: Seq<(Seq<char>, Seq<char>)>,
    meds: Seq<Seq<Seq<char>>>,
) -> Seq<char>
    decreases suites.len(),
{
    if suites.len() == 0 {
        seq![]
    } else {
        let k = suites.len() - 1;
        median_rows(suites.drop_last(), meds) + median_row(suites[k].0, suites[k].1, meds[k])
    }
}

/// ` c/n |` for every arm: accuracy of that arm on suite `su`.
pub open spec fn acc_cells(s: Seq<Sample>, arms: Seq<Seq<char>>, su: Seq<char>) -> Seq<char>
    decreases arms.len(),
{
    if arms.len() == 0 {
        seq![]
    } else {
        let sel = chosen(s, None, arms.last(), Some(su));
        acc_cells(s, arms.drop_last(), su) + " "@ + frac(correct_count(sel) as int, sel.len() as int)
            + " |"@
    }
}

pub open spec fn acc_rows(
    s: Seq<Sample>,
    arms: Seq<Seq<char>>,
    suites: Seq<(Seq<char>, Seq<char>)>,
) -> Seq<char>
    decreases suites.len(),
{
    if suites.len() == 0 {
        seq![]
    } else {
        let su = suites.last().0;
        acc_rows(s, arms, suites.drop_last()) + "| `"@ + su + "` |"@ + acc_cells(s, arms, su)
            + "\n"@
    }
}

/// The suite tables: median output and accuracy per suite and arm.
pub open spec fn suite_text(
    s: Seq<Sample>,
    arms: Seq<Seq<char>>,
    suites: Seq<(Seq<char>, Seq<char>)>,
    meds: Seq<Seq<Seq<char>>>,
) -> Seq<char> {
    "## Median output tokens by suite\n\n| suite | domain |"@ + arm_cells(arms) + "\n|---|---|"@
        + repeat("--:|"@, arms.len()) + "\n"@ + median_rows(suites, meds) + "\n"@
        + "## Accuracy by suite\n\n| suite |"@ + arm_cells(arms) + "\n|---|"@ + repeat(
        ":--:|"@,
        arms.len(),
    ) + "\n"@ + acc_rows(s, arms, suites) + "\n"@
}

/// The closing section: median outputs, accuracies per arm and overall.
pub open spec fn summary_text(s: Seq<Sample>, f: ReportFigures) -> Seq<char> {
    let b = chosen(s, None, "baseline"@, None);
    let c = chosen(s, None, "caveman"@, None);
    "## Verdict\n\n"@ + "Median billed output: baseline "@ + f.base_out@ + " → caveman "@
        + f.cave_out@ + " ("@ + f.delta_out@ + "%). "@ + "Accuracy: baseline "@ + frac(
        correct_count(b) as int,
        b.len() as int,
    ) + ", caveman "@ + frac(correct_count(c) as int, c.len() as int) + ".\n\n"@
        + "Overall accuracy "@ + frac(correct_count(s) as int, s.len() as int) + CAVEATS@
}

/// One row of the per-rep table.
pub open spec fn detail_row(x: Sample) -> Seq<char> {
    "| "@ + x.id@ + " | "@ + x.suite@ + " | "@ + x.arm@ + " | "@ + num(x.rep as int) + " | "@
        + num(x.output as int) + " | "@ + num(x.thinking as int) + " | "@ + x.stop@ + " | "@ + (
    if x.correct {
        "✓"@
    } else {
        "✗"@
    }) + " |\n"@
}

pub open spec fn detail_rows(s: Seq<Sample>) -> Seq<char>
    decreases s.len(),
{
    if s.len() == 0 {
        seq![]
    } else {
        detail_rows(s.drop_last()) + detail_row(s.last())
    }
}

/// The whole report.
pub open spec fn report_text(s: Seq<Sample>, reps: int, model: Seq<char>, f: ReportFigures) -> Seq<
    char,
> {
    let arms = present_arms(s);
    let suites = firsts(s, true);
    head_text(model, reps, s.len() as int) + result_rows(s, arms, f.arms@) + "\n"@ + suite_text(
        s,
        arms,
        suites,
        f.suite_medians@.map_values(|v: Vec<String>| string_texts(v@)),
    ) + summary_text(s, f) + DETAIL_HEAD@ + detail_rows(s)
}

fn put(out: &mut Vec<char>, lit: &str)
    ensures
        final(out)@ == old(out)@ + lit@,
{
    let c = chars_of(lit);
    extend(out, c.as_slice());
}

fn put_count(out: &mut Vec<char>, n: u128)
    ensures
        final(out)@ == old(out)@ + num(n as int),
{
    push_decimal(out, n);
}

fn put_int(out: &mut Vec<char>, i: i64)
    ensures
        final(out)@ == old(out)@ + num(i as int),
{
    push_signed(out, i);
}

fn put_frac(out: &mut Vec<char>, c: u128, n: u128)
    ensures
        final(out)@ == old(out)@ + frac(c as int, n as int),
{
    put_count(out, c);
    put(out, "/");
    put_count(out, n);
    assert(out@ =~= old(out)@ + frac(c as int, n as int));
}

fn put_head(out: &mut Vec<char>, model: &str, reps: usize, n: usize)
    ensures
        final(out)@ == old(out)@ + head_text(model@, reps as int, n as int),
{
    put(out, TITLE);
    put(out, model);
    put(out, "` · **effort:** `");
    put(out, EFFORT);
    put(out, "` · **thinking:** adaptive · **reps/cell:** ");
    put_count(out, reps as u128);
    put(out, " · **n samples:** ");
    put_count(out, n as u128);
    put(out, "\n\n");
    put(out, INTRO);
    assert(out@ =~= old(out)@ + head_text(model@, reps as int, n as int));
}

fn put_results(out: &mut Vec<char>, s: &[Sample], arms: &Vec<String>, fs: &Vec<ArmFigures>)
    requires
        arms.len() == fs.len(),
    ensures
        final(out)@ == old(out)@ + result_rows(s@, string_texts(arms@), fs@),
{
    let ghost start = out@;
    let mut i: usize = 0;
    while i < arms.len()
        invariant
            i <= arms.len(),
            arms.len() == fs.len(),
            out@ == start + result_rows(s@, string_texts(arms@).take(i as int), fs@),
        decreases arms.len() - i,
    {
        let ghost before = out@;
        let a = arms[i].as_str();
        let f = &fs[i];
        let acc = arm_acc(s, a);
        put(out, "| `");
        put(out, a);
        put(out, "` | ");
        put(out, f.median_output.as_str());
        put(out, " | ");
        put(out, f.median_thinking.as_str());
        put(out, " | ");
        if text_eq(a, "baseline") {
            put(out, "—");
        } else {
            put(out, f.delta.as_str());
            put(out, "%");
        }
        put(out, " | ");
        put_frac(out, acc.0 as u128, acc.1 as u128);
        put(out, " |\n");
        let ghost pre = string_texts(arms@).take(i + 1);
        assert(pre.drop_last() =~= string_texts(arms@).take(i as int));
        assert(pre.last() == arms@[i as int]@);
        assert(out@ =~= before + result_row(s@, arms@[i as int]@, fs@[i as int]));
        i = i + 1;
    }
    assert(string_texts(arms@).take(arms.len() as int) =~= string_texts(arms@));
}

fn put_arm_cells(out: &mut Vec<char>, arms: &Vec<String>)
    ensures
        final(out)@ == old(out)@ + arm_cells(string_texts(arms@)),
{
    let ghost start = out@;
    let mut i: usize = 0;
    while i < arms.len()
        invariant
            i <= arms.len(),
            out@ == start + arm_cells(string_texts(arms@).take(i as int)),
        decreases arms.len() - i,
    {
        let ghost before = out@;
        put(out, " ");
        put(out, arms[i].as_str());
        put(out, " |");
        let ghost pre = string_texts(arms@).take(i + 1);
        assert(pre.drop_last() =~= string_texts(arms@).take(i as int));
        assert(out@ =~= before + " "@ + pre.last() + " |"@);
        i = i + 1;
    }
    assert(string_texts(arms@).take(arms.len() as int) =~= string_texts(arms@));
}

fn put_repeat(out: &mut Vec<char>, cell: &str, k: usize)
    ensures
        final(out)@ == old(out)@ + repeat(cell@, k as nat),
{
    let ghost start = out@;
    let mut i: usize = 0;
    while i < k
        invariant
            i <= k,
            out@ == start + repeat(cell@, i as nat),
        decreases k - i,
    {
        put(out, cell);
        i = i + 1;
        assert(out@ =~= start + repeat(cell@, i as nat));
    }
}

fn put_medians(out: &mut Vec<char>, suites: &Vec<(String, String)>, meds: &Vec<Vec<String>>)
    requires
        suites.len() == meds.len(),
    ensures
        final(out)@ == old(out)@ + median_rows(
            pair_texts(suites@),
            meds@.map_values(|v: Vec<String>| string_texts(v@)),
        ),
{
    let ghost start = out@;
    let ghost ms = meds@.map_values(|v: Vec<String>| string_texts(v@));
    let mut i: usize = 0;
    while i < suites.len()
        invariant
            i <= suites.len(),
            suites.len() == meds.len(),
            ms == meds@.map_values(|v: Vec<String>| string_texts(v@)),
            out@ == start + median_rows(pair_texts(suites@).take(i as int), ms),
        decreases suites.len() - i,
    {
        let ghost before = out@;
        put(out, "| `");
        put(out, suites[i].0.as_str());
        put(out, "` | ");
        put(out, suites[i].1.as_str());
        put(out, " |");
        put_arm_cells(out, &meds[i]);
        put(out, "\n");
        let ghost pre = pair_texts(suites@).take(i + 1);
        assert(pre.drop_last() =~= pair_texts(suites@).take(i as int));
        assert(out@ =~= before + median_row(pre[i as int].0, pre[i as int].1, ms[i as int]));
        i = i + 1;
    }
    assert(pair_texts(suites@).take(suites.len() as int) =~= pair_texts(suites@));
}

fn put_acc_cells(out: &mut Vec<char>, s: &[Sample], arms: &Vec<String>, su: &str)
    ensures
        final(out)@ == old(out)@ + acc_cells(s@, string_texts(arms@), su@),
{
    let ghost start = out@;
    let mut i: usize = 0;
    while i < arms.len()
        invariant
            i <= arms.len(),
            out@ == start + acc_cells(s@, string_texts(arms@).take(i as int), su@),
        decreases arms.len() - i,
    {
        let ghost before = out@;
        let acc = arm_suite_acc(s, arms[i].as_str(), su);
        put(out, " ");
        put_frac(out, acc.0 as u128, acc.1 as u128);
        put(out, " |");
        let ghost pre = string_texts(arms@).take(i + 1);
        assert(pre.drop_last() =~= string_texts(arms@).take(i as int));
        assert(pre.last() == arms@[i as int]@);
        i = i + 1;
        assert(out@ =~= start + acc_cells(s@, pre, su@));
    }
    assert(string_texts(arms@).take(arms.len() as int) =~= string_texts(arms@));
}

fn put_acc_rows(out: &mut Vec<char>, s: &[Sample], arms: &Vec<String>, suites: &Vec<(String, String)>)
    ensures
        final(out)@ == old(out)@ + acc_rows(s@, string_texts(arms@), pair_texts(suites@)),
{
    let ghost start = out@;
    let mut i: usize = 0;
    while i < suites.len()
        invariant
            i <= suites.len(),
            out@ == start + acc_rows(s@, string_texts(arms@), pair_texts(suites@).take(i as int)),
        decreases suites.len() - i,
    {
        let ghost before = out@;
        put(out, "| `");
        put(out, suites[i].0.as_str());
        put(out, "` |");
        put_acc_cells(out, s, arms, suites[i].0.as_str());
        put(out, "\n");
        let ghost pre = pair_texts(suites@).take(i + 1);
        assert(pre.drop_last() =~= pair_texts(suites@).take(i as int));
        assert(pre.last().0 == suites@[i as int].0@);
        i = i + 1;
        assert(out@ =~= start + acc_rows(s@, string_texts(arms@), pre));
    }
    assert(pair_texts(suites@).take(suites.len() as int) =~= pair_texts(suites@));
}

/// How many samples were graded correct.
fn count_correct(s: &[Sample]) -> (n: usize)
    ensures
        n == correct_count(s@),
{
    let mut n: usize = 0;
    let mut i: usize = 0;
    assert(s@.take(0) =~= Seq::<Sample>::empty());
    while i < s.len()
        invariant
            i <= s.len(),
            n == correct_count(s@.take(i as int)),
            n <= i,
        decreases s.len() - i,
    {
        assert(s@.take(i + 1).drop_last() =~= s@.take(i as int));
        if s[i].correct {
            n = n + 1;
        }
        i = i + 1;
    }
    assert(s@.take(s.len() as int) =~= s@);
    n
}

fn put_summary(out: &mut Vec<char>, s: &[Sample], f: &ReportFigures)
    ensures
        final(out)@ == old(out)@ + summary_text(s@, *f),
{
    let b = arm_acc(s, "baseline");
    let c = arm_acc(s, "caveman");
    let good = count_correct(s);
    put(out, "## Verdict\n\n");
    put(out, "Median billed output: baseline ");
    put(out, f.base_out.as_str());
    put(out, " → caveman ");
    put(out, f.cave_out.as_str());
    put(out, " (");
    put(out, f.delta_out.as_str());
    put(out, "%). ");
    put(out, "Accuracy: baseline ");
    put_frac(out, b.0 as u128, b.1 as u128);
    put(out, ", caveman ");
    put_frac(out, c.0 as u128, c.1 as u128);
    put(out, ".\n\n");
    put(out, "Overall accuracy ");
    put_frac(out, good as u128, s.len() as u128);
    put(out, CAVEATS);
    assert(out@ =~= old(out)@ + summary_text(s@, *f));
}

fn put_detail_row(out: &mut Vec<char>, x: &Sample)
    ensures
        final(out)@ == old(out)@ + detail_row(*x),
{
    put(out, "| ");
    put(out, x.id.as_str());
    put(out, " | ");
    put(out, x.suite.as_str());
    put(out, " | ");
    put(out, x.arm.as_str());
    put(out, " | ");
    put_count(out, x.rep as u128);
    put(out, " | ");
    put_int(out, x.output);
    put(out, " | ");
    put_int(out, x.thinking);
    put(out, " | ");
    put(out, x.stop.as_str());
    put(out, " | ");
    let ghost mid = out@;
    if x.correct {
        put(out, "✓");
    } else {
        put(out, "✗");
    }
    put(out, " |\n");
    assert(out@ =~= old(out)@ + detail_row(*x));
}

fn put_details(out: &mut Vec<char>, s: &[Sample])
    ensures
        final(out)@ == old(out)@ + detail_rows(s@),
{
    let ghost start = out@;
    let mut i: usize = 0;
    assert(s@.take(0) =~= Seq::<Sample>::empty());
    while i < s.len()
        invariant
            i <= s.len(),
            out@ == start + detail_rows(s@.take(i as int)),
        decreases s.len() - i,
    {
        put_detail_row(out, &s[i]);
        let ghost pre = s@.take(i + 1);
        assert(pre.drop_last() =~= s@.take(i as int));
        i = i + 1;
        assert(out@ =~= start + detail_rows(pre));
    }
    assert(s@.take(s.len() as int) =~= s@);
}

fn put_suites(
    out: &mut Vec<char>,
    s: &[Sample],
    arms: &Vec<String>,
    suites: &Vec<(String, String)>,
    meds: &Vec<Vec<String>>,
)
    requires
        suites.len() == meds.len(),
    ensures
        final(out)@ == old(out)@ + suite_text(
            s@,
            string_texts(arms@),
            pair_texts(suites@),
            meds@.map_values(|v: Vec<String>| string_texts(v@)),
        ),
{
    put(out, "## Median output tokens by suite\n\n| suite | domain |");
    put_arm_cells(out, arms);
    put(out, "\n|---|---|");
    put_repeat(out, "--:|", arms.len());
    put(out, "\n");
    put_medians(out, suites, meds);
    put(out, "\n");
    let ghost mid = out@;
    put(out, "## Accuracy by suite\n\n| suite |");
    put_arm_cells(out, arms);
    put(out, "\n|---|");
    put_repeat(out, ":--:|", arms.len());
    put(out, "\n");
    put_acc_rows(out, s, arms, suites);
    put(out, "\n");
    assert(string_texts(arms@).len() == arms.len());
    assert(out@ =~= old(out)@ + suite_text(
        s@,
        string_texts(arms@),
        pair_texts(suites@),
        meds@.map_values(|v: Vec<String>| string_texts(v@)),
    ));
}

/// The report, in Markdown, on samples of the model `model`: header, results by arm,
/// the suite tables, the closing summary and every sample. Figures
/// that rest on averages come formatted in `f`, in the order of `report_arms` and
/// `suites_of`.
pub fn build_report(samples: &[Sample], reps: usize, model: &str, f: &ReportFigures) -> (r: String)
    requires
        f.arms.len() == present_arms(samples@).len(),
        f.suite_medians.len() == firsts(samples@, true).len(),
    ensures
        r@ == report_text(samples@, reps as int, model@, *f),
{
    let arms = report_arms(samples);
    let suites = suites_of(samples);
    let mut out: Vec<char> = Vec::new();
    put_head(&mut out, model, reps, samples.len());
    let ghost a1 = out@;
    put_results(&mut out, samples, &arms, &f.arms);
    put(&mut out, "\n");
    let ghost a2 = out@;
    put_suites(&mut out, samples, &arms, &suites, &f.suite_medians);
    let ghost a3 = out@;
    put_summary(&mut out, samples, f);
    let ghost a5 = out@;
    put(&mut out, DETAIL_HEAD);
    put_details(&mut out, samples);
    proof {
        let arms_v = present_arms(samples@);
        let suites_v = firsts(samples@, true);
        let meds_v = f.suite_medians@.map_values(|v: Vec<String>| string_texts(v@));
        assert(a1 == head_text(model@, reps as int, samples@.len() as int));
        assert(a2 == a1 + result_rows(samples@, arms_v, f.arms@) + "\n"@);
        assert(a3 == a2 + suite_text(samples@, arms_v, suites_v, meds_v));
        assert(a5 == a3 + summary_text(samples@, *f));
        assert(out@ == a5 + DETAIL_HEAD@ + detail_rows(samples@));
        assert(out@ =~= report_text(samples@, reps as int, model@, *f));
    }
    to_text(out.as_slice())
}

} // verus!
