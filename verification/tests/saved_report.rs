use skillbench::model::Sample;
use skillbench::report::{build_report, ArmFigures, ReportFigures};

fn arm_fig(m: &str, t: &str, d: &str) -> ArmFigures {
    ArmFigures { median_output: m.to_string(), median_thinking: t.to_string(), delta: d.to_string() }
}

fn strings(v: &[&str]) -> Vec<String> {
    v.iter().map(|x| x.to_string()).collect()
}

/// The samples of the saved benchmark run, in the order of its per-rep table.
fn saved_samples() -> Vec<Sample> {
    let rows: Vec<(&str, &str, &str, &str, usize, i64, i64, &str, bool)> = vec![
        ("aime-0", "aime", "math", "baseline", 1, 3, 0, "end_turn", true),
        ("aime-0", "aime", "math", "baseline", 2, 3, 0, "end_turn", true),
        ("aime-0", "aime", "math", "caveman", 1, 3, 0, "end_turn", true),
        ("aime-0", "aime", "math", "caveman", 2, 3, 0, "end_turn", true),
        ("aime-1", "aime", "math", "baseline", 1, 3, 0, "end_turn", true),
        ("aime-1", "aime", "math", "baseline", 2, 3, 0, "end_turn", true),
        ("aime-1", "aime", "math", "caveman", 1, 3, 0, "end_turn", true),
        ("aime-1", "aime", "math", "caveman", 2, 3, 0, "end_turn", true),
        ("aime-2", "aime", "math", "baseline", 1, 3, 0, "end_turn", false),
        ("aime-2", "aime", "math", "baseline", 2, 3, 0, "end_turn", false),
        ("aime-2", "aime", "math", "caveman", 1, 11, 8, "end_turn", true),
        ("aime-2", "aime", "math", "caveman", 2, 11, 8, "end_turn", true),
        ("aime-3", "aime", "math", "baseline", 1, 571, 568, "end_turn", false),
        ("aime-3", "aime", "math", "baseline", 2, 378, 375, "end_turn", false),
        ("aime-3", "aime", "math", "caveman", 1, 252, 249, "end_turn", false),
        ("aime-3", "aime", "math", "caveman", 2, 253, 250, "end_turn", false),
        ("math5-0", "math5", "math", "baseline", 1, 127, 120, "end_turn", true),
        ("math5-0", "math5", "math", "baseline", 2, 134, 127, "end_turn", true),
        ("math5-0", "math5", "math", "caveman", 1, 18, 11, "end_turn", true),
        ("math5-0", "math5", "math", "caveman", 2, 19, 12, "end_turn", true),
        ("math5-1", "math5", "math", "baseline", 1, 3, 0, "end_turn", true),
        ("math5-1", "math5", "math", "baseline", 2, 3, 0, "end_turn", true),
        ("math5-1", "math5", "math", "caveman", 1, 3, 0, "end_turn", true),
        ("math5-1", "math5", "math", "caveman", 2, 3, 0, "end_turn", true),
        ("math5-2", "math5", "math", "baseline", 1, 804, 789, "end_turn", true),
        ("math5-2", "math5", "math", "baseline", 2, 2566, 2551, "end_turn", true),
        ("math5-2", "math5", "math", "caveman", 1, 1010, 1005, "end_turn", false),
        ("math5-2", "math5", "math", "caveman", 2, 838, 832, "end_turn", false),
        ("math5-3", "math5", "math", "baseline", 1, 72, 69, "end_turn", true),
        ("math5-3", "math5", "math", "baseline", 2, 142, 139, "end_turn", true),
        ("math5-3", "math5", "math", "caveman", 1, 119, 116, "end_turn", true),
        ("math5-3", "math5", "math", "caveman", 2, 135, 132, "end_turn", true),
        ("mmlupro-cs-0", "mmlu_pro_cs", "cs", "baseline", 1, 3, 0, "end_turn", true),
        ("mmlupro-cs-0", "mmlu_pro_cs", "cs", "baseline", 2, 3, 0, "end_turn", true),
        ("mmlupro-cs-0", "mmlu_pro_cs", "cs", "caveman", 1, 3, 0, "end_turn", true),
        ("mmlupro-cs-0", "mmlu_pro_cs", "cs", "caveman", 2, 3, 0, "end_turn", true),
        ("mmlupro-cs-1", "mmlu_pro_cs", "cs", "baseline", 1, 3, 0, "end_turn", true),
        ("mmlupro-cs-1", "mmlu_pro_cs", "cs", "baseline", 2, 3, 0, "end_turn", true),
        ("mmlupro-cs-1", "mmlu_pro_cs", "cs", "caveman", 1, 3, 0, "end_turn", true),
        ("mmlupro-cs-1", "mmlu_pro_cs", "cs", "caveman", 2, 3, 0, "end_turn", true),
        ("mmlupro-cs-2", "mmlu_pro_cs", "cs", "baseline", 1, 3, 0, "end_turn", true),
        ("mmlupro-cs-2", "mmlu_pro_cs", "cs", "baseline", 2, 3, 0, "end_turn", true),
        ("mmlupro-cs-2", "mmlu_pro_cs", "cs", "caveman", 1, 3, 0, "end_turn", false),
        ("mmlupro-cs-2", "mmlu_pro_cs", "cs", "caveman", 2, 3, 0, "end_turn", false),
        ("mmlupro-cs-3", "mmlu_pro_cs", "cs", "baseline", 1, 3, 0, "end_turn", true),
        ("mmlupro-cs-3", "mmlu_pro_cs", "cs", "baseline", 2, 3, 0, "end_turn", true),
        ("mmlupro-cs-3", "mmlu_pro_cs", "cs", "caveman", 1, 3, 0, "end_turn", true),
        ("mmlupro-cs-3", "mmlu_pro_cs", "cs", "caveman", 2, 3, 0, "end_turn", true),
        ("HumanEval_0", "humaneval", "cs", "baseline", 1, 221, 0, "end_turn", true),
        ("HumanEval_0", "humaneval", "cs", "baseline", 2, 221, 0, "end_turn", true),
        ("HumanEval_0", "humaneval", "cs", "caveman", 1, 225, 0, "end_turn", true),
        ("HumanEval_0", "humaneval", "cs", "caveman", 2, 225, 0, "end_turn", true),
        ("HumanEval_1", "humaneval", "cs", "baseline", 1, 284, 6, "end_turn", true),
        ("HumanEval_1", "humaneval", "cs", "baseline", 2, 303, 6, "end_turn", true),
        ("HumanEval_1", "humaneval", "cs", "caveman", 1, 292, 9, "end_turn", true),
        ("HumanEval_1", "humaneval", "cs", "caveman", 2, 291, 8, "end_turn", true),
        ("HumanEval_2", "humaneval", "cs", "baseline", 1, 121, 0, "end_turn", true),
        ("HumanEval_2", "humaneval", "cs", "baseline", 2, 121, 0, "end_turn", true),
        ("HumanEval_2", "humaneval", "cs", "caveman", 1, 121, 0, "end_turn", true),
        ("HumanEval_2", "humaneval", "cs", "caveman", 2, 121, 0, "end_turn", true),
        ("HumanEval_3", "humaneval", "cs", "baseline", 1, 194, 6, "end_turn", false),
        ("HumanEval_3", "humaneval", "cs", "baseline", 2, 200, 6, "end_turn", true),
        ("HumanEval_3", "humaneval", "cs", "caveman", 1, 201, 7, "end_turn", true),
        ("HumanEval_3", "humaneval", "cs", "caveman", 2, 201, 7, "end_turn", true),
    ];
    rows.into_iter()
        .map(|(id, suite, domain, arm, rep, output, thinking, stop, correct)| Sample {
            suite: suite.to_string(),
            domain: domain.to_string(),
            id: id.to_string(),
            arm: arm.to_string(),
            rep,
            thinking,
            output,
            stop: stop.to_string(),
            correct,
        })
        .collect()
}

const SAVED_REPORT: &str = "# skillbench — caveman SKILL.md, head to head vs baseline\n\
\n\
**Model:** `test-model` · **effort:** `high` · **thinking:** adaptive · **reps/cell:** 2 · **n samples:** 64\n\
\n\
## Question\n\
\n\
The caveman skill claims it cuts billed output ~75% while keeping full technical accuracy. **Holding the model, effort, task and answer format fixed, does adding the caveman `SKILL.md` to the system prompt change billed output tokens, and does accuracy survive?**\n\
\n\
## Arms\n\
\n\
| arm | system prompt |\n\
|---|---|\n\
| `baseline` | neutral solver prompt only |\n\
| `caveman` | same prompt + the full `skills/caveman/SKILL.md` body (YAML frontmatter stripped) |\n\
\n\
**Evals:** AIME + Hendrycks MATH level-5 (math); MMLU-Pro computer science + HumanEval (cs). Metric = API `usage.output_tokens` (full billed generation; `thinking_tokens` shown alongside). Only the system prompt differs across arms.\n\
\n\
> **Limits:** these splits force a terse final answer (bare integer / letter / function body), so there is little prose for caveman to compress and HumanEval output is code (\"code blocks unchanged\" by the skill's own rule). This bench therefore measures whether the SKILL.md is *safe* — accuracy preserved, output not bloated — not the README's ~75% prose figure, which is measured on explanatory prompts in `benchmarks/`. Raw chain of thought is never returned; we measure its billed footprint, not its content.\n\
\n\
## Results — median output tokens, by arm\n\
\n\
| arm | median output | median thinking | Δ output vs baseline | accuracy |\n\
|---|---:|---:|---:|:--:|\n\
| `baseline` | 38 | 0 | — | 27/32 |\n\
| `caveman` | 14 | 0 | -61% | 26/32 |\n\
\n\
## Median output tokens by suite\n\
\n\
| suite | domain | baseline | caveman |\n\
|---|---|--:|--:|\n\
| `aime` | math | 3 | 7 |\n\
| `math5` | math | 130 | 69 |\n\
| `mmlu_pro_cs` | cs | 3 | 3 |\n\
| `humaneval` | cs | 210 | 213 |\n\
\n\
## Accuracy by suite\n\
\n\
| suite | baseline | caveman |\n\
|---|:--:|:--:|\n\
| `aime` | 4/8 | 6/8 |\n\
| `math5` | 8/8 | 6/8 |\n\
| `mmlu_pro_cs` | 8/8 | 6/8 |\n\
| `humaneval` | 7/8 | 8/8 |\n\
\n\
## Verdict\n\
\n\
Median billed output: baseline 38 → caveman 14 (-61%). Accuracy: baseline 27/32, caveman 26/32.\n\
\n\
Overall accuracy 53/64. Caveats: AIME / MMLU-Pro-CS are largely one-shot (output≈answer, so they barely separate the arms); MATH-L5 carries most of the output signal; MATH grading is normalized-string (approximate); HumanEval output is code the skill leaves unchanged by rule. The headline ~75% compression is a *prose* claim measured separately — this bench's job is to show the SKILL.md neither breaks accuracy nor inflates token cost on hard answer-only evals.\n\
\n\
## Per-rep detail\n\
\n\
| id | suite | arm | rep | output | thinking | stop | ok |\n\
|---|---|---|--:|--:|--:|---|:--:|\n\
| aime-0 | aime | baseline | 1 | 3 | 0 | end_turn | ✓ |\n\
| aime-0 | aime | baseline | 2 | 3 | 0 | end_turn | ✓ |\n\
| aime-0 | aime | caveman | 1 | 3 | 0 | end_turn | ✓ |\n\
| aime-0 | aime | caveman | 2 | 3 | 0 | end_turn | ✓ |\n\
| aime-1 | aime | baseline | 1 | 3 | 0 | end_turn | ✓ |\n\
| aime-1 | aime | baseline | 2 | 3 | 0 | end_turn | ✓ |\n\
| aime-1 | aime | caveman | 1 | 3 | 0 | end_turn | ✓ |\n\
| aime-1 | aime | caveman | 2 | 3 | 0 | end_turn | ✓ |\n\
| aime-2 | aime | baseline | 1 | 3 | 0 | end_turn | ✗ |\n\
| aime-2 | aime | baseline | 2 | 3 | 0 | end_turn | ✗ |\n\
| aime-2 | aime | caveman | 1 | 11 | 8 | end_turn | ✓ |\n\
| aime-2 | aime | caveman | 2 | 11 | 8 | end_turn | ✓ |\n\
| aime-3 | aime | baseline | 1 | 571 | 568 | end_turn | ✗ |\n\
| aime-3 | aime | baseline | 2 | 378 | 375 | end_turn | ✗ |\n\
| aime-3 | aime | caveman | 1 | 252 | 249 | end_turn | ✗ |\n\
| aime-3 | aime | caveman | 2 | 253 | 250 | end_turn | ✗ |\n\
| math5-0 | math5 | baseline | 1 | 127 | 120 | end_turn | ✓ |\n\
| math5-0 | math5 | baseline | 2 | 134 | 127 | end_turn | ✓ |\n\
| math5-0 | math5 | caveman | 1 | 18 | 11 | end_turn | ✓ |\n\
| math5-0 | math5 | caveman | 2 | 19 | 12 | end_turn | ✓ |\n\
| math5-1 | math5 | baseline | 1 | 3 | 0 | end_turn | ✓ |\n\
| math5-1 | math5 | baseline | 2 | 3 | 0 | end_turn | ✓ |\n\
| math5-1 | math5 | caveman | 1 | 3 | 0 | end_turn | ✓ |\n\
| math5-1 | math5 | caveman | 2 | 3 | 0 | end_turn | ✓ |\n\
| math5-2 | math5 | baseline | 1 | 804 | 789 | end_turn | ✓ |\n\
| math5-2 | math5 | baseline | 2 | 2566 | 2551 | end_turn | ✓ |\n\
| math5-2 | math5 | caveman | 1 | 1010 | 1005 | end_turn | ✗ |\n\
| math5-2 | math5 | caveman | 2 | 838 | 832 | end_turn | ✗ |\n\
| math5-3 | math5 | baseline | 1 | 72 | 69 | end_turn | ✓ |\n\
| math5-3 | math5 | baseline | 2 | 142 | 139 | end_turn | ✓ |\n\
| math5-3 | math5 | caveman | 1 | 119 | 116 | end_turn | ✓ |\n\
| math5-3 | math5 | caveman | 2 | 135 | 132 | end_turn | ✓ |\n\
| mmlupro-cs-0 | mmlu_pro_cs | baseline | 1 | 3 | 0 | end_turn | ✓ |\n\
| mmlupro-cs-0 | mmlu_pro_cs | baseline | 2 | 3 | 0 | end_turn | ✓ |\n\
| mmlupro-cs-0 | mmlu_pro_cs | caveman | 1 | 3 | 0 | end_turn | ✓ |\n\
| mmlupro-cs-0 | mmlu_pro_cs | caveman | 2 | 3 | 0 | end_turn | ✓ |\n\
| mmlupro-cs-1 | mmlu_pro_cs | baseline | 1 | 3 | 0 | end_turn | ✓ |\n\
| mmlupro-cs-1 | mmlu_pro_cs | baseline | 2 | 3 | 0 | end_turn | ✓ |\n\
| mmlupro-cs-1 | mmlu_pro_cs | caveman | 1 | 3 | 0 | end_turn | ✓ |\n\
| mmlupro-cs-1 | mmlu_pro_cs | caveman | 2 | 3 | 0 | end_turn | ✓ |\n\
| mmlupro-cs-2 | mmlu_pro_cs | baseline | 1 | 3 | 0 | end_turn | ✓ |\n\
| mmlupro-cs-2 | mmlu_pro_cs | baseline | 2 | 3 | 0 | end_turn | ✓ |\n\
| mmlupro-cs-2 | mmlu_pro_cs | caveman | 1 | 3 | 0 | end_turn | ✗ |\n\
| mmlupro-cs-2 | mmlu_pro_cs | caveman | 2 | 3 | 0 | end_turn | ✗ |\n\
| mmlupro-cs-3 | mmlu_pro_cs | baseline | 1 | 3 | 0 | end_turn | ✓ |\n\
| mmlupro-cs-3 | mmlu_pro_cs | baseline | 2 | 3 | 0 | end_turn | ✓ |\n\
| mmlupro-cs-3 | mmlu_pro_cs | caveman | 1 | 3 | 0 | end_turn | ✓ |\n\
| mmlupro-cs-3 | mmlu_pro_cs | caveman | 2 | 3 | 0 | end_turn | ✓ |\n\
| HumanEval_0 | humaneval | baseline | 1 | 221 | 0 | end_turn | ✓ |\n\
| HumanEval_0 | humaneval | baseline | 2 | 221 | 0 | end_turn | ✓ |\n\
| HumanEval_0 | humaneval | caveman | 1 | 225 | 0 | end_turn | ✓ |\n\
| HumanEval_0 | humaneval | caveman | 2 | 225 | 0 | end_turn | ✓ |\n\
| HumanEval_1 | humaneval | baseline | 1 | 284 | 6 | end_turn | ✓ |\n\
| HumanEval_1 | humaneval | baseline | 2 | 303 | 6 | end_turn | ✓ |\n\
| HumanEval_1 | humaneval | caveman | 1 | 292 | 9 | end_turn | ✓ |\n\
| HumanEval_1 | humaneval | caveman | 2 | 291 | 8 | end_turn | ✓ |\n\
| HumanEval_2 | humaneval | baseline | 1 | 121 | 0 | end_turn | ✓ |\n\
| HumanEval_2 | humaneval | baseline | 2 | 121 | 0 | end_turn | ✓ |\n\
| HumanEval_2 | humaneval | caveman | 1 | 121 | 0 | end_turn | ✓ |\n\
| HumanEval_2 | humaneval | caveman | 2 | 121 | 0 | end_turn | ✓ |\n\
| HumanEval_3 | humaneval | baseline | 1 | 194 | 6 | end_turn | ✗ |\n\
| HumanEval_3 | humaneval | baseline | 2 | 200 | 6 | end_turn | ✓ |\n\
| HumanEval_3 | humaneval | caveman | 1 | 201 | 7 | end_turn | ✓ |\n\
| HumanEval_3 | humaneval | caveman | 2 | 201 | 7 | end_turn | ✓ |\n\
";

#[test]
fn saved_run_report_is_reproduced() {
    let figures = ReportFigures {
        arms: vec![arm_fig("38", "0", "+0"), arm_fig("14", "0", "-61")],
        suite_medians: vec![
            strings(&["3", "7"]),
            strings(&["130", "69"]),
            strings(&["3", "3"]),
            strings(&["210", "213"]),
        ],
        base_out: "38".to_string(),
        cave_out: "14".to_string(),
        delta_out: "-61".to_string(),
    };
    let r = build_report(&saved_samples(), 2, "test-model", &figures);
    assert_eq!(r, SAVED_REPORT);
}
