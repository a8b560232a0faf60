use skillbench::model::Sample;
use skillbench::report::{build_report, max_rep, report_arms, ArmFigures, ReportFigures};

fn sample(id: &str, suite: &str, arm: &str, rep: usize, thinking: i64, output: i64, correct: bool) -> Sample {
    Sample {
        suite: suite.to_string(),
        domain: "math".to_string(),
        id: id.to_string(),
        arm: arm.to_string(),
        rep,
        thinking,
        output,
        stop: "end_turn".to_string(),
        correct,
    }
}

fn arm_fig(m: &str, t: &str, d: &str) -> ArmFigures {
    ArmFigures { median_output: m.to_string(), median_thinking: t.to_string(), delta: d.to_string() }
}

fn figures() -> ReportFigures {
    ReportFigures {
        arms: vec![arm_fig("38", "0", "+0"), arm_fig("14", "0", "-61")],
        suite_medians: vec![vec!["3".to_string(), "7".to_string()]],
        base_out: "38".to_string(),
        cave_out: "14".to_string(),
        delta_out: "-61".to_string(),
    }
}

fn samples() -> Vec<Sample> {
    vec![
        sample("aime-0", "aime", "baseline", 1, 40, 3, true),
        sample("aime-0", "aime", "caveman", 2, 10, -7, false),
    ]
}

#[test]
fn arms_in_report_order() {
    let s = samples();
    assert_eq!(report_arms(&s), vec!["baseline".to_string(), "caveman".to_string()]);
    assert_eq!(report_arms(&s[1..]), vec!["caveman".to_string()]);
    assert_eq!(report_arms(&[]), Vec::<String>::new());
}

#[test]
fn max_rep_of_samples() {
    assert_eq!(max_rep(&samples()), 2);
    assert_eq!(max_rep(&[]), 0);
}

#[test]
fn report_sections() {
    let s = samples();
    let r = build_report(&s, 2, "test-model", &figures());
    assert!(r.starts_with("# skillbench — caveman SKILL.md, head to head vs baseline\n\n**Model:** `test-model` · **effort:** `high` · **thinking:** adaptive · **reps/cell:** 2 · **n samples:** 2\n\n## Question\n\n"));
    assert!(r.contains("| arm | median output | median thinking | Δ output vs baseline | accuracy |\n|---|---:|---:|---:|:--:|\n| `baseline` | 38 | 0 | — | 1/1 |\n| `caveman` | 14 | 0 | -61% | 0/1 |\n\n## Median output tokens by suite\n\n| suite | domain | baseline | caveman |\n|---|---|--:|--:|\n| `aime` | math | 3 | 7 |\n\n## Accuracy by suite\n\n| suite | baseline | caveman |\n|---|:--:|:--:|\n| `aime` | 1/1 | 0/1 |\n\n## Verdict\n\nMedian billed output: baseline 38 → caveman 14 (-61%). Accuracy: baseline 1/1, caveman 0/1.\n\nOverall accuracy 1/2. Caveats:"));
    assert!(r.ends_with("\n## Per-rep detail\n\n| id | suite | arm | rep | output | thinking | stop | ok |\n|---|---|---|--:|--:|--:|---|:--:|\n| aime-0 | aime | baseline | 1 | 3 | 40 | end_turn | ✓ |\n| aime-0 | aime | caveman | 2 | -7 | 10 | end_turn | ✗ |\n"));
}

#[test]
fn report_sections_are_the_documented_ones() {
    let r = build_report(&samples(), 1, "m", &figures());
    let heads: Vec<&str> = r.lines().filter(|l| l.starts_with("## ")).collect();
    assert_eq!(
        heads,
        vec![
            "## Question",
            "## Arms",
            "## Results — median output tokens, by arm",
            "## Median output tokens by suite",
            "## Accuracy by suite",
            "## Verdict",
            "## Per-rep detail",
        ]
    );
}
