use skillbench::bench::{arm_sys, strip_frontmatter, BenchRun, MockLlm, BASE_SYS};
use skillbench::grade::{grade, Grade};
use skillbench::model::{Req, Sample, Task};
use skillbench::stats::{
    arm_acc, arm_out, arm_suite_acc, arm_suite_out, arm_think, suites_of, t_acc, t_think, task_ids,
};

fn task(id: &str, suite: &str, kind: &str, gold: &str) -> Task {
    Task {
        suite: suite.to_string(),
        domain: "math".to_string(),
        id: id.to_string(),
        kind: kind.to_string(),
        instruction: "Answer with an integer.".to_string(),
        prompt: format!("Prompt of {}", id),
        gold: gold.to_string(),
        test: String::new(),
        entry: String::new(),
    }
}

fn req(system: &str, user: &str) -> Req {
    Req { system: system.to_string(), user: user.to_string(), display: "omitted".to_string() }
}

#[test]
fn arm_sys_appends_skill_for_caveman_only() {
    assert_eq!(arm_sys("caveman", "Talk short."), format!("{}\n\nTalk short.", BASE_SYS));
    assert_eq!(arm_sys("baseline", "Talk short."), BASE_SYS);
    assert_eq!(arm_sys("other", ""), BASE_SYS);
    assert!(BASE_SYS.starts_with("You solve problems precisely."));
}

#[test]
fn frontmatter_is_stripped() {
    assert_eq!(strip_frontmatter("---\nname: x\n---\n\nBody here\n"), "Body here");
    assert_eq!(strip_frontmatter("---\nname: x\n---\r\n\r\nBody"), "Body");
    assert_eq!(strip_frontmatter("  plain body  "), "plain body");
    assert_eq!(strip_frontmatter("---no closing marker\n"), "---no closing marker");
    assert_eq!(strip_frontmatter(""), "");
}

#[test]
fn mock_outputs() {
    let m = MockLlm;
    let r = m.complete(&req(BASE_SYS, "abc"));
    assert_eq!(r.input, 40);
    assert_eq!(r.output, 1650);
    assert_eq!(r.thinking, 1485);
    assert_eq!(r.answer, "42");
    assert_eq!(r.summary, "");
    assert_eq!(r.stop, "end_turn");
    let c = m.complete(&req("You are a smart caveman.", "abc"));
    assert_eq!(c.output, 412);
    assert_eq!(c.thinking, 370);
    assert_eq!(c.answer, "42");
    // byte length, not character count: "é" takes two bytes
    assert_eq!(m.complete(&req("", "é")).output, 1500);
    assert_eq!(m.complete(&req("", "abcde")).output, 1200);
}

fn run_all(tasks: Vec<Task>, arms: Vec<&str>, reps: usize) -> Vec<Sample> {
    let mut run = BenchRun::new(
        tasks,
        arms.iter().map(|a| a.to_string()).collect(),
        "Be a smart caveman.".to_string(),
        reps,
    );
    let mock = MockLlm;
    let mut steps = 0;
    while let Some(r) = run.next_request() {
        let resp = mock.complete(&r);
        let passed = match grade(run.current_task().unwrap(), &resp.answer) {
            Grade::Graded(_) => false,
            _ => true,
        };
        run.record(resp, passed);
        steps += 1;
        assert!(steps <= 1000);
    }
    assert!(run.current_task().is_none());
    run.samples
}

#[test]
fn run_visits_every_slot_in_order() {
    let tasks = vec![task("a-0", "aime", "numeric", "42"), task("a-1", "aime", "numeric", "7")];
    let s = run_all(tasks, vec!["baseline", "caveman"], 2);
    assert_eq!(s.len(), 8);
    let order: Vec<(String, String, usize)> =
        s.iter().map(|x| (x.id.clone(), x.arm.clone(), x.rep)).collect();
    let want = vec![
        ("a-0", "baseline", 1),
        ("a-0", "baseline", 2),
        ("a-0", "caveman", 1),
        ("a-0", "caveman", 2),
        ("a-1", "baseline", 1),
        ("a-1", "baseline", 2),
        ("a-1", "caveman", 1),
        ("a-1", "caveman", 2),
    ];
    for (k, (id, arm, rep)) in want.iter().enumerate() {
        assert_eq!(order[k], (id.to_string(), arm.to_string(), *rep));
    }
    assert!(s[0].correct);
    assert!(!s[4].correct);
    assert_eq!(s[0].suite, "aime");
    assert_eq!(s[0].stop, "end_turn");
}

#[test]
fn caveman_arm_shrinks_mock_output() {
    let s = run_all(vec![task("a-0", "aime", "numeric", "42")], vec!["baseline", "caveman"], 1);
    assert!(s[1].output < s[0].output);
    assert_eq!(s[0].correct, s[1].correct);
}

#[test]
fn empty_runs() {
    assert_eq!(run_all(vec![task("a-0", "aime", "numeric", "42")], vec![], 2).len(), 0);
    assert_eq!(run_all(vec![task("a-0", "aime", "numeric", "42")], vec!["baseline"], 0).len(), 0);
    assert_eq!(run_all(vec![], vec!["baseline"], 3).len(), 0);
}

#[test]
fn requests_differ_in_system_prompt_only() {
    let run = BenchRun::new(
        vec![task("a-0", "aime", "numeric", "42")],
        vec!["baseline".to_string(), "caveman".to_string()],
        "SKILL".to_string(),
        1,
    );
    let first = run.next_request().unwrap();
    assert_eq!(first.system, BASE_SYS);
    assert_eq!(first.user, "Prompt of a-0\n\nAnswer with an integer.");
    assert_eq!(first.display, "omitted");
    let mut run = run;
    run.record(MockLlm.complete(&first), false);
    let second = run.next_request().unwrap();
    assert_eq!(second.system, format!("{}\n\nSKILL", BASE_SYS));
    assert_eq!(second.user, first.user);
    assert_eq!(second.display, first.display);
}

fn sample(id: &str, suite: &str, arm: &str, rep: usize, thinking: i64, output: i64, correct: bool) -> Sample {
    Sample {
        suite: suite.to_string(),
        domain: if suite == "humaneval" { "cs".to_string() } else { "math".to_string() },
        id: id.to_string(),
        arm: arm.to_string(),
        rep,
        thinking,
        output,
        stop: "end_turn".to_string(),
        correct,
    }
}

fn samples() -> Vec<Sample> {
    vec![
        sample("a-0", "aime", "baseline", 1, 30, 3, true),
        sample("a-0", "aime", "caveman", 1, 10, 7, false),
        sample("h-0", "humaneval", "baseline", 1, 0, 210, true),
        sample("h-0", "humaneval", "caveman", 1, 0, 213, true),
        sample("a-1", "aime", "baseline", 2, 50, 5, false),
    ]
}

#[test]
fn selections() {
    let s = samples();
    assert_eq!(arm_out(&s, "baseline"), vec![3, 210, 5]);
    assert_eq!(arm_think(&s, "caveman"), vec![10, 0]);
    assert_eq!(arm_suite_out(&s, "baseline", "aime"), vec![3, 5]);
    assert_eq!(t_think(&s, "a-0", "baseline"), vec![30]);
    assert_eq!(t_acc(&s, "a-0", "caveman"), (0, 1));
    assert_eq!(arm_acc(&s, "baseline"), (2, 3));
    assert_eq!(arm_suite_acc(&s, "caveman", "humaneval"), (1, 1));
    assert_eq!(arm_acc(&s, "nobody"), (0, 0));
    assert_eq!(arm_out(&s, "nobody"), Vec::<i64>::new());
}

#[test]
fn first_appearances() {
    let s = samples();
    assert_eq!(
        task_ids(&s),
        vec![
            ("a-0".to_string(), "aime".to_string()),
            ("h-0".to_string(), "humaneval".to_string()),
            ("a-1".to_string(), "aime".to_string()),
        ]
    );
    assert_eq!(
        suites_of(&s),
        vec![("aime".to_string(), "math".to_string()), ("humaneval".to_string(), "cs".to_string())]
    );
    assert_eq!(task_ids(&[]), vec![]);
}

#[test]
fn suite_tallies_add_up_to_the_arm() {
    let s = samples();
    for arm in ["baseline", "caveman"] {
        let mut c = 0;
        let mut n = 0;
        for (su, _) in suites_of(&s) {
            let (a, b) = arm_suite_acc(&s, arm, &su);
            c += a;
            n += b;
        }
        assert_eq!((c, n), arm_acc(&s, arm));
    }
}

#[test]
fn arm_out_over_concatenation() {
    let s = samples();
    let (a, b) = s.split_at(2);
    let mut joined = arm_out(a, "baseline");
    joined.extend(arm_out(b, "baseline"));
    assert_eq!(arm_out(&s, "baseline"), joined);
    assert_eq!(arm_out(&s[..1], "baseline"), vec![3]);
    assert_eq!(arm_out(&s[1..2], "baseline"), Vec::<i64>::new());
}

#[test]
fn suite_selection_is_a_filter() {
    let s = samples();
    for (su, _) in suites_of(&s) {
        let only: Vec<Sample> = s
            .iter()
            .filter(|x| x.suite == su)
            .map(|x| sample(&x.id, &x.suite, &x.arm, x.rep, x.thinking, x.output, x.correct))
            .collect();
        assert_eq!(arm_suite_out(&s, "baseline", &su), arm_out(&only, "baseline"));
    }
}

#[test]
fn per_key_lists_rearrange_the_arm() {
    let s = samples();
    for arm in ["baseline", "caveman"] {
        let mut by_task: Vec<i64> = Vec::new();
        for (id, _) in task_ids(&s) {
            by_task.extend(t_think(&s, &id, arm));
        }
        let mut all = arm_think(&s, arm);
        by_task.sort();
        all.sort();
        assert_eq!(by_task, all);
        let mut by_suite: Vec<i64> = Vec::new();
        for (su, _) in suites_of(&s) {
            by_suite.extend(arm_suite_out(&s, arm, &su));
        }
        let mut outs = arm_out(&s, arm);
        by_suite.sort();
        outs.sort();
        assert_eq!(by_suite, outs);
        assert_eq!(arm_think(&s, arm).len(), arm_out(&s, arm).len());
    }
}
