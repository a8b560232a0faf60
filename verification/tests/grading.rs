use skillbench::grade::{
    first_choice, first_choice_marked, grade, last_number, norm_math, norm_math_lowered, norm_num, norm_out, settle,
    strip_fences, Grade,
};
use skillbench::model::Task;

fn task(kind: &str, gold: &str, test: &str, entry: &str) -> Task {
    Task {
        suite: "s".to_string(),
        domain: "d".to_string(),
        id: "t-0".to_string(),
        kind: kind.to_string(),
        instruction: "Answer.".to_string(),
        prompt: "Question?".to_string(),
        gold: gold.to_string(),
        test: test.to_string(),
        entry: entry.to_string(),
    }
}

fn verdict(g: Grade) -> Option<bool> {
    match g {
        Grade::Graded(b) => Some(b),
        _ => None,
    }
}

#[test]
fn norm_num_canonical_forms() {
    assert_eq!(norm_num(" +1,234 "), "1234");
    assert_eq!(norm_num("007"), "7");
    assert_eq!(norm_num("000"), "0");
    assert_eq!(norm_num(""), "0");
    assert_eq!(norm_num("-5"), "-5");
    assert_eq!(norm_num("\u{3000}12\t"), "12");
}

#[test]
fn norm_num_keeps_space_after_plus() {
    // white space is trimmed before the plus sign is dropped, not after
    assert_eq!(norm_num("+ 5"), " 5");
}

#[test]
fn last_number_picks_the_last() {
    assert_eq!(last_number("The answer is 42."), Some("42".to_string()));
    assert_eq!(last_number("x = -3, y = 1,000"), Some("1,000".to_string()));
    assert_eq!(last_number("3-4"), Some("4".to_string()));
    assert_eq!(last_number("--5"), Some("5".to_string()));
    assert_eq!(last_number("no digits here"), None);
    assert_eq!(last_number("-,"), None);
    assert_eq!(last_number(""), None);
    assert_eq!(last_number("12 apples"), Some("12".to_string()));
}

#[test]
fn last_number_keeps_leading_minus_and_commas() {
    assert_eq!(last_number("total: -1,5"), Some("-1,5".to_string()));
}

#[test]
fn first_choice_stand_alone() {
    assert_eq!(first_choice("The answer is B"), Some("B".to_string()));
    assert_eq!(first_choice("Answer: (C)."), Some("C".to_string()));
    assert_eq!(first_choice("AB"), None);
    assert_eq!(first_choice("xA"), None);
    assert_eq!(first_choice("K"), None);
    assert_eq!(first_choice(""), None);
    assert_eq!(first_choice("I think D"), Some("I".to_string()));
}

#[test]
fn first_choice_uses_unicode_letters() {
    // an accented letter next to the choice is alphabetic, so the choice does not stand alone
    assert_eq!(first_choice("éB"), None);
    assert_eq!(first_choice("1B2"), Some("B".to_string()));
}

#[test]
fn norm_math_rewrites() {
    assert_eq!(norm_math("\\dfrac{1}{2}"), "\\frac12");
    assert_eq!(norm_math("$\\pi$"), "pi");
    assert_eq!(norm_math("(3)."), "3");
    assert_eq!(norm_math("2 \\cdot 3"), "2*3");
    assert_eq!(norm_math("ABC"), "abc");
    assert_eq!(norm_math("\\left( x \\right)"), "x");
    assert_eq!(norm_math(""), "");
}

#[test]
fn norm_math_lowered_keeps_case() {
    assert_eq!(norm_math_lowered("ABC {x}"), "ABCx");
    assert_eq!(norm_math_lowered("\\bigg("), "g");
}

#[test]
fn strip_fences_drops_fence_lines() {
    assert_eq!(
        strip_fences("```python\ndef f():\n    return 1\n```"),
        "def f():\n    return 1"
    );
    assert_eq!(strip_fences("a\n  ```\nb\n"), "a\nb");
    assert_eq!(strip_fences(""), "");
    assert_eq!(strip_fences("x\r\ny"), "x\ny");
}

#[test]
fn norm_out_trims_line_ends() {
    assert_eq!(norm_out("a  \r\nb\t\n\n"), "a\nb");
    assert_eq!(norm_out("  x\n"), "  x");
    assert_eq!(norm_out(""), "");
    assert_eq!(norm_out("a\r"), "a");
}

#[test]
fn grade_numeric() {
    let t = task("numeric", "1,000", "", "");
    assert_eq!(verdict(grade(&t, "So the total is 1000")), Some(true));
    assert_eq!(verdict(grade(&t, "1000 or maybe 999")), Some(false));
    assert_eq!(verdict(grade(&t, "no idea")), Some(false));
    let z = task("numeric", "0", "", "");
    assert_eq!(verdict(grade(&z, "it is 000")), Some(true));
}

#[test]
fn grade_letter() {
    let t = task("letter", "C", "", "");
    assert_eq!(verdict(grade(&t, "The answer is (C)")), Some(true));
    assert_eq!(verdict(grade(&t, "C or D")), Some(true));
    assert_eq!(verdict(grade(&t, "D, not C")), Some(false));
    assert_eq!(verdict(grade(&t, "none")), Some(false));
}

#[test]
fn grade_exact() {
    let t = task("exact", "\\frac{1}{2}", "", "");
    assert_eq!(verdict(grade(&t, "The answer is $\\dfrac{1}{2}$")), Some(true));
    assert_eq!(verdict(grade(&t, "1/2")), Some(false));
    let empty = task("exact", "{ }", "", "");
    assert_eq!(verdict(grade(&empty, "anything")), Some(false));
}

#[test]
fn grade_code_builds_program() {
    let t = task("code", "", "def check(f):\n    assert f(1, 2) == 3", "add");
    let answer = "```python\ndef add(a, b):\n    return a + b\n```";
    match grade(&t, answer) {
        Grade::RunProgram(p) => assert_eq!(
            p,
            "def add(a, b):\n    return a + b\n\ndef check(f):\n    assert f(1, 2) == 3\n\ncheck(add)\n"
        ),
        _ => panic!("expected a program to run"),
    }
    assert_eq!(verdict(grade(&t, "lambda: 3")), Some(false));
}

#[test]
fn grade_stdio_plans_a_run() {
    let t = task("stdio", "", "{\"inputs\": [\"1\"], \"outputs\": [\"1\"]}", "");
    match grade(&t, "```\nprint(input())\n```") {
        Grade::RunStdio { code, tests } => {
            assert_eq!(code, "print(input())");
            assert_eq!(tests, "{\"inputs\": [\"1\"], \"outputs\": [\"1\"]}");
        }
        _ => panic!("expected a stdio run"),
    }
    assert_eq!(verdict(grade(&t, "```\n   \n```")), Some(false));
}

#[test]
fn grade_unknown_kind() {
    let t = task("essay", "x", "", "");
    assert_eq!(verdict(grade(&t, "x")), Some(false));
}

#[test]
fn settle_uses_the_run_only_when_needed() {
    assert!(settle(&Grade::Graded(true), false));
    assert!(!settle(&Grade::Graded(false), true));
    assert!(settle(&Grade::RunProgram("p".to_string()), true));
    assert!(!settle(&Grade::RunProgram("p".to_string()), false));
}

#[test]
fn first_choice_marked_follows_the_marks() {
    // marks say the character before `B` is not alphabetic, so `B` stands alone
    assert_eq!(first_choice_marked("xB", &vec![false, true]), Some("B".to_string()));
    assert_eq!(first_choice_marked("xB", &vec![true, true]), None);
    assert_eq!(first_choice_marked("B1", &vec![true, true]), None);
    assert_eq!(first_choice_marked("C", &vec![true]), Some("C".to_string()));
}

#[test]
fn norm_num_equal_forms_mean_equal_values() {
    assert_eq!(norm_num("1,000"), norm_num("01000"));
    assert_eq!(norm_num("0,0"), norm_num(""));
    assert_ne!(norm_num("10"), norm_num("100"));
    assert_eq!(norm_num("0,012"), "12");
}

#[test]
fn norm_out_is_settled() {
    for x in ["a  \r\nb\t\n\n", "  x\n", "", "a\r", "\n\n  \n", "x \n y\t\r\nz"] {
        let once = norm_out(x);
        assert_eq!(norm_out(&once), once);
        assert_eq!(once.trim_end(), once);
        assert!(once.lines().all(|l| l == l.trim_end()));
    }
}
