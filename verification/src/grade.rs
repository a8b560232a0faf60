use vstd::prelude::*;

use crate::model::Task;
use crate::text::{
    back_run, begins_with, chars_of, lemma_back_run_bound, front_run, has_part, lemma_front_run_bound, lemma_lines_nl_free, lemma_strip_back_tidy, lemma_strip_joined,
    lemma_trim_tail, lemma_lines_of_joined, nl_free, occurs_at, tidy, is_ws, trim_tail, is_digit, joined, lines_of, remove_char, replace_all,
    replaced, same_chars, split_lines, strip_back, strip_both, strip_front, texts, to_text,
    trim_back, trim_both, trim_front, without, CharSet, contains_part, join, matches_at, text_eq,
    extend,
};

verus! {

/// The canonical form of a numeric answer: trimmed, without a leading `+`, without
/// thousands separators, without leading zeros, and `0` when nothing is left.
pub open spec fn num_key(s: Seq<char>) -> Seq<char> {
    let t = strip_front(
        without(strip_front(strip_both(s, CharSet::Space), CharSet::One('+')), ','),
        CharSet::One('0'),
    );
    if t.len() == 0 {
        seq!['0']
    } else {
        t
    }
}

/// The canonical form of a numeric answer (see `num_key`).
pub fn norm_num(s: &str) -> (r: String)
    ensures
        r@ == num_key(s@),
{
    let cs = chars_of(s);
    let t = trim_both(cs.as_slice(), CharSet::Space);
    let t = trim_front(t.as_slice(), CharSet::One('+'));
    let t = remove_char(t.as_slice(), ',');
    let t = trim_front(t.as_slice(), CharSet::One('0'));
    if t.len() == 0 {
        let z = vec!['0'];
        assert(z@ =~= seq!['0']);
        to_text(z.as_slice())
    } else {
        to_text(t.as_slice())
    }
}

/// `s` holds an ASCII digit.
pub open spec fn has_digit(s: Seq<char>) -> bool {
    exists|i: int| 0 <= i < s.len() && is_digit(#[trigger] s[i])
}

/// `c` continues (or, for `-`, starts) the number being read when `cur` has been read.
pub open spec fn extends_number(cur: Seq<char>, c: char) -> bool {
    is_digit(c) || (c == '-' && cur.len() == 0) || c == ','
}

/// One step of the left-to-right number scan over `(finished numbers, current run)`.
pub open spec fn scan_step(st: (Seq<Seq<char>>, Seq<char>), c: char) -> (
    Seq<Seq<char>>,
    Seq<char>,
) {
    if extends_number(st.1, c) {
        (st.0, st.1.push(c))
    } else if has_digit(st.1) {
        (st.0.push(st.1), seq![])
    } else {
        (st.0, seq![])
    }
}

pub open spec fn scan(s: Seq<char>) -> (Seq<Seq<char>>, Seq<char>)
    decreases s.len(),
{
    if s.len() == 0 {
        (seq![], seq![])
    } else {
        scan_step(scan(s.drop_last()), s.last())
    }
}

/// The numbers that `s` mentions, in order: runs of digits, commas and a leading minus
/// sign that hold at least one digit.
pub open spec fn numbers(s: Seq<char>) -> Seq<Seq<char>> {
    let st = scan(s);
    if has_digit(st.1) {
        st.0.push(st.1)
    } else {
        st.0
    }
}

pub open spec fn last_num(s: Seq<char>) -> Option<Seq<char>> {
    let ns = numbers(s);
    if ns.len() == 0 {
        None
    } else {
        Some(ns.last())
    }
}

/// The last number that `s` mentions (see `numbers`).
pub fn last_number(s: &str) -> (r: Option<String>)
    ensures
        match r {
            Some(x) => last_num(s@) == Some(x@),
            None => last_num(s@) is None,
        },
{
    let cs = chars_of(s);
    let mut last: Option<Vec<char>> = None;
    let mut cur: Vec<char> = Vec::new();
    let mut cur_digit = false;
    let mut i: usize = 0;
    assert(cs@.take(0) =~= Seq::<char>::empty());
    while i < cs.len()
        invariant
            i <= cs.len(),
            cs@ == s@,
            scan(cs@.take(i as int)).1 == cur@,
            cur_digit == has_digit(cur@),
            match last {
                Some(v) => scan(cs@.take(i as int)).0.len() > 0 && v@ == scan(
                    cs@.take(i as int),
                ).0.last(),
                None => scan(cs@.take(i as int)).0.len() == 0,
            },
        decreases cs.len() - i,
    {
        let c = cs[i];
        assert(cs@.take(i + 1).drop_last() =~= cs@.take(i as int));
        assert(cs@.take(i + 1).last() == c);
        let is_d = '0' <= c && c <= '9';
        if is_d || (c == '-' && cur.len() == 0) || c == ',' {
            let ghost before = cur@;
            cur.push(c);
            assert(has_digit(cur@) == (has_digit(before) || is_d)) by {
                if is_d {
                    assert(cur@[before.len() as int] == c);
                }
                if has_digit(before) {
                    let w = choose|w: int| 0 <= w < before.len() && is_digit(#[trigger] before[w]);
                    assert(cur@[w] == before[w]);
                }
                if has_digit(cur@) {
                    let w = choose|w: int| 0 <= w < cur@.len() && is_digit(#[trigger] cur@[w]);
                    if w < before.len() {
                        assert(before[w] == cur@[w]);
                    }
                }
            }
            cur_digit = cur_digit || is_d;
        } else {
            if cur_digit {
                last = Some(cur);
            }
            cur = Vec::new();
            cur_digit = false;
            assert(!has_digit(cur@));
        }
        i = i + 1;
    }
    assert(cs@.take(cs.len() as int) =~= s@);
    if cur_digit {
        Some(to_text(cur.as_slice()))
    } else {
        match last {
            Some(v) => Some(to_text(v.as_slice())),
            None => None,
        }
    }
}

/// Whether `c` has the Unicode `Alphabetic` property.
pub uninterp spec fn alphabetic(c: char) -> bool;

/// `char::is_alphabetic`: tests the Unicode `Alphabetic` property of `c`, a table
/// lookup whose result is named `alphabetic`; nothing more is claimed of it.
#[verifier::external_body]
fn char_is_alphabetic(c: char) -> (b: bool)
    ensures
        b == alphabetic(c),
{
    c.is_alphabetic()
}

/// Position `i` of `cs` holds one of the choice letters `A`..`J` standing alone: no
/// character marked alphabetic in `alpha` right before or right after it.
pub open spec fn marked_choice_at(cs: Seq<char>, alpha: Seq<bool>, i: int) -> bool {
    &&& 0 <= i < cs.len()
    &&& 'A' <= cs[i] <= 'J'
    &&& (i == 0 || !alpha[i - 1])
    &&& (i + 1 >= cs.len() || !alpha[i + 1])
}

/// Which characters of `cs` are alphabetic.
pub open spec fn alpha_of(cs: Seq<char>) -> Seq<bool> {
    cs.map_values(|c: char| alphabetic(c))
}

/// Position `i` of `cs` holds a stand-alone choice letter.
pub open spec fn choice_at(cs: Seq<char>, i: int) -> bool {
    marked_choice_at(cs, alpha_of(cs), i)
}

/// The first stand-alone choice letter of `s`, where `alpha[i]` tells whether the
/// `i`-th character of `s` is alphabetic.
pub fn first_choice_marked(s: &str, alpha: &Vec<bool>) -> (r: Option<String>)
    requires
        alpha.len() == s@.len(),
    ensures
        match r {
            Some(x) => exists|i: int|
                #![trigger marked_choice_at(s@, alpha@, i)]
                marked_choice_at(s@, alpha@, i) && (forall|j: int|
                    0 <= j < i ==> !marked_choice_at(s@, alpha@, j)) && x@ == seq![s@[i]],
            None => forall|i: int| !marked_choice_at(s@, alpha@, i),
        },
{
    let cs = chars_of(s);
    let mut i: usize = 0;
    while i < cs.len()
        invariant
            i <= cs.len(),
            cs@ == s@,
            alpha.len() == cs.len(),
            forall|j: int| 0 <= j < i ==> !marked_choice_at(s@, alpha@, j),
        decreases cs.len() - i,
    {
        let c = cs[i];
        if 'A' <= c && c <= 'J' {
            let prev_ok = i == 0 || !alpha[i - 1];
            let next_ok = i + 1 >= cs.len() || !alpha[i + 1];
            if prev_ok && next_ok {
                let one = vec![c];
                assert(one@ =~= seq![s@[i as int]]);
                assert(marked_choice_at(s@, alpha@, i as int));
                return Some(to_text(one.as_slice()));
            }
        }
        i = i + 1;
    }
    None
}

/// The first stand-alone choice letter `A`..`J` of `s`.
pub fn first_choice(s: &str) -> (r: Option<String>)
    ensures
        match r {
            Some(x) => exists|i: int|
                #![trigger choice_at(s@, i)]
                choice_at(s@, i) && (forall|j: int| 0 <= j < i ==> !choice_at(s@, j)) && x@
                    == seq![s@[i]],
            None => forall|i: int| !choice_at(s@, i),
        },
{
    let cs = chars_of(s);
    let mut alpha: Vec<bool> = Vec::new();
    let mut i: usize = 0;
    while i < cs.len()
        invariant
            i <= cs.len(),
            alpha@ == alpha_of(cs@).take(i as int),
        decreases cs.len() - i,
    {
        alpha.push(char_is_alphabetic(cs[i]));
        i = i + 1;
        assert(alpha@ =~= alpha_of(cs@).take(i as int));
    }
    assert(alpha@ =~= alpha_of(s@));
    let r = first_choice_marked(s, &alpha);
    proof {
        if r is Some {
            let x = r->Some_0;
            {
                let i = choose|i: int|
                    #![trigger marked_choice_at(s@, alpha@, i)]
                    marked_choice_at(s@, alpha@, i) && (forall|j: int|
                        0 <= j < i ==> !marked_choice_at(s@, alpha@, j)) && x@ == seq![s@[i]];
                assert(choice_at(s@, i));
                assert forall|j: int| 0 <= j < i implies !choice_at(s@, j) by {
                    assert(!marked_choice_at(s@, alpha@, j));
                }
            }
        } else {
            assert forall|i: int| !choice_at(s@, i) by {
                assert(!marked_choice_at(s@, alpha@, i));
            }
        }
    }
    r
}

/// The Unicode lower-case form of `s`.
pub uninterp spec fn lowercased(s: Seq<char>) -> Seq<char>;

/// `str::to_lowercase`: maps `s` to lower case by the Unicode tables (a character may
/// become several, and a final sigma is treated by its context); the result is named
/// `lowercased` and nothing more is claimed of it.
#[verifier::external_body]
fn lowercase(s: &str) -> (r: String)
    ensures
        r@ == lowercased(s@),
{
    s.to_lowercase()
}

/// The canonical form of an already lower-cased math answer: TeX spacing and sizing
/// commands, dollars, braces and white space taken out, `\dfrac`, `\pi` and `\cdot`
/// rewritten, and dots and parentheses trimmed from both ends.
pub open spec fn math_key_lowered(x: Seq<char>) -> Seq<char> {
    let e = Seq::<char>::empty();
    let x = replaced(x, "\\left"@, e);
    let x = replaced(x, "\\right"@, e);
    let x = replaced(x, "\\!"@, e);
    let x = replaced(x, "\\,"@, e);
    let x = replaced(x, "\\;"@, e);
    let x = replaced(x, "\\:"@, e);
    let x = replaced(x, "\\big"@, e);
    let x = replaced(x, "\\bigg"@, e);
    let x = replaced(x, "$"@, e);
    let x = replaced(x, "{"@, e);
    let x = replaced(x, "}"@, e);
    let x = replaced(x, " "@, e);
    let x = replaced(x, "\n"@, e);
    let x = replaced(x, "\t"@, e);
    let x = replaced(x, "\\dfrac"@, "\\frac"@);
    let x = replaced(x, "\\pi"@, "pi"@);
    let x = replaced(x, "\\cdot"@, "*"@);
    strip_both(x, CharSet::Edge)
}

/// The canonical form of a math answer.
pub open spec fn math_key(s: Seq<char>) -> Seq<char> {
    math_key_lowered(lowercased(s))
}

/// Replaces every occurrence of `p` in `x` by `r`.
fn swap_part(x: Vec<char>, p: &str, r: &str) -> (y: Vec<char>)
    requires
        p@.len() > 0,
    ensures
        y@ == replaced(x@, p@, r@),
{
    let pc = chars_of(p);
    let rc = chars_of(r);
    replace_all(x.as_slice(), pc.as_slice(), rc.as_slice())
}

/// The canonical form of an answer that is already in lower case.
pub fn norm_math_lowered(x: &str) -> (r: String)
    ensures
        r@ == math_key_lowered(x@),
{
    proof {
        reveal_strlit("\\left");
        reveal_strlit("\\right");
        reveal_strlit("\\!");
        reveal_strlit("\\,");
        reveal_strlit("\\;");
        reveal_strlit("\\:");
        reveal_strlit("\\big");
        reveal_strlit("\\bigg");
        reveal_strlit("$");
        reveal_strlit("{");
        reveal_strlit("}");
        reveal_strlit(" ");
        reveal_strlit("\n");
        reveal_strlit("\t");
        reveal_strlit("");
        reveal_strlit("\\dfrac");
        reveal_strlit("\\pi");
        reveal_strlit("\\cdot");
    }
    let x = chars_of(x);
    let x = swap_part(x, "\\left", "");
    let x = swap_part(x, "\\right", "");
    let x = swap_part(x, "\\!", "");
    let x = swap_part(x, "\\,", "");
    let x = swap_part(x, "\\;", "");
    let x = swap_part(x, "\\:", "");
    let x = swap_part(x, "\\big", "");
    let x = swap_part(x, "\\bigg", "");
    let x = swap_part(x, "$", "");
    let x = swap_part(x, "{", "");
    let x = swap_part(x, "}", "");
    let x = swap_part(x, " ", "");
    let x = swap_part(x, "\n", "");
    let x = swap_part(x, "\t", "");
    let x = swap_part(x, "\\dfrac", "\\frac");
    let x = swap_part(x, "\\pi", "pi");
    let x = swap_part(x, "\\cdot", "*");
    assert(""@ =~= Seq::<char>::empty());
    let x = trim_both(x.as_slice(), CharSet::Edge);
    to_text(x.as_slice())
}

/// The canonical form of a math answer: lower case, then `norm_math_lowered`.
pub fn norm_math(s: &str) -> (r: String)
    ensures
        r@ == math_key(s@),
{
    let low = lowercase(s);
    norm_math_lowered(low.as_str())
}

/// The three backticks that open or close a fenced block.
pub open spec fn fence() -> Seq<char> {
    seq!['`', '`', '`']
}

/// A line that, after its leading white space, starts a fence.
pub open spec fn is_fence(l: Seq<char>) -> bool {
    begins_with(strip_front(l, CharSet::Space), fence())
}

/// `ls` without its fence lines.
pub open spec fn unfenced(ls: Seq<Seq<char>>) -> Seq<Seq<char>>
    decreases ls.len(),
{
    if ls.len() == 0 {
        ls
    } else if is_fence(ls.last()) {
        unfenced(ls.drop_last())
    } else {
        unfenced(ls.drop_last()).push(ls.last())
    }
}

/// The code in an answer: its lines without fence lines, joined by line feeds.
pub open spec fn code_of(s: Seq<char>) -> Seq<char> {
    joined(unfenced(lines_of(s)), seq!['\n'])
}

/// The code in an answer, without its fence lines.
pub fn strip_fences(s: &str) -> (r: String)
    ensures
        r@ == code_of(s@),
{
    let cs = chars_of(s);
    let ls = split_lines(cs.as_slice());
    let f = vec!['`', '`', '`'];
    assert(f@ =~= fence());
    let mut kept: Vec<Vec<char>> = Vec::new();
    let mut i: usize = 0;
    while i < ls.len()
        invariant
            i <= ls.len(),
            f@ == fence(),
            texts(kept@) == unfenced(texts(ls@).take(i as int)),
        decreases ls.len() - i,
    {
        assert(texts(ls@).take(i + 1).drop_last() =~= texts(ls@).take(i as int));
        let lead = trim_front(ls[i].as_slice(), CharSet::Space);
        if !matches_at(lead.as_slice(), f.as_slice(), 0) {
            let ghost before = kept@;
            kept.push(ls[i].clone());
            assert(texts(kept@) =~= texts(before).push(ls@[i as int]@));
        }
        i = i + 1;
    }
    assert(texts(ls@).take(ls.len() as int) =~= texts(ls@));
    let nl = vec!['\n'];
    assert(nl@ =~= seq!['\n']);
    let out = join(&kept, nl.as_slice());
    to_text(out.as_slice())
}

/// Program output compared line by line: trailing white space of every line and of
/// the whole text dropped.
pub open spec fn out_key(s: Seq<char>) -> Seq<char> {
    strip_back(
        joined(lines_of(s).map_values(|l: Seq<char>| strip_back(l, CharSet::Space)), seq!['\n']),
        CharSet::Space,
    )
}

/// Program output in the form it is compared in.
pub fn norm_out(s: &str) -> (r: String)
    ensures
        r@ == out_key(s@),
{
    let cs = chars_of(s);
    let ls = split_lines(cs.as_slice());
    let mut trimmed: Vec<Vec<char>> = Vec::new();
    let mut i: usize = 0;
    while i < ls.len()
        invariant
            i <= ls.len(),
            texts(trimmed@) == texts(ls@).take(i as int).map_values(
                |l: Seq<char>| strip_back(l, CharSet::Space),
            ),
        decreases ls.len() - i,
    {
        let t = trim_back(ls[i].as_slice(), CharSet::Space);
        let ghost before = trimmed@;
        trimmed.push(t);
        assert(texts(ls@).take(i + 1) =~= texts(ls@).take(i as int).push(ls@[i as int]@));
        assert(texts(trimmed@) =~= texts(before).push(t@));
        assert(texts(trimmed@) =~= texts(ls@).take(i + 1).map_values(
            |l: Seq<char>| strip_back(l, CharSet::Space),
        ));
        i = i + 1;
    }
    assert(texts(ls@).take(ls.len() as int) =~= texts(ls@));
    let nl = vec!['\n'];
    assert(nl@ =~= seq!['\n']);
    let out = join(&trimmed, nl.as_slice());
    let out = trim_back(out.as_slice(), CharSet::Space);
    to_text(out.as_slice())
}

/// A numeric answer is right when the last number it mentions equals the gold number
/// once both are in canonical form.
pub open spec fn numeric_ok(answer: Seq<char>, gold: Seq<char>) -> bool {
    match last_num(answer) {
        Some(a) => num_key(a) == num_key(gold),
        None => false,
    }
}

/// `i` is the first stand-alone choice letter of `cs`.
pub open spec fn first_choice_at(cs: Seq<char>, i: int) -> bool {
    choice_at(cs, i) && forall|j: int| 0 <= j < i ==> !choice_at(cs, j)
}

/// A multiple-choice answer is right when its first stand-alone choice letter is the
/// gold letter.
pub open spec fn letter_ok(answer: Seq<char>, gold: Seq<char>) -> bool {
    exists|i: int| #[trigger] first_choice_at(answer, i) && gold == seq![answer[i]]
}

/// A math answer is right when its canonical form contains the (non-empty) canonical
/// form of the gold answer.
pub open spec fn exact_ok(answer: Seq<char>, gold: Seq<char>) -> bool {
    let a = math_key(answer);
    let g = math_key(gold);
    g.len() > 0 && (a == g || has_part(a, g))
}

/// The Python program that runs the unit test `test` against `code`.
pub open spec fn program_text(code: Seq<char>, test: Seq<char>, entry: Seq<char>) -> Seq<char> {
    code + "\n\n"@ + test + "\n\ncheck("@ + entry + ")\n"@
}

/// How an answer is graded, or what must run before it can be.
pub enum Grade {
    /// The verdict.
    Graded(bool),
    /// Right when this Python program exits with success within the time limit.
    RunProgram(String),
    /// Right when `code`, run on every input of the JSON `tests`, prints the expected
    /// output (see `stdio_cases` and `stdio_passed`).
    RunStdio { code: String, tests: String },
}

pub enum GradeModel {
    Graded(bool),
    RunProgram(Seq<char>),
    RunStdio(Seq<char>, Seq<char>),
}

impl View for Grade {
    type V = GradeModel;

    open spec fn view(&self) -> GradeModel {
        match self {
            Grade::Graded(b) => GradeModel::Graded(*b),
            Grade::RunProgram(p) => GradeModel::RunProgram(p@),
            Grade::RunStdio { code, tests } => GradeModel::RunStdio(code@, tests@),
        }
    }
}

/// How an answer to a task of the given kind is graded.
pub open spec fn grade_of(
    kind: Seq<char>,
    gold: Seq<char>,
    test: Seq<char>,
    entry: Seq<char>,
    answer: Seq<char>,
) -> GradeModel {
    if kind == "numeric"@ {
        GradeModel::Graded(numeric_ok(answer, gold))
    } else if kind == "letter"@ {
        GradeModel::Graded(letter_ok(answer, gold))
    } else if kind == "exact"@ {
        GradeModel::Graded(exact_ok(answer, gold))
    } else if kind == "code"@ {
        let code = code_of(answer);
        if has_part(code, "def "@) {
            GradeModel::RunProgram(program_text(code, test, entry))
        } else {
            GradeModel::Graded(false)
        }
    } else if kind == "stdio"@ {
        let code = code_of(answer);
        if strip_both(code, CharSet::Space).len() == 0 {
            GradeModel::Graded(false)
        } else {
            GradeModel::RunStdio(code, test)
        }
    } else {
        GradeModel::Graded(false)
    }
}

pub open spec fn task_grade(t: Task, answer: Seq<char>) -> GradeModel {
    grade_of(t.kind@, t.gold@, t.test@, t.entry@, answer)
}

/// How the answer `answer` to task `t` is graded: the verdict, or what must run first.
pub fn grade(t: &Task, answer: &str) -> (g: Grade)
    ensures
        g@ == task_grade(*t, answer@),
{
    if text_eq(t.kind.as_str(), "numeric") {
        match last_number(answer) {
            Some(a) => {
                let x = norm_num(a.as_str());
                let y = norm_num(t.gold.as_str());
                Grade::Graded(x == y)
            },
            None => Grade::Graded(false),
        }
    } else if text_eq(t.kind.as_str(), "letter") {
        match first_choice(answer) {
            Some(c) => {
                let ok = c == t.gold;
                proof {
                    let i = choose|i: int|
                        #![trigger choice_at(answer@, i)]
                        choice_at(answer@, i) && (forall|j: int| 0 <= j < i ==> !choice_at(answer@, j))
                            && c@ == seq![answer@[i]];
                    assert(first_choice_at(answer@, i));
                    if letter_ok(answer@, t.gold@) {
                        let k = choose|k: int|
                            #[trigger] first_choice_at(answer@, k) && t.gold@ == seq![answer@[k]];
                        if k < i {
                            assert(!choice_at(answer@, k));
                        }
                        if i < k {
                            assert(!choice_at(answer@, i));
                        }
                    }
                }
                Grade::Graded(ok)
            },
            None => {
                assert(!letter_ok(answer@, t.gold@));
                Grade::Graded(false)
            },
        }
    } else if text_eq(t.kind.as_str(), "exact") {
        let a = norm_math(answer);
        let g = norm_math(t.gold.as_str());
        let ac = chars_of(a.as_str());
        let gc = chars_of(g.as_str());
        let ok = gc.len() > 0 && (same_chars(ac.as_slice(), gc.as_slice()) || contains_part(
            ac.as_slice(),
            gc.as_slice(),
        ));
        Grade::Graded(ok)
    } else if text_eq(t.kind.as_str(), "code") {
        let code = strip_fences(answer);
        let cc = chars_of(code.as_str());
        let def = chars_of("def ");
        if !contains_part(cc.as_slice(), def.as_slice()) {
            return Grade::Graded(false);
        }
        let mut p = cc;
        let a = chars_of("\n\n");
        extend(&mut p, a.as_slice());
        let b = chars_of(t.test.as_str());
        extend(&mut p, b.as_slice());
        let c = chars_of("\n\ncheck(");
        extend(&mut p, c.as_slice());
        let d = chars_of(t.entry.as_str());
        extend(&mut p, d.as_slice());
        let e = chars_of(")\n");
        extend(&mut p, e.as_slice());
        Grade::RunProgram(to_text(p.as_slice()))
    } else if text_eq(t.kind.as_str(), "stdio") {
        let code = strip_fences(answer);
        let cc = chars_of(code.as_str());
        let body = trim_both(cc.as_slice(), CharSet::Space);
        if body.len() == 0 {
            Grade::Graded(false)
        } else {
            let tests = to_text(chars_of(t.test.as_str()).as_slice());
            Grade::RunStdio { code, tests }
        }
    } else {
        Grade::Graded(false)
    }
}

/// The verdict on an answer, given how it is graded and, where something had to run,
/// whether the run passed.
pub fn settle(g: &Grade, run_passed: bool) -> (ok: bool)
    ensures
        ok == match g@ {
            GradeModel::Graded(b) => b,
            _ => run_passed,
        },
{
    match g {
        Grade::Graded(b) => *b,
        _ => run_passed,
    }
}

/// A multiple-choice answer can only be right against a gold answer that is one of the
/// letters `A` to `J`.
pub proof fn lemma_letter_gold(answer: Seq<char>, gold: Seq<char>)
    requires
        letter_ok(answer, gold),
    ensures
        gold.len() == 1,
        'A' <= gold[0] <= 'J',
{
    let i = choose|i: int| #[trigger] first_choice_at(answer, i) && gold == seq![answer[i]];
    assert(choice_at(answer, i));
}

/// The canonical form of a number is never empty.
pub proof fn lemma_num_key_nonempty(s: Seq<char>)
    ensures
        num_key(s).len() > 0,
{
}

/// A math answer is never right against a gold answer whose canonical form is empty.
pub proof fn lemma_exact_needs_gold(answer: Seq<char>, gold: Seq<char>)
    requires
        math_key(gold).len() == 0,
    ensures
        !exact_ok(answer, gold),
{
}

/// A character of a plain numeral: a digit or a thousands separator.
pub open spec fn numeral_char(c: char) -> bool {
    is_digit(c) || c == ','
}

/// The value of the digit `c`.
pub open spec fn digit_value(c: char) -> int {
    (c as int) - ('0' as int)
}

/// The number that the digits of `s` write, read left to right; other characters
/// are skipped (0 when there are no digits).
pub open spec fn numeral_value(s: Seq<char>) -> int
    decreases s.len(),
{
    if s.len() == 0 {
        0
    } else if is_digit(s.last()) {
        numeral_value(s.drop_last()) * 10 + digit_value(s.last())
    } else {
        numeral_value(s.drop_last())
    }
}

/// `t` is `0`, or digits that do not start with `0`.
pub open spec fn canonical_numeral(t: Seq<char>) -> bool {
    t == seq!['0'] || (t.len() > 0 && t[0] != '0' && forall|i: int|
        0 <= i < t.len() ==> is_digit(#[trigger] t[i]))
}

pub open spec fn all_digits(t: Seq<char>) -> bool {
    forall|i: int| 0 <= i < t.len() ==> is_digit(#[trigger] t[i])
}

proof fn lemma_without_commas(s: Seq<char>)
    requires
        forall|i: int| 0 <= i < s.len() ==> numeral_char(#[trigger] s[i]),
    ensures
        all_digits(without(s, ',')),
        numeral_value(without(s, ',')) == numeral_value(s),
    decreases s.len(),
{
    if s.len() > 0 {
        let p = s.drop_last();
        assert forall|i: int| 0 <= i < p.len() implies numeral_char(#[trigger] p[i]) by {
            assert(p[i] == s[i]);
        }
        lemma_without_commas(p);
        let w = without(p, ',');
        assert(numeral_char(s[s.len() - 1]));
        if s.last() != ',' {
            assert(w.push(s.last()).drop_last() =~= w);
            assert forall|i: int| 0 <= i < w.len() + 1 implies is_digit(#[trigger] w.push(s.last())[i]) by {
                if i < w.len() {
                    assert(w.push(s.last())[i] == w[i]);
                }
            }
        }
    }
}

proof fn lemma_leading_zero(r: Seq<char>)
    ensures
        numeral_value(seq!['0'] + r) == numeral_value(r),
    decreases r.len(),
{
    let z = seq!['0'] + r;
    assert(is_digit('0') && digit_value('0') == 0);
    if r.len() == 0 {
        assert(z =~= seq!['0']);
        assert(z.drop_last() =~= Seq::<char>::empty());
        assert(z.last() == '0');
        assert(numeral_value(z) == numeral_value(z.drop_last()) * 10 + digit_value(z.last()));
    } else {
        lemma_leading_zero(r.drop_last());
        assert(z.drop_last() =~= seq!['0'] + r.drop_last());
        assert(z.last() == r.last());
    }
}

proof fn lemma_strip_zeros(w: Seq<char>)
    requires
        all_digits(w),
    ensures
        all_digits(strip_front(w, CharSet::One('0'))),
        numeral_value(strip_front(w, CharSet::One('0'))) == numeral_value(w),
        strip_front(w, CharSet::One('0')).len() > 0 ==> strip_front(w, CharSet::One('0'))[0] != '0',
    decreases w.len(),
{
    let z = strip_front(w, CharSet::One('0'));
    if w.len() > 0 && w[0] == '0' {
        let r = w.drop_first();
        assert forall|i: int| 0 <= i < r.len() implies is_digit(#[trigger] r[i]) by {
            assert(r[i] == w[i + 1]);
        }
        lemma_strip_zeros(r);
        assert(seq!['0'] + r =~= w);
        lemma_leading_zero(r);
        lemma_front_run_bound(r, CharSet::One('0'));
        assert(w.drop_first() == r);
        assert(front_run(w, CharSet::One('0')) == 1 + front_run(r, CharSet::One('0')));
        assert(z =~= strip_front(r, CharSet::One('0')));
    } else {
        assert(z =~= w);
    }
}

proof fn lemma_positive(b: Seq<char>)
    requires
        all_digits(b),
        b.len() > 0,
        b[0] != '0',
    ensures
        numeral_value(b) > 0,
    decreases b.len(),
{
    let p = b.drop_last();
    assert(is_digit(b[b.len() - 1]));
    assert(numeral_value(p) >= 0) by {
        lemma_value_nonneg(p);
    }
    if b.len() > 1 {
        assert forall|i: int| 0 <= i < p.len() implies is_digit(#[trigger] p[i]) by {
            assert(p[i] == b[i]);
        }
        lemma_positive(p);
    } else {
        assert(p =~= Seq::<char>::empty());
        assert(is_digit(b[0]));
    }
}

proof fn lemma_value_nonneg(s: Seq<char>)
    ensures
        numeral_value(s) >= 0,
    decreases s.len(),
{
    if s.len() > 0 {
        lemma_value_nonneg(s.drop_last());
    }
}

proof fn lemma_digit_step(x: int, d: int, y: int, e: int)
    requires
        0 <= d < 10,
        0 <= e < 10,
        x * 10 + d == y * 10 + e,
    ensures
        x == y,
        d == e,
{
    assert(x == y && d == e) by (nonlinear_arith)
        requires
            0 <= d < 10,
            0 <= e < 10,
            x * 10 + d == y * 10 + e,
    ;
}

proof fn lemma_numeral_injective(a: Seq<char>, b: Seq<char>)
    requires
        all_digits(a),
        all_digits(b),
        a.len() == 0 || a[0] != '0',
        b.len() == 0 || b[0] != '0',
        numeral_value(a) == numeral_value(b),
    ensures
        a == b,
    decreases a.len() + b.len(),
{
    if a.len() == 0 && b.len() > 0 {
        lemma_positive(b);
    } else if b.len() == 0 && a.len() > 0 {
        lemma_positive(a);
    } else if a.len() > 0 && b.len() > 0 {
        let pa = a.drop_last();
        let pb = b.drop_last();
        assert(is_digit(a[a.len() - 1]) && is_digit(b[b.len() - 1]));
        assert forall|i: int| 0 <= i < pa.len() implies is_digit(#[trigger] pa[i]) by {
            assert(pa[i] == a[i]);
        }
        assert forall|i: int| 0 <= i < pb.len() implies is_digit(#[trigger] pb[i]) by {
            assert(pb[i] == b[i]);
        }
        lemma_digit_step(
            numeral_value(pa),
            digit_value(a.last()),
            numeral_value(pb),
            digit_value(b.last()),
        );
        if pa.len() > 0 {
            assert(pa[0] == a[0]);
        }
        if pb.len() > 0 {
            assert(pb[0] == b[0]);
        }
        lemma_numeral_injective(pa, pb);
        assert(a.last() == b.last());
        assert(a =~= pa.push(a.last()));
        assert(b =~= pb.push(b.last()));
    } else {
        assert(a =~= b);
    }
}

proof fn lemma_num_key_value(s: Seq<char>)
    requires
        forall|i: int| 0 <= i < s.len() ==> numeral_char(#[trigger] s[i]),
    ensures
        canonical_numeral(num_key(s)),
        numeral_value(num_key(s)) == numeral_value(s),
        num_key(s) == seq!['0'] || (num_key(s)[0] != '0' && all_digits(num_key(s))),
{
    if s.len() > 0 {
        assert(numeral_char(s[0]) && numeral_char(s[s.len() - 1]));
    }
    assert(front_run(s, CharSet::Space) == 0);
    assert(back_run(s, CharSet::Space) == 0);
    assert(strip_both(s, CharSet::Space) =~= s);
    assert(front_run(s, CharSet::One('+')) == 0);
    assert(strip_front(s, CharSet::One('+')) =~= s);
    lemma_without_commas(s);
    let w = without(s, ',');
    lemma_strip_zeros(w);
    let z = strip_front(w, CharSet::One('0'));
    if z.len() == 0 {
        assert(z =~= Seq::<char>::empty());
        let o = seq!['0'];
        assert(o.drop_last() =~= Seq::<char>::empty());
        assert(numeral_value(o) == 0);
    }
}

/// Plain numerals (digits and thousands separators only) have the same canonical form
/// exactly when they write the same number, and that form is `0` or digits without a
/// leading zero.
pub proof fn lemma_num_key_by_value(s: Seq<char>, t: Seq<char>)
    requires
        forall|i: int| 0 <= i < s.len() ==> numeral_char(#[trigger] s[i]),
        forall|i: int| 0 <= i < t.len() ==> numeral_char(#[trigger] t[i]),
    ensures
        (num_key(s) == num_key(t)) <==> (numeral_value(s) == numeral_value(t)),
        canonical_numeral(num_key(s)),
{
    lemma_num_key_value(s);
    lemma_num_key_value(t);
    let a = num_key(s);
    let b = num_key(t);
    if a == b {
        assert(numeral_value(s) == numeral_value(t));
    }
    if numeral_value(s) == numeral_value(t) {
        let zero = seq!['0'];
        lemma_leading_zero(Seq::<char>::empty());
        assert(zero + Seq::<char>::empty() =~= zero);
        assert(numeral_value(zero) == 0);
        if a == zero && b != zero {
            lemma_positive(b);
        } else if b == zero && a != zero {
            lemma_positive(a);
        } else if a != zero && b != zero {
            lemma_numeral_injective(a, b);
        }
        assert(a == b);
    }
}

/// Normalized output is settled: normalizing it again changes nothing, it has no
/// trailing white space, and none of its lines has any.
pub proof fn lemma_out_key_settled(s: Seq<char>)
    ensures
        out_key(out_key(s)) == out_key(s),
        strip_back(out_key(s), CharSet::Space) == out_key(s),
        forall|i: int|
            0 <= i < lines_of(out_key(s)).len() ==> strip_back(
                #[trigger] lines_of(out_key(s))[i],
                CharSet::Space,
            ) == lines_of(out_key(s))[i],
{
    let nl = seq!['\n'];
    let ls = lines_of(s);
    let t = ls.map_values(|l: Seq<char>| strip_back(l, CharSet::Space));
    lemma_lines_nl_free(s);
    assert forall|i: int| 0 <= i < t.len() implies tidy(#[trigger] t[i]) && nl_free(t[i]) by {
        lemma_strip_back_tidy(ls[i]);
        assert(nl_free(lines_of(s)[i]));
        let ti = strip_back(ls[i], CharSet::Space);
        assert(t[i] == ti);
        assert forall|j: int| 0 <= j < ti.len() implies ti[j] != '\n' by {
            assert(ti[j] == ls[i][j]);
        }
    }
    lemma_strip_joined(t);
    let u = trim_tail(t);
    lemma_trim_tail(t);
    assert forall|i: int| 0 <= i < u.len() implies tidy(#[trigger] u[i]) && nl_free(u[i]) by {
        assert(u[i] == t[i]);
    }
    let x = out_key(s);
    assert(x == joined(u, nl));
    lemma_lines_of_joined(u);
    assert(lines_of(x) == u);
    assert forall|i: int| 0 <= i < u.len() implies strip_back(#[trigger] u[i], CharSet::Space) == u[i] by {
        lemma_strip_back_tidy(u[i]);
    }
    let t2 = u.map_values(|l: Seq<char>| strip_back(l, CharSet::Space));
    assert(t2 =~= u);
    lemma_strip_joined(u);
    assert(trim_tail(u) == u);
    assert(out_key(x) == strip_back(joined(t2, nl), CharSet::Space));
    lemma_strip_back_tidy(joined(t, nl));
    lemma_strip_back_tidy(x);
}

/// Position `i` of `cs` is a capital letter from `A` to `J` with no alphabetic
/// character right before or right after it.
pub open spec fn stand_alone_letter(cs: Seq<char>, i: int) -> bool {
    &&& 0 <= i < cs.len()
    &&& 'A' <= cs[i] && cs[i] <= 'J'
    &&& (i == 0 || !alphabetic(cs[i - 1]))
    &&& (i + 1 >= cs.len() || !alphabetic(cs[i + 1]))
}

/// The grading kinds are told apart by their names.
proof fn lemma_kind_names()
    ensures
        "numeric"@ != "letter"@,
        "numeric"@ != "exact"@,
        "numeric"@ != "code"@,
        "letter"@ != "exact"@,
        "letter"@ != "code"@,
        "exact"@ != "code"@,
{
    reveal_strlit("numeric");
    reveal_strlit("letter");
    reveal_strlit("exact");
    reveal_strlit("code");
    assert("numeric"@.len() != "letter"@.len());
    assert("numeric"@.len() != "exact"@.len());
    assert("numeric"@.len() != "code"@.len());
    assert("letter"@.len() != "exact"@.len());
    assert("letter"@.len() != "code"@.len());
    assert("exact"@.len() != "code"@.len());
}

/// Every capital letter from `A` to `J` that stands alone is a choice letter, and
/// nothing else is: whatever the alphabetic marks say of the neighbours, a choice is a
/// letter `A`..`J` whose marked neighbours are not alphabetic.
pub proof fn lemma_choice_letters(cs: Seq<char>, alpha: Seq<bool>, i: int)
    requires
        alpha.len() == cs.len(),
    ensures
        marked_choice_at(cs, alpha, i) <==> (0 <= i < cs.len() && 'A' <= cs[i] && cs[i] <= 'J'
            && (i == 0 || !alpha[i - 1]) && (i + 1 >= cs.len() || !alpha[i + 1])),
        choice_at(cs, i) <==> stand_alone_letter(cs, i),
{
}

/// A multiple-choice answer is graded by its first stand-alone letter `A`..`J`: right
/// exactly when that letter is the gold answer; wrong when it has none.
pub proof fn lemma_letter_grade(t: Task, answer: Seq<char>)
    requires
        t.kind@ == "letter"@,
    ensures
        forall|i: int|
            stand_alone_letter(answer, i) && (forall|j: int|
                0 <= j < i ==> !stand_alone_letter(answer, j)) ==> #[trigger] task_grade(t, answer)
                == GradeModel::Graded(t.gold@ == seq![answer[i]]),
        (forall|i: int| !stand_alone_letter(answer, i)) ==> task_grade(t, answer)
            == GradeModel::Graded(false),
{
    lemma_kind_names();
    assert forall|i: int|
        stand_alone_letter(answer, i) && (forall|j: int|
            0 <= j < i ==> !stand_alone_letter(answer, j)) implies #[trigger] task_grade(t, answer)
        == GradeModel::Graded(t.gold@ == seq![answer[i]]) by {
        assert(choice_at(answer, i));
        assert forall|j: int| 0 <= j < i implies !choice_at(answer, j) by {
            assert(!stand_alone_letter(answer, j));
        }
        assert(first_choice_at(answer, i));
        if letter_ok(answer, t.gold@) {
            let k = choose|k: int| #[trigger] first_choice_at(answer, k) && t.gold@ == seq![answer[k]];
            if k < i {
                assert(!choice_at(answer, k));
            }
            if i < k {
                assert(!choice_at(answer, i));
            }
        }
    }
    if forall|i: int| !stand_alone_letter(answer, i) {
        if letter_ok(answer, t.gold@) {
            let k = choose|k: int| #[trigger] first_choice_at(answer, k) && t.gold@ == seq![answer[k]];
            assert(choice_at(answer, k));
            assert(stand_alone_letter(answer, k));
        }
    }
}

/// Exact math grading compares canonical forms: an answer identical to the gold is right
/// whenever the gold's canonical form is not empty; the verdict depends on the answer
/// only through its canonical form, so it ignores case (answers equal once lower-cased
/// get the same verdict); and it is right exactly when the answer's form contains the
/// gold's non-empty form.
pub proof fn lemma_exact_grade(t: Task, a: Seq<char>, b: Seq<char>)
    requires
        t.kind@ == "exact"@,
    ensures
        math_key(t.gold@).len() > 0 ==> task_grade(t, t.gold@) == GradeModel::Graded(true),
        math_key(a) == math_key(b) ==> task_grade(t, a) == task_grade(t, b),
        lowercased(a) == lowercased(b) ==> task_grade(t, a) == task_grade(t, b),
        task_grade(t, a) == GradeModel::Graded(
            math_key(t.gold@).len() > 0 && exists|k: int|
                0 <= k && k + math_key(t.gold@).len() <= math_key(a).len() && #[trigger] math_key(
                    a,
                ).subrange(k, k + math_key(t.gold@).len()) == math_key(t.gold@),
        ),
{
    lemma_kind_names();
    let g = math_key(t.gold@);
    let x = math_key(a);
    let e = exists|k: int| 0 <= k && k + g.len() <= x.len() && #[trigger] x.subrange(k, k + g.len()) == g;
    if x == g {
        assert(x.subrange(0int, 0int + g.len()) =~= g);
        assert(e);
    }
    if has_part(x, g) {
        let k = choose|k: int| occurs_at(x, g, k);
        assert(x.subrange(k, k + g.len()) == g);
        assert(e);
    }
    if e {
        let k = choose|k: int| 0 <= k && k + g.len() <= x.len() && #[trigger] x.subrange(k, k + g.len()) == g;
        assert(occurs_at(x, g, k));
    }
    assert(exact_ok(a, t.gold@) == (g.len() > 0 && e));
}

/// A code answer is sent to run exactly when its code (the answer without fence lines)
/// contains `def ` somewhere, and then the program is that code, two line feeds, the
/// unit test, two line feeds and `check(entry)`; otherwise it is wrong.
pub proof fn lemma_code_grade(t: Task, answer: Seq<char>)
    requires
        t.kind@ == "code"@,
    ensures
        (exists|k: int|
            0 <= k && k + 4 <= code_of(answer).len() && #[trigger] code_of(answer).subrange(k, k + 4)
                == "def "@) ==> task_grade(t, answer) == GradeModel::RunProgram(
            code_of(answer) + "\n\n"@ + t.test@ + "\n\ncheck("@ + t.entry@ + ")\n"@,
        ),
        !(exists|k: int|
            0 <= k && k + 4 <= code_of(answer).len() && #[trigger] code_of(answer).subrange(k, k + 4)
                == "def "@) ==> task_grade(t, answer) == GradeModel::Graded(false),
{
    lemma_kind_names();
    reveal_strlit("def ");
    let c = code_of(answer);
    if exists|k: int| 0 <= k && k + 4 <= c.len() && #[trigger] c.subrange(k, k + 4) == "def "@ {
        let k = choose|k: int| 0 <= k && k + 4 <= c.len() && #[trigger] c.subrange(k, k + 4) == "def "@;
        assert(occurs_at(c, "def "@, k));
    }
    if has_part(c, "def "@) {
        let k = choose|k: int| occurs_at(c, "def "@, k);
        assert(c.subrange(k, k + 4) == "def "@);
    }
}

/// Numeric grading is equality of the numbers written: the answer is right exactly when
/// its last number has the canonical form of the gold; for plain numerals (digits and
/// thousands separators) that is when both write the same value; an answer without a
/// number is wrong.
pub proof fn lemma_numeric_grade(t: Task, answer: Seq<char>)
    requires
        t.kind@ == "numeric"@,
    ensures
        last_num(answer) is None ==> task_grade(t, answer) == GradeModel::Graded(false),
        forall|x: Seq<char>|
            last_num(answer) == Some(x) ==> #[trigger] task_grade(t, answer) == GradeModel::Graded(
                num_key(x) == num_key(t.gold@),
            ),
        forall|x: Seq<char>|
            last_num(answer) == Some(x) && (forall|i: int| 0 <= i < x.len() ==> numeral_char(#[trigger] x[i]))
                && (forall|i: int| 0 <= i < t.gold@.len() ==> numeral_char(#[trigger] t.gold@[i]))
                ==> #[trigger] task_grade(t, answer) == GradeModel::Graded(
                numeral_value(x) == numeral_value(t.gold@),
            ),
{
    lemma_kind_names();
    assert forall|x: Seq<char>|
        last_num(answer) == Some(x) && (forall|i: int| 0 <= i < x.len() ==> numeral_char(#[trigger] x[i]))
            && (forall|i: int| 0 <= i < t.gold@.len() ==> numeral_char(#[trigger] t.gold@[i]))
            implies #[trigger] task_grade(t, answer) == GradeModel::Graded(
            numeral_value(x) == numeral_value(t.gold@),
        ) by {
        lemma_num_key_by_value(x, t.gold@);
    }
}

/// A character that neither writes nor joins a number: not a digit, a comma or a
/// minus sign.
pub open spec fn breaks_number(c: char) -> bool {
    !is_digit(c) && c != ',' && c != '-'
}

/// After a character that breaks numbers, no number is being read.
proof fn lemma_scan_reset(s: Seq<char>)
    requires
        s.len() > 0,
        breaks_number(s.last()),
    ensures
        scan(s).1 == Seq::<char>::empty(),
{
}

/// Reading digits after a break: they make up the number being read, and the finished
/// numbers stay as they were.
proof fn lemma_scan_digits(s: Seq<char>, x: Seq<char>)
    requires
        scan(s).1 == Seq::<char>::empty(),
        forall|i: int| 0 <= i < x.len() ==> is_digit(#[trigger] x[i]),
    ensures
        scan(s + x).1 == x,
        scan(s + x).0 == scan(s).0,
    decreases x.len(),
{
    if x.len() == 0 {
        assert(s + x =~= s);
    } else {
        let y = x.drop_last();
        lemma_scan_digits(s, y);
        assert((s + x).drop_last() =~= s + y);
        assert((s + x).last() == x.last());
        assert(y.push(x.last()) =~= x);
    }
}

/// After a number that breaking characters follow, that number is finished and none
/// is being read.
proof fn lemma_scan_tail(p: Seq<char>, x: Seq<char>, r: Seq<char>)
    requires
        scan(p).1 == x,
        x.len() > 0,
        forall|i: int| 0 <= i < x.len() ==> is_digit(#[trigger] x[i]),
        r.len() > 0,
        forall|i: int| 0 <= i < r.len() ==> breaks_number(#[trigger] r[i]),
    ensures
        scan(p + r).0 == scan(p).0.push(x),
        scan(p + r).1 == Seq::<char>::empty(),
    decreases r.len(),
{
    assert(is_digit(x[0]));
    assert(has_digit(x));
    let q = r.drop_last();
    assert((p + r).drop_last() =~= p + q);
    assert((p + r).last() == r.last());
    assert(breaks_number(r[r.len() - 1]));
    if q.len() > 0 {
        assert forall|i: int| 0 <= i < q.len() implies breaks_number(#[trigger] q[i]) by {
            assert(q[i] == r[i]);
        }
        lemma_scan_tail(p, x, q);
    } else {
        assert(p + q =~= p);
    }
}

/// The last number of an answer is the run of digits it ends with, when only characters
/// that neither write nor join a number follow that run and none comes right before it:
/// for "The answer is 42." the last number is "42", whatever numbers come earlier.
pub proof fn lemma_trailing_number(s: Seq<char>, x: Seq<char>, r: Seq<char>)
    requires
        x.len() > 0,
        forall|i: int| 0 <= i < x.len() ==> is_digit(#[trigger] x[i]),
        s.len() == 0 || breaks_number(s.last()),
        forall|i: int| 0 <= i < r.len() ==> breaks_number(#[trigger] r[i]),
    ensures
        last_num(s + x + r) == Some(x),
{
    if s.len() > 0 {
        lemma_scan_reset(s);
    } else {
        assert(scan(s) == (Seq::<Seq<char>>::empty(), Seq::<char>::empty()));
    }
    lemma_scan_digits(s, x);
    assert(is_digit(x[0]));
    assert(has_digit(x));
    if r.len() > 0 {
        lemma_scan_tail(s + x, x, r);
        assert(!has_digit(Seq::<char>::empty()));
    } else {
        assert(s + x + r =~= s + x);
    }
}

/// `strip_front` drops exactly the leading characters of the set: everything before
/// the cut is in the set, and the first character kept is not.
proof fn lemma_front_run_set(s: Seq<char>, k: CharSet)
    ensures
        front_run(s, k) <= s.len(),
        forall|i: int| 0 <= i < front_run(s, k) ==> k.has(#[trigger] s[i]),
        front_run(s, k) < s.len() ==> !k.has(s[front_run(s, k) as int]),
    decreases s.len(),
{
    if s.len() > 0 && k.has(s[0]) {
        let t = s.drop_first();
        lemma_front_run_set(t, k);
        assert forall|i: int| 0 <= i < front_run(s, k) implies k.has(#[trigger] s[i]) by {
            if i > 0 {
                assert(s[i] == t[i - 1]);
            }
        }
    }
}

/// `strip_back` drops exactly the trailing characters of the set: the first character
/// dropped follows one that is kept and not in the set.
proof fn lemma_back_run_set(s: Seq<char>, k: CharSet)
    ensures
        back_run(s, k) <= s.len(),
        back_run(s, k) < s.len() ==> !k.has(s[s.len() - 1 - back_run(s, k)]),
    decreases s.len(),
{
    if s.len() > 0 && k.has(s.last()) {
        let t = s.drop_last();
        lemma_back_run_set(t, k);
        if back_run(s, k) < s.len() {
            assert(s[s.len() - 1 - back_run(s, k)] == t[t.len() - 1 - back_run(t, k)]);
        }
    }
}

/// Text trimmed of a set neither starts nor ends with a character of the set.
proof fn lemma_strip_both_ends(s: Seq<char>, k: CharSet)
    ensures
        strip_both(s, k).len() > 0 ==> !k.has(strip_both(s, k)[0]) && !k.has(
            strip_both(s, k).last(),
        ),
{
    lemma_front_run_set(s, k);
    let f = s.skip(front_run(s, k) as int);
    lemma_back_run_set(f, k);
    let x = strip_both(s, k);
    if x.len() > 0 {
        assert(x[0] == f[0]);
        assert(f[0] == s[front_run(s, k) as int]);
        assert(x.last() == f[f.len() - 1 - back_run(f, k)]);
    }
}

/// `strip_back` keeps the first character when it is not in the set.
proof fn lemma_back_run_keeps_first(s: Seq<char>, k: CharSet)
    requires
        s.len() > 0,
        !k.has(s[0]),
    ensures
        back_run(s, k) < s.len(),
    decreases s.len(),
{
    if k.has(s.last()) {
        let t = s.drop_last();
        assert(t.len() > 0);
        assert(t[0] == s[0]);
        lemma_back_run_keeps_first(t, k);
    }
}

/// Text trims to nothing exactly when all of it is white space.
pub proof fn lemma_blank(s: Seq<char>)
    ensures
        (strip_both(s, CharSet::Space).len() == 0) <==> (forall|i: int|
            0 <= i < s.len() ==> is_ws(#[trigger] s[i])),
{
    lemma_front_run_set(s, CharSet::Space);
    let f = front_run(s, CharSet::Space) as int;
    let u = s.skip(f);
    if f < s.len() {
        assert(u[0] == s[f]);
        lemma_back_run_keeps_first(u, CharSet::Space);
        assert(!is_ws(s[f]));
    } else {
        assert forall|i: int| 0 <= i < s.len() implies is_ws(#[trigger] s[i]) by {
            assert(CharSet::Space.has(s[i]));
        }
    }
}

/// A stdin/stdout answer is sent to run exactly when its code (the answer without fence
/// lines) holds something other than white space; the runs then take that code and the
/// task's test text. A blank answer is wrong.
pub proof fn lemma_stdio_grade(t: Task, answer: Seq<char>)
    requires
        t.kind@ == "stdio"@,
    ensures
        (exists|i: int| 0 <= i < code_of(answer).len() && !is_ws(#[trigger] code_of(answer)[i]))
            ==> task_grade(t, answer) == GradeModel::RunStdio(code_of(answer), t.test@),
        (forall|i: int| 0 <= i < code_of(answer).len() ==> is_ws(#[trigger] code_of(answer)[i]))
            ==> task_grade(t, answer) == GradeModel::Graded(false),
{
    reveal_strlit("numeric");
    reveal_strlit("letter");
    reveal_strlit("exact");
    reveal_strlit("code");
    reveal_strlit("stdio");
    assert("stdio"@.len() != "numeric"@.len());
    assert("stdio"@.len() != "letter"@.len());
    assert("stdio"@.len() != "code"@.len());
    assert("stdio"@[0] != "exact"@[0]);
    lemma_blank(code_of(answer));
}

/// An answer to a task of any other kind is wrong.
pub proof fn lemma_unknown_kind(t: Task, answer: Seq<char>)
    requires
        t.kind@ != "numeric"@,
        t.kind@ != "letter"@,
        t.kind@ != "exact"@,
        t.kind@ != "code"@,
        t.kind@ != "stdio"@,
    ensures
        task_grade(t, answer) == GradeModel::Graded(false),
{
}

/// Every character of a replacement result comes from the text, where it is not the
/// one-character pattern, or from the replacement.
proof fn lemma_replaced_chars(s: Seq<char>, p: Seq<char>, r: Seq<char>)
    ensures
        forall|c: char|
            #[trigger] replaced(s, p, r).contains(c) ==> (s.contains(c) && p != seq![c])
                || r.contains(c),
    decreases s.len(),
{
    if s.len() == 0 {
    } else if p.len() > 0 && occurs_at(s, p, 0) {
        let t = s.skip(p.len() as int);
        lemma_replaced_chars(t, p, r);
        assert forall|c: char| #[trigger] replaced(s, p, r).contains(c) implies (s.contains(c) && p
            != seq![c]) || r.contains(c) by {
            let x = replaced(s, p, r);
            let i = choose|i: int| 0 <= i < x.len() && x[i] == c;
            if i < r.len() {
                assert(r[i] == c);
            } else {
                let y = replaced(t, p, r);
                assert(y[i - r.len()] == c);
                assert(y.contains(c));
                if t.contains(c) {
                    let j = choose|j: int| 0 <= j < t.len() && t[j] == c;
                    assert(s[j + p.len()] == c);
                }
            }
        }
    } else {
        let t = s.drop_first();
        lemma_replaced_chars(t, p, r);
        assert forall|c: char| #[trigger] replaced(s, p, r).contains(c) implies (s.contains(c) && p
            != seq![c]) || r.contains(c) by {
            let x = replaced(s, p, r);
            let i = choose|i: int| 0 <= i < x.len() && x[i] == c;
            if i == 0 {
                assert(s[0] == c);
                if p == seq![c] {
                    assert(s.subrange(0, 1) =~= p);
                }
            } else {
                let y = replaced(t, p, r);
                assert(y[i - 1] == c);
                assert(y.contains(c));
                if t.contains(c) {
                    let j = choose|j: int| 0 <= j < t.len() && t[j] == c;
                    assert(s[j + 1] == c);
                }
            }
        }
    }
}

/// The canonical form of a math answer holds no dollar sign, no brace and no space, tab
/// or line feed: all of them are taken out; and it neither starts nor ends with a dot or
/// a parenthesis.
pub proof fn lemma_math_key_bare(s: Seq<char>)
    ensures
        !math_key(s).contains('$'),
        !math_key(s).contains('{'),
        !math_key(s).contains('}'),
        !math_key(s).contains(' '),
        !math_key(s).contains('\n'),
        !math_key(s).contains('\t'),
        math_key(s).len() > 0 ==> {
            &&& math_key(s)[0] != '.' && math_key(s)[0] != '(' && math_key(s)[0] != ')'
            &&& math_key(s).last() != '.' && math_key(s).last() != '(' && math_key(s).last()
                != ')'
        },
{
    reveal_strlit("\\left");
    reveal_strlit("");
    reveal_strlit("\\right");
    reveal_strlit("\\!");
    reveal_strlit("\\,");
    reveal_strlit("\\;");
    reveal_strlit("\\:");
    reveal_strlit("\\big");
    reveal_strlit("\\bigg");
    reveal_strlit("$");
    reveal_strlit("{");
    reveal_strlit("}");
    reveal_strlit(" ");
    reveal_strlit("\n");
    reveal_strlit("\t");
    reveal_strlit("\\dfrac");
    reveal_strlit("\\frac");
    reveal_strlit("\\pi");
    reveal_strlit("pi");
    reveal_strlit("\\cdot");
    reveal_strlit("*");
    assert(""@ =~= Seq::<char>::empty());
    let x0 = lowercased(s);
    let x1 = replaced(x0, "\\left"@, ""@);
    lemma_replaced_chars(x0, "\\left"@, ""@);
    let x2 = replaced(x1, "\\right"@, ""@);
    lemma_replaced_chars(x1, "\\right"@, ""@);
    let x3 = replaced(x2, "\\!"@, ""@);
    lemma_replaced_chars(x2, "\\!"@, ""@);
    let x4 = replaced(x3, "\\,"@, ""@);
    lemma_replaced_chars(x3, "\\,"@, ""@);
    let x5 = replaced(x4, "\\;"@, ""@);
    lemma_replaced_chars(x4, "\\;"@, ""@);
    let x6 = replaced(x5, "\\:"@, ""@);
    lemma_replaced_chars(x5, "\\:"@, ""@);
    let x7 = replaced(x6, "\\big"@, ""@);
    lemma_replaced_chars(x6, "\\big"@, ""@);
    let x8 = replaced(x7, "\\bigg"@, ""@);
    lemma_replaced_chars(x7, "\\bigg"@, ""@);
    let x9 = replaced(x8, "$"@, ""@);
    lemma_replaced_chars(x8, "$"@, ""@);
    let x10 = replaced(x9, "{"@, ""@);
    lemma_replaced_chars(x9, "{"@, ""@);
    let x11 = replaced(x10, "}"@, ""@);
    lemma_replaced_chars(x10, "}"@, ""@);
    let x12 = replaced(x11, " "@, ""@);
    lemma_replaced_chars(x11, " "@, ""@);
    let x13 = replaced(x12, "\n"@, ""@);
    lemma_replaced_chars(x12, "\n"@, ""@);
    let x14 = replaced(x13, "\t"@, ""@);
    lemma_replaced_chars(x13, "\t"@, ""@);
    let x15 = replaced(x14, "\\dfrac"@, "\\frac"@);
    lemma_replaced_chars(x14, "\\dfrac"@, "\\frac"@);
    let x16 = replaced(x15, "\\pi"@, "pi"@);
    lemma_replaced_chars(x15, "\\pi"@, "pi"@);
    let x17 = replaced(x16, "\\cdot"@, "*"@);
    lemma_replaced_chars(x16, "\\cdot"@, "*"@);
    assert("$"@ =~= seq!['$']);
    assert(!x9.contains('$'));
    assert(!x10.contains('$'));
    assert(!x11.contains('$'));
    assert(!x12.contains('$'));
    assert(!x13.contains('$'));
    assert(!x14.contains('$'));
    assert(!x15.contains('$'));
    assert(!x16.contains('$'));
    assert(!x17.contains('$'));
    assert("{"@ =~= seq!['{']);
    assert(!x10.contains('{'));
    assert(!x11.contains('{'));
    assert(!x12.contains('{'));
    assert(!x13.contains('{'));
    assert(!x14.contains('{'));
    assert(!x15.contains('{'));
    assert(!x16.contains('{'));
    assert(!x17.contains('{'));
    assert("}"@ =~= seq!['}']);
    assert(!x11.contains('}'));
    assert(!x12.contains('}'));
    assert(!x13.contains('}'));
    assert(!x14.contains('}'));
    assert(!x15.contains('}'));
    assert(!x16.contains('}'));
    assert(!x17.contains('}'));
    assert(" "@ =~= seq![' ']);
    assert(!x12.contains(' '));
    assert(!x13.contains(' '));
    assert(!x14.contains(' '));
    assert(!x15.contains(' '));
    assert(!x16.contains(' '));
    assert(!x17.contains(' '));
    assert("\n"@ =~= seq!['\n']);
    assert(!x13.contains('\n'));
    assert(!x14.contains('\n'));
    assert(!x15.contains('\n'));
    assert(!x16.contains('\n'));
    assert(!x17.contains('\n'));
    assert("\t"@ =~= seq!['\t']);
    assert(!x14.contains('\t'));
    assert(!x15.contains('\t'));
    assert(!x16.contains('\t'));
    assert(!x17.contains('\t'));
    let k = strip_both(x17, CharSet::Edge);
    assert(k == math_key(s));
    lemma_strip_both_ends(x17, CharSet::Edge);
    lemma_front_run_set(x17, CharSet::Edge);
    let f = x17.skip(front_run(x17, CharSet::Edge) as int);
    lemma_back_run_bound(f, CharSet::Edge);
    assert forall|c: char| #[trigger] k.contains(c) implies x17.contains(c) by {
        let i = choose|i: int| 0 <= i < k.len() && k[i] == c;
        assert(k[i] == f[i]);
        assert(x17[i + front_run(x17, CharSet::Edge)] == c);
    }
    assert(!"\\frac"@.contains('$') && !"pi"@.contains('$') && !"*"@.contains('$'));
    assert(!"\\frac"@.contains('{') && !"pi"@.contains('{') && !"*"@.contains('{'));
    assert(!"\\frac"@.contains('}') && !"pi"@.contains('}') && !"*"@.contains('}'));
    assert(!"\\frac"@.contains(' ') && !"pi"@.contains(' ') && !"*"@.contains(' '));
    assert(!"\\frac"@.contains('\n') && !"pi"@.contains('\n') && !"*"@.contains('\n'));
    assert(!"\\frac"@.contains('\t') && !"pi"@.contains('\t') && !"*"@.contains('\t'));
}

/// Fence stripping keeps exactly the lines that do not start, after their leading white
/// space, with three backticks, in their order.
pub proof fn lemma_unfenced_lines(ls: Seq<Seq<char>>)
    ensures
        unfenced(ls) == ls.filter(
            |l: Seq<char>| !begins_with(strip_front(l, CharSet::Space), seq!['`', '`', '`']),
        ),
    decreases ls.len(),
{
    reveal(Seq::filter);
    if ls.len() > 0 {
        lemma_unfenced_lines(ls.drop_last());
    }
}

/// The code of an answer is its lines that do not start, after their leading white
/// space, with three backticks, joined by line feeds.
pub proof fn lemma_code_lines(s: Seq<char>)
    ensures
        code_of(s) == joined(
            lines_of(s).filter(
                |l: Seq<char>| !begins_with(strip_front(l, CharSet::Space), seq!['`', '`', '`']),
            ),
            seq!['\n'],
        ),
{
    lemma_unfenced_lines(lines_of(s));
}

/// A plus sign and surrounding spaces do not change a number: a plain numeral (digits
/// and thousands separators) written as ` +numeral ` has the canonical form of the
/// numeral itself.
pub proof fn lemma_num_key_signs(t: Seq<char>)
    requires
        t.len() > 0,
        forall|i: int| 0 <= i < t.len() ==> numeral_char(#[trigger] t[i]),
    ensures
        num_key(seq![' ', '+'] + t + seq![' ']) == num_key(t),
{
    let sp = CharSet::Space;
    let u = seq![' ', '+'] + t + seq![' '];
    assert(numeral_char(t[0]) && numeral_char(t.last()));
    assert(!is_ws(t[0]) && !is_ws(t.last()) && t[0] != '+');
    let v = u.drop_first();
    assert(v =~= seq!['+'] + t + seq![' ']);
    assert(front_run(v, sp) == 0);
    assert(front_run(u, sp) == 1);
    assert(strip_front(u, sp) == v);
    let w = v.drop_last();
    assert(w =~= seq!['+'] + t);
    assert(back_run(w, sp) == 0);
    assert(back_run(v, sp) == 1);
    assert(strip_both(u, sp) =~= w);
    assert(w.drop_first() =~= t);
    assert(front_run(t, CharSet::One('+')) == 0);
    assert(front_run(w, CharSet::One('+')) == 1);
    assert(strip_front(w, CharSet::One('+')) =~= t);
    assert(front_run(t, sp) == 0);
    assert(back_run(t, sp) == 0);
    assert(strip_both(t, sp) =~= t);
    assert(strip_front(t, CharSet::One('+')) =~= t);
}

} // verus!
