use vstd::prelude::*;

use crate::model::Sample;
use crate::text::text_eq;

verus! {

/// The text behind an optional string.
pub open spec fn opt_text(o: Option<&str>) -> Option<Seq<char>> {
    match o {
        Some(s) => Some(s@),
        None => None,
    }
}

/// `x` is of task `id` (when given), of arm `arm` and of suite `suite` (when given).
pub open spec fn selected(
    x: Sample,
    id: Option<Seq<char>>,
    arm: Seq<char>,
    suite: Option<Seq<char>>,
) -> bool {
    &&& (id matches Some(i) ==> x.id@ == i)
    &&& x.arm@ == arm
    &&& (suite matches Some(u) ==> x.suite@ == u)
}

/// The samples of `s` that are `selected`, in order.
pub open spec fn chosen(
    s: Seq<Sample>,
    id: Option<Seq<char>>,
    arm: Seq<char>,
    suite: Option<Seq<char>>,
) -> Seq<Sample>
    decreases s.len(),
{
    if s.len() == 0 {
        seq![]
    } else {
        let r = chosen(s.drop_last(), id, arm, suite);
        if selected(s.last(), id, arm, suite) {
            r.push(s.last())
        } else {
            r
        }
    }
}

/// How many samples of `s` were graded correct.
pub open spec fn correct_count(s: Seq<Sample>) -> nat
    decreases s.len(),
{
    if s.len() == 0 {
        0
    } else {
        correct_count(s.drop_last()) + if s.last().correct {
            1nat
        } else {
            0nat
        }
    }
}

pub open spec fn outputs(s: Seq<Sample>) -> Seq<i64> {
    s.map_values(|x: Sample| x.output)
}

pub open spec fn thinkings(s: Seq<Sample>) -> Seq<i64> {
    s.map_values(|x: Sample| x.thinking)
}

fn is_selected(x: &Sample, id: Option<&str>, arm: &str, suite: Option<&str>) -> (b: bool)
    ensures
        b == selected(*x, opt_text(id), arm@, opt_text(suite)),
{
    let id_ok = match id {
        Some(i) => text_eq(x.id.as_str(), i),
        None => true,
    };
    let suite_ok = match suite {
        Some(u) => text_eq(x.suite.as_str(), u),
        None => true,
    };
    id_ok && text_eq(x.arm.as_str(), arm) && suite_ok
}

/// What the selected samples hold: their outputs, their thinking counts, how many were
/// correct and how many there are.
fn gather(s: &[Sample], id: Option<&str>, arm: &str, suite: Option<&str>) -> (r: (
    Vec<i64>,
    Vec<i64>,
    usize,
    usize,
))
    ensures
        r.0@ == outputs(chosen(s@, opt_text(id), arm@, opt_text(suite))),
        r.1@ == thinkings(chosen(s@, opt_text(id), arm@, opt_text(suite))),
        r.2 == correct_count(chosen(s@, opt_text(id), arm@, opt_text(suite))),
        r.3 == chosen(s@, opt_text(id), arm@, opt_text(suite)).len(),
{
    let mut outs: Vec<i64> = Vec::new();
    let mut thinks: Vec<i64> = Vec::new();
    let mut good: usize = 0;
    let mut i: usize = 0;
    assert(s@.take(0) =~= Seq::<Sample>::empty());
    while i < s.len()
        invariant
            i <= s.len(),
            outs@ == outputs(chosen(s@.take(i as int), opt_text(id), arm@, opt_text(suite))),
            thinks@ == thinkings(chosen(s@.take(i as int), opt_text(id), arm@, opt_text(suite))),
            good == correct_count(chosen(s@.take(i as int), opt_text(id), arm@, opt_text(suite))),
            outs.len() == chosen(s@.take(i as int), opt_text(id), arm@, opt_text(suite)).len(),
            good <= outs.len(),
        decreases s.len() - i,
    {
        let ghost before = chosen(s@.take(i as int), opt_text(id), arm@, opt_text(suite));
        assert(s@.take(i + 1).drop_last() =~= s@.take(i as int));
        if is_selected(&s[i], id, arm, suite) {
            outs.push(s[i].output);
            thinks.push(s[i].thinking);
            if s[i].correct {
                assert(good < outs.len());
                good = good + 1;
            }
            let ghost after = chosen(s@.take(i + 1), opt_text(id), arm@, opt_text(suite));
            assert(after == before.push(s@[i as int]));
            assert(after.drop_last() =~= before);
            assert(outs@ =~= outputs(after));
            assert(thinks@ =~= thinkings(after));
        }
        i = i + 1;
    }
    assert(s@.take(s.len() as int) =~= s@);
    let n = outs.len();
    (outs, thinks, good, n)
}

/// The thinking counts of task `id` under arm `arm`.
pub fn t_think(s: &[Sample], id: &str, arm: &str) -> (r: Vec<i64>)
    ensures
        r@ == thinkings(chosen(s@, Some(id@), arm@, None)),
{
    gather(s, Some(id), arm, None).1
}

/// How many samples of task `id` under arm `arm` were correct, and how many there are.
pub fn t_acc(s: &[Sample], id: &str, arm: &str) -> (r: (usize, usize))
    ensures
        r.0 == correct_count(chosen(s@, Some(id@), arm@, None)),
        r.1 == chosen(s@, Some(id@), arm@, None).len(),
{
    let g = gather(s, Some(id), arm, None);
    (g.2, g.3)
}

/// The outputs of arm `arm`.
pub fn arm_out(s: &[Sample], arm: &str) -> (r: Vec<i64>)
    ensures
        r@ == outputs(chosen(s@, None, arm@, None)),
{
    gather(s, None, arm, None).0
}

/// The thinking counts of arm `arm`.
pub fn arm_think(s: &[Sample], arm: &str) -> (r: Vec<i64>)
    ensures
        r@ == thinkings(chosen(s@, None, arm@, None)),
{
    gather(s, None, arm, None).1
}

/// The outputs of arm `arm` on suite `suite`.
pub fn arm_suite_out(s: &[Sample], arm: &str, suite: &str) -> (r: Vec<i64>)
    ensures
        r@ == outputs(chosen(s@, None, arm@, Some(suite@))),
{
    gather(s, None, arm, Some(suite)).0
}

/// How many samples of arm `arm` on suite `suite` were correct, and how many there are.
pub fn arm_suite_acc(s: &[Sample], arm: &str, suite: &str) -> (r: (usize, usize))
    ensures
        r.0 == correct_count(chosen(s@, None, arm@, Some(suite@))),
        r.1 == chosen(s@, None, arm@, Some(suite@)).len(),
{
    let g = gather(s, None, arm, Some(suite));
    (g.2, g.3)
}

/// How many samples of arm `arm` were correct, and how many there are.
pub fn arm_acc(s: &[Sample], arm: &str) -> (r: (usize, usize))
    ensures
        r.0 == correct_count(chosen(s@, None, arm@, None)),
        r.1 == chosen(s@, None, arm@, None).len(),
{
    let g = gather(s, None, arm, None);
    (g.2, g.3)
}

/// The key a sample is listed by: its suite, or its task id.
pub open spec fn key_of(x: Sample, by_suite: bool) -> Seq<char> {
    if by_suite {
        x.suite@
    } else {
        x.id@
    }
}

/// What is listed beside the key: the suite's domain, or the task's suite.
pub open spec fn tag_of(x: Sample, by_suite: bool) -> Seq<char> {
    if by_suite {
        x.domain@
    } else {
        x.suite@
    }
}

/// `key` is listed in `r`.
pub open spec fn listed(r: Seq<(Seq<char>, Seq<char>)>, key: Seq<char>) -> bool {
    exists|i: int| 0 <= i < r.len() && (#[trigger] r[i]).0 == key
}

/// Each key of `s` once, in the order of first appearance, with the tag of the sample
/// where it first appears.
pub open spec fn firsts(s: Seq<Sample>, by_suite: bool) -> Seq<(Seq<char>, Seq<char>)>
    decreases s.len(),
{
    if s.len() == 0 {
        seq![]
    } else {
        let r = firsts(s.drop_last(), by_suite);
        let x = s.last();
        if listed(r, key_of(x, by_suite)) {
            r
        } else {
            r.push((key_of(x, by_suite), tag_of(x, by_suite)))
        }
    }
}

pub open spec fn pair_texts(v: Seq<(String, String)>) -> Seq<(Seq<char>, Seq<char>)> {
    v.map_values(|p: (String, String)| (p.0@, p.1@))
}

fn list_firsts(s: &[Sample], by_suite: bool) -> (r: Vec<(String, String)>)
    ensures
        pair_texts(r@) == firsts(s@, by_suite),
{
    let mut r: Vec<(String, String)> = Vec::new();
    let mut i: usize = 0;
    assert(s@.take(0) =~= Seq::<Sample>::empty());
    assert(pair_texts(r@) =~= Seq::<(Seq<char>, Seq<char>)>::empty());
    while i < s.len()
        invariant
            i <= s.len(),
            pair_texts(r@) == firsts(s@.take(i as int), by_suite),
        decreases s.len() - i,
    {
        assert(s@.take(i + 1).drop_last() =~= s@.take(i as int));
        let x = &s[i];
        let key = if by_suite {
            x.suite.as_str()
        } else {
            x.id.as_str()
        };
        let mut found = false;
        let mut j: usize = 0;
        while j < r.len()
            invariant
                j <= r.len(),
                key@ == key_of(s@[i as int], by_suite),
                found == exists|m: int| 0 <= m < j && (#[trigger] pair_texts(r@)[m]).0 == key@,
            decreases r.len() - j,
        {
            if text_eq(r[j].0.as_str(), key) {
                found = true;
            }
            assert(pair_texts(r@)[j as int].0 == r@[j as int].0@);
            j = j + 1;
        }
        if !found {
            let k = if by_suite {
                x.suite.clone()
            } else {
                x.id.clone()
            };
            let t = if by_suite {
                x.domain.clone()
            } else {
                x.suite.clone()
            };
            let ghost before = r@;
            r.push((k, t));
            assert(pair_texts(r@) =~= pair_texts(before).push(
                (key_of(s@[i as int], by_suite), tag_of(s@[i as int], by_suite)),
            ));
        }
        i = i + 1;
    }
    assert(s@.take(s.len() as int) =~= s@);
    r
}

/// Each task id once, in order of first appearance, with its suite.
pub fn task_ids(s: &[Sample]) -> (r: Vec<(String, String)>)
    ensures
        pair_texts(r@) == firsts(s@, false),
{
    list_firsts(s, false)
}

/// Each suite once, in order of first appearance, with its domain.
pub fn suites_of(s: &[Sample]) -> (r: Vec<(String, String)>)
    ensures
        pair_texts(r@) == firsts(s@, true),
{
    list_firsts(s, true)
}

/// No key is listed twice.
pub proof fn lemma_firsts_distinct(s: Seq<Sample>, by_suite: bool)
    ensures
        forall|i: int, j: int|
            0 <= i < j < firsts(s, by_suite).len() ==> (#[trigger] firsts(s, by_suite)[i]).0
                != (#[trigger] firsts(s, by_suite)[j]).0,
    decreases s.len(),
{
    if s.len() > 0 {
        lemma_firsts_distinct(s.drop_last(), by_suite);
        let r = firsts(s.drop_last(), by_suite);
        let f = firsts(s, by_suite);
        if !listed(r, key_of(s.last(), by_suite)) {
            assert forall|i: int, j: int| 0 <= i < j < f.len() implies (#[trigger] f[i]).0
                != (#[trigger] f[j]).0 by {
                if j == r.len() {
                    assert(f[i] == r[i]);
                    if f[i].0 == f[j].0 {
                        assert(listed(r, key_of(s.last(), by_suite)));
                    }
                } else {
                    assert(f[i] == r[i] && f[j] == r[j]);
                }
            }
        }
    }
}

/// Every sample's key is listed, and every listed key is that of the first sample that
/// has it, with that sample's tag.
pub proof fn lemma_firsts_complete(s: Seq<Sample>, by_suite: bool)
    ensures
        forall|k: int| 0 <= k < s.len() ==> listed(firsts(s, by_suite), key_of(#[trigger] s[k], by_suite)),
        forall|i: int|
            0 <= i < firsts(s, by_suite).len() ==> exists|k: int|
                0 <= k < s.len() && key_of(#[trigger] s[k], by_suite) == (#[trigger] firsts(s, by_suite)[i]).0
                    && tag_of(s[k], by_suite) == firsts(s, by_suite)[i].1 && forall|m: int|
                    0 <= m < k ==> key_of(#[trigger] s[m], by_suite) != firsts(s, by_suite)[i].0,
    decreases s.len(),
{
    if s.len() > 0 {
        let p = s.drop_last();
        lemma_firsts_complete(p, by_suite);
        let r = firsts(p, by_suite);
        let f = firsts(s, by_suite);
        let x = s.last();
        assert forall|k: int| 0 <= k < s.len() implies listed(f, key_of(#[trigger] s[k], by_suite)) by {
            if k < p.len() {
                assert(s[k] == p[k]);
                let w = choose|w: int| 0 <= w < r.len() && (#[trigger] r[w]).0 == key_of(p[k], by_suite);
                assert(f[w] == r[w]);
            } else if !listed(r, key_of(x, by_suite)) {
                assert(f[r.len() as int].0 == key_of(x, by_suite));
            }
        }
        assert forall|i: int| 0 <= i < f.len() implies exists|k: int|
            0 <= k < s.len() && key_of(#[trigger] s[k], by_suite) == (#[trigger] f[i]).0 && tag_of(
                s[k],
                by_suite,
            ) == f[i].1 && forall|m: int| 0 <= m < k ==> key_of(#[trigger] s[m], by_suite) != f[i].0 by {
            if i < r.len() {
                assert(f[i] == r[i]);
                let k = choose|k: int|
                    0 <= k < p.len() && key_of(#[trigger] p[k], by_suite) == (#[trigger] r[i]).0
                        && tag_of(p[k], by_suite) == r[i].1 && forall|m: int|
                        0 <= m < k ==> key_of(#[trigger] p[m], by_suite) != r[i].0;
                assert(s[k] == p[k]);
                assert forall|m: int| 0 <= m < k implies key_of(#[trigger] s[m], by_suite) != f[i].0 by {
                    assert(s[m] == p[m]);
                }
            } else {
                let k = p.len() as int;
                assert(s[k] == x);
                assert forall|m: int| 0 <= m < k implies key_of(#[trigger] s[m], by_suite) != f[i].0 by {
                    assert(s[m] == p[m]);
                    if key_of(p[m], by_suite) == f[i].0 {
                        let w = choose|w: int| 0 <= w < r.len() && (#[trigger] r[w]).0 == key_of(p[m], by_suite);
                        assert(listed(r, key_of(x, by_suite)));
                    }
                }
            }
        }
    }
}

/// The correct count of a selection never exceeds its size.
pub proof fn lemma_correct_le_len(s: Seq<Sample>)
    ensures
        correct_count(s) <= s.len(),
    decreases s.len(),
{
    if s.len() > 0 {
        lemma_correct_le_len(s.drop_last());
    }
}

/// Correct and total counts of arm `arm` summed over the suites of `suites`.
pub open spec fn suite_tally(s: Seq<Sample>, arm: Seq<char>, suites: Seq<(Seq<char>, Seq<char>)>) -> (
    nat,
    nat,
)
    decreases suites.len(),
{
    if suites.len() == 0 {
        (0, 0)
    } else {
        let p = suite_tally(s, arm, suites.drop_last());
        let sel = chosen(s, None, arm, Some(suites.last().0));
        ((p.0 + correct_count(sel)) as nat, (p.1 + sel.len()) as nat)
    }
}

/// The correct and total count of one sample toward arm `arm` and suites `suites`.
pub open spec fn one_tally(x: Sample, arm: Seq<char>, counted: bool) -> (nat, nat) {
    if x.arm@ == arm && counted {
        (if x.correct {
            1nat
        } else {
            0nat
        }, 1nat)
    } else {
        (0nat, 0nat)
    }
}

proof fn lemma_tally_push(
    p: Seq<Sample>,
    x: Sample,
    arm: Seq<char>,
    suites: Seq<(Seq<char>, Seq<char>)>,
)
    requires
        forall|i: int, j: int|
            0 <= i < j < suites.len() ==> (#[trigger] suites[i]).0 != (#[trigger] suites[j]).0,
    ensures
        ({
            let a = suite_tally(p.push(x), arm, suites);
            let b = suite_tally(p, arm, suites);
            let c = one_tally(x, arm, listed(suites, x.suite@));
            a.0 == b.0 + c.0 && a.1 == b.1 + c.1
        }),
    decreases suites.len(),
{
    let s = p.push(x);
    assert(s.drop_last() =~= p);
    if suites.len() > 0 {
        let q = suites.drop_last();
        assert forall|i: int, j: int| 0 <= i < j < q.len() implies (#[trigger] q[i]).0 != (
        #[trigger] q[j]).0 by {
            assert(q[i] == suites[i] && q[j] == suites[j]);
        }
        lemma_tally_push(p, x, arm, q);
        let su = suites.last().0;
        assert(s.last() == x);
        lemma_chosen_push(p, x, None, arm, Some(su));
        if listed(q, x.suite@) {
            let w = choose|w: int| 0 <= w < q.len() && (#[trigger] q[w]).0 == x.suite@;
            assert(suites[w] == q[w]);
            assert(listed(suites, x.suite@));
            assert(su != x.suite@);
        } else if su == x.suite@ {
            assert(listed(suites, x.suite@)) by {
                assert(suites[suites.len() - 1].0 == x.suite@);
            }
        } else {
            assert(!listed(suites, x.suite@)) by {
                if listed(suites, x.suite@) {
                    let w = choose|w: int| 0 <= w < suites.len() && (#[trigger] suites[w]).0 == x.suite@;
                    assert(q[w] == suites[w]);
                }
            }
        }
    }
}

proof fn lemma_chosen_push(
    p: Seq<Sample>,
    x: Sample,
    id: Option<Seq<char>>,
    arm: Seq<char>,
    suite: Option<Seq<char>>,
)
    ensures
        selected(x, id, arm, suite) ==> chosen(p.push(x), id, arm, suite).len() == chosen(
            p,
            id,
            arm,
            suite,
        ).len() + 1 && correct_count(chosen(p.push(x), id, arm, suite)) == correct_count(
            chosen(p, id, arm, suite),
        ) + if x.correct {
            1nat
        } else {
            0nat
        },
        !selected(x, id, arm, suite) ==> chosen(p.push(x), id, arm, suite) == chosen(
            p,
            id,
            arm,
            suite,
        ),
{
    let s = p.push(x);
    assert(s.drop_last() =~= p);
    assert(s.last() == x);
    let cp = chosen(p, id, arm, suite);
    if selected(x, id, arm, suite) {
        assert(chosen(s, id, arm, suite) == cp.push(x));
        assert(cp.push(x).drop_last() =~= cp);
    }
}

proof fn lemma_unlisted_none(s: Seq<Sample>, arm: Seq<char>, su: Seq<char>)
    requires
        forall|k: int| 0 <= k < s.len() ==> (#[trigger] s[k]).suite@ != su,
    ensures
        chosen(s, None, arm, Some(su)).len() == 0,
    decreases s.len(),
{
    if s.len() > 0 {
        let p = s.drop_last();
        assert forall|k: int| 0 <= k < p.len() implies (#[trigger] p[k]).suite@ != su by {
            assert(p[k] == s[k]);
        }
        lemma_unlisted_none(p, arm, su);
        assert(s.last() == s[s.len() - 1]);
    }
}

/// The per-suite tallies of an arm add up to the arm's tally: over the suites the
/// report lists, the correct counts sum to the arm's correct count and the sample
/// counts to its sample count.
pub proof fn lemma_suites_add_up(s: Seq<Sample>, arm: Seq<char>)
    ensures
        suite_tally(s, arm, firsts(s, true)) == (
            correct_count(chosen(s, None, arm, None)),
            chosen(s, None, arm, None).len(),
        ),
    decreases s.len(),
{
    if s.len() > 0 {
        let p = s.drop_last();
        let x = s.last();
        assert(p.push(x) =~= s);
        lemma_suites_add_up(p, arm);
        lemma_chosen_push(p, x, None, arm, None);
        lemma_firsts_distinct(p, true);
        let f = firsts(p, true);
        lemma_tally_push(p, x, arm, f);
        if listed(f, x.suite@) {
            assert(firsts(s, true) == f);
        } else {
            let e = (x.suite@, x.domain@);
            assert(firsts(s, true) == f.push(e));
            assert(f.push(e).drop_last() =~= f);
            lemma_firsts_complete(p, true);
            assert forall|k: int| 0 <= k < p.len() implies (#[trigger] p[k]).suite@ != x.suite@ by {
                assert(listed(f, key_of(p[k], true)));
            }
            lemma_unlisted_none(p, arm, x.suite@);
            lemma_chosen_push(p, x, None, arm, Some(x.suite@));
            assert(suite_tally(s, arm, f.push(e)).0 == suite_tally(s, arm, f).0 + correct_count(
                chosen(s, None, arm, Some(x.suite@)),
            ));
        }
    }
}

/// Selection distributes over concatenation: selecting from `s1 + s2` selects from
/// `s1`, then from `s2`.
pub proof fn lemma_chosen_concat(
    s1: Seq<Sample>,
    s2: Seq<Sample>,
    id: Option<Seq<char>>,
    arm: Seq<char>,
    suite: Option<Seq<char>>,
)
    ensures
        chosen(s1 + s2, id, arm, suite) == chosen(s1, id, arm, suite) + chosen(s2, id, arm, suite),
    decreases s2.len(),
{
    if s2.len() == 0 {
        assert(s1 + s2 =~= s1);
        assert(chosen(s1, id, arm, suite) + chosen(s2, id, arm, suite) =~= chosen(s1, id, arm, suite));
    } else {
        let q = s2.drop_last();
        lemma_chosen_concat(s1, q, id, arm, suite);
        assert((s1 + s2).drop_last() =~= s1 + q);
        assert((s1 + s2).last() == s2.last());
        let a = chosen(s1, id, arm, suite);
        let b = chosen(q, id, arm, suite);
        if selected(s2.last(), id, arm, suite) {
            assert(a + b.push(s2.last()) =~= (a + b).push(s2.last()));
        }
    }
}

/// The outputs of arm `arm` over two concatenated sample lists are the outputs over
/// the first followed by those over the second; over no samples there are none, and
/// over one sample there is its output exactly when it is of that arm.
pub proof fn lemma_arm_out_concat(s1: Seq<Sample>, s2: Seq<Sample>, arm: Seq<char>, x: Sample)
    ensures
        outputs(chosen(s1 + s2, None, arm, None)) == outputs(chosen(s1, None, arm, None)) + outputs(
            chosen(s2, None, arm, None),
        ),
        outputs(chosen(Seq::<Sample>::empty(), None, arm, None)).len() == 0,
        outputs(chosen(seq![x], None, arm, None)) == if x.arm@ == arm {
            seq![x.output]
        } else {
            Seq::<i64>::empty()
        },
{
    lemma_chosen_concat(s1, s2, None, arm, None);
    let a = chosen(s1, None, arm, None);
    let b = chosen(s2, None, arm, None);
    assert(outputs(a + b) =~= outputs(a) + outputs(b));
    let one = seq![x];
    let none = Seq::<Sample>::empty();
    assert(one.drop_last() =~= none);
    assert(one.last() == x);
    assert(chosen(none, None, arm, None) =~= none);
    assert(outputs(none) =~= Seq::<i64>::empty());
    if x.arm@ == arm {
        assert(chosen(one, None, arm, None) == none.push(x));
        assert(outputs(chosen(one, None, arm, None)) =~= seq![x.output]);
    } else {
        assert(outputs(chosen(one, None, arm, None)) =~= Seq::<i64>::empty());
    }
}

/// The samples of `s` on suite `su`, in order.
pub open spec fn of_suite(s: Seq<Sample>, su: Seq<char>) -> Seq<Sample>
    decreases s.len(),
{
    if s.len() == 0 {
        seq![]
    } else if s.last().suite@ == su {
        of_suite(s.drop_last(), su).push(s.last())
    } else {
        of_suite(s.drop_last(), su)
    }
}

/// Selecting arm `arm` on suite `su` is selecting arm `arm` among the samples of suite
/// `su`.
pub proof fn lemma_suite_filter(s: Seq<Sample>, arm: Seq<char>, su: Seq<char>)
    ensures
        chosen(s, None, arm, Some(su)) == chosen(of_suite(s, su), None, arm, None),
    decreases s.len(),
{
    if s.len() > 0 {
        let p = s.drop_last();
        let x = s.last();
        lemma_suite_filter(p, arm, su);
        if x.suite@ == su {
            let f = of_suite(p, su);
            assert(f.push(x).drop_last() =~= f);
            assert(f.push(x).last() == x);
        }
    }
}

/// The thinking counts, or the outputs, of a selection.
pub open spec fn values(s: Seq<Sample>, thinking: bool) -> Seq<i64> {
    if thinking {
        thinkings(s)
    } else {
        outputs(s)
    }
}

/// The samples of arm `arm` with key `key` (a suite, or a task id).
pub open spec fn chosen_by(s: Seq<Sample>, arm: Seq<char>, key: Seq<char>, by_suite: bool) -> Seq<
    Sample,
> {
    if by_suite {
        chosen(s, None, arm, Some(key))
    } else {
        chosen(s, Some(key), arm, None)
    }
}

/// The values of arm `arm`, key by key over `keys`, one after another.
pub open spec fn gathered(
    s: Seq<Sample>,
    arm: Seq<char>,
    keys: Seq<(Seq<char>, Seq<char>)>,
    by_suite: bool,
    thinking: bool,
) -> Seq<i64>
    decreases keys.len(),
{
    if keys.len() == 0 {
        seq![]
    } else {
        gathered(s, arm, keys.drop_last(), by_suite, thinking) + values(
            chosen_by(s, arm, keys.last().0, by_suite),
            thinking,
        )
    }
}

/// The value of one sample.
pub open spec fn value_of(x: Sample, thinking: bool) -> i64 {
    if thinking {
        x.thinking
    } else {
        x.output
    }
}

proof fn lemma_values_push(c: Seq<Sample>, x: Sample, thinking: bool)
    ensures
        values(c.push(x), thinking) == values(c, thinking).push(value_of(x, thinking)),
{
    assert(values(c.push(x), thinking) =~= values(c, thinking).push(value_of(x, thinking)));
}

proof fn lemma_chosen_by_push(p: Seq<Sample>, x: Sample, arm: Seq<char>, key: Seq<char>, by_suite: bool, thinking: bool)
    ensures
        x.arm@ == arm && key_of(x, by_suite) == key ==> values(chosen_by(p.push(x), arm, key, by_suite), thinking)
            == values(chosen_by(p, arm, key, by_suite), thinking).push(value_of(x, thinking)),
        !(x.arm@ == arm && key_of(x, by_suite) == key) ==> chosen_by(p.push(x), arm, key, by_suite)
            == chosen_by(p, arm, key, by_suite),
{
    let s = p.push(x);
    assert(s.drop_last() =~= p);
    assert(s.last() == x);
    let c = chosen_by(p, arm, key, by_suite);
    if x.arm@ == arm && key_of(x, by_suite) == key {
        assert(chosen_by(s, arm, key, by_suite) == c.push(x));
        lemma_values_push(c, x, thinking);
    }
}

proof fn lemma_gathered_push(
    p: Seq<Sample>,
    x: Sample,
    arm: Seq<char>,
    keys: Seq<(Seq<char>, Seq<char>)>,
    by_suite: bool,
    thinking: bool,
)
    requires
        forall|i: int, j: int|
            0 <= i < j < keys.len() ==> (#[trigger] keys[i]).0 != (#[trigger] keys[j]).0,
    ensures
        gathered(p.push(x), arm, keys, by_suite, thinking).to_multiset() == if x.arm@ == arm
            && listed(keys, key_of(x, by_suite)) {
            gathered(p, arm, keys, by_suite, thinking).to_multiset().insert(value_of(x, thinking))
        } else {
            gathered(p, arm, keys, by_suite, thinking).to_multiset()
        },
    decreases keys.len(),
{
    broadcast use vstd::seq_lib::group_to_multiset_ensures;

    if keys.len() > 0 {
        let q = keys.drop_last();
        assert forall|i: int, j: int| 0 <= i < j < q.len() implies (#[trigger] q[i]).0 != (
        #[trigger] q[j]).0 by {
            assert(q[i] == keys[i] && q[j] == keys[j]);
        }
        lemma_gathered_push(p, x, arm, q, by_suite, thinking);
        let key = keys.last().0;
        let k = key_of(x, by_suite);
        lemma_chosen_by_push(p, x, arm, key, by_suite, thinking);
        let gs = gathered(p.push(x), arm, q, by_suite, thinking);
        let gp = gathered(p, arm, q, by_suite, thinking);
        let vs = values(chosen_by(p.push(x), arm, key, by_suite), thinking);
        let vp = values(chosen_by(p, arm, key, by_suite), thinking);
        vstd::seq_lib::lemma_multiset_commutative(gs, vs);
        vstd::seq_lib::lemma_multiset_commutative(gp, vp);
        let in_q = listed(q, k);
        let in_keys = listed(keys, k);
        if in_q {
            let w = choose|w: int| 0 <= w < q.len() && (#[trigger] q[w]).0 == k;
            assert(keys[w] == q[w]);
            assert(in_keys);
            assert(key != k);
        } else if key == k {
            assert(keys[keys.len() - 1].0 == k);
            assert(in_keys);
        } else {
            assert(!in_keys) by {
                if in_keys {
                    let w = choose|w: int| 0 <= w < keys.len() && (#[trigger] keys[w]).0 == k;
                    assert(q[w] == keys[w]);
                }
            }
        }
        if x.arm@ == arm && key == k {
            assert(vs.to_multiset() =~= vp.to_multiset().insert(value_of(x, thinking)));
        }
        assert(gathered(p.push(x), arm, keys, by_suite, thinking) == gs + vs);
        assert(gathered(p, arm, keys, by_suite, thinking) == gp + vp);
    }
}

proof fn lemma_unkeyed_none(s: Seq<Sample>, arm: Seq<char>, key: Seq<char>, by_suite: bool)
    requires
        forall|k: int| 0 <= k < s.len() ==> key_of(#[trigger] s[k], by_suite) != key,
    ensures
        chosen_by(s, arm, key, by_suite).len() == 0,
    decreases s.len(),
{
    if s.len() > 0 {
        let p = s.drop_last();
        assert forall|k: int| 0 <= k < p.len() implies key_of(#[trigger] p[k], by_suite) != key by {
            assert(p[k] == s[k]);
        }
        lemma_unkeyed_none(p, arm, key, by_suite);
        assert(s.last() == s[s.len() - 1]);
    }
}

/// Listing an arm's values key by key (by task over `task_ids`, or by suite over
/// `suites_of`) rearranges the arm's values: the two hold the same values, each as
/// often. So the per-arm thinking list is a permutation of the per-task lists, and the
/// per-arm outputs one of the per-suite lists.
pub proof fn lemma_gathered_permutes(s: Seq<Sample>, arm: Seq<char>, by_suite: bool, thinking: bool)
    ensures
        gathered(s, arm, firsts(s, by_suite), by_suite, thinking).to_multiset() == values(
            chosen(s, None, arm, None),
            thinking,
        ).to_multiset(),
    decreases s.len(),
{
    broadcast use vstd::seq_lib::group_to_multiset_ensures;

    if s.len() == 0 {
        assert(gathered(s, arm, firsts(s, by_suite), by_suite, thinking) =~= Seq::<i64>::empty());
        assert(values(chosen(s, None, arm, None), thinking) =~= Seq::<i64>::empty());
    } else {
        let p = s.drop_last();
        let x = s.last();
        assert(p.push(x) =~= s);
        lemma_gathered_permutes(p, arm, by_suite, thinking);
        lemma_chosen_push(p, x, None, arm, None);
        let cp = chosen(p, None, arm, None);
        if x.arm@ == arm {
            assert(chosen(s, None, arm, None) == cp.push(x));
            lemma_values_push(cp, x, thinking);
        }
        lemma_firsts_distinct(p, by_suite);
        let f = firsts(p, by_suite);
        let k = key_of(x, by_suite);
        lemma_gathered_push(p, x, arm, f, by_suite, thinking);
        if !listed(f, k) {
            let e = (k, tag_of(x, by_suite));
            assert(firsts(s, by_suite) == f.push(e));
            assert(f.push(e).drop_last() =~= f);
            lemma_firsts_complete(p, by_suite);
            assert forall|m: int| 0 <= m < p.len() implies key_of(#[trigger] p[m], by_suite) != k by {
                assert(listed(f, key_of(p[m], by_suite)));
            }
            lemma_unkeyed_none(p, arm, k, by_suite);
            lemma_chosen_by_push(p, x, arm, k, by_suite, thinking);
            let g = gathered(s, arm, f, by_suite, thinking);
            let v = values(chosen_by(s, arm, k, by_suite), thinking);
            vstd::seq_lib::lemma_multiset_commutative(g, v);
            assert(gathered(s, arm, f.push(e), by_suite, thinking) == g + v);
            let vp = values(chosen_by(p, arm, k, by_suite), thinking);
            assert(vp.len() == 0);
            assert(vp =~= Seq::<i64>::empty());
            if x.arm@ == arm {
                assert(v =~= seq![value_of(x, thinking)]);
                assert(v == Seq::<i64>::empty().push(value_of(x, thinking)));
            } else {
                assert(v =~= Seq::<i64>::empty());
            }
        }
    }
}

/// Every selection of an arm has one thinking count and one output per sample.
pub proof fn lemma_value_lengths(s: Seq<Sample>, id: Option<Seq<char>>, arm: Seq<char>, suite: Option<Seq<char>>)
    ensures
        thinkings(chosen(s, id, arm, suite)).len() == outputs(chosen(s, id, arm, suite)).len(),
        outputs(chosen(s, id, arm, suite)).len() == chosen(s, id, arm, suite).len(),
{
}

/// The selection is the samples, in order, whose id is `id` (when given), whose arm is
/// `arm` and whose suite is `suite` (when given).
pub proof fn lemma_chosen_filter(
    s: Seq<Sample>,
    id: Option<Seq<char>>,
    arm: Seq<char>,
    suite: Option<Seq<char>>,
)
    ensures
        chosen(s, id, arm, suite) == s.filter(
            |x: Sample|
                (id is None || x.id@ == id->0) && x.arm@ == arm && (suite is None || x.suite@
                    == suite->0),
        ),
    decreases s.len(),
{
    reveal(Seq::filter);
    if s.len() > 0 {
        lemma_chosen_filter(s.drop_last(), id, arm, suite);
    }
}

/// The correct count is the number of samples graded correct.
pub proof fn lemma_correct_count_filter(s: Seq<Sample>)
    ensures
        correct_count(s) == s.filter(|x: Sample| x.correct).len(),
    decreases s.len(),
{
    reveal(Seq::filter);
    if s.len() > 0 {
        lemma_correct_count_filter(s.drop_last());
    }
}

/// The listed outputs and thinking counts are those of the samples, in order.
pub proof fn lemma_sample_values(s: Seq<Sample>)
    ensures
        outputs(s).len() == s.len(),
        thinkings(s).len() == s.len(),
        forall|i: int| 0 <= i < s.len() ==> #[trigger] outputs(s)[i] == s[i].output,
        forall|i: int| 0 <= i < s.len() ==> #[trigger] thinkings(s)[i] == s[i].thinking,
{
}

} // verus!
