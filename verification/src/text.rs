use vstd::prelude::*;

verus! {

/// `c` has the Unicode `White_Space` property (what `char::is_whitespace` tests).
pub open spec fn is_ws(c: char) -> bool {
    let u = c as u32;
    ||| 0x09 <= u <= 0x0D
    ||| u == 0x20
    ||| u == 0x85
    ||| u == 0xA0
    ||| u == 0x1680
    ||| 0x2000 <= u <= 0x200A
    ||| u == 0x2028
    ||| u == 0x2029
    ||| u == 0x202F
    ||| u == 0x205F
    ||| u == 0x3000
}

/// `char::is_whitespace`, decided over the Unicode `White_Space` code points.
pub fn char_is_ws(c: char) -> (b: bool)
    ensures
        b == is_ws(c),
{
    let u = c as u32;
    (0x09 <= u && u <= 0x0D) || u == 0x20 || u == 0x85 || u == 0xA0 || u == 0x1680 || (0x2000
        <= u && u <= 0x200A) || u == 0x2028 || u == 0x2029 || u == 0x202F || u == 0x205F || u
        == 0x3000
}

pub open spec fn is_digit(c: char) -> bool {
    '0' <= c <= '9'
}

/// A set of characters that text is trimmed by.
#[derive(Clone, Copy)]
pub enum CharSet {
    /// Unicode white space.
    Space,
    /// One given character.
    One(char),
    /// `.`, `(` and `)`.
    Edge,
    /// Carriage return and line feed.
    LineEnd,
}

impl CharSet {
    pub open spec fn has(self, c: char) -> bool {
        match self {
            CharSet::Space => is_ws(c),
            CharSet::One(x) => c == x,
            CharSet::Edge => c == '.' || c == '(' || c == ')',
            CharSet::LineEnd => c == '\r' || c == '\n',
        }
    }

    pub fn holds(&self, c: char) -> (b: bool)
        ensures
            b == self.has(c),
    {
        match self {
            CharSet::Space => char_is_ws(c),
            CharSet::One(x) => c == *x,
            CharSet::Edge => c == '.' || c == '(' || c == ')',
            CharSet::LineEnd => c == '\r' || c == '\n',
        }
    }
}

/// Number of leading characters of `s` that lie in `k`.
pub open spec fn front_run(s: Seq<char>, k: CharSet) -> nat
    decreases s.len(),
{
    if s.len() > 0 && k.has(s[0]) {
        1 + front_run(s.drop_first(), k)
    } else {
        0
    }
}

/// Number of trailing characters of `s` that lie in `k`.
pub open spec fn back_run(s: Seq<char>, k: CharSet) -> nat
    decreases s.len(),
{
    if s.len() > 0 && k.has(s.last()) {
        1 + back_run(s.drop_last(), k)
    } else {
        0
    }
}

/// `s` without its leading characters in `k`.
pub open spec fn strip_front(s: Seq<char>, k: CharSet) -> Seq<char> {
    s.skip(front_run(s, k) as int)
}

/// `s` without its trailing characters in `k`.
pub open spec fn strip_back(s: Seq<char>, k: CharSet) -> Seq<char> {
    s.take(s.len() - back_run(s, k))
}

/// `s` without its leading and trailing characters in `k`.
pub open spec fn strip_both(s: Seq<char>, k: CharSet) -> Seq<char> {
    strip_back(strip_front(s, k), k)
}

pub proof fn lemma_front_run_bound(s: Seq<char>, k: CharSet)
    ensures
        front_run(s, k) <= s.len(),
    decreases s.len(),
{
    if s.len() > 0 && k.has(s[0]) {
        lemma_front_run_bound(s.drop_first(), k);
    }
}

pub proof fn lemma_back_run_bound(s: Seq<char>, k: CharSet)
    ensures
        back_run(s, k) <= s.len(),
    decreases s.len(),
{
    if s.len() > 0 && k.has(s.last()) {
        lemma_back_run_bound(s.drop_last(), k);
    }
}

/// The length of the leading run of characters in `k`.
pub fn front_count(s: &[char], k: CharSet) -> (n: usize)
    ensures
        n == front_run(s@, k),
{
    let mut i: usize = 0;
    assert(s@.skip(0) =~= s@);
    while i < s.len() && k.holds(s[i])
        invariant
            i <= s.len(),
            front_run(s@, k) == i + front_run(s@.skip(i as int), k),
        decreases s.len() - i,
    {
        assert(s@.skip(i as int).drop_first() =~= s@.skip(i + 1));
        i = i + 1;
    }
    i
}

/// The length of the trailing run of characters in `k`.
pub fn back_count(s: &[char], k: CharSet) -> (n: usize)
    ensures
        n == back_run(s@, k),
{
    let mut j: usize = s.len();
    assert(s@.take(j as int) =~= s@);
    while j > 0 && k.holds(s[j - 1])
        invariant
            j <= s.len(),
            back_run(s@, k) == (s.len() - j) + back_run(s@.take(j as int), k),
        decreases j,
    {
        assert(s@.take(j as int).drop_last() =~= s@.take(j - 1));
        j = j - 1;
    }
    j = s.len() - j;
    j
}

/// A copy of `s[a..b]`.
pub fn copy_range(s: &[char], a: usize, b: usize) -> (r: Vec<char>)
    requires
        a <= b <= s.len(),
    ensures
        r@ == s@.subrange(a as int, b as int),
{
    let mut r: Vec<char> = Vec::new();
    let mut i: usize = a;
    while i < b
        invariant
            a <= i <= b <= s.len(),
            r@ == s@.subrange(a as int, i as int),
        decreases b - i,
    {
        r.push(s[i]);
        i = i + 1;
    }
    r
}

/// `s` without its leading characters in `k`.
pub fn trim_front(s: &[char], k: CharSet) -> (r: Vec<char>)
    ensures
        r@ == strip_front(s@, k),
{
    let n = front_count(s, k);
    proof {
        lemma_front_run_bound(s@, k);
    }
    let r = copy_range(s, n, s.len());
    assert(r@ =~= strip_front(s@, k));
    r
}

/// `s` without its trailing characters in `k`.
pub fn trim_back(s: &[char], k: CharSet) -> (r: Vec<char>)
    ensures
        r@ == strip_back(s@, k),
{
    let n = back_count(s, k);
    proof {
        lemma_back_run_bound(s@, k);
    }
    let r = copy_range(s, 0, s.len() - n);
    assert(r@ =~= strip_back(s@, k));
    r
}

/// `s` without its leading and trailing characters in `k`.
pub fn trim_both(s: &[char], k: CharSet) -> (r: Vec<char>)
    ensures
        r@ == strip_both(s@, k),
{
    let f = trim_front(s, k);
    trim_back(f.as_slice(), k)
}

/// `s` with every occurrence of `c` taken out.
pub open spec fn without(s: Seq<char>, c: char) -> Seq<char>
    decreases s.len(),
{
    if s.len() == 0 {
        s
    } else if s.last() == c {
        without(s.drop_last(), c)
    } else {
        without(s.drop_last(), c).push(s.last())
    }
}

/// `s` with every `c` taken out.
pub fn remove_char(s: &[char], c: char) -> (r: Vec<char>)
    ensures
        r@ == without(s@, c),
{
    let mut r: Vec<char> = Vec::new();
    let mut i: usize = 0;
    while i < s.len()
        invariant
            i <= s.len(),
            r@ == without(s@.take(i as int), c),
        decreases s.len() - i,
    {
        assert(s@.take(i + 1).drop_last() =~= s@.take(i as int));
        if s[i] != c {
            r.push(s[i]);
        }
        i = i + 1;
    }
    assert(s@.take(s.len() as int) =~= s@);
    r
}

/// `p` occurs in `s` at position `i`.
pub open spec fn occurs_at(s: Seq<char>, p: Seq<char>, i: int) -> bool {
    0 <= i && i + p.len() <= s.len() && s.subrange(i, i + p.len()) == p
}

/// `p` occurs somewhere in `s` (what `str::contains` tests).
pub open spec fn has_part(s: Seq<char>, p: Seq<char>) -> bool {
    exists|i: int| occurs_at(s, p, i)
}

/// Whether `p` occurs in `s` at position `i`.
pub fn matches_at(s: &[char], p: &[char], i: usize) -> (b: bool)
    ensures
        b == occurs_at(s@, p@, i as int),
{
    if i > s.len() || p.len() > s.len() - i {
        return false;
    }
    let mut j: usize = 0;
    while j < p.len()
        invariant
            i + p.len() <= s.len(),
            j <= p.len(),
            forall|m: int| 0 <= m < j ==> s@[i + m] == p@[m],
        decreases p.len() - j,
    {
        if s[i + j] != p[j] {
            assert(s@.subrange(i as int, i + p.len())[j as int] != p@[j as int]);
            return false;
        }
        j = j + 1;
    }
    assert(s@.subrange(i as int, i + p.len()) =~= p@);
    true
}

/// Whether `p` occurs in `s`.
pub fn contains_part(s: &[char], p: &[char]) -> (b: bool)
    ensures
        b == has_part(s@, p@),
{
    if p.len() > s.len() {
        return false;
    }
    let last = s.len() - p.len();
    let mut i: usize = 0;
    while i < last
        invariant
            last == s.len() - p.len(),
            i <= last,
            forall|m: int| 0 <= m < i ==> !occurs_at(s@, p@, m),
        decreases last - i,
    {
        if matches_at(s, p, i) {
            return true;
        }
        i = i + 1;
    }
    if matches_at(s, p, last) {
        return true;
    }
    assert forall|m: int| !occurs_at(s@, p@, m) by {
        if 0 <= m && m < i {
        }
    }
    false
}

/// `s` with every non-overlapping occurrence of `p`, taken from the left, replaced
/// by `r` (what `str::replace` computes for a non-empty `p`).
pub open spec fn replaced(s: Seq<char>, p: Seq<char>, r: Seq<char>) -> Seq<char>
    decreases s.len(),
{
    if s.len() == 0 {
        s
    } else if p.len() > 0 && occurs_at(s, p, 0) {
        r + replaced(s.skip(p.len() as int), p, r)
    } else {
        seq![s[0]] + replaced(s.drop_first(), p, r)
    }
}

/// `s` with every occurrence of `p` replaced by `r`, as `str::replace` does.
pub fn replace_all(s: &[char], p: &[char], r: &[char]) -> (out: Vec<char>)
    requires
        p.len() > 0,
    ensures
        out@ == replaced(s@, p@, r@),
{
    let mut out: Vec<char> = Vec::new();
    let mut i: usize = 0;
    assert(s@.skip(0) =~= s@);
    while i < s.len()
        invariant
            p.len() > 0,
            i <= s.len(),
            replaced(s@, p@, r@) == out@ + replaced(s@.skip(i as int), p@, r@),
        decreases s.len() - i,
    {
        let ghost rest = s@.skip(i as int);
        if matches_at(s, p, i) {
            assert(rest.subrange(0, p@.len() as int) =~= s@.subrange(i as int, i + p@.len()));
            assert(rest.skip(p@.len() as int) =~= s@.skip(i + p@.len()));
            let ghost before = out@;
            let mut k: usize = 0;
            while k < r.len()
                invariant
                    k <= r.len(),
                    out@ == before + r@.take(k as int),
                decreases r.len() - k,
            {
                out.push(r[k]);
                k = k + 1;
                assert(out@ =~= before + r@.take(k as int));
            }
            assert(r@.take(r.len() as int) =~= r@);
            assert(out@ + replaced(s@.skip(i + p@.len()), p@, r@) =~= before + (r@ + replaced(
                rest.skip(p@.len() as int),
                p@,
                r@,
            )));
            i = i + p.len();
        } else {
            assert(!occurs_at(rest, p@, 0)) by {
                if occurs_at(rest, p@, 0) {
                    assert(rest.subrange(0, p@.len() as int) =~= s@.subrange(
                        i as int,
                        i + p@.len(),
                    ));
                }
            }
            assert(rest.drop_first() =~= s@.skip(i + 1));
            let ghost before = out@;
            out.push(s[i]);
            assert(out@ + replaced(s@.skip(i + 1), p@, r@) =~= before + (seq![rest[0]]
                + replaced(rest.drop_first(), p@, r@)));
            i = i + 1;
        }
    }
    assert(s@.skip(i as int) =~= Seq::<char>::empty());
    assert(out@ + Seq::<char>::empty() =~= out@);
    out
}

/// `s` begins with `p`.
pub open spec fn begins_with(s: Seq<char>, p: Seq<char>) -> bool {
    occurs_at(s, p, 0)
}

/// Position of the first line feed in `s`, or its length when there is none.
pub open spec fn newline_at(s: Seq<char>) -> nat
    decreases s.len(),
{
    if s.len() == 0 || s[0] == '\n' {
        0
    } else {
        1 + newline_at(s.drop_first())
    }
}

pub proof fn lemma_newline_at(s: Seq<char>, t: int)
    requires
        0 <= t <= s.len(),
        forall|m: int| 0 <= m < t ==> s[m] != '\n',
        t == s.len() || s[t] == '\n',
    ensures
        newline_at(s) == t,
    decreases s.len(),
{
    if s.len() > 0 && s[0] != '\n' {
        assert(t > 0);
        lemma_newline_at(s.drop_first(), t - 1);
    }
}

/// A line without the carriage return that ended it.
pub open spec fn drop_cr(l: Seq<char>) -> Seq<char> {
    if l.len() > 0 && l.last() == '\r' {
        l.drop_last()
    } else {
        l
    }
}

/// The lines of `s`, as `str::lines` yields them: split at each line feed, a carriage
/// return just before a line feed dropped, and no empty line after a final line feed.
pub open spec fn lines_of(s: Seq<char>) -> Seq<Seq<char>>
    decreases s.len(),
{
    if s.len() == 0 {
        seq![]
    } else {
        let k = newline_at(s);
        if k >= s.len() {
            seq![s]
        } else {
            seq![drop_cr(s.take(k as int))] + lines_of(s.skip(k + 1 as int))
        }
    }
}

/// The contents of a sequence of character vectors.
pub open spec fn texts(v: Seq<Vec<char>>) -> Seq<Seq<char>> {
    v.map_values(|x: Vec<char>| x@)
}

/// The lines of `s`, as `str::lines` yields them.
pub fn split_lines(s: &[char]) -> (out: Vec<Vec<char>>)
    ensures
        texts(out@) == lines_of(s@),
{
    let mut out: Vec<Vec<char>> = Vec::new();
    let mut start: usize = 0;
    let mut j: usize = 0;
    assert(s@.skip(0) =~= s@);
    assert(texts(out@) =~= Seq::<Seq<char>>::empty());
    while j < s.len()
        invariant
            start <= j <= s.len(),
            forall|m: int| start <= m < j ==> s@[m] != '\n',
            lines_of(s@) == texts(out@) + lines_of(s@.skip(start as int)),
        decreases s.len() - j,
    {
        if s[j] == '\n' {
            let ghost rest = s@.skip(start as int);
            proof {
                lemma_newline_at(rest, j - start);
                assert(rest.take(j - start) =~= s@.subrange(start as int, j as int));
                assert(rest.skip(j - start + 1) =~= s@.skip(j + 1));
            }
            let mut end = j;
            if end > start && s[end - 1] == '\r' {
                end = end - 1;
            }
            let line = copy_range(s, start, end);
            assert(line@ =~= drop_cr(rest.take(j - start)));
            let ghost before = out@;
            out.push(line);
            assert(texts(out@) =~= texts(before).push(line@));
            assert(texts(out@) + lines_of(s@.skip(j + 1)) =~= texts(before) + (seq![
                drop_cr(rest.take(j - start)),
            ] + lines_of(rest.skip(j - start + 1))));
            start = j + 1;
        }
        j = j + 1;
    }
    if start < s.len() {
        let ghost rest = s@.skip(start as int);
        proof {
            lemma_newline_at(rest, s.len() - start);
        }
        let line = copy_range(s, start, s.len());
        assert(line@ =~= rest);
        let ghost before = out@;
        out.push(line);
        assert(texts(out@) =~= texts(before).push(line@));
        assert(lines_of(rest) =~= seq![rest]);
        assert(texts(out@) =~= texts(before) + lines_of(rest));
    } else {
        assert(s@.skip(start as int) =~= Seq::<char>::empty());
        assert(texts(out@) + Seq::<Seq<char>>::empty() =~= texts(out@));
    }
    out
}

/// The pieces of `ls` with `sep` between each two neighbours.
pub open spec fn joined(ls: Seq<Seq<char>>, sep: Seq<char>) -> Seq<char>
    decreases ls.len(),
{
    if ls.len() == 0 {
        seq![]
    } else if ls.len() == 1 {
        ls[0]
    } else {
        joined(ls.drop_last(), sep) + sep + ls.last()
    }
}

/// Appends `t` to `out`.
pub fn extend(out: &mut Vec<char>, t: &[char])
    ensures
        final(out)@ == old(out)@ + t@,
{
    let ghost before = out@;
    let mut k: usize = 0;
    while k < t.len()
        invariant
            k <= t.len(),
            out@ == before + t@.take(k as int),
        decreases t.len() - k,
    {
        out.push(t[k]);
        k = k + 1;
        assert(out@ =~= before + t@.take(k as int));
    }
    assert(t@.take(t.len() as int) =~= t@);
}

/// The pieces of `ls` with `sep` between neighbours.
pub fn join(ls: &Vec<Vec<char>>, sep: &[char]) -> (out: Vec<char>)
    ensures
        out@ == joined(texts(ls@), sep@),
{
    let mut out: Vec<char> = Vec::new();
    let mut i: usize = 0;
    while i < ls.len()
        invariant
            i <= ls.len(),
            out@ == joined(texts(ls@).take(i as int), sep@),
        decreases ls.len() - i,
    {
        assert(texts(ls@).take(i + 1).drop_last() =~= texts(ls@).take(i as int));
        if i > 0 {
            extend(&mut out, sep);
        }
        extend(&mut out, ls[i].as_slice());
        i = i + 1;
    }
    assert(texts(ls@).take(ls.len() as int) =~= texts(ls@));
    out
}

/// `String::push`: appends one character to the string.
#[verifier::external_body]
fn push_char(s: &mut String, c: char)
    ensures
        final(s)@ == old(s)@.push(c),
{
    s.push(c);
}

/// The string made of the characters of `v`.
pub fn to_text(v: &[char]) -> (s: String)
    ensures
        s@ == v@,
{
    let mut s = String::new();
    let mut i: usize = 0;
    while i < v.len()
        invariant
            i <= v.len(),
            s@ == v@.take(i as int),
        decreases v.len() - i,
    {
        push_char(&mut s, v[i]);
        i = i + 1;
        assert(s@ =~= v@.take(i as int));
    }
    assert(v@.take(v.len() as int) =~= v@);
    s
}

/// Whether two character sequences are equal.
pub fn same_chars(a: &[char], b: &[char]) -> (r: bool)
    ensures
        r == (a@ == b@),
{
    if a.len() != b.len() {
        return false;
    }
    let mut i: usize = 0;
    while i < a.len()
        invariant
            a.len() == b.len(),
            i <= a.len(),
            forall|m: int| 0 <= m < i ==> a@[m] == b@[m],
        decreases a.len() - i,
    {
        if a[i] != b[i] {
            return false;
        }
        i = i + 1;
    }
    assert(a@ =~= b@);
    true
}

/// The characters of `s`, in order.
pub fn chars_of(s: &str) -> (r: Vec<char>)
    ensures
        r@ == s@,
{
    let mut r: Vec<char> = Vec::new();
    for c in it: s.chars()
        invariant
            r@ == it.seq().take(it.index() as int),
            it.seq() == s@,
    {
        r.push(c);
    }
    r
}

/// Whether two strings hold the same characters.
pub fn text_eq(a: &str, b: &str) -> (r: bool)
    ensures
        r == (a@ == b@),
{
    let x = chars_of(a);
    let y = chars_of(b);
    same_chars(x.as_slice(), y.as_slice())
}

/// The decimal digit for `d`.
pub open spec fn digit(d: int) -> char {
    if d <= 0 {
        '0'
    } else if d == 1 {
        '1'
    } else if d == 2 {
        '2'
    } else if d == 3 {
        '3'
    } else if d == 4 {
        '4'
    } else if d == 5 {
        '5'
    } else if d == 6 {
        '6'
    } else if d == 7 {
        '7'
    } else if d == 8 {
        '8'
    } else {
        '9'
    }
}

/// The decimal numeral of `n`, without leading zeros.
pub open spec fn decimal(n: nat) -> Seq<char>
    decreases n,
{
    if n < 10 {
        seq![digit(n as int)]
    } else {
        decimal(n / 10).push(digit((n % 10) as int))
    }
}

/// The decimal numeral of `i`, with a leading `-` when it is negative.
pub open spec fn signed_decimal(i: int) -> Seq<char> {
    if i < 0 {
        seq!['-'] + decimal((-i) as nat)
    } else {
        decimal(i as nat)
    }
}

fn digit_char(d: u128) -> (c: char)
    requires
        d < 10,
    ensures
        c == digit(d as int),
{
    if d == 0 {
        '0'
    } else if d == 1 {
        '1'
    } else if d == 2 {
        '2'
    } else if d == 3 {
        '3'
    } else if d == 4 {
        '4'
    } else if d == 5 {
        '5'
    } else if d == 6 {
        '6'
    } else if d == 7 {
        '7'
    } else if d == 8 {
        '8'
    } else {
        '9'
    }
}

/// Appends the decimal numeral of `n`.
pub fn push_decimal(out: &mut Vec<char>, n: u128)
    ensures
        final(out)@ == old(out)@ + decimal(n as nat),
    decreases n,
{
    if n >= 10 {
        push_decimal(out, n / 10);
    }
    out.push(digit_char(n % 10));
    assert(out@ =~= old(out)@ + decimal(n as nat));
}

/// Appends the decimal numeral of `i`, with a `-` when it is negative.
pub fn push_signed(out: &mut Vec<char>, i: i64)
    ensures
        final(out)@ == old(out)@ + signed_decimal(i as int),
{
    if i < 0 {
        out.push('-');
        let m = (0i128 - (i as i128)) as u128;
        push_decimal(out, m);
        assert(out@ =~= old(out)@ + signed_decimal(i as int));
    } else {
        push_decimal(out, i as u128);
    }
}

/// The first position at which `p` occurs in `s`.
pub open spec fn first_occurrence(s: Seq<char>, p: Seq<char>) -> Option<nat>
    decreases s.len(),
{
    if occurs_at(s, p, 0) {
        Some(0)
    } else if s.len() == 0 {
        None
    } else {
        match first_occurrence(s.drop_first(), p) {
            Some(k) => Some(k + 1),
            None => None,
        }
    }
}

pub proof fn lemma_occurs_skip(s: Seq<char>, p: Seq<char>, i: int, m: int)
    requires
        0 <= i <= s.len(),
        0 <= m,
    ensures
        occurs_at(s.skip(i), p, m) == occurs_at(s, p, i + m),
{
    if occurs_at(s.skip(i), p, m) {
        assert(s.subrange(i + m, i + m + p.len()) =~= s.skip(i).subrange(m, m + p.len()));
    }
    if occurs_at(s, p, i + m) {
        assert(s.subrange(i + m, i + m + p.len()) =~= s.skip(i).subrange(m, m + p.len()));
    }
}

/// The first position at which `p` occurs in `s`.
pub fn find_first(s: &[char], p: &[char]) -> (r: Option<usize>)
    ensures
        match r {
            Some(k) => first_occurrence(s@, p@) == Some(k as nat),
            None => first_occurrence(s@, p@) is None,
        },
{
    let mut i: usize = 0;
    assert(s@.skip(0) =~= s@);
    while i <= s.len()
        invariant
            i <= s.len() + 1,
            i <= s.len() ==> first_occurrence(s@, p@) == match first_occurrence(
                s@.skip(i as int),
                p@,
            ) {
                Some(k) => Some((k + i) as nat),
                None => None,
            },
            i > s.len() ==> first_occurrence(s@, p@) is None,
        decreases s.len() + 1 - i,
    {
        proof {
            lemma_occurs_skip(s@, p@, i as int, 0);
        }
        if matches_at(s, p, i) {
            return Some(i);
        }
        if i == s.len() {
            assert(first_occurrence(s@.skip(i as int), p@) is None);
            return None;
        }
        assert(s@.skip(i as int).drop_first() =~= s@.skip(i + 1));
        i = i + 1;
    }
    None
}

/// `l` holds no line feed.
pub open spec fn nl_free(l: Seq<char>) -> bool {
    forall|i: int| 0 <= i < l.len() ==> l[i] != '\n'
}

/// `l` does not end in white space.
pub open spec fn tidy(l: Seq<char>) -> bool {
    l.len() == 0 || !is_ws(l.last())
}

/// `ls` without its trailing empty pieces.
pub open spec fn trim_tail(ls: Seq<Seq<char>>) -> Seq<Seq<char>>
    decreases ls.len(),
{
    if ls.len() > 0 && ls.last().len() == 0 {
        trim_tail(ls.drop_last())
    } else {
        ls
    }
}

pub proof fn lemma_newline_free_prefix(s: Seq<char>)
    ensures
        newline_at(s) <= s.len(),
        forall|m: int| 0 <= m < newline_at(s) ==> s[m] != '\n',
        newline_at(s) < s.len() ==> s[newline_at(s) as int] == '\n',
    decreases s.len(),
{
    if s.len() > 0 && s[0] != '\n' {
        lemma_newline_free_prefix(s.drop_first());
        assert forall|m: int| 0 <= m < newline_at(s) implies s[m] != '\n' by {
            if m > 0 {
                assert(s[m] == s.drop_first()[m - 1]);
            }
        }
    }
}

/// The lines of any text hold no line feed.
pub proof fn lemma_lines_nl_free(s: Seq<char>)
    ensures
        forall|i: int| 0 <= i < lines_of(s).len() ==> nl_free(#[trigger] lines_of(s)[i]),
    decreases s.len(),
{
    if s.len() > 0 {
        lemma_newline_free_prefix(s);
        let k = newline_at(s);
        if k < s.len() {
            lemma_lines_nl_free(s.skip(k + 1 as int));
            let head = drop_cr(s.take(k as int));
            assert(nl_free(head));
            let rest = lines_of(s.skip(k + 1 as int));
            assert forall|i: int| 0 <= i < lines_of(s).len() implies nl_free(#[trigger] lines_of(s)[i]) by {
                if i > 0 {
                    assert(lines_of(s)[i] == rest[i - 1]);
                }
            }
        }
    }
}

/// Trimming the end keeps a prefix and leaves no trailing white space.
pub proof fn lemma_strip_back_tidy(l: Seq<char>)
    ensures
        tidy(strip_back(l, CharSet::Space)),
        strip_back(l, CharSet::Space).len() <= l.len(),
        forall|i: int| 0 <= i < strip_back(l, CharSet::Space).len() ==> strip_back(l, CharSet::Space)[i] == l[i],
        tidy(l) ==> strip_back(l, CharSet::Space) == l,
    decreases l.len(),
{
    lemma_back_run_bound(l, CharSet::Space);
    if l.len() > 0 && is_ws(l.last()) {
        let p = l.drop_last();
        lemma_strip_back_tidy(p);
        lemma_back_run_bound(p, CharSet::Space);
        assert(strip_back(l, CharSet::Space) =~= strip_back(p, CharSet::Space));
    } else {
        assert(strip_back(l, CharSet::Space) =~= l);
    }
}

/// A white-space character at the end is trimmed with the rest.
pub proof fn lemma_strip_back_push_ws(a: Seq<char>, c: char)
    requires
        is_ws(c),
    ensures
        strip_back(a.push(c), CharSet::Space) == strip_back(a, CharSet::Space),
{
    let b = a.push(c);
    assert(b.drop_last() =~= a);
    lemma_back_run_bound(a, CharSet::Space);
    assert(strip_back(b, CharSet::Space) =~= strip_back(a, CharSet::Space));
}

/// Joining tidy pieces and trimming the end drops exactly the trailing empty pieces.
pub proof fn lemma_strip_joined(ls: Seq<Seq<char>>)
    requires
        forall|i: int| 0 <= i < ls.len() ==> tidy(#[trigger] ls[i]),
    ensures
        strip_back(joined(ls, seq!['\n']), CharSet::Space) == joined(trim_tail(ls), seq!['\n']),
    decreases ls.len(),
{
    let nl = seq!['\n'];
    if ls.len() == 0 {
        assert(strip_back(joined(ls, nl), CharSet::Space) =~= Seq::<char>::empty());
    } else if ls.last().len() == 0 {
        let p = ls.drop_last();
        assert forall|i: int| 0 <= i < p.len() implies tidy(#[trigger] p[i]) by {
            assert(p[i] == ls[i]);
        }
        lemma_strip_joined(p);
        if ls.len() == 1 {
            assert(joined(ls, nl) == ls[0]);
            assert(ls[0] =~= Seq::<char>::empty());
            assert(strip_back(Seq::<char>::empty(), CharSet::Space) =~= Seq::<char>::empty());
            assert(joined(p, nl) =~= Seq::<char>::empty());
        } else {
            let j = joined(p, nl);
            assert(joined(ls, nl) =~= j.push('\n'));
            lemma_strip_back_push_ws(j, '\n');
        }
    } else {
        assert(tidy(ls[ls.len() - 1]));
        let j = joined(ls, nl);
        if ls.len() == 1 {
            assert(j == ls[0]);
        } else {
            assert(j.last() == ls.last().last());
        }
        assert(!is_ws(j.last()));
        assert(strip_back(j, CharSet::Space) =~= j);
    }
}

proof fn lemma_joined_front(ls: Seq<Seq<char>>, sep: Seq<char>)
    requires
        ls.len() >= 2,
    ensures
        joined(ls, sep) == ls[0] + sep + joined(ls.drop_first(), sep),
    decreases ls.len(),
{
    if ls.len() == 2 {
        assert(ls.drop_last() =~= seq![ls[0]]);
        assert(ls.drop_first() =~= seq![ls[1]]);
        assert(joined(seq![ls[0]], sep) == ls[0]);
        assert(joined(seq![ls[1]], sep) == ls[1]);
        assert(joined(ls, sep) == joined(ls.drop_last(), sep) + sep + ls.last());
    } else {
        let a = ls.drop_last();
        let b = ls.drop_first();
        lemma_joined_front(a, sep);
        assert(a.drop_first() =~= b.drop_last());
        assert(b.last() == ls.last());
        assert(a[0] == ls[0]);
        assert(joined(ls, sep) == joined(a, sep) + sep + ls.last());
        assert(joined(b, sep) == joined(b.drop_last(), sep) + sep + b.last());
        assert(joined(ls, sep) =~= ls[0] + sep + joined(b, sep));
    }
}

/// Splitting a join of tidy, line-feed-free pieces, the last of them not empty, gives
/// the pieces back.
pub proof fn lemma_lines_of_joined(ls: Seq<Seq<char>>)
    requires
        forall|i: int| 0 <= i < ls.len() ==> tidy(#[trigger] ls[i]) && nl_free(ls[i]),
        ls.len() == 0 || ls.last().len() > 0,
    ensures
        lines_of(joined(ls, seq!['\n'])) == ls,
    decreases ls.len(),
{
    let nl = seq!['\n'];
    if ls.len() == 0 {
        assert(lines_of(joined(ls, nl)) =~= ls);
    } else if ls.len() == 1 {
        let u = ls[0];
        assert(joined(ls, nl) == u);
        assert(nl_free(u));
        lemma_newline_at(u, u.len() as int);
        assert(lines_of(u) =~= seq![u]);
        assert(ls =~= seq![u]);
    } else {
        let u = ls[0];
        let rest = ls.drop_first();
        assert forall|i: int| 0 <= i < rest.len() implies tidy(#[trigger] rest[i]) && nl_free(rest[i]) by {
            assert(rest[i] == ls[i + 1]);
        }
        assert(rest.last() == ls.last());
        lemma_lines_of_joined(rest);
        lemma_joined_front(ls, nl);
        let r = joined(rest, nl);
        let j = u + nl + r;
        assert(tidy(ls[0]) && nl_free(ls[0]));
        assert forall|m: int| 0 <= m < u.len() implies j[m] != '\n' by {
            assert(j[m] == u[m]);
        }
        assert(j[u.len() as int] == '\n');
        lemma_newline_at(j, u.len() as int);
        assert(j.take(u.len() as int) =~= u);
        assert(j.skip(u.len() + 1int) =~= r);
        if u.len() > 0 {
            assert(!is_ws(u.last()));
        }
        assert(drop_cr(u) == u);
        assert(lines_of(j) == seq![u] + lines_of(r));
        assert(seq![u] + rest =~= ls);
    }
}

/// Dropping trailing empty pieces keeps a prefix whose last piece, if any, is not empty.
pub proof fn lemma_trim_tail(ls: Seq<Seq<char>>)
    ensures
        trim_tail(ls).len() <= ls.len(),
        forall|i: int| 0 <= i < trim_tail(ls).len() ==> trim_tail(ls)[i] == ls[i],
        trim_tail(ls).len() == 0 || trim_tail(ls).last().len() > 0,
    decreases ls.len(),
{
    if ls.len() > 0 && ls.last().len() == 0 {
        let p = ls.drop_last();
        lemma_trim_tail(p);
        assert forall|i: int| 0 <= i < trim_tail(ls).len() implies trim_tail(ls)[i] == ls[i] by {
            assert(p[i] == ls[i]);
        }
    }
}

} // verus!
