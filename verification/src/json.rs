use vstd::prelude::*;

use serde_json::Value;

use crate::text::{chars_of, to_text, decimal, extend, joined, push_decimal, push_signed, same_chars, signed_decimal};

verus! {

/// `serde_json`'s document type; the library only carries it between `serde_json` and
/// the conversions below.
#[verifier::external_type_specification]
#[verifier::external_body]
pub struct ExJsonValue(serde_json::Value);

/// A JSON number as `serde_json` holds it.
pub enum JsonNumber {
    /// A non-negative integer.
    PosInt(u64),
    /// A negative integer.
    NegInt(i64),
    /// Any other number, by the text that `serde_json` writes for it.
    Float(String),
}

/// A JSON value: what the library reads of a parsed JSON document.
pub enum Json {
    Null,
    Bool(bool),
    Number(JsonNumber),
    Str(String),
    Array(Vec<Json>),
    /// The members of an object, in order.
    Object(Vec<(String, Json)>),
}

/// The value of the first member of `es` named `key`.
pub open spec fn find_member(es: Seq<(String, Json)>, key: Seq<char>) -> Option<Json>
    decreases es.len(),
{
    if es.len() == 0 {
        None
    } else if es[0].0@ == key {
        Some(es[0].1)
    } else {
        find_member(es.drop_first(), key)
    }
}

/// A member whose key no earlier member has is the one `find_member` finds under it.
pub proof fn lemma_find_member_at(es: Seq<(String, Json)>, k: int)
    requires
        0 <= k < es.len(),
        forall|i: int| 0 <= i < k ==> (#[trigger] es[i]).0@ != es[k].0@,
    ensures
        find_member(es, es[k].0@) == Some(es[k].1),
    decreases k,
{
    if k > 0 {
        let t = es.drop_first();
        assert(t[k - 1] == es[k]);
        assert forall|i: int| 0 <= i < k - 1 implies (#[trigger] t[i]).0@ != t[k - 1].0@ by {
            assert(t[i] == es[i + 1]);
        }
        lemma_find_member_at(t, k - 1);
        assert(es[0].0@ != es[k].0@);
    }
}

/// In an object whose keys are pairwise distinct, `find_member` finds every member
/// under its key.
pub proof fn lemma_members_found(es: Seq<(String, Json)>)
    requires
        forall|i: int, k: int| 0 <= i < k < es.len() ==> (#[trigger] es[i]).0@ != (#[trigger] es[k]).0@,
    ensures
        forall|k: int| 0 <= k < es.len() ==> find_member(es, #[trigger] es[k].0@) == Some(es[k].1),
{
    assert forall|k: int| 0 <= k < es.len() implies find_member(es, #[trigger] es[k].0@) == Some(
        es[k].1,
    ) by {
        assert forall|i: int| 0 <= i < k implies (#[trigger] es[i]).0@ != es[k].0@ by {
            assert(es[i].0@ != es[k].0@);
        }
        lemma_find_member_at(es, k);
    }
}

/// The member `key` of `v`, when `v` is an object that has one.
pub open spec fn member(v: Json, key: Seq<char>) -> Option<Json> {
    match v {
        Json::Object(es) => find_member(es@, key),
        _ => None,
    }
}

/// The member `key` of `v`.
pub fn get<'a>(v: &'a Json, key: &str) -> (r: Option<&'a Json>)
    ensures
        opt(r) == member(*v, key@),
{
    match v {
        Json::Object(es) => {
            let k = chars_of(key);
            let mut i: usize = 0;
            assert(es@.skip(0) =~= es@);
            while i < es.len()
                invariant
                    i <= es.len(),
                    k@ == key@,
                    member(*v, key@) == find_member(es@, key@),
                    find_member(es@, key@) == find_member(es@.skip(i as int), key@),
                decreases es.len() - i,
            {
                let kc = chars_of(es[i].0.as_str());
                assert(es@.skip(i as int)[0] == es@[i as int]);
                if same_chars(kc.as_slice(), k.as_slice()) {
                    assert(es@.skip(i as int).len() > 0);
                    assert(find_member(es@.skip(i as int), key@) == Some(es@[i as int].1));
                    let r = &es[i].1;
                    assert(*r == es@[i as int].1);
                    return Some(r);
                }
                assert(es@.skip(i as int).drop_first() =~= es@.skip(i + 1));
                i = i + 1;
            }
            None
        },
        _ => None,
    }
}

/// The value behind an optional reference.
pub open spec fn opt(v: Option<&Json>) -> Option<Json> {
    match v {
        Some(x) => Some(*x),
        None => None,
    }
}

/// The text of `v` when it is a string.
pub open spec fn text_value(v: Option<Json>) -> Option<Seq<char>> {
    match v {
        Some(Json::Str(s)) => Some(s@),
        _ => None,
    }
}

/// The value of `v` as an `i64`, when it is an integer that fits (`Value::as_i64`).
pub open spec fn i64_value(v: Option<Json>) -> Option<i64> {
    match v {
        Some(Json::Number(JsonNumber::PosInt(n))) => if n <= i64::MAX {
            Some(n as i64)
        } else {
            None
        },
        Some(Json::Number(JsonNumber::NegInt(n))) => Some(n),
        _ => None,
    }
}

/// The value of `v` as a `u64`, when it is a non-negative integer (`Value::as_u64`).
pub open spec fn u64_value(v: Option<Json>) -> Option<u64> {
    match v {
        Some(Json::Number(JsonNumber::PosInt(n))) => Some(n),
        _ => None,
    }
}

/// The value of `v` when it is a boolean.
pub open spec fn bool_value(v: Option<Json>) -> Option<bool> {
    match v {
        Some(Json::Bool(b)) => Some(b),
        _ => None,
    }
}

/// The text of an optional value that is a string.
pub fn as_text(v: Option<&Json>) -> (r: Option<String>)
    ensures
        match r {
            Some(s) => text_value(opt(v)) == Some(s@),
            None => text_value(opt(v)) is None,
        },
{
    match v {
        Some(Json::Str(s)) => Some(s.clone()),
        _ => None,
    }
}

/// An optional value as an `i64`, when it is an integer that fits.
pub fn as_i64(v: Option<&Json>) -> (r: Option<i64>)
    ensures
        r == i64_value(opt(v)),
{
    match v {
        Some(Json::Number(JsonNumber::PosInt(n))) => if *n <= 0x7fff_ffff_ffff_ffffu64 {
            Some(*n as i64)
        } else {
            None
        },
        Some(Json::Number(JsonNumber::NegInt(n))) => Some(*n),
        _ => None,
    }
}

/// An optional value as a `u64`, when it is a non-negative integer.
pub fn as_u64(v: Option<&Json>) -> (r: Option<u64>)
    ensures
        r == u64_value(opt(v)),
{
    match v {
        Some(Json::Number(JsonNumber::PosInt(n))) => Some(*n),
        _ => None,
    }
}

/// An optional value that is a boolean.
pub fn as_bool(v: Option<&Json>) -> (r: Option<bool>)
    ensures
        r == bool_value(opt(v)),
{
    match v {
        Some(Json::Bool(b)) => Some(*b),
        _ => None,
    }
}

/// The text `serde_json` writes for a number.
pub open spec fn number_text(n: JsonNumber) -> Seq<char> {
    match n {
        JsonNumber::PosInt(u) => decimal(u as nat),
        JsonNumber::NegInt(i) => signed_decimal(i as int),
        JsonNumber::Float(t) => t@,
    }
}

/// The text a test value stands for: a string as it is, an array as the texts of its
/// items on lines of their own, anything else as its compact JSON text.
pub open spec fn io_text(v: Json) -> Seq<char>
    decreases v, 0int,
{
    match v {
        Json::Str(s) => s@,
        Json::Array(a) => joined(io_texts(a@), seq!['\n']),
        Json::Null => seq!['n', 'u', 'l', 'l'],
        Json::Bool(b) => if b {
            seq!['t', 'r', 'u', 'e']
        } else {
            seq!['f', 'a', 'l', 's', 'e']
        },
        Json::Number(n) => number_text(n),
        Json::Object(_) => compact_json(v),
    }
}

pub open spec fn io_texts(items: Seq<Json>) -> Seq<Seq<char>>
    decreases items, 1int,
{
    if items.len() == 0 {
        seq![]
    } else {
        io_texts(items.drop_last()).push(io_text(items.last()))
    }
}

fn io_chars(v: &Json) -> (r: Vec<char>)
    ensures
        r@ == io_text(*v),
    decreases v,
{
    match v {
        Json::Str(s) => chars_of(s.as_str()),
        Json::Array(a) => {
            let mut out: Vec<char> = Vec::new();
            let mut i: usize = 0;
            assert(a@.take(0) =~= Seq::<Json>::empty());
            while i < a.len()
                invariant
                    i <= a.len(),
                    *v == Json::Array(*a),
                    out@ == joined(io_texts(a@.take(i as int)), seq!['\n']),
                decreases a.len() - i,
            {
                assert(a@.take(i + 1).drop_last() =~= a@.take(i as int));
                let ghost prev = io_texts(a@.take(i as int));
                if i > 0 {
                    out.push('\n');
                }
                assert((*v)->Array_0 == *a);
                assert(decreases_to!(*v => (*v)->Array_0));
                assert(decreases_to!(*a => a@));
                assert(decreases_to!(a@ => a@[i as int]));
                assert(decreases_to!(*v => a@[i as int]));
                let item = io_chars(&a[i]);
                extend(&mut out, item.as_slice());
                let ghost now = io_texts(a@.take(i + 1));
                assert(now.drop_last() =~= prev);
                if i > 0 {
                    assert(out@ =~= joined(prev, seq!['\n']) + seq!['\n'] + item@);
                }
                i = i + 1;
            }
            assert(a@.take(a.len() as int) =~= a@);
            out
        },
        Json::Null => {
            let r = vec!['n', 'u', 'l', 'l'];
            assert(r@ =~= seq!['n', 'u', 'l', 'l']);
            r
        },
        Json::Bool(b) => if *b {
            let r = vec!['t', 'r', 'u', 'e'];
            assert(r@ =~= seq!['t', 'r', 'u', 'e']);
            r
        } else {
            let r = vec!['f', 'a', 'l', 's', 'e'];
            assert(r@ =~= seq!['f', 'a', 'l', 's', 'e']);
            r
        },
        Json::Number(n) => {
            let mut r: Vec<char> = Vec::new();
            match n {
                JsonNumber::PosInt(u) => push_decimal(&mut r, *u as u128),
                JsonNumber::NegInt(i) => push_signed(&mut r, *i),
                JsonNumber::Float(t) => {
                    r = chars_of(t.as_str());
                },
            }
            assert(r@ =~= number_text(*n));
            r
        },
        Json::Object(_) => {
            let t = compact_text(v);
            chars_of(t.as_str())
        },
    }
}

/// The text a test value stands for (see `io_text`).
pub fn io_str(v: &Json) -> (r: String)
    ensures
        r@ == io_text(*v),
{
    let cs = io_chars(v);
    to_text(cs.as_slice())
}

/// What `serde_json::from_str` makes of `text`, read as a `Json`: `None` when the text
/// is not a JSON document.
pub uninterp spec fn parsed_json(text: Seq<char>) -> Option<Json>;

/// What `serde_json::from_slice` makes of `bytes`, read as a `Json`: `None` when the
/// bytes are not a JSON document.
pub uninterp spec fn parsed_json_bytes(bytes: Seq<u8>) -> Option<Json>;

/// The compact text `serde_json` writes for `v` (`Value`'s `Display`).
pub uninterp spec fn compact_json(v: Json) -> Seq<char>;

/// The indented text `serde_json::to_string_pretty` writes for `v`.
pub uninterp spec fn pretty_json(v: Json) -> Seq<char>;

/// A `serde_json` document as a `Json`, one variant for one variant. A number is taken
/// as a `u64` when `as_u64` gives one, else as an `i64`, else by the text `serde_json`
/// writes for it. This conversion stands only inside the trusted items below.
#[verifier::external_body]
fn json_of_value(v: &Value) -> Json {
    match v {
        Value::Null => Json::Null,
        Value::Bool(b) => Json::Bool(*b),
        Value::Number(n) => Json::Number(match (n.as_u64(), n.as_i64()) {
            (Some(u), _) => JsonNumber::PosInt(u),
            (None, Some(i)) => JsonNumber::NegInt(i),
            _ => JsonNumber::Float(n.to_string()),
        }),
        Value::String(t) => Json::Str(t.clone()),
        Value::Array(a) => Json::Array(a.iter().map(json_of_value).collect()),
        Value::Object(m) => Json::Object(m.iter().map(|(k, x)| (k.clone(), json_of_value(x))).collect()),
    }
}

/// A `Json` as a `serde_json` document, one variant for one variant; a float whose
/// text `serde_json` cannot read as a number becomes `null`. This conversion stands
/// only inside the trusted items below.
#[verifier::external_body]
fn value_of_json(v: &Json) -> Value {
    match v {
        Json::Null => Value::Null,
        Json::Bool(b) => Value::Bool(*b),
        Json::Number(JsonNumber::PosInt(u)) => Value::from(*u),
        Json::Number(JsonNumber::NegInt(i)) => Value::from(*i),
        Json::Number(JsonNumber::Float(t)) => t.parse::<serde_json::Number>().map_or(Value::Null, Value::Number),
        Json::Str(t) => Value::String(t.clone()),
        Json::Array(a) => Value::Array(a.iter().map(value_of_json).collect()),
        Json::Object(es) => Value::Object(es.iter().map(|(k, x)| (k.clone(), value_of_json(x))).collect()),
    }
}

/// Parses `text` with `serde_json::from_str`. Trusted: the result is the one
/// `parsed_json` names for the text, which `serde_json`'s parser fixes.
#[verifier::external_body]
pub(crate) fn parse_json(text: &str) -> (r: Option<Json>)
    ensures
        r == parsed_json(text@),
{
    serde_json::from_str::<serde_json::Value>(text).ok().map(|v| json_of_value(&v))
}

/// Parses `bytes` with `serde_json::from_slice`. Trusted: the result is the one
/// `parsed_json_bytes` names for the bytes.
#[verifier::external_body]
pub(crate) fn parse_json_bytes(bytes: &[u8]) -> (r: Option<Json>)
    ensures
        r == parsed_json_bytes(bytes@),
{
    serde_json::from_slice::<serde_json::Value>(bytes).ok().map(|v| json_of_value(&v))
}

/// Writes `v` as compact JSON text (`Value`'s `Display`). Trusted: the text is the one
/// `compact_json` names for `v`.
#[verifier::external_body]
pub(crate) fn compact_text(v: &Json) -> (r: String)
    ensures
        r@ == compact_json(*v),
{
    value_of_json(v).to_string()
}

/// A value that `serde_json` writes and reads back unchanged: a string, a boolean, a
/// non-negative integer held as `PosInt` or a negative one held as `NegInt`.
pub open spec fn plain_scalar(v: Json) -> bool {
    match v {
        Json::Str(_) => true,
        Json::Bool(_) => true,
        Json::Number(JsonNumber::PosInt(_)) => true,
        Json::Number(JsonNumber::NegInt(n)) => n < 0,
        _ => false,
    }
}

/// An object whose keys are pairwise distinct and whose values are plain scalars.
pub open spec fn flat_object(v: Json) -> bool {
    match v {
        Json::Object(es) => {
            &&& forall|i: int, k: int|
                0 <= i < k < es.len() ==> (#[trigger] es@[i]).0@ != (#[trigger] es@[k]).0@
            &&& forall|i: int| 0 <= i < es.len() ==> plain_scalar(#[trigger] es@[i].1)
        },
        _ => false,
    }
}

/// An array of flat objects.
pub open spec fn flat_records(v: Json) -> bool {
    match v {
        Json::Array(a) => forall|i: int| 0 <= i < a.len() ==> flat_object(#[trigger] a@[i]),
        _ => false,
    }
}

/// `a` and `b` read the same as text, as integers and as booleans.
pub open spec fn same_reading(a: Option<Json>, b: Option<Json>) -> bool {
    &&& text_value(a) == text_value(b)
    &&& u64_value(a) == u64_value(b)
    &&& i64_value(a) == i64_value(b)
    &&& bool_value(a) == bool_value(b)
}

/// `w`, a parse result, is an array as long as `v` whose items hold, under every key,
/// members that read as those of the item of `v` at the same place.
pub open spec fn rereads_as(w: Option<Json>, v: Json) -> bool {
    match (w, v) {
        (Some(Json::Array(b)), Json::Array(a)) => {
            &&& b.len() == a.len()
            &&& forall|i: int, key: Seq<char>|
                0 <= i < a.len() ==> same_reading(
                    #[trigger] member(b@[i], key),
                    member(a@[i], key),
                )
        },
        _ => false,
    }
}

/// Writes `v` with `serde_json::to_string_pretty`. Trusted: the text is the one
/// `pretty_json` names for `v`; and, for an array of flat objects, `serde_json::from_str`
/// reads the text back into objects with the same keys and the same strings, integers
/// and booleans under them (`serde_json` writes strings escaped and integers in decimal,
/// and reads both back exactly; it may order the keys otherwise). Nothing is said of
/// what reading back gives for other values.
#[verifier::external_body]
pub(crate) fn pretty_text(v: &Json) -> (r: String)
    ensures
        r@ == pretty_json(*v),
        flat_records(*v) ==> rereads_as(parsed_json(r@), *v),
{
    serde_json::to_string_pretty(&value_of_json(v)).unwrap_or_default()
}

} // verus!
