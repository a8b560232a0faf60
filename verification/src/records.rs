use vstd::prelude::*;

use crate::json::{
    as_bool, as_i64, as_text, as_u64, bool_value, compact_json, compact_text,
    flat_object, flat_records, get, i64_value, lemma_find_member_at, lemma_members_found, member,
    opt, parse_json, parse_json_bytes, parsed_json,
    parsed_json_bytes, plain_scalar, pretty_json, pretty_text, same_reading, text_value,
    u64_value, Json, JsonNumber,
};
use crate::model::{Req, Resp, Sample, Task};
use crate::report::EFFORT;
use crate::text::{chars_of, extend, text_eq, to_text};

verus! {

/// The member `key` of an optional value.
pub open spec fn member_of(v: Option<Json>, key: Seq<char>) -> Option<Json> {
    match v {
        Some(j) => member(j, key),
        None => None,
    }
}

/// The member `key` of `v` as text, or the empty text when it is missing or not a
/// string.
pub open spec fn field_text(v: Json, key: Seq<char>) -> Seq<char> {
    match text_value(member(v, key)) {
        Some(s) => s,
        None => seq![],
    }
}

fn field_string(v: &Json, key: &str) -> (r: String)
    ensures
        r@ == field_text(*v, key@),
{
    match as_text(get(v, key)) {
        Some(s) => s,
        None => String::new(),
    }
}

/// `t` is the task that the JSON object `j` describes.
pub open spec fn task_from(t: Task, j: Json) -> bool {
    &&& t.suite@ == field_text(j, "suite"@)
    &&& t.domain@ == field_text(j, "domain"@)
    &&& t.id@ == field_text(j, "id"@)
    &&& t.kind@ == field_text(j, "kind"@)
    &&& t.instruction@ == field_text(j, "instruction"@)
    &&& t.prompt@ == field_text(j, "prompt"@)
    &&& t.gold@ == field_text(j, "gold"@)
    &&& t.test@ == field_text(j, "test"@)
    &&& t.entry@ == field_text(j, "entry_point"@)
}

/// The text under `key` in the object `j`: the string there, or nothing when the key is
/// missing or holds no string.
pub open spec fn text_under(j: Json, key: Seq<char>) -> Seq<char> {
    match member(j, key) {
        Some(Json::Str(x)) => x@,
        _ => seq![],
    }
}

/// A loaded task takes each field from its own key of the task's object: `suite` from
/// `"suite"`, `domain` from `"domain"`, and so on, with `entry` from `"entry_point"`;
/// a field whose key is missing or not a string is empty.
pub proof fn lemma_task_fields(t: Task, j: Json)
    requires
        task_from(t, j),
    ensures
        t.suite@ == text_under(j, "suite"@),
        t.domain@ == text_under(j, "domain"@),
        t.id@ == text_under(j, "id"@),
        t.kind@ == text_under(j, "kind"@),
        t.instruction@ == text_under(j, "instruction"@),
        t.prompt@ == text_under(j, "prompt"@),
        t.gold@ == text_under(j, "gold"@),
        t.test@ == text_under(j, "test"@),
        t.entry@ == text_under(j, "entry_point"@),
{
}

/// Each task that `tasks_from_json` loads from an array takes its fields from the keys
/// of the item at its place (see `lemma_task_fields`); in particular two items whose
/// `"suite"` and `"domain"` strings differ give tasks whose suite and domain differ.
pub proof fn lemma_loaded_tasks(items: Seq<Json>, ts: Seq<Task>, i: int)
    requires
        ts.len() == items.len(),
        forall|k: int| 0 <= k < ts.len() ==> task_from(#[trigger] ts[k], items[k]),
        0 <= i < ts.len(),
    ensures
        ts[i].suite@ == text_under(items[i], "suite"@),
        ts[i].domain@ == text_under(items[i], "domain"@),
        text_under(items[i], "suite"@) != text_under(items[i], "domain"@) ==> ts[i].suite@
            != ts[i].domain@,
{
    lemma_task_fields(ts[i], items[i]);
}

/// The tasks of a task document: `None` unless it is an array; a field that is missing
/// or not a string reads as empty.
pub fn tasks_from_json(v: &Json) -> (r: Option<Vec<Task>>)
    ensures
        match *v {
            Json::Array(items) => r matches Some(ts) && ts.len() == items.len() && forall|i: int|
                0 <= i < ts.len() ==> task_from(#[trigger] ts[i], items[i]),
            _ => r is None,
        },
{
    let items = match v {
        Json::Array(a) => a,
        _ => {
            return None;
        },
    };
    let mut ts: Vec<Task> = Vec::new();
    let mut i: usize = 0;
    while i < items.len()
        invariant
            i <= items.len(),
            *v == Json::Array(*items),
            ts.len() == i,
            forall|k: int| 0 <= k < i ==> task_from(#[trigger] ts[k], items[k]),
        decreases items.len() - i,
    {
        let j = &items[i];
        let t = Task {
            suite: field_string(j, "suite"),
            domain: field_string(j, "domain"),
            id: field_string(j, "id"),
            kind: field_string(j, "kind"),
            instruction: field_string(j, "instruction"),
            prompt: field_string(j, "prompt"),
            gold: field_string(j, "gold"),
            test: field_string(j, "test"),
            entry: field_string(j, "entry_point"),
        };
        ts.push(t);
        i = i + 1;
    }
    Some(ts)
}

/// `s` is the sample that the JSON object `j` records.
pub open spec fn sample_from(s: Sample, j: Json) -> bool {
    &&& s.suite@ == field_text(j, "suite"@)
    &&& s.domain@ == field_text(j, "domain"@)
    &&& s.id@ == field_text(j, "id"@)
    &&& s.arm@ == field_text(j, "arm"@)
    &&& s.rep == (match u64_value(member(j, "rep"@)) {
        Some(n) => n,
        None => 0,
    }) as usize
    &&& s.thinking == match i64_value(member(j, "thinking_tokens"@)) {
        Some(n) => n,
        None => 0,
    }
    &&& s.output == match i64_value(member(j, "output_tokens"@)) {
        Some(n) => n,
        None => 0,
    }
    &&& s.stop@ == field_text(j, "stop_reason"@)
    &&& s.correct == match bool_value(member(j, "correct"@)) {
        Some(b) => b,
        None => false,
    }
}

/// The samples of a saved sample document: `None` unless it is an array; missing or
/// ill-typed fields read as empty, zero or false.
pub fn samples_from_json(v: &Json) -> (r: Option<Vec<Sample>>)
    ensures
        match *v {
            Json::Array(items) => r matches Some(ss) && ss.len() == items.len() && forall|i: int|
                0 <= i < ss.len() ==> sample_from(#[trigger] ss[i], items[i]),
            _ => r is None,
        },
{
    let items = match v {
        Json::Array(a) => a,
        _ => {
            return None;
        },
    };
    let mut ss: Vec<Sample> = Vec::new();
    let mut i: usize = 0;
    while i < items.len()
        invariant
            i <= items.len(),
            *v == Json::Array(*items),
            ss.len() == i,
            forall|k: int| 0 <= k < i ==> sample_from(#[trigger] ss[k], items[k]),
        decreases items.len() - i,
    {
        let j = &items[i];
        let rep = match as_u64(get(j, "rep")) {
            Some(n) => n,
            None => 0,
        };
        let s = Sample {
            suite: field_string(j, "suite"),
            domain: field_string(j, "domain"),
            id: field_string(j, "id"),
            arm: field_string(j, "arm"),
            rep: rep as usize,
            thinking: match as_i64(get(j, "thinking_tokens")) {
                Some(n) => n,
                None => 0,
            },
            output: match as_i64(get(j, "output_tokens")) {
                Some(n) => n,
                None => 0,
            },
            stop: field_string(j, "stop_reason"),
            correct: match as_bool(get(j, "correct")) {
                Some(b) => b,
                None => false,
            },
        };
        ss.push(s);
        i = i + 1;
    }
    Some(ss)
}

/// The texts of the blocks of type `ty` that hold a string `field`, in order.
pub open spec fn block_texts(bs: Seq<Json>, ty: Seq<char>, field: Seq<char>) -> Seq<char>
    decreases bs.len(),
{
    if bs.len() == 0 {
        seq![]
    } else {
        let r = block_texts(bs.drop_last(), ty, field);
        let b = bs.last();
        if text_value(member(b, "type"@)) == Some(ty) {
            match text_value(member(b, field)) {
                Some(t) => r + t,
                None => r,
            }
        } else {
            r
        }
    }
}

/// The joined texts of the reply's content blocks of type `ty`.
pub open spec fn reply_blocks(v: Json, ty: Seq<char>, field: Seq<char>) -> Seq<char> {
    match member(v, "content"@) {
        Some(Json::Array(a)) => block_texts(a@, ty, field),
        _ => seq![],
    }
}

/// The texts of the reply's content blocks of type `ty`, joined.
pub fn join_blocks(v: &Json, ty: &str, field: &str) -> (r: String)
    ensures
        r@ == reply_blocks(*v, ty@, field@),
{
    let mut out: Vec<char> = Vec::new();
    let blocks = match get(v, "content") {
        Some(Json::Array(a)) => a,
        _ => {
            return to_text(out.as_slice());
        },
    };
    let mut i: usize = 0;
    assert(blocks@.take(0) =~= Seq::<Json>::empty());
    while i < blocks.len()
        invariant
            i <= blocks.len(),
            out@ == block_texts(blocks@.take(i as int), ty@, field@),
        decreases blocks.len() - i,
    {
        assert(blocks@.take(i + 1).drop_last() =~= blocks@.take(i as int));
        let b = &blocks[i];
        let is_ty = match as_text(get(b, "type")) {
            Some(t) => text_eq(t.as_str(), ty),
            None => false,
        };
        if is_ty {
            match as_text(get(b, field)) {
                Some(t) => {
                    let tc = chars_of(t.as_str());
                    extend(&mut out, tc.as_slice());
                },
                None => {},
            }
        }
        i = i + 1;
    }
    assert(blocks@.take(blocks.len() as int) =~= blocks@);
    to_text(out.as_slice())
}

/// The reply reports an API error.
pub open spec fn api_error(v: Json) -> bool {
    text_value(member(v, "type"@)) == Some("error"@)
}

/// Whether the reply reports an API error.
pub fn is_api_error(v: &Json) -> (r: bool)
    ensures
        r == api_error(*v),
{
    match as_text(get(v, "type")) {
        Some(t) => text_eq(t.as_str(), "error"),
        None => false,
    }
}

/// An integer member, or zero.
pub open spec fn count_of(v: Option<Json>) -> i64 {
    match i64_value(v) {
        Some(n) => n,
        None => 0,
    }
}

/// The response that stands for a failed request: zero tokens, no text, and the stop
/// reason `error`.
pub open spec fn error_resp(r: Resp) -> bool {
    &&& r.input == 0 && r.output == 0 && r.thinking == 0
    &&& r.answer@ == Seq::<char>::empty() && r.summary@ == Seq::<char>::empty()
    &&& r.stop@ == "error"@
}

/// What a reply of the Messages API amounts to: on an error, zeros and the stop reason
/// `error`; otherwise the token counts of `usage` (zero when missing), the joined text
/// and thinking blocks, and the stop reason (`?` when missing).
pub open spec fn resp_of(r: Resp, v: Json) -> bool {
    if api_error(v) {
        error_resp(r)
    } else {
        let u = member(v, "usage"@);
        &&& r.input == count_of(member_of(u, "input_tokens"@))
        &&& r.output == count_of(member_of(u, "output_tokens"@))
        &&& r.thinking == count_of(
            member_of(member_of(u, "output_tokens_details"@), "thinking_tokens"@),
        )
        &&& r.answer@ == reply_blocks(v, "text"@, "text"@)
        &&& r.summary@ == reply_blocks(v, "thinking"@, "thinking"@)
        &&& r.stop@ == match text_value(member(v, "stop_reason"@)) {
            Some(s) => s,
            None => "?"@,
        }
    }
}

fn member_ref<'a>(v: Option<&'a Json>, key: &str) -> (r: Option<&'a Json>)
    ensures
        opt(r) == member_of(opt(v), key@),
{
    match v {
        Some(j) => get(j, key),
        None => None,
    }
}

/// What a reply of the Messages API amounts to (see `resp_of`).
pub fn resp_from_reply(v: &Json) -> (r: Resp)
    ensures
        resp_of(r, *v),
{
    if is_api_error(v) {
        return Resp {
            input: 0,
            output: 0,
            thinking: 0,
            answer: String::new(),
            summary: String::new(),
            stop: to_text(chars_of("error").as_slice()),
        };
    }
    let u = get(v, "usage");
    let input = match as_i64(member_ref(u, "input_tokens")) {
        Some(n) => n,
        None => 0,
    };
    let output = match as_i64(member_ref(u, "output_tokens")) {
        Some(n) => n,
        None => 0,
    };
    let thinking = match as_i64(member_ref(member_ref(u, "output_tokens_details"), "thinking_tokens")) {
        Some(n) => n,
        None => 0,
    };
    let stop = match as_text(get(v, "stop_reason")) {
        Some(s) => s,
        None => to_text(chars_of("?").as_slice()),
    };
    Resp {
        input,
        output,
        thinking,
        answer: join_blocks(v, "text", "text"),
        summary: join_blocks(v, "thinking", "thinking"),
        stop,
    }
}

/// The tasks of the text of a task document (see `tasks_from_json`): `None` unless the
/// text parses to an array.
pub fn tasks_from_text(txt: &str) -> (r: Option<Vec<Task>>)
    ensures
        match parsed_json(txt@) {
            Some(Json::Array(items)) => r matches Some(ts) && ts.len() == items.len() && forall|i: int|
                0 <= i < ts.len() ==> task_from(#[trigger] ts[i], items[i]),
            _ => r is None,
        },
{
    match parse_json(txt) {
        Some(v) => tasks_from_json(&v),
        None => None,
    }
}

/// `ss` are the samples read from the text `txt`: it parses to an array, and each
/// sample is the one its item records.
pub open spec fn read_samples(txt: Seq<char>, ss: Seq<Sample>) -> bool {
    match parsed_json(txt) {
        Some(Json::Array(items)) => ss.len() == items.len() && forall|i: int|
            0 <= i < ss.len() ==> sample_from(#[trigger] ss[i], items[i]),
        _ => false,
    }
}

/// The samples of the text of a saved sample document (see `samples_from_json`):
/// `None` unless the text parses to an array.
pub fn samples_from_text(txt: &str) -> (r: Option<Vec<Sample>>)
    ensures
        match parsed_json(txt@) {
            Some(Json::Array(_)) => r matches Some(ss) && read_samples(txt@, ss@),
            _ => r is None,
        },
{
    match parse_json(txt) {
        Some(v) => samples_from_json(&v),
        None => None,
    }
}

/// What the raw bytes of a reply amount to: a reply that does not parse stands for a
/// failed request; one that does is read as `resp_from_reply` reads it.
pub fn resp_from_output(out: &[u8]) -> (r: Resp)
    ensures
        match parsed_json_bytes(out@) {
            Some(v) => resp_of(r, v),
            None => error_resp(r),
        },
{
    match parse_json_bytes(out) {
        Some(v) => resp_from_reply(&v),
        None => Resp {
            input: 0,
            output: 0,
            thinking: 0,
            answer: String::new(),
            summary: String::new(),
            stop: to_text(chars_of("error").as_slice()),
        },
    }
}

/// The keys of an object, in order.
pub open spec fn object_keys(j: Json) -> Seq<Seq<char>> {
    match j {
        Json::Object(es) => es@.map_values(|e: (String, Json)| e.0@),
        _ => seq![],
    }
}

/// The keys of a saved sample record, in the order they are written.
pub open spec fn record_keys() -> Seq<Seq<char>> {
    seq![
        "suite"@,
        "domain"@,
        "id"@,
        "arm"@,
        "rep"@,
        "thinking_tokens"@,
        "output_tokens"@,
        "stop_reason"@,
        "correct"@,
    ]
}

/// The members of `j` hold the fields of `x`: its texts as strings, its counts as
/// integers and its verdict as a boolean.
pub open spec fn is_record_of(j: Json, x: Sample) -> bool {
    &&& text_value(member(j, "suite"@)) == Some(x.suite@)
    &&& text_value(member(j, "domain"@)) == Some(x.domain@)
    &&& text_value(member(j, "id"@)) == Some(x.id@)
    &&& text_value(member(j, "arm"@)) == Some(x.arm@)
    &&& u64_value(member(j, "rep"@)) == Some(x.rep as u64)
    &&& i64_value(member(j, "thinking_tokens"@)) == Some(x.thinking)
    &&& i64_value(member(j, "output_tokens"@)) == Some(x.output)
    &&& text_value(member(j, "stop_reason"@)) == Some(x.stop@)
    &&& bool_value(member(j, "correct"@)) == Some(x.correct)
}

/// `j` is the saved record of `x`: an object with exactly the record keys, in order,
/// holding the fields of `x` as plain scalars.
pub open spec fn sample_record(j: Json, x: Sample) -> bool {
    &&& flat_object(j)
    &&& object_keys(j) == record_keys()
    &&& is_record_of(j, x)
}

/// `v` is the saved document of `s`: an array of the records of its samples, in order.
pub open spec fn samples_json(v: Json, s: Seq<Sample>) -> bool {
    match v {
        Json::Array(items) => items.len() == s.len() && forall|i: int|
            0 <= i < s.len() ==> sample_record(#[trigger] items@[i], s[i]),
        _ => false,
    }
}

/// Two samples with the same fields.
pub open spec fn same_sample(a: Sample, b: Sample) -> bool {
    &&& a.suite@ == b.suite@
    &&& a.domain@ == b.domain@
    &&& a.id@ == b.id@
    &&& a.arm@ == b.arm@
    &&& a.rep == b.rep
    &&& a.thinking == b.thinking
    &&& a.output == b.output
    &&& a.stop@ == b.stop@
    &&& a.correct == b.correct
}

/// An integer as `serde_json` holds it: `PosInt` when it is not negative.
fn int_json(n: i64) -> (j: Json)
    ensures
        plain_scalar(j),
        i64_value(Some(j)) == Some(n),
        j == (if n >= 0 {
            Json::Number(JsonNumber::PosInt(n as u64))
        } else {
            Json::Number(JsonNumber::NegInt(n))
        }),
{
    if n >= 0 {
        Json::Number(JsonNumber::PosInt(n as u64))
    } else {
        Json::Number(JsonNumber::NegInt(n))
    }
}

/// No two record keys are the same.
proof fn lemma_record_keys_distinct()
    ensures
        forall|i: int, k: int|
            0 <= i < k < 9 ==> #[trigger] record_keys()[i] != #[trigger] record_keys()[k],
{
    reveal_strlit("suite");
    reveal_strlit("domain");
    reveal_strlit("id");
    reveal_strlit("arm");
    reveal_strlit("rep");
    reveal_strlit("thinking_tokens");
    reveal_strlit("output_tokens");
    reveal_strlit("stop_reason");
    reveal_strlit("correct");
    let r = record_keys();
    assert(r[0].len() == 5 && r[1].len() == 6 && r[2].len() == 2 && r[3].len() == 3);
    assert(r[4].len() == 3 && r[5].len() == 15 && r[6].len() == 13 && r[7].len() == 11);
    assert(r[8].len() == 7);
    assert(r[3][0] != r[4][0]);
}

/// The saved record of one sample.
fn record_of(x: &Sample) -> (j: Json)
    ensures
        sample_record(j, *x),
{
    let es: Vec<(String, Json)> = vec![
        ("suite".to_owned(), Json::Str(x.suite.clone())),
        ("domain".to_owned(), Json::Str(x.domain.clone())),
        ("id".to_owned(), Json::Str(x.id.clone())),
        ("arm".to_owned(), Json::Str(x.arm.clone())),
        ("rep".to_owned(), Json::Number(JsonNumber::PosInt(x.rep as u64))),
        ("thinking_tokens".to_owned(), int_json(x.thinking)),
        ("output_tokens".to_owned(), int_json(x.output)),
        ("stop_reason".to_owned(), Json::Str(x.stop.clone())),
        ("correct".to_owned(), Json::Bool(x.correct)),
    ];
    proof {
        reveal_strlit("suite");
        reveal_strlit("domain");
        reveal_strlit("id");
        reveal_strlit("arm");
        reveal_strlit("rep");
        reveal_strlit("thinking_tokens");
        reveal_strlit("output_tokens");
        reveal_strlit("stop_reason");
        reveal_strlit("correct");
        let ks = es@.map_values(|e: (String, Json)| e.0@);
        assert(ks =~= record_keys());
        lemma_record_keys_distinct();
        assert forall|i: int, k: int| 0 <= i < k < es.len() implies (#[trigger] es@[i]).0@
            != (#[trigger] es@[k]).0@ by {
            assert(ks[i] == es@[i].0@ && ks[k] == es@[k].0@);
            assert(record_keys()[i] != record_keys()[k]);
        }
        lemma_members_found(es@);
        assert(es@[0].0@ == "suite"@);
        assert(es@[1].0@ == "domain"@);
        assert(es@[2].0@ == "id"@);
        assert(es@[3].0@ == "arm"@);
        assert(es@[4].0@ == "rep"@);
        assert(es@[5].0@ == "thinking_tokens"@);
        assert(es@[6].0@ == "output_tokens"@);
        assert(es@[7].0@ == "stop_reason"@);
        assert(es@[8].0@ == "correct"@);
    }
    Json::Object(es)
}

/// The document that saves `s`: the record of each sample, in order.
pub fn samples_to_json(s: &[Sample]) -> (v: Json)
    ensures
        samples_json(v, s@),
{
    let mut items: Vec<Json> = Vec::new();
    let mut i: usize = 0;
    while i < s.len()
        invariant
            i <= s.len(),
            items.len() == i,
            forall|k: int| 0 <= k < i ==> sample_record(#[trigger] items@[k], s@[k]),
        decreases s.len() - i,
    {
        let j = record_of(&s[i]);
        items.push(j);
        i = i + 1;
    }
    Json::Array(items)
}

/// Reading the record of a sample gives back that sample.
pub proof fn lemma_record_round_trip(j: Json, x: Sample, y: Sample)
    requires
        is_record_of(j, x),
        sample_from(y, j),
    ensures
        same_sample(y, x),
{
}

/// `txt` reads back as the records of `s`: it parses to an array as long as `s` whose
/// items hold the fields of the samples at the same places.
pub open spec fn saved_samples(txt: Seq<char>, s: Seq<Sample>) -> bool {
    match parsed_json(txt) {
        Some(Json::Array(b)) => b.len() == s.len() && forall|i: int|
            0 <= i < s.len() ==> is_record_of(#[trigger] b@[i], s[i]),
        _ => false,
    }
}

/// The text of the document that saves `s`, as `serde_json` writes it indented.
pub fn samples_text(s: &[Sample]) -> (r: String)
    ensures
        exists|v: Json| samples_json(v, s@) && r@ == pretty_json(v),
        saved_samples(r@, s@),
{
    let v = samples_to_json(s);
    let r = pretty_text(&v);
    proof {
        let a = v->Array_0;
        assert forall|i: int| 0 <= i < a.len() implies flat_object(#[trigger] a@[i]) by {
            assert(sample_record(a@[i], s@[i]));
        }
        assert(flat_records(v));
        let b = parsed_json(r@).unwrap()->Array_0;
        assert forall|i: int| 0 <= i < s@.len() implies is_record_of(#[trigger] b@[i], s@[i]) by {
            assert(sample_record(a@[i], s@[i]));
            assert(same_reading(member(b@[i], "suite"@), member(a@[i], "suite"@)));
            assert(same_reading(member(b@[i], "domain"@), member(a@[i], "domain"@)));
            assert(same_reading(member(b@[i], "id"@), member(a@[i], "id"@)));
            assert(same_reading(member(b@[i], "arm"@), member(a@[i], "arm"@)));
            assert(same_reading(member(b@[i], "rep"@), member(a@[i], "rep"@)));
            assert(same_reading(member(b@[i], "thinking_tokens"@), member(a@[i], "thinking_tokens"@)));
            assert(same_reading(member(b@[i], "output_tokens"@), member(a@[i], "output_tokens"@)));
            assert(same_reading(member(b@[i], "stop_reason"@), member(a@[i], "stop_reason"@)));
            assert(same_reading(member(b@[i], "correct"@), member(a@[i], "correct"@)));
        }
    }
    r
}

/// Samples saved as text with `samples_text` and read back with `samples_from_text` are
/// the samples saved, in the same order, field for field.
pub proof fn lemma_saved_samples_reload(txt: Seq<char>, s: Seq<Sample>, loaded: Seq<Sample>)
    requires
        saved_samples(txt, s),
        read_samples(txt, loaded),
    ensures
        loaded.len() == s.len(),
        forall|i: int| 0 <= i < s.len() ==> same_sample(#[trigger] loaded[i], s[i]),
{
    let b = parsed_json(txt).unwrap()->Array_0;
    assert forall|i: int| 0 <= i < s.len() implies same_sample(#[trigger] loaded[i], s[i]) by {
        assert(is_record_of(b@[i], s[i]));
        assert(sample_from(loaded[i], b@[i]));
        lemma_record_round_trip(b@[i], s[i], loaded[i]);
    }
}

/// The most tokens a completion may bill.
pub const MAX_TOKENS: u32 = 32000;

/// The keys of a request body, in the order they are written.
pub open spec fn request_keys() -> Seq<Seq<char>> {
    seq!["model"@, "max_tokens"@, "thinking"@, "output_config"@, "system"@, "messages"@]
}

/// `v` is the Messages API request for `req` to `model`: the model, the token limit,
/// adaptive thinking with `req.display`, the effort, the system prompt, and one user
/// message holding `req.user`.
pub open spec fn is_request(v: Json, model: Seq<char>, req: Req) -> bool {
    &&& object_keys(v) == request_keys()
    &&& text_value(member(v, "model"@)) == Some(model)
    &&& u64_value(member(v, "max_tokens"@)) == Some(MAX_TOKENS as u64)
    &&& member(v, "thinking"@) matches Some(t) && object_keys(t) == seq!["type"@, "display"@]
        && text_value(member(t, "type"@)) == Some("adaptive"@) && text_value(
        member(t, "display"@),
    ) == Some(req.display@)
    &&& member(v, "output_config"@) matches Some(o) && object_keys(o) == seq!["effort"@]
        && text_value(member(o, "effort"@)) == Some(EFFORT@)
    &&& text_value(member(v, "system"@)) == Some(req.system@)
    &&& member(v, "messages"@) matches Some(Json::Array(ms)) && ms.len() == 1 && object_keys(
        ms@[0],
    ) == seq!["role"@, "content"@] && text_value(member(ms@[0], "role"@)) == Some("user"@)
        && text_value(member(ms@[0], "content"@)) == Some(req.user@)
}

/// A string member.
fn text_member(key: &str, value: &str) -> (e: (String, Json))
    ensures
        e.0@ == key@,
        e.1 matches Json::Str(t) && t@ == value@,
{
    (key.to_owned(), Json::Str(value.to_owned()))
}

/// The Messages API request for `req` to `model`.
pub fn request_json(model: &str, req: &Req) -> (v: Json)
    ensures
        is_request(v, model@, *req),
{
    let thinking: Vec<(String, Json)> = vec![
        text_member("type", "adaptive"),
        text_member("display", req.display.as_str()),
    ];
    let effort: Vec<(String, Json)> = vec![text_member("effort", EFFORT)];
    let message: Vec<(String, Json)> = vec![
        text_member("role", "user"),
        text_member("content", req.user.as_str()),
    ];
    let messages: Vec<Json> = vec![Json::Object(message)];
    let es: Vec<(String, Json)> = vec![
        text_member("model", model),
        ("max_tokens".to_owned(), Json::Number(JsonNumber::PosInt(MAX_TOKENS as u64))),
        ("thinking".to_owned(), Json::Object(thinking)),
        ("output_config".to_owned(), Json::Object(effort)),
        text_member("system", req.system.as_str()),
        ("messages".to_owned(), Json::Array(messages)),
    ];
    proof {
        reveal_strlit("type");
        reveal_strlit("display");
        reveal_strlit("role");
        reveal_strlit("content");
        reveal_strlit("model");
        reveal_strlit("max_tokens");
        reveal_strlit("thinking");
        reveal_strlit("output_config");
        reveal_strlit("system");
        reveal_strlit("messages");
        assert(thinking@.map_values(|e: (String, Json)| e.0@) =~= seq!["type"@, "display"@]);
        assert(effort@.map_values(|e: (String, Json)| e.0@) =~= seq!["effort"@]);
        assert(message@.map_values(|e: (String, Json)| e.0@) =~= seq!["role"@, "content"@]);
        assert(es@.map_values(|e: (String, Json)| e.0@) =~= request_keys());
        assert(thinking@[0].0@.len() != thinking@[1].0@.len());
        lemma_members_found(thinking@);
        lemma_find_member_at(effort@, 0);
        assert(message@[0].0@.len() != message@[1].0@.len());
        lemma_members_found(message@);
        assert(es@[2].0@[0] != es@[5].0@[0]);
        assert forall|i: int, k: int| 0 <= i < k < es.len() implies (#[trigger] es@[i]).0@
            != (#[trigger] es@[k]).0@ by {
            if i == 2 && k == 5 {
                assert(es@[i].0@[0] != es@[k].0@[0]);
            } else {
                assert(es@[i].0@.len() != es@[k].0@.len());
            }
        }
        lemma_members_found(es@);
        assert(es@[0].0@ == "model"@);
        assert(es@[1].0@ == "max_tokens"@);
        assert(es@[2].0@ == "thinking"@);
        assert(es@[3].0@ == "output_config"@);
        assert(es@[4].0@ == "system"@);
        assert(es@[5].0@ == "messages"@);
        assert(thinking@[0].0@ == "type"@);
        assert(thinking@[1].0@ == "display"@);
        assert(effort@[0].0@ == "effort"@);
        assert(message@[0].0@ == "role"@);
        assert(message@[1].0@ == "content"@);
    }
    Json::Object(es)
}

/// The body of the Messages API request for `req` to `model`, as `serde_json` writes it
/// compactly.
pub fn request_body(model: &str, req: &Req) -> (r: String)
    ensures
        exists|v: Json| is_request(v, model@, *req) && r@ == compact_json(v),
{
    let v = request_json(model, req);
    compact_text(&v)
}

/// A reply is read field by field from its own keys: an error reply gives zero tokens,
/// no text and the stop reason `error`; any other reply gives the integer counts under
/// `usage` (`input_tokens`, `output_tokens`, and `thinking_tokens` under
/// `output_tokens_details`), the texts of its `text` blocks as the answer and of its
/// `thinking` blocks as the summary, and its `stop_reason`.
pub proof fn lemma_reply_fields(r: Resp, v: Json)
    requires
        resp_of(r, v),
    ensures
        text_under(v, "type"@) == "error"@ ==> r.input == 0 && r.output == 0 && r.thinking == 0
            && r.answer@.len() == 0
            && r.summary@.len() == 0 && r.stop@ == "error"@,
        text_under(v, "type"@) != "error"@ ==> {
            &&& match member(v, "usage"@) {
                Some(u) => {
                    &&& r.input == (match i64_value(member(u, "input_tokens"@)) {
                        Some(n) => n,
                        None => 0,
                    })
                    &&& r.output == (match i64_value(member(u, "output_tokens"@)) {
                        Some(n) => n,
                        None => 0,
                    })
                    &&& r.thinking == (match member(u, "output_tokens_details"@) {
                        Some(d) => match i64_value(member(d, "thinking_tokens"@)) {
                            Some(n) => n,
                            None => 0,
                        },
                        None => 0,
                    })
                },
                None => r.input == 0 && r.output == 0 && r.thinking == 0,
            }
            &&& member(v, "stop_reason"@) matches Some(Json::Str(x)) ==> r.stop@ == x@
            &&& member(v, "content"@) matches Some(Json::Array(a)) ==> r.answer@ == block_texts(
                a@,
                "text"@,
                "text"@,
            ) && r.summary@ == block_texts(a@, "thinking"@, "thinking"@)
        },
{
    reveal_strlit("error");
    assert("error"@.len() > 0);
}

/// The request body is read field by field: the model, the token limit, adaptive
/// thinking with the request's display mode, the effort, the request's system prompt as
/// `system`, and its user text as the one user message.
pub proof fn lemma_request_fields(v: Json, model: Seq<char>, req: Req)
    requires
        is_request(v, model, req),
    ensures
        text_under(v, "model"@) == model,
        member(v, "max_tokens"@) == Some(Json::Number(JsonNumber::PosInt(32000))),
        text_under(v, "system"@) == req.system@,
        member(v, "thinking"@) matches Some(t) && text_under(t, "type"@) == "adaptive"@
            && text_under(t, "display"@) == req.display@,
        member(v, "output_config"@) matches Some(o) && text_under(o, "effort"@) == "high"@,
        member(v, "messages"@) matches Some(Json::Array(ms)) && ms.len() == 1 && text_under(
            ms@[0],
            "role"@,
        ) == "user"@ && text_under(ms@[0], "content"@) == req.user@,
{
    reveal_strlit("high");
}

} // verus!
