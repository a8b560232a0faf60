use skillbench::json::{io_str, Json, JsonNumber};
use skillbench::model::{Req, Sample};
use skillbench::records::{
    is_api_error, join_blocks, request_body, request_json, resp_from_output, resp_from_reply,
    samples_from_json, samples_from_text, samples_text, samples_to_json, tasks_from_json,
    tasks_from_text,
};
use skillbench::stdio::{stdio_cases, stdio_cases_of, stdio_passed, StdioCase};

fn s(x: &str) -> Json {
    Json::Str(x.to_string())
}

fn num(n: u64) -> Json {
    Json::Number(JsonNumber::PosInt(n))
}

fn obj(members: Vec<(&str, Json)>) -> Json {
    Json::Object(members.into_iter().map(|(k, v)| (k.to_string(), v)).collect())
}

#[test]
fn io_str_renders_values() {
    assert_eq!(io_str(&s("1 2\n")), "1 2\n");
    assert_eq!(io_str(&Json::Array(vec![s("3"), s("4")])), "3\n4");
    assert_eq!(io_str(&Json::Array(vec![])), "");
    assert_eq!(io_str(&num(5)), "5");
    assert_eq!(io_str(&Json::Number(JsonNumber::NegInt(-70))), "-70");
    assert_eq!(io_str(&Json::Number(JsonNumber::NegInt(i64::MIN))), "-9223372036854775808");
    assert_eq!(io_str(&Json::Number(JsonNumber::Float("2.5".to_string()))), "2.5");
    assert_eq!(io_str(&Json::Null), "null");
    assert_eq!(io_str(&Json::Bool(true)), "true");
    assert_eq!(io_str(&Json::Bool(false)), "false");
    assert_eq!(io_str(&Json::Array(vec![num(1), Json::Array(vec![s("a"), s("b")])])), "1\na\nb");
    assert_eq!(
        io_str(&obj(vec![("b", s("x")), ("a", num(1))])),
        "{\"a\":1,\"b\":\"x\"}"
    );
}

#[test]
fn stdio_cases_pair_inputs_with_outputs() {
    let doc = obj(vec![
        ("inputs", Json::Array(vec![s("1 2\n"), Json::Array(vec![s("3"), s("4")])])),
        ("outputs", Json::Array(vec![s("3  \n\n")])),
    ]);
    let cases = stdio_cases(&Some(doc));
    assert_eq!(cases.len(), 2);
    assert_eq!(cases[0].stdin, "1 2\n");
    assert_eq!(cases[0].expected, "3");
    assert_eq!(cases[1].stdin, "3\n4");
    assert_eq!(cases[1].expected, "");
}

#[test]
fn stdio_cases_none_without_inputs() {
    assert_eq!(stdio_cases(&None).len(), 0);
    assert_eq!(stdio_cases(&Some(obj(vec![("inputs", s("x"))]))).len(), 0);
    assert_eq!(stdio_cases(&Some(Json::Array(vec![s("x")]))).len(), 0);
}

fn case(stdin: &str, expected: &str) -> StdioCase {
    StdioCase { stdin: stdin.to_string(), expected: expected.to_string() }
}

#[test]
fn stdio_passed_needs_every_case() {
    let cases = vec![case("1", "1"), case("2", "4")];
    assert!(stdio_passed(&cases, &vec![Some("1\n".to_string()), Some("4  ".to_string())]));
    assert!(!stdio_passed(&cases, &vec![Some("1".to_string()), Some("5".to_string())]));
    assert!(!stdio_passed(&cases, &vec![Some("1".to_string()), None]));
    assert!(!stdio_passed(&cases, &vec![Some("1".to_string())]));
    assert!(!stdio_passed(&vec![], &vec![]));
}

fn reply(kind: &str) -> Json {
    obj(vec![
        ("type", s(kind)),
        (
            "usage",
            obj(vec![
                ("input_tokens", num(40)),
                ("output_tokens", num(120)),
                ("output_tokens_details", obj(vec![("thinking_tokens", num(80))])),
            ]),
        ),
        (
            "content",
            Json::Array(vec![
                obj(vec![("type", s("thinking")), ("thinking", s("hmm"))]),
                obj(vec![("type", s("text")), ("text", s("4"))]),
                obj(vec![("type", s("text")), ("text", s("2"))]),
                obj(vec![("type", s("text")), ("text", num(9))]),
                obj(vec![("type", s("tool_use")), ("text", s("x"))]),
            ]),
        ),
        ("stop_reason", s("end_turn")),
    ])
}

#[test]
fn reply_fields() {
    let r = resp_from_reply(&reply("message"));
    assert_eq!(r.input, 40);
    assert_eq!(r.output, 120);
    assert_eq!(r.thinking, 80);
    assert_eq!(r.answer, "42");
    assert_eq!(r.summary, "hmm");
    assert_eq!(r.stop, "end_turn");
    assert!(!is_api_error(&reply("message")));
}

#[test]
fn reply_defaults() {
    let r = resp_from_reply(&obj(vec![("usage", obj(vec![("output_tokens", Json::Number(JsonNumber::NegInt(-3)))]))]));
    assert_eq!(r.input, 0);
    assert_eq!(r.output, -3);
    assert_eq!(r.thinking, 0);
    assert_eq!(r.answer, "");
    assert_eq!(r.stop, "?");
    let big = obj(vec![("usage", obj(vec![("input_tokens", num(u64::MAX))]))]);
    assert_eq!(resp_from_reply(&big).input, 0);
}

#[test]
fn reply_error() {
    let r = resp_from_reply(&reply("error"));
    assert!(is_api_error(&reply("error")));
    assert_eq!(r.input, 0);
    assert_eq!(r.output, 0);
    assert_eq!(r.thinking, 0);
    assert_eq!(r.answer, "");
    assert_eq!(r.summary, "");
    assert_eq!(r.stop, "error");
}

#[test]
fn join_blocks_by_type() {
    assert_eq!(join_blocks(&reply("message"), "text", "text"), "42");
    assert_eq!(join_blocks(&Json::Null, "text", "text"), "");
}

#[test]
fn tasks_from_document() {
    let doc = Json::Array(vec![
        obj(vec![
            ("suite", s("aime")),
            ("domain", s("math")),
            ("id", s("aime-0")),
            ("kind", s("numeric")),
            ("instruction", s("Answer with an integer.")),
            ("prompt", s("What is 6*7?")),
            ("gold", s("42")),
            ("entry_point", s("f")),
        ]),
        num(3),
    ]);
    let ts = tasks_from_json(&doc).expect("an array");
    assert_eq!(ts.len(), 2);
    assert_eq!(ts[0].suite, "aime");
    assert_eq!(ts[0].id, "aime-0");
    assert_eq!(ts[0].kind, "numeric");
    assert_eq!(ts[0].gold, "42");
    assert_eq!(ts[0].test, "");
    assert_eq!(ts[0].entry, "f");
    assert_eq!(ts[1].id, "");
    assert!(tasks_from_json(&obj(vec![])).is_none());
}

#[test]
fn samples_from_document() {
    let doc = Json::Array(vec![obj(vec![
        ("suite", s("aime")),
        ("id", s("aime-0")),
        ("arm", s("caveman")),
        ("rep", num(2)),
        ("thinking_tokens", num(10)),
        ("output_tokens", num(7)),
        ("stop_reason", s("end_turn")),
        ("correct", Json::Bool(true)),
    ])]);
    let ss = samples_from_json(&doc).expect("an array");
    assert_eq!(ss.len(), 1);
    assert_eq!(ss[0].arm, "caveman");
    assert_eq!(ss[0].domain, "");
    assert_eq!(ss[0].rep, 2);
    assert_eq!(ss[0].thinking, 10);
    assert_eq!(ss[0].output, 7);
    assert!(ss[0].correct);
    let bare = samples_from_json(&Json::Array(vec![obj(vec![("rep", s("2"))])])).unwrap();
    assert_eq!(bare[0].rep, 0);
    assert!(!bare[0].correct);
    assert!(samples_from_json(&Json::Null).is_none());
}

#[test]
fn stdio_cases_from_text() {
    let cases = stdio_cases_of("{\"inputs\": [\"1 2\\n\", [\"3\", 4]], \"outputs\": [\"3 \\n\", {\"k\": [1, 2]}]}");
    assert_eq!(cases.len(), 2);
    assert_eq!(cases[0].stdin, "1 2\n");
    assert_eq!(cases[0].expected, "3");
    assert_eq!(cases[1].stdin, "3\n4");
    assert_eq!(cases[1].expected, "{\"k\":[1,2]}");
    assert_eq!(stdio_cases_of("not json").len(), 0);
    assert_eq!(stdio_cases_of("{\"outputs\": [\"1\"]}").len(), 0);
}

#[test]
fn tasks_from_document_text() {
    let ts = tasks_from_text("[{\"suite\": \"aime\", \"id\": \"aime-0\", \"kind\": \"numeric\", \"gold\": \"42\", \"entry_point\": 7}]").expect("an array");
    assert_eq!(ts.len(), 1);
    assert_eq!(ts[0].suite, "aime");
    assert_eq!(ts[0].id, "aime-0");
    assert_eq!(ts[0].gold, "42");
    assert_eq!(ts[0].entry, "");
    assert!(tasks_from_text("{\"suite\": \"aime\"}").is_none());
    assert!(tasks_from_text("[1,").is_none());
}

#[test]
fn samples_from_document_text() {
    let ss = samples_from_text("[{\"suite\":\"math\",\"id\":\"m-1\",\"arm\":\"baseline\",\"rep\":1,\"thinking_tokens\":-5,\"output_tokens\":9,\"stop_reason\":\"end_turn\",\"correct\":false}]").expect("an array");
    assert_eq!(ss.len(), 1);
    assert_eq!(ss[0].id, "m-1");
    assert_eq!(ss[0].rep, 1);
    assert_eq!(ss[0].thinking, -5);
    assert_eq!(ss[0].output, 9);
    assert!(!ss[0].correct);
    assert!(samples_from_text("").is_none());
}

fn sample(id: &str, rep: usize, thinking: i64, output: i64, correct: bool) -> Sample {
    Sample {
        suite: "math".to_string(),
        domain: "math \"hard\"".to_string(),
        id: id.to_string(),
        arm: "caveman".to_string(),
        rep,
        thinking,
        output,
        stop: "end_turn\n".to_string(),
        correct,
    }
}

#[test]
fn saved_samples_read_back() {
    let s = vec![sample("m-1", 1, 0, 120, true), sample("ü-2", 2, -7, i64::MAX, false)];
    let txt = samples_text(&s);
    assert!(txt.starts_with("[\n  {\n"));
    let back = samples_from_text(&txt).expect("an array");
    assert_eq!(back.len(), 2);
    for (a, b) in back.iter().zip(s.iter()) {
        assert_eq!(a.suite, b.suite);
        assert_eq!(a.domain, b.domain);
        assert_eq!(a.id, b.id);
        assert_eq!(a.arm, b.arm);
        assert_eq!(a.rep, b.rep);
        assert_eq!(a.thinking, b.thinking);
        assert_eq!(a.output, b.output);
        assert_eq!(a.stop, b.stop);
        assert_eq!(a.correct, b.correct);
    }
    assert_eq!(samples_text(&[]), "[]");
}

#[test]
fn sample_records_hold_the_fields() {
    let v = samples_to_json(&[sample("m-1", 3, -2, 5, true)]);
    let back = samples_from_json(&v).expect("an array");
    assert_eq!(back[0].rep, 3);
    assert_eq!(back[0].thinking, -2);
    assert_eq!(back[0].output, 5);
    assert!(back[0].correct);
    match &v {
        Json::Array(items) => match &items[0] {
            Json::Object(es) => {
                let keys: Vec<&str> = es.iter().map(|(k, _)| k.as_str()).collect();
                assert_eq!(keys, vec!["suite", "domain", "id", "arm", "rep", "thinking_tokens", "output_tokens", "stop_reason", "correct"]);
            }
            _ => panic!("a record is an object"),
        },
        _ => panic!("the document is an array"),
    }
}

#[test]
fn request_body_text() {
    let req = Req { system: "sys".to_string(), user: "What is 6*7?".to_string(), display: "omitted".to_string() };
    assert_eq!(
        request_body("m-1", &req),
        "{\"max_tokens\":32000,\"messages\":[{\"content\":\"What is 6*7?\",\"role\":\"user\"}],\"model\":\"m-1\",\"output_config\":{\"effort\":\"high\"},\"system\":\"sys\",\"thinking\":{\"display\":\"omitted\",\"type\":\"adaptive\"}}"
    );
    match request_json("m-1", &req) {
        Json::Object(es) => assert_eq!(es.len(), 6),
        _ => panic!("a request is an object"),
    }
}

#[test]
fn reply_bytes() {
    let r = resp_from_output(b"{\"type\":\"message\",\"usage\":{\"input_tokens\":3,\"output_tokens\":8,\"output_tokens_details\":{\"thinking_tokens\":5}},\"content\":[{\"type\":\"text\",\"text\":\"42\"}],\"stop_reason\":\"end_turn\"}");
    assert_eq!(r.input, 3);
    assert_eq!(r.output, 8);
    assert_eq!(r.thinking, 5);
    assert_eq!(r.answer, "42");
    assert_eq!(r.stop, "end_turn");
    let bad = resp_from_output(b"<html>502</html>");
    assert_eq!(bad.stop, "error");
    assert_eq!(bad.output, 0);
    assert_eq!(bad.answer, "");
    let err = resp_from_output(b"{\"type\":\"error\",\"error\":{\"message\":\"overloaded\"}}");
    assert_eq!(err.stop, "error");
}
