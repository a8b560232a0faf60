use vstd::prelude::*;

use crate::grade::{norm_out, out_key};
use crate::json::{get, io_str, io_text, member, opt, parse_json, parsed_json, Json};

verus! {

/// One run of a candidate program: what it reads and what it must print.
pub struct StdioCase {
    pub stdin: String,
    /// The expected output, normalized as `norm_out` does.
    pub expected: String,
}

/// The items of the member `key` of `v`, or none when it is not an array.
pub open spec fn array_member(v: Option<Json>, key: Seq<char>) -> Seq<Json> {
    match v {
        Some(j) => match member(j, key) {
            Some(Json::Array(a)) => a@,
            _ => seq![],
        },
        None => seq![],
    }
}

/// The expected output of case `i`: the `i`-th output, or nothing when there is none.
pub open spec fn expected_at(outs: Seq<Json>, i: int) -> Seq<char> {
    if 0 <= i < outs.len() {
        out_key(io_text(outs[i]))
    } else {
        out_key(seq![])
    }
}

/// The cases of a parsed test document (`None` when the text did not parse): one per
/// item of `inputs`, expecting the item of `outputs` at the same place.
pub fn stdio_cases(parsed: &Option<Json>) -> (cases: Vec<StdioCase>)
    ensures
        cases.len() == array_member(*parsed, "inputs"@).len(),
        forall|i: int|
            0 <= i < cases.len() ==> {
                &&& (#[trigger] cases[i]).stdin@ == io_text(array_member(*parsed, "inputs"@)[i])
                &&& cases[i].expected@ == expected_at(array_member(*parsed, "outputs"@), i)
            },
{
    let mut cases: Vec<StdioCase> = Vec::new();
    let v = match parsed {
        Some(v) => v,
        None => {
            return cases;
        },
    };
    let ins = match get(v, "inputs") {
        Some(Json::Array(a)) => a,
        _ => {
            return cases;
        },
    };
    let outs_opt = get(v, "outputs");
    let ghost outs = array_member(*parsed, "outputs"@);
    let mut i: usize = 0;
    while i < ins.len()
        invariant
            i <= ins.len(),
            ins@ == array_member(*parsed, "inputs"@),
            outs == array_member(*parsed, "outputs"@),
            outs == match opt(outs_opt) {
                Some(Json::Array(a)) => a@,
                _ => seq![],
            },
            cases.len() == i,
            forall|k: int|
                0 <= k < i ==> {
                    &&& (#[trigger] cases[k]).stdin@ == io_text(ins@[k])
                    &&& cases[k].expected@ == expected_at(outs, k)
                },
        decreases ins.len() - i,
    {
        let stdin = io_str(&ins[i]);
        let raw = match outs_opt {
            Some(Json::Array(o)) => if i < o.len() {
                io_str(&o[i])
            } else {
                String::new()
            },
            _ => String::new(),
        };
        let expected = norm_out(raw.as_str());
        cases.push(StdioCase { stdin, expected });
        i = i + 1;
    }
    cases
}

/// The cases of the JSON text `tests` (see `stdio_cases`); none when it does not parse.
pub fn stdio_cases_of(tests: &str) -> (cases: Vec<StdioCase>)
    ensures
        cases.len() == array_member(parsed_json(tests@), "inputs"@).len(),
        forall|i: int|
            0 <= i < cases.len() ==> {
                &&& (#[trigger] cases[i]).stdin@ == io_text(
                    array_member(parsed_json(tests@), "inputs"@)[i],
                )
                &&& cases[i].expected@ == expected_at(
                    array_member(parsed_json(tests@), "outputs"@),
                    i,
                )
            },
{
    let parsed = parse_json(tests);
    stdio_cases(&parsed)
}

/// Whether `out`, what one run printed, is the expected output of `case`.
pub fn stdio_case_ok(case: &StdioCase, out: &str) -> (ok: bool)
    ensures
        ok == (out_key(out@) == case.expected@),
{
    let got = norm_out(out);
    got == case.expected
}

/// Whether the candidate passed: every case ran to completion (`Some` holds what it
/// printed) and printed, once normalized, the expected output. There must be at least
/// one case; a run that stops at the first failure hands in only the outcomes so far.
pub fn stdio_passed(cases: &Vec<StdioCase>, outcomes: &Vec<Option<String>>) -> (ok: bool)
    ensures
        ok == (cases.len() > 0 && outcomes.len() == cases.len() && forall|i: int|
            0 <= i < cases.len() ==> match #[trigger] outcomes[i] {
                Some(out) => out_key(out@) == cases[i].expected@,
                None => false,
            }),
{
    if cases.len() == 0 || outcomes.len() != cases.len() {
        return false;
    }
    let mut i: usize = 0;
    while i < cases.len()
        invariant
            i <= cases.len(),
            outcomes.len() == cases.len(),
            forall|k: int|
                0 <= k < i ==> match #[trigger] outcomes[k] {
                    Some(out) => out_key(out@) == cases[k].expected@,
                    None => false,
                },
        decreases cases.len() - i,
    {
        match &outcomes[i] {
            Some(out) => {
                if !stdio_case_ok(&cases[i], out.as_str()) {
                    return false;
                }
            },
            None => {
                return false;
            },
        }
        i = i + 1;
    }
    true
}

} // verus!
