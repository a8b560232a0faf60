use vstd::prelude::*;

verus! {

/// One evaluation item.
pub struct Task {
    pub suite: String,
    pub domain: String,
    pub id: String,
    /// How the answer is graded: `numeric`, `letter`, `exact`, `code` or `stdio`.
    pub kind: String,
    pub instruction: String,
    pub prompt: String,
    pub gold: String,
    /// Unit-test code (`code`) or the JSON text of input/output pairs (`stdio`).
    pub test: String,
    pub entry: String,
}

/// One graded completion of one task under one arm.
pub struct Sample {
    pub suite: String,
    pub domain: String,
    pub id: String,
    pub arm: String,
    pub rep: usize,
    pub thinking: i64,
    pub output: i64,
    pub stop: String,
    pub correct: bool,
}

/// A completion request: the only thing that differs between arms is `system`.
pub struct Req {
    pub system: String,
    pub user: String,
    pub display: String,
}

/// What a completion returned.
pub struct Resp {
    pub input: i64,
    pub output: i64,
    pub thinking: i64,
    pub answer: String,
    pub summary: String,
    pub stop: String,
}

} // verus!
