//! Data carried through the search: the operations, one applied step, and a
//! complete solution path.
use vstd::prelude::*;

verus! {

/// The four arithmetic operations that may combine two tiles.
#[derive(Debug, Clone, Copy, PartialEq, Eq, Structural)]
pub enum Operation {
    Add,
    Subtract,
    Multiply,
    Divide,
}

/// One applied operation: its two operands, the operation and its result.
#[derive(Debug, Clone, Copy, PartialEq, Eq, Structural)]
pub struct CalculationStep {
    pub left: i32,
    pub right: i32,
    pub operation: Operation,
    pub result: i32,
}

/// A path that reaches `target`, the steps in the order they were applied.
#[derive(Debug, Clone, PartialEq)]
pub struct Solution {
    pub steps: Vec<CalculationStep>,
    pub target: i32,
}

/// The symbol by which an operation is shown.
pub open spec fn symbol_of(op: Operation) -> Seq<char> {
    match op {
        Operation::Add => seq!['+'],
        Operation::Subtract => seq!['-'],
        Operation::Multiply => seq!['×'],
        Operation::Divide => seq!['÷'],
    }
}

impl Operation {
    /// The symbol by which this operation is shown: `+`, `-`, `×` or `÷`.
    pub fn symbol(&self) -> (r: &'static str)
        ensures
            r@ == symbol_of(*self),
    {
        match self {
            Operation::Add => {
                proof { reveal_strlit("+"); }
                "+"
            },
            Operation::Subtract => {
                proof { reveal_strlit("-"); }
                "-"
            },
            Operation::Multiply => {
                proof { reveal_strlit("×"); }
                "×"
            },
            Operation::Divide => {
                proof { reveal_strlit("÷"); }
                "÷"
            },
        }
    }
}

} // verus!
