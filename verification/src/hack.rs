//! The instruction forms of the Hack machine: the three fields of a
//! C-instruction, resolved A-values, and the resolved instruction itself.

use vstd::prelude::*;

verus! {

/// The 28 ALU operations a C-instruction may name.
#[derive(Clone, Copy, Debug, PartialEq, Eq, Structural)]
pub enum Comparison {
    Zero,
    One,
    MinusOne,
    D,
    A,
    NotD,
    NotA,
    MinusD,
    MinusA,
    DPlusOne,
    APlusOne,
    DMinusOne,
    AMinusOne,
    DPlusA,
    DMinusA,
    AMinusD,
    DAndA,
    DOrA,
    M,
    NotM,
    MinusM,
    MPlusOne,
    MMinusOne,
    DPlusM,
    DMinusM,
    MMinusD,
    DAndM,
    DOrM,
}

/// The set of registers a C-instruction stores its result to.
#[derive(Clone, Copy, Debug, PartialEq, Eq, Structural)]
pub enum Destination {
    Null,
    M,
    D,
    DM,
    A,
    AM,
    AD,
    ADM,
}

/// The branch condition of a C-instruction.
#[derive(Clone, Copy, Debug, PartialEq, Eq, Structural)]
pub enum Jump {
    Null,
    JGT,
    JEQ,
    JGE,
    JLT,
    JNE,
    JLE,
    JMP,
}

/// A symbol already resolved to its numeric address.
#[derive(Clone, Copy, Debug, PartialEq, Eq, Structural)]
pub struct Symbol(pub usize);

/// The operand of a resolved A-instruction.
#[derive(Clone, Copy, Debug, PartialEq, Eq, Structural)]
pub enum Value {
    Symbol(Symbol),
    Constant(usize),
}

/// A C-instruction: destination, comparison and jump fields.
#[derive(Clone, Copy, Debug, PartialEq, Eq, Structural)]
pub struct CInstruction {
    pub dest: Destination,
    pub comp: Comparison,
    pub jump: Jump,
}

impl CInstruction {
    pub fn new(dest: Destination, comp: Comparison, jump: Jump) -> (r: Self)
        ensures
            r.dest == dest,
            r.comp == comp,
            r.jump == jump,
    {
        Self { dest, comp, jump }
    }
}

/// A fully resolved instruction, ready to encode.
#[derive(Clone, Copy, Debug, PartialEq, Eq, Structural)]
pub enum Instruction {
    C(CInstruction),
    A(Value),
}

impl View for Comparison {
    type V = Comparison;

    open spec fn view(&self) -> Comparison {
        *self
    }
}

impl View for Destination {
    type V = Destination;

    open spec fn view(&self) -> Destination {
        *self
    }
}

impl View for Jump {
    type V = Jump;

    open spec fn view(&self) -> Jump {
        *self
    }
}

/// The numeric operand an A-instruction carries, whether it came from a
/// constant or from a resolved symbol.
pub open spec fn a_operand(v: Value) -> nat {
    match v {
        Value::Symbol(Symbol(n)) => n as nat,
        Value::Constant(n) => n as nat,
    }
}

/// An instruction is encodable when every A-operand fits in 15 bits.
pub open spec fn instruction_ok(i: Instruction) -> bool {
    match i {
        Instruction::C(_) => true,
        Instruction::A(v) => a_operand(v) < 32768,
    }
}

} // verus!
