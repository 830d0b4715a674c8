//! Binary encoding of resolved instructions: every instruction maps to
//! sixteen characters, each `0` or `1`, most significant bit first.

use vstd::prelude::*;

use crate::hack::{
    a_operand, instruction_ok, CInstruction, Comparison, Destination, Instruction, Jump, Symbol,
    Value,
};

verus! {

/// The character for bit `k` (counting from the least significant) of `v`.
pub open spec fn bit_char(v: usize, k: usize) -> char {
    if (v >> k) & 1 == 1 {
        '1'
    } else {
        '0'
    }
}

/// The `w` low bits of `v` as characters, most significant first.
pub open spec fn bin_of(v: usize, w: usize) -> Seq<char> {
    Seq::new(w as nat, |i: int| bit_char(v, (w - 1 - i) as usize))
}

/// The 7-bit comparison field; the most significant bit selects the M operand.
pub open spec fn comparison_bits(c: Comparison) -> usize {
    match c {
        Comparison::Zero => 0b0101010,
        Comparison::One => 0b0111111,
        Comparison::MinusOne => 0b0111010,
        Comparison::D => 0b0001100,
        Comparison::A => 0b0110000,
        Comparison::NotD => 0b0001101,
        Comparison::NotA => 0b0110001,
        Comparison::MinusD => 0b0001111,
        Comparison::MinusA => 0b0110011,
        Comparison::DPlusOne => 0b0011111,
        Comparison::APlusOne => 0b0110111,
        Comparison::DMinusOne => 0b0001110,
        Comparison::AMinusOne => 0b0110010,
        Comparison::DPlusA => 0b0000010,
        Comparison::DMinusA => 0b0010011,
        Comparison::AMinusD => 0b0000111,
        Comparison::DAndA => 0b0000000,
        Comparison::DOrA => 0b0010101,
        Comparison::M => 0b1110000,
        Comparison::NotM => 0b1110001,
        Comparison::MinusM => 0b1110011,
        Comparison::MPlusOne => 0b1110111,
        Comparison::MMinusOne => 0b1110010,
        Comparison::DPlusM => 0b1000010,
        Comparison::DMinusM => 0b1010011,
        Comparison::MMinusD => 0b1000111,
        Comparison::DAndM => 0b1000000,
        Comparison::DOrM => 0b1010101,
    }
}

/// The 3-bit destination field: one bit each for A, D and M.
pub open spec fn destination_bits(d: Destination) -> usize {
    match d {
        Destination::Null => 0b000,
        Destination::M => 0b001,
        Destination::D => 0b010,
        Destination::DM => 0b011,
        Destination::A => 0b100,
        Destination::AM => 0b101,
        Destination::AD => 0b110,
        Destination::ADM => 0b111,
    }
}

/// The 3-bit jump field.
pub open spec fn jump_bits(j: Jump) -> usize {
    match j {
        Jump::Null => 0b000,
        Jump::JGT => 0b001,
        Jump::JEQ => 0b010,
        Jump::JGE => 0b011,
        Jump::JLT => 0b100,
        Jump::JNE => 0b101,
        Jump::JLE => 0b110,
        Jump::JMP => 0b111,
    }
}

/// The encoding of a C-instruction: `111`, then comparison, destination, jump.
pub open spec fn c_instruction_code(ci: CInstruction) -> Seq<char> {
    bin_of(0b111, 3) + bin_of(comparison_bits(ci.comp), 7) + bin_of(destination_bits(ci.dest), 3)
        + bin_of(jump_bits(ci.jump), 3)
}

/// The encoding of a whole instruction.
pub open spec fn instruction_code(i: Instruction) -> Seq<char> {
    match i {
        Instruction::C(ci) => c_instruction_code(ci),
        Instruction::A(v) => bin_of(0, 1) + bin_of(a_operand(v) as usize, 15),
    }
}

/// Bit `k` (counting from the least significant) of `v`, as a number.
pub open spec fn bit_value(v: usize, k: usize) -> usize {
    (v >> k) & 1
}

/// A character that may stand in a machine word.
pub open spec fn is_bit_char(c: char) -> bool {
    c == '0' || c == '1'
}

/// Every rendered field has exactly its width, and holds only `0` and `1`.
pub proof fn lemma_bin_of_bits(v: usize, w: usize)
    ensures
        bin_of(v, w).len() == w,
        forall|i: int| 0 <= i < w ==> is_bit_char(#[trigger] bin_of(v, w)[i]),
{
}

/// Every encoded instruction is exactly sixteen characters, each `0` or `1`.
pub proof fn lemma_code_width(i: Instruction)
    requires
        instruction_ok(i),
    ensures
        instruction_code(i).len() == 16,
        forall|j: int| 0 <= j < 16 ==> is_bit_char(#[trigger] instruction_code(i)[j]),
{
    match i {
        Instruction::C(ci) => {
            lemma_bin_of_bits(0b111, 3);
            lemma_bin_of_bits(comparison_bits(ci.comp), 7);
            lemma_bin_of_bits(destination_bits(ci.dest), 3);
            lemma_bin_of_bits(jump_bits(ci.jump), 3);
            assert forall|j: int| 0 <= j < 16 implies is_bit_char(
                #[trigger] instruction_code(i)[j],
            ) by {
                let a = bin_of(0b111, 3);
                let b = bin_of(comparison_bits(ci.comp), 7);
                let c = bin_of(destination_bits(ci.dest), 3);
                let d = bin_of(jump_bits(ci.jump), 3);
                assert(instruction_code(i) == a + b + c + d);
                if j < 3 {
                    assert(instruction_code(i)[j] == a[j]);
                } else if j < 10 {
                    assert(instruction_code(i)[j] == b[j - 3]);
                } else if j < 13 {
                    assert(instruction_code(i)[j] == c[j - 10]);
                } else {
                    assert(instruction_code(i)[j] == d[j - 13]);
                }
            }
        },
        Instruction::A(v) => {
            lemma_bin_of_bits(0, 1);
            lemma_bin_of_bits(a_operand(v) as usize, 15);
            assert forall|j: int| 0 <= j < 16 implies is_bit_char(
                #[trigger] instruction_code(i)[j],
            ) by {
                let a = bin_of(0, 1);
                let b = bin_of(a_operand(v) as usize, 15);
                assert(instruction_code(i) == a + b);
                if j < 1 {
                    assert(instruction_code(i)[j] == a[j]);
                } else {
                    assert(instruction_code(i)[j] == b[j - 1]);
                }
            }
        },
    }
}

/// C-instruction bit layout: bits 15-13 are `111`, bits 12-6 the comparison
/// code, bits 5-3 the destination code, bits 2-0 the jump code (bit 15 is the
/// first character of the rendered line).
pub proof fn lemma_c_instruction_layout(ci: CInstruction)
    ensures
        c_instruction_code(ci).len() == 16,
        c_instruction_code(ci).subrange(0, 3) == bin_of(0b111, 3),
        c_instruction_code(ci).subrange(3, 10) == bin_of(comparison_bits(ci.comp), 7),
        c_instruction_code(ci).subrange(10, 13) == bin_of(destination_bits(ci.dest), 3),
        c_instruction_code(ci).subrange(13, 16) == bin_of(jump_bits(ci.jump), 3),
{
    let code = c_instruction_code(ci);
    let a = bin_of(0b111, 3);
    let b = bin_of(comparison_bits(ci.comp), 7);
    let c = bin_of(destination_bits(ci.dest), 3);
    let d = bin_of(jump_bits(ci.jump), 3);
    assert(code == a + b + c + d);
    assert(code.subrange(0, 3) =~= a);
    assert(code.subrange(3, 10) =~= b);
    assert(code.subrange(10, 13) =~= c);
    assert(code.subrange(13, 16) =~= d);
}

/// A-instruction bit layout: the first character is `0`, and the remaining
/// fifteen are the unsigned binary digits of the operand, most significant
/// first; the operand is recovered as the weighted sum of its bits.
pub proof fn lemma_a_instruction_layout(v: Value)
    requires
        a_operand(v) < 32768,
    ensures
        instruction_code(Instruction::A(v)).len() == 16,
        instruction_code(Instruction::A(v))[0] == '0',
        forall|k: int|
            0 <= k < 15 ==> instruction_code(Instruction::A(v))[15 - k] == #[trigger] bit_char(
                a_operand(v) as usize,
                k as usize,
            ),
        a_operand(v) == 16384 * bit_value(a_operand(v) as usize, 14) + 8192 * bit_value(
            a_operand(v) as usize,
            13,
        ) + 4096 * bit_value(a_operand(v) as usize, 12) + 2048 * bit_value(
            a_operand(v) as usize,
            11,
        ) + 1024 * bit_value(a_operand(v) as usize, 10) + 512 * bit_value(
            a_operand(v) as usize,
            9,
        ) + 256 * bit_value(a_operand(v) as usize, 8) + 128 * bit_value(a_operand(v) as usize, 7)
            + 64 * bit_value(a_operand(v) as usize, 6) + 32 * bit_value(a_operand(v) as usize, 5)
            + 16 * bit_value(a_operand(v) as usize, 4) + 8 * bit_value(a_operand(v) as usize, 3) + 4
            * bit_value(a_operand(v) as usize, 2) + 2 * bit_value(a_operand(v) as usize, 1)
            + bit_value(a_operand(v) as usize, 0),
{
    let n = a_operand(v) as usize;
    let code = instruction_code(Instruction::A(v));
    let a = bin_of(0, 1);
    let b = bin_of(n, 15);
    assert(code == a + b);
    assert(code[0] == a[0]);
    assert((0usize >> 0usize) & 1 == 0) by (bit_vector);
    assert forall|k: int| 0 <= k < 15 implies code[15 - k] == #[trigger] bit_char(n, k as usize) by {
        assert(code[15 - k] == b[14 - k]);
    }
    assert(n == 16384 * ((n >> 14usize) & 1) + 8192 * ((n >> 13usize) & 1) + 4096 * ((n >> 12usize)
        & 1) + 2048 * ((n >> 11usize) & 1) + 1024 * ((n >> 10usize) & 1) + 512 * ((n >> 9usize) & 1)
        + 256 * ((n >> 8usize) & 1) + 128 * ((n >> 7usize) & 1) + 64 * ((n >> 6usize) & 1) + 32 * ((
    n >> 5usize) & 1) + 16 * ((n >> 4usize) & 1) + 8 * ((n >> 3usize) & 1) + 4 * ((n >> 2usize) & 1)
        + 2 * ((n >> 1usize) & 1) + ((n >> 0usize) & 1)) by (bit_vector)
        requires
            n < 32768,
    ;
}

/// Renders the `w` low bits of `v`, most significant first.
fn bin_string(v: usize, w: usize) -> (r: String)
    requires
        w <= 16,
    ensures
        r@ == bin_of(v, w),
{
    let mut out = String::new();
    let mut i: usize = 0;
    proof {
        reveal_strlit("0");
        reveal_strlit("1");
    }
    while i < w
        invariant
            i <= w <= 16,
            out@ == bin_of(v, w).take(i as int),
            "0"@ == seq!['0'],
            "1"@ == seq!['1'],
        decreases w - i,
    {
        let k = w - 1 - i;
        if (v >> k) & 1 == 1 {
            out.append("1");
        } else {
            out.append("0");
        }
        proof {
            assert(bin_of(v, w)[i as int] == bit_char(v, k));
            assert(out@ =~= bin_of(v, w).take(i as int + 1));
        }
        i = i + 1;
    }
    proof {
        assert(bin_of(v, w).take(w as int) =~= bin_of(v, w));
    }
    out
}

/// A type that has a fixed binary rendering.
pub trait Coder {
    /// The characters `code` returns.
    spec fn spec_code(&self) -> Seq<char>;

    /// When the value can be rendered (an A-operand must fit in 15 bits).
    spec fn code_ok(&self) -> bool;

    fn code(&self) -> (r: String)
        requires
            self.code_ok(),
        ensures
            r@ == self.spec_code(),
    ;
}

impl Coder for Comparison {
    open spec fn spec_code(&self) -> Seq<char> {
        bin_of(comparison_bits(*self), 7)
    }

    open spec fn code_ok(&self) -> bool {
        true
    }

    fn code(&self) -> (r: String) {
        let bits: usize = match self {
            Comparison::Zero => 0b0101010,
            Comparison::One => 0b0111111,
            Comparison::MinusOne => 0b0111010,
            Comparison::D => 0b0001100,
            Comparison::A => 0b0110000,
            Comparison::NotD => 0b0001101,
            Comparison::NotA => 0b0110001,
            Comparison::MinusD => 0b0001111,
            Comparison::MinusA => 0b0110011,
            Comparison::DPlusOne => 0b0011111,
            Comparison::APlusOne => 0b0110111,
            Comparison::DMinusOne => 0b0001110,
            Comparison::AMinusOne => 0b0110010,
            Comparison::DPlusA => 0b0000010,
            Comparison::DMinusA => 0b0010011,
            Comparison::AMinusD => 0b0000111,
            Comparison::DAndA => 0b0000000,
            Comparison::DOrA => 0b0010101,
            Comparison::M => 0b1110000,
            Comparison::NotM => 0b1110001,
            Comparison::MinusM => 0b1110011,
            Comparison::MPlusOne => 0b1110111,
            Comparison::MMinusOne => 0b1110010,
            Comparison::DPlusM => 0b1000010,
            Comparison::DMinusM => 0b1010011,
            Comparison::MMinusD => 0b1000111,
            Comparison::DAndM => 0b1000000,
            Comparison::DOrM => 0b1010101,
        };
        bin_string(bits, 7)
    }
}

impl Coder for Destination {
    open spec fn spec_code(&self) -> Seq<char> {
        bin_of(destination_bits(*self), 3)
    }

    open spec fn code_ok(&self) -> bool {
        true
    }

    fn code(&self) -> (r: String) {
        let bits: usize = match self {
            Destination::Null => 0b000,
            Destination::M => 0b001,
            Destination::D => 0b010,
            Destination::DM => 0b011,
            Destination::A => 0b100,
            Destination::AM => 0b101,
            Destination::AD => 0b110,
            Destination::ADM => 0b111,
        };
        bin_string(bits, 3)
    }
}

impl Coder for Jump {
    open spec fn spec_code(&self) -> Seq<char> {
        bin_of(jump_bits(*self), 3)
    }

    open spec fn code_ok(&self) -> bool {
        true
    }

    fn code(&self) -> (r: String) {
        let bits: usize = match self {
            Jump::Null => 0b000,
            Jump::JGT => 0b001,
            Jump::JEQ => 0b010,
            Jump::JGE => 0b011,
            Jump::JLT => 0b100,
            Jump::JNE => 0b101,
            Jump::JLE => 0b110,
            Jump::JMP => 0b111,
        };
        bin_string(bits, 3)
    }
}

impl Coder for Symbol {
    open spec fn spec_code(&self) -> Seq<char> {
        bin_of(self.0, 15)
    }

    open spec fn code_ok(&self) -> bool {
        self.0 < 32768
    }

    fn code(&self) -> (r: String) {
        let Symbol(value) = self;
        bin_string(*value, 15)
    }
}

impl Coder for Value {
    open spec fn spec_code(&self) -> Seq<char> {
        bin_of(a_operand(*self) as usize, 15)
    }

    open spec fn code_ok(&self) -> bool {
        a_operand(*self) < 32768
    }

    fn code(&self) -> (r: String) {
        match self {
            Value::Symbol(symbol) => symbol.code(),
            Value::Constant(constant) => bin_string(*constant, 15),
        }
    }
}

impl Coder for CInstruction {
    open spec fn spec_code(&self) -> Seq<char> {
        c_instruction_code(*self)
    }

    open spec fn code_ok(&self) -> bool {
        true
    }

    fn code(&self) -> (r: String) {
        let mut out = bin_string(0b111, 3);
        out.append(self.comp.code().as_str());
        out.append(self.dest.code().as_str());
        out.append(self.jump.code().as_str());
        out
    }
}

impl Coder for Instruction {
    open spec fn spec_code(&self) -> Seq<char> {
        instruction_code(*self)
    }

    open spec fn code_ok(&self) -> bool {
        instruction_ok(*self)
    }

    fn code(&self) -> (r: String) {
        match self {
            Instruction::C(instruction) => instruction.code(),
            Instruction::A(value) => {
                let mut out = bin_string(0, 1);
                out.append(value.code().as_str());
                out
            },
        }
    }
}

} // verus!
