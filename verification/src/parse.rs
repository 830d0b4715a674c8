//! Parsing and the two assembly passes: lines are classified and parsed into
//! pre-resolution instructions, labels are bound in the first pass, and the
//! second pass resolves every symbolic operand to a numeric address.

use vstd::prelude::*;

use crate::hack::{CInstruction, Comparison, Destination, Instruction, Jump, Symbol, Value};

verus! {

/// A pre-resolution A-operand: a decimal constant (kept as its digits) or a
/// still-unresolved symbol name.
pub enum SpecAValue {
    Constant(Seq<char>),
    Symbol(Seq<char>),
}

/// The mathematical form of a pre-resolution instruction.
pub enum SpecPre {
    C(CInstruction),
    A(SpecAValue),
    L(Seq<char>),
}

/// The mathematical form of a parse failure; each variant carries the
/// offending token.
pub enum SpecError {
    InvalidSymbol(Seq<char>),
    InvalidComparison(Seq<char>),
    InvalidDestination(Seq<char>),
    InvalidJump(Seq<char>),
    InvalidInstruction(Seq<char>),
}

/// A parse failure; each variant carries the offending token.
#[derive(Debug, PartialEq, Eq)]
pub enum ParseError {
    InvalidSymbol(String),
    InvalidComparison(String),
    InvalidDestination(String),
    InvalidJump(String),
    InvalidInstruction(String),
}

impl View for ParseError {
    type V = SpecError;

    open spec fn view(&self) -> SpecError {
        match self {
            ParseError::InvalidSymbol(s) => SpecError::InvalidSymbol(s@),
            ParseError::InvalidComparison(s) => SpecError::InvalidComparison(s@),
            ParseError::InvalidDestination(s) => SpecError::InvalidDestination(s@),
            ParseError::InvalidJump(s) => SpecError::InvalidJump(s@),
            ParseError::InvalidInstruction(s) => SpecError::InvalidInstruction(s@),
        }
    }
}

pub type ParseResult<T> = Result<T, ParseError>;

// ---------------------------------------------------------------------------
// Lexical classification: trimming, blank lines and comments.
// ---------------------------------------------------------------------------
/// The characters trimmed from the ends of a line.
pub open spec fn is_ws_char(c: char) -> bool {
    c == ' ' || c == '\t' || c == '\n' || c == '\r' || c == '\u{b}' || c == '\u{c}'
}

/// How many leading whitespace characters `s` has.
pub open spec fn ws_prefix_len(s: Seq<char>) -> nat
    decreases s.len(),
{
    if s.len() > 0 && is_ws_char(s[0]) {
        1 + ws_prefix_len(s.drop_first())
    } else {
        0
    }
}

/// How many trailing whitespace characters `s` has.
pub open spec fn ws_suffix_len(s: Seq<char>) -> nat
    decreases s.len(),
{
    if s.len() > 0 && is_ws_char(s.last()) {
        1 + ws_suffix_len(s.drop_last())
    } else {
        0
    }
}

proof fn lemma_ws_prefix(s: Seq<char>)
    ensures
        ws_prefix_len(s) <= s.len(),
        forall|i: int| 0 <= i < ws_prefix_len(s) ==> is_ws_char(#[trigger] s[i]),
        ws_prefix_len(s) < s.len() ==> !is_ws_char(s[ws_prefix_len(s) as int]),
    decreases s.len(),
{
    if s.len() > 0 && is_ws_char(s[0]) {
        lemma_ws_prefix(s.drop_first());
        assert forall|i: int| 0 <= i < ws_prefix_len(s) implies is_ws_char(#[trigger] s[i]) by {
            if i > 0 {
                assert(s.drop_first()[i - 1] == s[i]);
            }
        }
    }
}

proof fn lemma_ws_suffix(s: Seq<char>)
    ensures
        ws_suffix_len(s) <= s.len(),
        forall|i: int| s.len() - ws_suffix_len(s) <= i < s.len() ==> is_ws_char(#[trigger] s[i]),
        ws_suffix_len(s) < s.len() ==> !is_ws_char(s[s.len() - 1 - ws_suffix_len(s)]),
    decreases s.len(),
{
    if s.len() > 0 && is_ws_char(s.last()) {
        lemma_ws_suffix(s.drop_last());
        assert forall|i: int| s.len() - ws_suffix_len(s) <= i < s.len() implies is_ws_char(
            #[trigger] s[i],
        ) by {
            if i < s.len() - 1 {
                assert(s.drop_last()[i] == s[i]);
            }
        }
    }
}

/// The line with its surrounding whitespace removed.
pub open spec fn spec_trim(s: Seq<char>) -> Seq<char> {
    if ws_prefix_len(s) == s.len() {
        Seq::empty()
    } else {
        s.subrange(ws_prefix_len(s) as int, s.len() - ws_suffix_len(s))
    }
}

/// Removes leading and trailing whitespace.
fn trim_line(s: &str) -> (r: String)
    ensures
        r@ == spec_trim(s@),
{
    proof {
        lemma_ws_prefix(s@);
        lemma_ws_suffix(s@);
    }
    let n = s.unicode_len();
    let mut a: usize = 0;
    while a < n && is_ws_exec(s.get_char(a))
        invariant
            a <= n,
            n == s@.len(),
            forall|i: int| 0 <= i < a ==> is_ws_char(#[trigger] s@[i]),
        decreases n - a,
    {
        a = a + 1;
    }
    proof {
        assert(a == ws_prefix_len(s@));
    }
    if a == n {
        return String::new();
    }
    let mut b: usize = n;
    while b > a && is_ws_exec(s.get_char(b - 1))
        invariant
            a <= b <= n,
            n == s@.len(),
            forall|i: int| b <= i < n ==> is_ws_char(#[trigger] s@[i]),
        decreases b,
    {
        b = b - 1;
    }
    proof {
        assert(b > a) by {
            if b == a {
                assert(is_ws_char(s@[a as int]));
            }
        }
        assert(b == n - ws_suffix_len(s@)) by {
            if b < n - ws_suffix_len(s@) {
                assert(is_ws_char(s@[b - 1]));
            }
            if b > n - ws_suffix_len(s@) {
                assert(is_ws_char(s@[s@.len() - 1 - ws_suffix_len(s@)]));
            }
        }
    }
    let t = s.substring_char(a, b);
    t.to_owned()
}

/// Whether `c` is trimmed away, decided at run time.
fn is_ws_exec(c: char) -> (r: bool)
    ensures
        r == is_ws_char(c),
{
    c == ' ' || c == '\t' || c == '\n' || c == '\r' || c == '\u{b}' || c == '\u{c}'
}

/// `None` for a blank or comment line, else the trimmed token.
pub open spec fn spec_classify(line: Seq<char>) -> Option<Seq<char>> {
    let t = spec_trim(line);
    if t.len() == 0 || (t.len() >= 2 && t[0] == '/' && t[1] == '/') {
        None
    } else {
        Some(t)
    }
}

/// Trims a line and drops it when it is blank or a `//` comment.
fn classify_line(line: &str) -> (r: Option<String>)
    ensures
        match (r, spec_classify(line@)) {
            (Some(t), Some(st)) => t@ == st,
            (None, None) => true,
            _ => false,
        },
{
    let t = trim_line(line);
    let n = t.as_str().unicode_len();
    if n == 0 {
        return None;
    }
    if n >= 2 && t.as_str().get_char(0) == '/' && t.as_str().get_char(1) == '/' {
        return None;
    }
    Some(t)
}

// ---------------------------------------------------------------------------
// Symbol names and decimal constants.
// ---------------------------------------------------------------------------
/// A character that may open a symbol name: a letter, `_`, `.`, `$` or `:`.
pub open spec fn is_symbol_start_char(c: char) -> bool {
    ('A' as u32) <= (c as u32) && (c as u32) <= ('Z' as u32) || ('a' as u32) <= (c as u32) && (
    c as u32) <= ('z' as u32) || c == '_' || c == '.' || c == '$' || c == ':'
}

/// A decimal digit.
pub open spec fn is_digit_char(c: char) -> bool {
    ('0' as u32) <= (c as u32) && (c as u32) <= ('9' as u32)
}

/// A character that may continue a symbol name.
pub open spec fn is_symbol_char(c: char) -> bool {
    is_symbol_start_char(c) || is_digit_char(c)
}

/// A well-formed symbol name: non-empty, opening with a non-digit symbol
/// character, continuing with symbol characters.
pub open spec fn is_valid_symbol(s: Seq<char>) -> bool {
    &&& s.len() > 0
    &&& is_symbol_start_char(s[0])
    &&& forall|i: int| 1 <= i < s.len() ==> is_symbol_char(#[trigger] s[i])
}

/// A non-empty run of decimal digits.
pub open spec fn is_digits(s: Seq<char>) -> bool {
    s.len() > 0 && forall|i: int| 0 <= i < s.len() ==> is_digit_char(#[trigger] s[i])
}

/// The number the digits denote.
pub open spec fn digits_val(s: Seq<char>) -> nat
    decreases s.len(),
{
    if s.len() == 0 {
        0
    } else {
        (digits_val(s.drop_last()) * 10 + (s.last() as u32 - '0' as u32)) as nat
    }
}

/// `digits_val`, cut off at 32768: large operands only ever need to be told
/// apart from the 15-bit ones.
pub open spec fn digits_val_capped(s: Seq<char>) -> nat {
    if digits_val(s) > 32768 {
        32768
    } else {
        digits_val(s)
    }
}

fn is_symbol_start_exec(c: char) -> (r: bool)
    ensures
        r == is_symbol_start_char(c),
{
    let u = c as u32;
    ('A' as u32) <= u && u <= ('Z' as u32) || ('a' as u32) <= u && u <= ('z' as u32) || c == '_'
        || c == '.' || c == '$' || c == ':'
}

fn is_digit_exec(c: char) -> (r: bool)
    ensures
        r == is_digit_char(c),
{
    let u = c as u32;
    ('0' as u32) <= u && u <= ('9' as u32)
}

/// Checks a token against the symbol-name pattern.
fn check_symbol(s: &str) -> (r: bool)
    ensures
        r == is_valid_symbol(s@),
{
    let n = s.unicode_len();
    if n == 0 {
        return false;
    }
    if !is_symbol_start_exec(s.get_char(0)) {
        return false;
    }
    let mut i: usize = 1;
    while i < n
        invariant
            1 <= i <= n,
            n == s@.len(),
            is_symbol_start_char(s@[0]),
            forall|j: int| 1 <= j < i ==> is_symbol_char(#[trigger] s@[j]),
        decreases n - i,
    {
        let c = s.get_char(i);
        if !(is_symbol_start_exec(c) || is_digit_exec(c)) {
            return false;
        }
        i = i + 1;
    }
    true
}

/// Checks that a token is a non-empty run of digits.
fn check_digits(s: &str) -> (r: bool)
    ensures
        r == is_digits(s@),
{
    let n = s.unicode_len();
    if n == 0 {
        return false;
    }
    let mut i: usize = 0;
    while i < n
        invariant
            i <= n,
            n == s@.len(),
            forall|j: int| 0 <= j < i ==> is_digit_char(#[trigger] s@[j]),
        decreases n - i,
    {
        if !is_digit_exec(s.get_char(i)) {
            return false;
        }
        i = i + 1;
    }
    true
}

/// Reads a run of digits as a number, cut off at 32768.
fn digits_value_capped(s: &str) -> (v: usize)
    requires
        is_digits(s@),
    ensures
        v == digits_val_capped(s@),
{
    let n = s.unicode_len();
    let mut v: usize = 0;
    let mut i: usize = 0;
    while i < n
        invariant
            i <= n,
            n == s@.len(),
            is_digits(s@),
            v == digits_val_capped(s@.take(i as int)),
        decreases n - i,
    {
        let c = s.get_char(i);
        let d = (c as u32 - '0' as u32) as usize;
        proof {
            assert(s@.take(i as int + 1).drop_last() =~= s@.take(i as int));
            assert(s@.take(i as int + 1).last() == s@[i as int]);
        }
        v = v * 10 + d;
        if v > 32768 {
            v = 32768;
        }
        i = i + 1;
    }
    proof {
        assert(s@.take(n as int) =~= s@);
    }
    v
}

// ---------------------------------------------------------------------------
// String helpers.
// ---------------------------------------------------------------------------
/// Character-for-character equality of two string slices.
fn str_eq(a: &str, b: &str) -> (r: bool)
    ensures
        r == (a@ == b@),
{
    let n = a.unicode_len();
    if n != b.unicode_len() {
        return false;
    }
    let mut i: usize = 0;
    while i < n
        invariant
            i <= n,
            n == a@.len() == b@.len(),
            forall|j: int| 0 <= j < i ==> a@[j] == b@[j],
        decreases n - i,
    {
        if a.get_char(i) != b.get_char(i) {
            return false;
        }
        i = i + 1;
    }
    proof {
        assert(a@ =~= b@);
    }
    true
}

/// The position of the first occurrence of `c` in `s`.
pub open spec fn first_index_of(s: Seq<char>, c: char) -> Option<nat>
    decreases s.len(),
{
    if s.len() == 0 {
        None
    } else if s[0] == c {
        Some(0)
    } else {
        match first_index_of(s.drop_first(), c) {
            Some(i) => Some((i + 1) as nat),
            None => None,
        }
    }
}

proof fn lemma_first_index_found(s: Seq<char>, c: char, i: int)
    requires
        0 <= i < s.len(),
        s[i] == c,
        forall|j: int| 0 <= j < i ==> s[j] != c,
    ensures
        first_index_of(s, c) == Some(i as nat),
    decreases i,
{
    if i > 0 {
        assert forall|j: int| 0 <= j < i - 1 implies s.drop_first()[j] != c by {
            assert(s.drop_first()[j] == s[j + 1]);
        }
        assert(s.drop_first()[i - 1] == s[i]);
        lemma_first_index_found(s.drop_first(), c, i - 1);
    }
}

proof fn lemma_first_index_none(s: Seq<char>, c: char)
    requires
        forall|j: int| 0 <= j < s.len() ==> s[j] != c,
    ensures
        first_index_of(s, c) is None,
    decreases s.len(),
{
    if s.len() > 0 {
        assert forall|j: int| 0 <= j < s.len() - 1 implies s.drop_first()[j] != c by {
            assert(s.drop_first()[j] == s[j + 1]);
        }
        lemma_first_index_none(s.drop_first(), c);
    }
}

/// Finds the first occurrence of `c` in `s`.
fn find_char(s: &str, c: char) -> (r: Option<usize>)
    ensures
        match r {
            Some(i) => first_index_of(s@, c) == Some(i as nat) && i < s@.len() && s@[i as int]
                == c,
            None => first_index_of(s@, c) is None,
        },
{
    let n = s.unicode_len();
    let mut i: usize = 0;
    while i < n
        invariant
            i <= n,
            n == s@.len(),
            forall|j: int| 0 <= j < i ==> s@[j] != c,
        decreases n - i,
    {
        if s.get_char(i) == c {
            proof {
                lemma_first_index_found(s@, c, i as int);
            }
            return Some(i);
        }
        i = i + 1;
    }
    proof {
        lemma_first_index_none(s@, c);
    }
    None
}

// ---------------------------------------------------------------------------
// Token parsing.
// ---------------------------------------------------------------------------
/// A type whose textual form can be parsed; the parse it performs is stated
/// over views by `spec_parse`.
pub trait Parser<T: View>: Sized {
    /// What `parse` returns, for every input.
    spec fn spec_parse(input: Seq<char>) -> Result<T::V, SpecError>;

    fn parse(input: &str) -> (r: ParseResult<T>)
        ensures
            match (r, Self::spec_parse(input@)) {
                (Ok(v), Ok(sv)) => v@ == sv,
                (Err(e), Err(se)) => e@ == se,
                _ => false,
            },
    ;
}

/// The fixed comparison table.
pub open spec fn spec_parse_comparison(s: Seq<char>) -> Result<Comparison, SpecError> {
    if s == "0"@ {
        Ok(Comparison::Zero)
    } else if s == "1"@ {
        Ok(Comparison::One)
    } else if s == "-1"@ {
        Ok(Comparison::MinusOne)
    } else if s == "D"@ {
        Ok(Comparison::D)
    } else if s == "A"@ {
        Ok(Comparison::A)
    } else if s == "!D"@ {
        Ok(Comparison::NotD)
    } else if s == "!A"@ {
        Ok(Comparison::NotA)
    } else if s == "-D"@ {
        Ok(Comparison::MinusD)
    } else if s == "-A"@ {
        Ok(Comparison::MinusA)
    } else if s == "D+1"@ {
        Ok(Comparison::DPlusOne)
    } else if s == "A+1"@ {
        Ok(Comparison::APlusOne)
    } else if s == "D-1"@ {
        Ok(Comparison::DMinusOne)
    } else if s == "A-1"@ {
        Ok(Comparison::AMinusOne)
    } else if s == "D+A"@ {
        Ok(Comparison::DPlusA)
    } else if s == "D-A"@ {
        Ok(Comparison::DMinusA)
    } else if s == "A-D"@ {
        Ok(Comparison::AMinusD)
    } else if s == "D&A"@ {
        Ok(Comparison::DAndA)
    } else if s == "D|A"@ {
        Ok(Comparison::DOrA)
    } else if s == "M"@ {
        Ok(Comparison::M)
    } else if s == "!M"@ {
        Ok(Comparison::NotM)
    } else if s == "-M"@ {
        Ok(Comparison::MinusM)
    } else if s == "M+1"@ {
        Ok(Comparison::MPlusOne)
    } else if s == "M-1"@ {
        Ok(Comparison::MMinusOne)
    } else if s == "D+M"@ {
        Ok(Comparison::DPlusM)
    } else if s == "D-M"@ {
        Ok(Comparison::DMinusM)
    } else if s == "M-D"@ {
        Ok(Comparison::MMinusD)
    } else if s == "D&M"@ {
        Ok(Comparison::DAndM)
    } else if s == "D|M"@ {
        Ok(Comparison::DOrM)
    } else {
        Err(SpecError::InvalidComparison(s))
    }
}

impl Parser<Comparison> for Comparison {
    open spec fn spec_parse(input: Seq<char>) -> Result<Comparison, SpecError> {
        spec_parse_comparison(input)
    }

    fn parse(input: &str) -> ParseResult<Comparison> {
        if str_eq(input, "0") {
            Ok(Comparison::Zero)
        } else if str_eq(input, "1") {
            Ok(Comparison::One)
        } else if str_eq(input, "-1") {
            Ok(Comparison::MinusOne)
        } else if str_eq(input, "D") {
            Ok(Comparison::D)
        } else if str_eq(input, "A") {
            Ok(Comparison::A)
        } else if str_eq(input, "!D") {
            Ok(Comparison::NotD)
        } else if str_eq(input, "!A") {
            Ok(Comparison::NotA)
        } else if str_eq(input, "-D") {
            Ok(Comparison::MinusD)
        } else if str_eq(input, "-A") {
            Ok(Comparison::MinusA)
        } else if str_eq(input, "D+1") {
            Ok(Comparison::DPlusOne)
        } else if str_eq(input, "A+1") {
            Ok(Comparison::APlusOne)
        } else if str_eq(input, "D-1") {
            Ok(Comparison::DMinusOne)
        } else if str_eq(input, "A-1") {
            Ok(Comparison::AMinusOne)
        } else if str_eq(input, "D+A") {
            Ok(Comparison::DPlusA)
        } else if str_eq(input, "D-A") {
            Ok(Comparison::DMinusA)
        } else if str_eq(input, "A-D") {
            Ok(Comparison::AMinusD)
        } else if str_eq(input, "D&A") {
            Ok(Comparison::DAndA)
        } else if str_eq(input, "D|A") {
            Ok(Comparison::DOrA)
        } else if str_eq(input, "M") {
            Ok(Comparison::M)
        } else if str_eq(input, "!M") {
            Ok(Comparison::NotM)
        } else if str_eq(input, "-M") {
            Ok(Comparison::MinusM)
        } else if str_eq(input, "M+1") {
            Ok(Comparison::MPlusOne)
        } else if str_eq(input, "M-1") {
            Ok(Comparison::MMinusOne)
        } else if str_eq(input, "D+M") {
            Ok(Comparison::DPlusM)
        } else if str_eq(input, "D-M") {
            Ok(Comparison::DMinusM)
        } else if str_eq(input, "M-D") {
            Ok(Comparison::MMinusD)
        } else if str_eq(input, "D&M") {
            Ok(Comparison::DAndM)
        } else if str_eq(input, "D|M") {
            Ok(Comparison::DOrM)
        } else {
            Err(ParseError::InvalidComparison(input.to_owned()))
        }
    }
}

/// The fixed destination table, with the two commutative aliases `MD` and
/// `DA`; the empty destination is spelt by leaving `=` out, not by a token.
pub open spec fn spec_parse_destination(s: Seq<char>) -> Result<Destination, SpecError> {
    if s == "M"@ {
        Ok(Destination::M)
    } else if s == "D"@ {
        Ok(Destination::D)
    } else if s == "DM"@ {
        Ok(Destination::DM)
    } else if s == "MD"@ {
        Ok(Destination::DM)
    } else if s == "A"@ {
        Ok(Destination::A)
    } else if s == "AM"@ {
        Ok(Destination::AM)
    } else if s == "AD"@ {
        Ok(Destination::AD)
    } else if s == "DA"@ {
        Ok(Destination::AD)
    } else if s == "ADM"@ {
        Ok(Destination::ADM)
    } else {
        Err(SpecError::InvalidDestination(s))
    }
}

impl Parser<Destination> for Destination {
    open spec fn spec_parse(input: Seq<char>) -> Result<Destination, SpecError> {
        spec_parse_destination(input)
    }

    fn parse(input: &str) -> ParseResult<Destination> {
        if str_eq(input, "M") {
            Ok(Destination::M)
        } else if str_eq(input, "D") {
            Ok(Destination::D)
        } else if str_eq(input, "DM") {
            Ok(Destination::DM)
        } else if str_eq(input, "MD") {
            Ok(Destination::DM)
        } else if str_eq(input, "A") {
            Ok(Destination::A)
        } else if str_eq(input, "AM") {
            Ok(Destination::AM)
        } else if str_eq(input, "AD") {
            Ok(Destination::AD)
        } else if str_eq(input, "DA") {
            Ok(Destination::AD)
        } else if str_eq(input, "ADM") {
            Ok(Destination::ADM)
        } else {
            Err(ParseError::InvalidDestination(input.to_owned()))
        }
    }
}

/// The fixed jump table; the null jump is spelt by leaving `;` out.
pub open spec fn spec_parse_jump(s: Seq<char>) -> Result<Jump, SpecError> {
    if s == "JGT"@ {
        Ok(Jump::JGT)
    } else if s == "JEQ"@ {
        Ok(Jump::JEQ)
    } else if s == "JGE"@ {
        Ok(Jump::JGE)
    } else if s == "JLT"@ {
        Ok(Jump::JLT)
    } else if s == "JNE"@ {
        Ok(Jump::JNE)
    } else if s == "JLE"@ {
        Ok(Jump::JLE)
    } else if s == "JMP"@ {
        Ok(Jump::JMP)
    } else {
        Err(SpecError::InvalidJump(s))
    }
}

impl Parser<Jump> for Jump {
    open spec fn spec_parse(input: Seq<char>) -> Result<Jump, SpecError> {
        spec_parse_jump(input)
    }

    fn parse(input: &str) -> ParseResult<Jump> {
        if str_eq(input, "JGT") {
            Ok(Jump::JGT)
        } else if str_eq(input, "JEQ") {
            Ok(Jump::JEQ)
        } else if str_eq(input, "JGE") {
            Ok(Jump::JGE)
        } else if str_eq(input, "JLT") {
            Ok(Jump::JLT)
        } else if str_eq(input, "JNE") {
            Ok(Jump::JNE)
        } else if str_eq(input, "JLE") {
            Ok(Jump::JLE)
        } else if str_eq(input, "JMP") {
            Ok(Jump::JMP)
        } else {
            Err(ParseError::InvalidJump(input.to_owned()))
        }
    }
}

/// A not-yet-resolved symbol name.
pub struct Symbol1st(pub String);

impl View for Symbol1st {
    type V = Seq<char>;

    open spec fn view(&self) -> Seq<char> {
        self.0@
    }
}

/// Validates a token as a symbol name.
pub open spec fn spec_parse_symbol(s: Seq<char>) -> Result<Seq<char>, SpecError> {
    if is_valid_symbol(s) {
        Ok(s)
    } else {
        Err(SpecError::InvalidSymbol(s))
    }
}

impl Parser<Symbol1st> for Symbol1st {
    open spec fn spec_parse(input: Seq<char>) -> Result<Seq<char>, SpecError> {
        spec_parse_symbol(input)
    }

    fn parse(input: &str) -> ParseResult<Symbol1st> {
        if check_symbol(input) {
            Ok(Symbol1st(input.to_owned()))
        } else {
            Err(ParseError::InvalidSymbol(input.to_owned()))
        }
    }
}

/// A not-yet-resolved A-operand; a constant keeps its digits, so that the
/// range check can name them when it fails.
pub enum Value1st {
    Symbol(Symbol1st),
    Constant(String),
}

impl View for Value1st {
    type V = SpecAValue;

    open spec fn view(&self) -> SpecAValue {
        match self {
            Value1st::Symbol(s) => SpecAValue::Symbol(s@),
            Value1st::Constant(t) => SpecAValue::Constant(t@),
        }
    }
}

/// An A-operand is a run of digits, else a symbol name; a token that looks
/// entirely numeric is never a symbol.
pub open spec fn spec_parse_value(s: Seq<char>) -> Result<SpecAValue, SpecError> {
    if is_digits(s) {
        Ok(SpecAValue::Constant(s))
    } else {
        match spec_parse_symbol(s) {
            Ok(name) => Ok(SpecAValue::Symbol(name)),
            Err(e) => Err(e),
        }
    }
}

impl Parser<Value1st> for Value1st {
    open spec fn spec_parse(input: Seq<char>) -> Result<SpecAValue, SpecError> {
        spec_parse_value(input)
    }

    fn parse(input: &str) -> ParseResult<Value1st> {
        if check_digits(input) {
            return Ok(Value1st::Constant(input.to_owned()));
        }
        match Symbol1st::parse(input) {
            Ok(symbol) => Ok(Value1st::Symbol(symbol)),
            Err(e) => Err(e),
        }
    }
}

/// A parsed line before symbol resolution: an executable instruction or a
/// label declaration.
pub enum Instruction1st {
    C(CInstruction),
    A(Value1st),
    L(Symbol1st),
}

impl View for Instruction1st {
    type V = SpecPre;

    open spec fn view(&self) -> SpecPre {
        match self {
            Instruction1st::C(ci) => SpecPre::C(*ci),
            Instruction1st::A(v) => SpecPre::A(v@),
            Instruction1st::L(s) => SpecPre::L(s@),
        }
    }
}

/// An A-instruction form: the token opens with `@`.
pub open spec fn is_a_form(t: Seq<char>) -> bool {
    t.len() > 0 && t[0] == '@'
}

/// A label form: the token opens with `(` and closes with `)`.
pub open spec fn is_l_form(t: Seq<char>) -> bool {
    t.len() > 0 && t[0] == '(' && t.last() == ')'
}

/// What parsing an `@` token yields.
pub open spec fn spec_parse_a(t: Seq<char>) -> Result<SpecPre, SpecError> {
    match spec_parse_value(t.drop_first()) {
        Ok(v) => Ok(SpecPre::A(v)),
        Err(e) => Err(e),
    }
}

/// What parsing a `(...)` token yields.
pub open spec fn spec_parse_l(t: Seq<char>) -> Result<SpecPre, SpecError> {
    match spec_parse_symbol(t.subrange(1, t.len() - 1)) {
        Ok(name) => Ok(SpecPre::L(name)),
        Err(e) => Err(e),
    }
}

/// What parsing a C-instruction token yields: the part before a first `=` is
/// the destination, the part after a first `;` in the remainder is the jump,
/// and what is left between them is the comparison.
pub open spec fn spec_parse_c(t: Seq<char>) -> Result<SpecPre, SpecError> {
    let dres = match first_index_of(t, '=') {
        Some(p) => spec_parse_destination(t.take(p as int)),
        None => Ok(Destination::Null),
    };
    let rest = match first_index_of(t, '=') {
        Some(p) => t.skip(p as int + 1),
        None => t,
    };
    match dres {
        Err(e) => Err(e),
        Ok(dest) => {
            let jres = match first_index_of(rest, ';') {
                Some(q) => spec_parse_jump(rest.skip(q as int + 1)),
                None => Ok(Jump::Null),
            };
            let ctok = match first_index_of(rest, ';') {
                Some(q) => rest.take(q as int),
                None => rest,
            };
            match jres {
                Err(e) => Err(e),
                Ok(jump) => match spec_parse_comparison(ctok) {
                    Err(e) => Err(e),
                    Ok(comp) => Ok(SpecPre::C(CInstruction { dest, comp, jump })),
                },
            }
        },
    }
}

/// Dispatch over the three token forms.
pub open spec fn spec_parse_token(t: Seq<char>) -> Result<SpecPre, SpecError> {
    if is_a_form(t) {
        spec_parse_a(t)
    } else if is_l_form(t) {
        spec_parse_l(t)
    } else {
        spec_parse_c(t)
    }
}

fn parse_a_instruction(line: &str) -> (r: ParseResult<Option<Instruction1st>>)
    ensures
        !is_a_form(line@) ==> r == Ok::<Option<Instruction1st>, ParseError>(None),
        is_a_form(line@) ==> match (r, spec_parse_a(line@)) {
            (Ok(Some(i)), Ok(si)) => i@ == si,
            (Err(e), Err(se)) => e@ == se,
            _ => false,
        },
{
    let n = line.unicode_len();
    if n == 0 || line.get_char(0) != '@' {
        return Ok(None);
    }
    let rest = line.substring_char(1, n);
    proof {
        assert(rest@ =~= line@.drop_first());
    }
    match Value1st::parse(rest) {
        Ok(v) => Ok(Some(Instruction1st::A(v))),
        Err(e) => Err(e),
    }
}

fn parse_l_instruction(line: &str) -> (r: ParseResult<Option<Instruction1st>>)
    ensures
        !is_l_form(line@) ==> r == Ok::<Option<Instruction1st>, ParseError>(None),
        is_l_form(line@) ==> match (r, spec_parse_l(line@)) {
            (Ok(Some(i)), Ok(si)) => i@ == si,
            (Err(e), Err(se)) => e@ == se,
            _ => false,
        },
{
    let n = line.unicode_len();
    if n == 0 || line.get_char(0) != '(' || line.get_char(n - 1) != ')' {
        return Ok(None);
    }
    let name = line.substring_char(1, n - 1);
    proof {
        assert(name@ =~= line@.subrange(1, line@.len() - 1));
    }
    match Symbol1st::parse(name) {
        Ok(symbol) => Ok(Some(Instruction1st::L(symbol))),
        Err(e) => Err(e),
    }
}

fn parse_c_instruction(line: &str) -> (r: ParseResult<Option<Instruction1st>>)
    ensures
        match (r, spec_parse_c(line@)) {
            (Ok(Some(i)), Ok(si)) => i@ == si,
            (Err(e), Err(se)) => e@ == se,
            _ => false,
        },
{
    let n = line.unicode_len();
    let (dest, cur) = match find_char(line, '=') {
        Some(p) => {
            let dtok = line.substring_char(0, p);
            proof {
                assert(dtok@ =~= line@.take(p as int));
            }
            match Destination::parse(dtok) {
                Ok(d) => {
                    let rest = line.substring_char(p + 1, n);
                    proof {
                        assert(rest@ =~= line@.skip(p + 1));
                    }
                    (d, rest)
                },
                Err(e) => {
                    return Err(e);
                },
            }
        },
        None => (Destination::Null, line),
    };
    let m = cur.unicode_len();
    let (jump, ctok) = match find_char(cur, ';') {
        Some(q) => {
            let jtok = cur.substring_char(q + 1, m);
            proof {
                assert(jtok@ =~= cur@.skip(q + 1));
            }
            match Jump::parse(jtok) {
                Ok(j) => {
                    let ct = cur.substring_char(0, q);
                    proof {
                        assert(ct@ =~= cur@.take(q as int));
                    }
                    (j, ct)
                },
                Err(e) => {
                    return Err(e);
                },
            }
        },
        None => (Jump::Null, cur),
    };
    match Comparison::parse(ctok) {
        Ok(comp) => Ok(Some(Instruction1st::C(CInstruction::new(dest, comp, jump)))),
        Err(e) => Err(e),
    }
}

impl Parser<Instruction1st> for Instruction1st {
    open spec fn spec_parse(input: Seq<char>) -> Result<SpecPre, SpecError> {
        spec_parse_token(input)
    }

    fn parse(line: &str) -> ParseResult<Instruction1st> {
        match parse_a_instruction(line) {
            Ok(Some(instruction)) => {
                return Ok(instruction);
            },
            Err(e) => {
                return Err(e);
            },
            Ok(None) => {},
        }
        match parse_l_instruction(line) {
            Ok(Some(instruction)) => {
                return Ok(instruction);
            },
            Err(e) => {
                return Err(e);
            },
            Ok(None) => {},
        }
        match parse_c_instruction(line) {
            Ok(Some(instruction)) => Ok(instruction),
            Err(e) => Err(e),
            Ok(None) => Err(ParseError::InvalidInstruction(line.to_owned())),
        }
    }
}

// ---------------------------------------------------------------------------
// The symbol table.
// ---------------------------------------------------------------------------
/// The bindings an association list holds; a later entry for a name wins.
pub open spec fn assoc_view(entries: Seq<(String, usize)>) -> Map<Seq<char>, nat>
    decreases entries.len(),
{
    if entries.len() == 0 {
        Map::empty()
    } else {
        assoc_view(entries.drop_last()).insert(entries.last().0@, entries.last().1 as nat)
    }
}

/// A mapping from symbol name to address; an insertion with an existing name
/// overwrites.
pub struct SymbolTable {
    entries: Vec<(String, usize)>,
}

impl View for SymbolTable {
    type V = Map<Seq<char>, nat>;

    closed spec fn view(&self) -> Map<Seq<char>, nat> {
        assoc_view(self.entries@)
    }
}

proof fn lemma_assoc_view_suffix_free(entries: Seq<(String, usize)>, k: Seq<char>, i: int)
    requires
        0 <= i <= entries.len(),
        forall|j: int| i <= j < entries.len() ==> (#[trigger] entries[j]).0@ != k,
    ensures
        assoc_view(entries).contains_key(k) == assoc_view(entries.take(i)).contains_key(k),
        assoc_view(entries).contains_key(k) ==> assoc_view(entries)[k] == assoc_view(
            entries.take(i),
        )[k],
    decreases entries.len() - i,
{
    if i == entries.len() {
        assert(entries.take(i) =~= entries);
    } else {
        lemma_assoc_view_suffix_free(entries, k, i + 1);
        assert(entries.take(i + 1).drop_last() =~= entries.take(i));
        assert(entries.take(i + 1).last() == entries[i]);
    }
}

impl SymbolTable {
    fn new() -> (r: Self)
        ensures
            r@ == Map::<Seq<char>, nat>::empty(),
    {
        SymbolTable { entries: Vec::new() }
    }

    /// Binds `name` to `value`, overwriting any earlier binding.
    fn insert(&mut self, name: String, value: usize)
        ensures
            final(self)@ == old(self)@.insert(name@, value as nat),
    {
        self.entries.push((name, value));
        proof {
            assert(self.entries@.drop_last() =~= old(self).entries@);
        }
    }

    /// Looks a name up; the latest binding wins.
    fn get(&self, name: &str) -> (r: Option<usize>)
        ensures
            match r {
                Some(v) => self@.contains_key(name@) && self@[name@] == v as nat,
                None => !self@.contains_key(name@),
            },
    {
        let n = self.entries.len();
        let mut i: usize = n;
        while i > 0
            invariant
                i <= n,
                n == self.entries@.len(),
                forall|j: int| i <= j < n ==> (#[trigger] self.entries@[j]).0@ != name@,
            decreases i,
        {
            let entry = &self.entries[i - 1];
            if str_eq(entry.0.as_str(), name) {
                proof {
                    lemma_assoc_view_suffix_free(self.entries@, name@, i as int);
                    assert(self.entries@.take(i as int).drop_last() =~= self.entries@.take(
                        i as int - 1,
                    ));
                    assert(self.entries@.take(i as int).last() == self.entries@[i - 1]);
                }
                return Some(entry.1);
            }
            i = i - 1;
        }
        proof {
            lemma_assoc_view_suffix_free(self.entries@, name@, 0);
            assert(self.entries@.take(0) =~= Seq::<(String, usize)>::empty());
        }
        None
    }
}

/// The reserved bindings, added in a fixed order on top of `m`.
pub open spec fn reserved_preload(m: Map<Seq<char>, nat>) -> Map<Seq<char>, nat> {
    m.insert("SP"@, 0).insert("LCL"@, 1).insert("ARG"@, 2).insert("THIS"@, 3).insert(
        "THAT"@,
        4,
    ).insert("SCREEN"@, 16384).insert("KBD"@, 24576).insert("R0"@, 0).insert("R1"@, 1).insert(
        "R2"@,
        2,
    ).insert("R3"@, 3).insert("R4"@, 4).insert("R5"@, 5).insert("R6"@, 6).insert("R7"@, 7).insert(
        "R8"@,
        8,
    ).insert("R9"@, 9).insert("R10"@, 10).insert("R11"@, 11).insert("R12"@, 12).insert(
        "R13"@,
        13,
    ).insert("R14"@, 14).insert("R15"@, 15)
}

/// The table every assembly starts from.
pub open spec fn reserved_table() -> Map<Seq<char>, nat> {
    reserved_preload(Map::empty())
}

/// Preloads the reserved names: SP, LCL, ARG, THIS, THAT, SCREEN, KBD and
/// R0 through R15.
fn insert_default_values(table: &mut SymbolTable)
    ensures
        final(table)@ == reserved_preload(old(table)@),
{
    table.insert("SP".to_owned(), 0);
    table.insert("LCL".to_owned(), 1);
    table.insert("ARG".to_owned(), 2);
    table.insert("THIS".to_owned(), 3);
    table.insert("THAT".to_owned(), 4);
    table.insert("SCREEN".to_owned(), 16384);
    table.insert("KBD".to_owned(), 24576);
    table.insert("R0".to_owned(), 0);
    table.insert("R1".to_owned(), 1);
    table.insert("R2".to_owned(), 2);
    table.insert("R3".to_owned(), 3);
    table.insert("R4".to_owned(), 4);
    table.insert("R5".to_owned(), 5);
    table.insert("R6".to_owned(), 6);
    table.insert("R7".to_owned(), 7);
    table.insert("R8".to_owned(), 8);
    table.insert("R9".to_owned(), 9);
    table.insert("R10".to_owned(), 10);
    table.insert("R11".to_owned(), 11);
    table.insert("R12".to_owned(), 12);
    table.insert("R13".to_owned(), 13);
    table.insert("R14".to_owned(), 14);
    table.insert("R15".to_owned(), 15);
}

// ---------------------------------------------------------------------------
// The two passes.
// ---------------------------------------------------------------------------
/// The views of a sequence of lines.
pub open spec fn views_of_lines(lines: Seq<String>) -> Seq<Seq<char>> {
    lines.map_values(|s: String| s@)
}

/// The views of a sequence of pre-resolution instructions.
pub open spec fn pres_of(s: Seq<Instruction1st>) -> Seq<SpecPre> {
    s.map_values(|p: Instruction1st| p@)
}

/// The tokens the classifier keeps, in order.
pub open spec fn spec_tokens(lines: Seq<Seq<char>>) -> Seq<Seq<char>>
    decreases lines.len(),
{
    if lines.len() == 0 {
        Seq::empty()
    } else {
        spec_tokens(lines.drop_last()) + (match spec_classify(lines.last()) {
            Some(t) => seq![t],
            None => Seq::<Seq<char>>::empty(),
        })
    }
}

/// The state the first pass threads: the table so far, the ROM address of the
/// next executable instruction, and the pre-instructions kept so far.
pub struct P1State {
    pub table: Map<Seq<char>, nat>,
    pub rom: nat,
    pub pre: Seq<SpecPre>,
}

/// Where the first pass starts.
pub open spec fn p1_init(table: Map<Seq<char>, nat>) -> P1State {
    P1State { table, rom: 0, pre: Seq::empty() }
}

/// One token through the first pass: a label binds its name to the current
/// ROM address; an executable instruction advances it.
pub open spec fn p1_step(st: P1State, tok: Seq<char>) -> Result<P1State, SpecError> {
    match spec_parse_token(tok) {
        Err(e) => Err(e),
        Ok(p) => Ok(
            match p {
                SpecPre::L(name) => P1State {
                    table: st.table.insert(name, st.rom),
                    rom: st.rom,
                    pre: st.pre.push(p),
                },
                _ => P1State { table: st.table, rom: st.rom + 1, pre: st.pre.push(p) },
            },
        ),
    }
}

/// The first pass over a token sequence; the first parse error aborts it.
pub open spec fn p1_run(toks: Seq<Seq<char>>, st: P1State) -> Result<P1State, SpecError>
    decreases toks.len(),
{
    if toks.len() == 0 {
        Ok(st)
    } else {
        match p1_run(toks.drop_last(), st) {
            Err(e) => Err(e),
            Ok(s) => p1_step(s, toks.last()),
        }
    }
}

/// The state the second pass threads: the table (growing by fresh variables),
/// the next free RAM address, and the resolved output.
pub struct P2State {
    pub table: Map<Seq<char>, nat>,
    pub cursor: nat,
    pub out: Seq<Instruction>,
}

/// Where the second pass starts: variables are allocated from address 16.
pub open spec fn p2_init(table: Map<Seq<char>, nat>) -> P2State {
    P2State { table, cursor: 16, out: Seq::empty() }
}

/// One pre-instruction through the second pass: labels vanish, constants are
/// range-checked, bound symbols are read from the table, and an unbound
/// symbol is allocated the next free RAM address.
pub open spec fn p2_step(st: P2State, p: SpecPre) -> Result<P2State, SpecError> {
    match p {
        SpecPre::C(ci) => Ok(
            P2State { table: st.table, cursor: st.cursor, out: st.out.push(Instruction::C(ci)) },
        ),
        SpecPre::L(_) => Ok(st),
        SpecPre::A(SpecAValue::Constant(ds)) => if digits_val(ds) <= 32767 {
            Ok(
                P2State {
                    table: st.table,
                    cursor: st.cursor,
                    out: st.out.push(
                        Instruction::A(Value::Constant(digits_val(ds) as usize)),
                    ),
                },
            )
        } else {
            Err(SpecError::InvalidInstruction(ds))
        },
        SpecPre::A(SpecAValue::Symbol(name)) => if st.table.contains_key(name) {
            Ok(
                P2State {
                    table: st.table,
                    cursor: st.cursor,
                    out: st.out.push(
                        Instruction::A(Value::Symbol(Symbol(st.table[name] as usize))),
                    ),
                },
            )
        } else {
            Ok(
                P2State {
                    table: st.table.insert(name, st.cursor),
                    cursor: st.cursor + 1,
                    out: st.out.push(Instruction::A(Value::Symbol(Symbol(st.cursor as usize)))),
                },
            )
        },
    }
}

/// The second pass over the pre-instructions; only an out-of-range constant
/// aborts it.
pub open spec fn p2_run(pre: Seq<SpecPre>, st: P2State) -> Result<P2State, SpecError>
    decreases pre.len(),
{
    if pre.len() == 0 {
        Ok(st)
    } else {
        match p2_run(pre.drop_last(), st) {
            Err(e) => Err(e),
            Ok(s) => p2_step(s, pre.last()),
        }
    }
}

/// How many of the tokens are executable instructions: everything the parser
/// accepts except label declarations. Each one consumes a ROM address.
pub open spec fn executable_count(toks: Seq<Seq<char>>) -> nat
    decreases toks.len(),
{
    if toks.len() == 0 {
        0
    } else {
        executable_count(toks.drop_last()) + (match spec_parse_token(toks.last()) {
            Ok(SpecPre::L(_)) => 0,
            Ok(_) => 1nat,
            Err(_) => 0,
        })
    }
}

/// The ROM address at which the last declaration of `name` stands: the count
/// of executable instructions before it.
pub open spec fn last_label_addr(toks: Seq<Seq<char>>, name: Seq<char>) -> Option<nat>
    decreases toks.len(),
{
    if toks.len() == 0 {
        None
    } else if spec_parse_token(toks.last()) == Ok::<SpecPre, SpecError>(SpecPre::L(name)) {
        Some(executable_count(toks.drop_last()))
    } else {
        last_label_addr(toks.drop_last(), name)
    }
}

/// The symbols the second pass must allocate: referenced in an A-instruction,
/// not bound in `table`, listed once each in first-reference order.
pub open spec fn new_symbols(pre: Seq<SpecPre>, table: Map<Seq<char>, nat>) -> Seq<Seq<char>>
    decreases pre.len(),
{
    if pre.len() == 0 {
        Seq::empty()
    } else {
        let rest = new_symbols(pre.drop_last(), table);
        match pre.last() {
            SpecPre::A(SpecAValue::Symbol(name)) => if !table.contains_key(name) && !rest.contains(
                name,
            ) {
                rest.push(name)
            } else {
                rest
            },
            _ => rest,
        }
    }
}

/// What assembling a token sequence yields.
pub open spec fn spec_assemble_tokens(toks: Seq<Seq<char>>) -> Result<Seq<Instruction>, SpecError> {
    match p1_run(toks, p1_init(reserved_table())) {
        Err(e) => Err(e),
        Ok(st1) => match p2_run(st1.pre, p2_init(st1.table)) {
            Err(e) => Err(e),
            Ok(st2) => Ok(st2.out),
        },
    }
}

/// What assembling a sequence of source lines yields.
pub open spec fn spec_assemble(lines: Seq<Seq<char>>) -> Result<Seq<Instruction>, SpecError> {
    spec_assemble_tokens(spec_tokens(lines))
}

/// Splitting a token sequence splits the first pass.
pub proof fn lemma_p1_run_concat(a: Seq<Seq<char>>, b: Seq<Seq<char>>, st: P1State)
    ensures
        p1_run(a + b, st) == (match p1_run(a, st) {
            Err(e) => Err(e),
            Ok(s) => p1_run(b, s),
        }),
    decreases b.len(),
{
    if b.len() == 0 {
        assert(a + b =~= a);
    } else {
        lemma_p1_run_concat(a, b.drop_last(), st);
        assert((a + b).drop_last() =~= a + b.drop_last());
        assert((a + b).last() == b.last());
    }
}

/// Splitting a pre-instruction sequence splits the second pass.
pub proof fn lemma_p2_run_concat(a: Seq<SpecPre>, b: Seq<SpecPre>, st: P2State)
    ensures
        p2_run(a + b, st) == (match p2_run(a, st) {
            Err(e) => Err(e),
            Ok(s) => p2_run(b, s),
        }),
    decreases b.len(),
{
    if b.len() == 0 {
        assert(a + b =~= a);
    } else {
        lemma_p2_run_concat(a, b.drop_last(), st);
        assert((a + b).drop_last() =~= a + b.drop_last());
        assert((a + b).last() == b.last());
    }
}

/// Classification works line by line.
pub proof fn lemma_spec_tokens_concat(a: Seq<Seq<char>>, b: Seq<Seq<char>>)
    ensures
        spec_tokens(a + b) == spec_tokens(a) + spec_tokens(b),
    decreases b.len(),
{
    if b.len() == 0 {
        assert(a + b =~= a);
        assert(spec_tokens(a) + spec_tokens(b) =~= spec_tokens(a));
    } else {
        lemma_spec_tokens_concat(a, b.drop_last());
        assert((a + b).drop_last() =~= a + b.drop_last());
        assert((a + b).last() == b.last());
        assert(spec_tokens(a) + spec_tokens(b) =~= spec_tokens(a) + (spec_tokens(b.drop_last())
            + (match spec_classify(b.last()) {
            Some(t) => seq![t],
            None => Seq::<Seq<char>>::empty(),
        })));
    }
}

/// A pre-instruction the parser can produce: a constant operand is always a
/// run of digits.
pub open spec fn pre_wf(p: SpecPre) -> bool {
    match p {
        SpecPre::A(SpecAValue::Constant(t)) => is_digits(t),
        _ => true,
    }
}

proof fn lemma_parse_token_wf(t: Seq<char>)
    ensures
        match spec_parse_token(t) {
            Ok(p) => pre_wf(p),
            Err(_) => true,
        },
{
}

proof fn lemma_p1_pre_wf(toks: Seq<Seq<char>>, st: P1State)
    requires
        forall|j: int| 0 <= j < st.pre.len() ==> pre_wf(#[trigger] st.pre[j]),
    ensures
        match p1_run(toks, st) {
            Ok(s) => forall|j: int| 0 <= j < s.pre.len() ==> pre_wf(#[trigger] s.pre[j]),
            Err(_) => true,
        },
    decreases toks.len(),
{
    if toks.len() > 0 {
        lemma_p1_pre_wf(toks.drop_last(), st);
        lemma_parse_token_wf(toks.last());
    }
}

/// First pass over whole lines: classification, parsing, label binding and
/// the ROM counter.
fn parse_lines_1st(lines: Vec<String>) -> (r: ParseResult<(Vec<Instruction1st>, SymbolTable)>)
    ensures
        match r {
            Ok(pair) => {
                &&& match p1_run(spec_tokens(views_of_lines(lines@)), p1_init(reserved_table())) {
                    Ok(st) => st.table == pair.1@ && st.pre == pres_of(pair.0@),
                    Err(_) => false,
                }
                &&& pair.0@.len() <= lines@.len()
            },
            Err(e) => p1_run(spec_tokens(views_of_lines(lines@)), p1_init(reserved_table())) == Err::<
                P1State,
                SpecError,
            >(e@),
        },
{
    let ghost all_views = views_of_lines(lines@);
    let mut instructions: Vec<Instruction1st> = Vec::new();
    let mut table = SymbolTable::new();
    insert_default_values(&mut table);
    let mut line_count: usize = 0;
    let mut idx: usize = 0;
    proof {
        assert(all_views.take(0) =~= Seq::<Seq<char>>::empty());
        assert(pres_of(instructions@) =~= Seq::<SpecPre>::empty());
    }
    while idx < lines.len()
        invariant
            idx <= lines@.len(),
            line_count <= idx,
            instructions@.len() <= idx,
            all_views == views_of_lines(lines@),
            p1_run(spec_tokens(all_views.take(idx as int)), p1_init(reserved_table())) == Ok::<
                P1State,
                SpecError,
            >(P1State { table: table@, rom: line_count as nat, pre: pres_of(instructions@) }),
        decreases lines@.len() - idx,
    {
        let ghost prefix = all_views.take(idx as int);
        let ghost prefix1 = all_views.take(idx as int + 1);
        proof {
            assert(prefix1.drop_last() =~= prefix);
            assert(prefix1.last() == lines@[idx as int]@);
        }
        let line = &lines[idx];
        match classify_line(line.as_str()) {
            None => {
                proof {
                    assert(spec_tokens(prefix1) =~= spec_tokens(prefix));
                }
            },
            Some(tok) => {
                proof {
                    assert(spec_tokens(prefix1) =~= spec_tokens(prefix).push(tok@));
                    assert(spec_tokens(prefix).push(tok@).drop_last() =~= spec_tokens(prefix));
                }
                match Instruction1st::parse(tok.as_str()) {
                    Err(e) => {
                        proof {
                            let toks_p1 = spec_tokens(prefix1);
                            let toks_rest = spec_tokens(all_views.skip(idx as int + 1));
                            lemma_spec_tokens_concat(prefix1, all_views.skip(idx as int + 1));
                            assert(prefix1 + all_views.skip(idx as int + 1) =~= all_views);
                            lemma_p1_run_concat(toks_p1, toks_rest, p1_init(reserved_table()));
                        }
                        return Err(e);
                    },
                    Ok(instruction) => {
                        let ghost prev_pres = pres_of(instructions@);
                        match &instruction {
                            Instruction1st::L(sym) => {
                                table.insert(sym.0.clone(), line_count);
                            },
                            _ => {
                                line_count = line_count + 1;
                            },
                        }
                        instructions.push(instruction);
                        proof {
                            assert(pres_of(instructions@) =~= prev_pres.push(
                                instructions@.last()@,
                            ));
                        }
                    },
                }
            },
        }
        idx = idx + 1;
    }
    proof {
        assert(all_views.take(lines@.len() as int) =~= all_views);
    }
    Ok((instructions, table))
}

/// Second pass: symbol resolution, variable allocation from address 16, and
/// the 15-bit range check on constants.
fn parse_instructions(instruction1sts: Vec<Instruction1st>, table: SymbolTable) -> (r: ParseResult<
    Vec<Instruction>,
>)
    requires
        16 + instruction1sts@.len() <= usize::MAX,
        forall|j: int|
            0 <= j < instruction1sts@.len() ==> pre_wf(#[trigger] instruction1sts@[j]@),
    ensures
        match (r, p2_run(pres_of(instruction1sts@), p2_init(table@))) {
            (Ok(v), Ok(st)) => v@ == st.out,
            (Err(e), Err(se)) => e@ == se,
            _ => false,
        },
{
    let ghost pres = pres_of(instruction1sts@);
    let ghost init_table = table@;
    let mut tbl = table;
    let mut var_idx: usize = 16;
    let mut instructions: Vec<Instruction> = Vec::new();
    let mut i: usize = 0;
    proof {
        assert(pres.take(0) =~= Seq::<SpecPre>::empty());
        assert(instructions@ =~= Seq::<Instruction>::empty());
    }
    while i < instruction1sts.len()
        invariant
            i <= instruction1sts@.len(),
            16 + instruction1sts@.len() <= usize::MAX,
            var_idx <= 16 + i,
            init_table == table@,
            pres == pres_of(instruction1sts@),
            forall|j: int|
                0 <= j < instruction1sts@.len() ==> pre_wf(#[trigger] instruction1sts@[j]@),
            p2_run(pres.take(i as int), p2_init(init_table)) == Ok::<P2State, SpecError>(
                P2State { table: tbl@, cursor: var_idx as nat, out: instructions@ },
            ),
        decreases instruction1sts@.len() - i,
    {
        proof {
            assert(pres.take(i as int + 1).drop_last() =~= pres.take(i as int));
            assert(pres.take(i as int + 1).last() == pres[i as int]);
            assert(pres[i as int] == instruction1sts@[i as int]@);
        }
        let instruction1st = &instruction1sts[i];
        match instruction1st {
            Instruction1st::C(inst) => {
                instructions.push(Instruction::C(*inst));
            },
            Instruction1st::L(_) => {},
            Instruction1st::A(value1st) => {
                match value1st {
                    Value1st::Constant(text) => {
                        let value = digits_value_capped(text.as_str());
                        if value <= 32767 {
                            instructions.push(Instruction::A(Value::Constant(value)));
                        } else {
                            proof {
                                lemma_p2_run_concat(
                                    pres.take(i as int + 1),
                                    pres.skip(i as int + 1),
                                    p2_init(init_table),
                                );
                                assert(pres.take(i as int + 1) + pres.skip(i as int + 1) =~= pres);
                            }
                            return Err(ParseError::InvalidInstruction(text.clone()));
                        }
                    },
                    Value1st::Symbol(symbol) => {
                        match tbl.get(symbol.0.as_str()) {
                            Some(val) => {
                                instructions.push(Instruction::A(Value::Symbol(Symbol(val))));
                            },
                            None => {
                                tbl.insert(symbol.0.clone(), var_idx);
                                instructions.push(Instruction::A(Value::Symbol(Symbol(var_idx))));
                                var_idx = var_idx + 1;
                            },
                        }
                    },
                }
            },
        }
        i = i + 1;
    }
    proof {
        assert(pres.take(instruction1sts@.len() as int) =~= pres);
    }
    Ok(instructions)
}

/// The whole pipeline: classify and parse every line, bind the labels, then
/// resolve every symbolic operand and range-check every constant. The result
/// is a function of the lines alone; the first parse failure is returned.
pub fn parse_lines(lines: Vec<String>) -> (r: ParseResult<Vec<Instruction>>)
    requires
        lines@.len() + 16 <= usize::MAX,
    ensures
        match (r, spec_assemble(views_of_lines(lines@))) {
            (Ok(v), Ok(s)) => v@ == s,
            (Err(e), Err(se)) => e@ == se,
            _ => false,
        },
{
    let ghost toks = spec_tokens(views_of_lines(lines@));
    let (instructions, table) = match parse_lines_1st(lines) {
        Ok(pair) => pair,
        Err(e) => {
            return Err(e);
        },
    };
    proof {
        lemma_p1_pre_wf(toks, p1_init(reserved_table()));
        let st = p1_run(toks, p1_init(reserved_table()))->Ok_0;
        assert forall|j: int| 0 <= j < instructions@.len() implies pre_wf(
            #[trigger] instructions@[j]@,
        ) by {
            assert(pres_of(instructions@)[j] == instructions@[j]@);
            assert(pre_wf(st.pre[j]));
        }
    }
    match parse_instructions(instructions, table) {
        Ok(v) => Ok(v),
        Err(e) => Err(e),
    }
}

} // verus!
