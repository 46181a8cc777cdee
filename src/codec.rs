//! The interpretation of raw memory words: little-endian byte pairs, and the
//! split between literal values and register references.

use vstd::prelude::*;

verus! {

/// Number of distinct literal values; also the size of the word address space.
pub const MODULUS: u16 = 32768;

/// Number of general-purpose registers.
pub const REGISTER_COUNT: u16 = 8;

/// First raw word that is neither a literal nor a register reference.
pub const WORD_LIMIT: u16 = 32776;

/// A raw word in `[0, 32776)`.
pub open spec fn is_valid_word(w: int) -> bool {
    0 <= w < WORD_LIMIT
}

/// The word stored little-endian in the byte pair `(lo, hi)`.
pub open spec fn word_of_bytes(lo: u8, hi: u8) -> int {
    hi as int * 256 + lo as int
}

/// A classified raw word.
#[derive(Debug, Clone, Copy, PartialEq, Eq, Structural)]
pub enum Data {
    LiteralValue(u16),
    Register(usize),
}

/// The classification of a valid raw word.
pub open spec fn classify_spec(w: int) -> Data {
    if w < MODULUS {
        Data::LiteralValue(w as u16)
    } else {
        Data::Register((w - MODULUS) as usize)
    }
}

/// The raw word that a classified value stands for.
pub open spec fn raw_of(d: Data) -> int {
    match d {
        Data::LiteralValue(v) => v as int,
        Data::Register(r) => MODULUS + r,
    }
}

/// A classified value that some raw word stands for.
pub open spec fn data_is_valid(d: Data) -> bool {
    match d {
        Data::LiteralValue(v) => v < MODULUS,
        Data::Register(r) => r < REGISTER_COUNT,
    }
}

/// Why the machine could not go on.
#[derive(Debug, Clone, Copy, PartialEq, Eq, Structural)]
pub enum VmError {
    /// A raw word is `32776` or larger.
    InvalidWord(u16),
    /// The word at the program counter names no instruction.
    UndefinedOpcode(u16),
    /// A literal stands where the instruction writes a register.
    LiteralDestination(u16),
    /// A memory address or a jump target is `32768` or larger.
    AddressOutOfRange(u16),
    /// `pop` found the stack empty.
    EmptyStack,
    /// `mod` by zero.
    DivisionByZero,
}

impl Data {
    pub fn is_register(&self) -> (r: bool)
        ensures
            r == (*self is Register),
    {
        matches!(self, Data::Register(_))
    }

    pub fn is_literal(&self) -> (r: bool)
        ensures
            r == (*self is LiteralValue),
    {
        matches!(self, Data::LiteralValue(_))
    }
}

/// Whether `val` is a literal or a register reference.
pub fn validate_value(val: u16) -> (r: bool)
    ensures
        r == is_valid_word(val as int),
{
    val < WORD_LIMIT
}

/// Composes the word stored little-endian in `byte_pair` (low byte first).
pub fn compose_value(byte_pair: (u8, u8)) -> (r: Result<u16, VmError>)
    ensures
        match r {
            Ok(w) => w as int == word_of_bytes(byte_pair.0, byte_pair.1) && is_valid_word(
                w as int,
            ),
            Err(e) => e == VmError::InvalidWord(word_of_bytes(byte_pair.0, byte_pair.1) as u16)
                && !is_valid_word(word_of_bytes(byte_pair.0, byte_pair.1)),
        },
{
    let lb: u16 = byte_pair.0 as u16;
    let hb: u16 = byte_pair.1 as u16;
    let value: u16 = hb * 256 + lb;
    if validate_value(value) {
        Ok(value)
    } else {
        Err(VmError::InvalidWord(value))
    }
}

/// Splits a valid word into its low and high byte.
pub fn decompose_value(value: u16) -> (r: (u8, u8))
    requires
        is_valid_word(value as int),
    ensures
        r.0 as int == value as int % 256,
        r.1 as int == value as int / 256,
        word_of_bytes(r.0, r.1) == value as int,
{
    let lb: u16 = value % 256;
    let hb: u16 = value / 256;
    (lb as u8, hb as u8)
}

/// Classifies a raw word as a literal or a register reference.
pub fn pack_raw_value(v: u16) -> (r: Result<Data, VmError>)
    ensures
        match r {
            Ok(d) => is_valid_word(v as int) && d == classify_spec(v as int) && data_is_valid(d),
            Err(e) => !is_valid_word(v as int) && e == VmError::InvalidWord(v),
        },
{
    if v < MODULUS {
        Ok(Data::LiteralValue(v))
    } else if v < WORD_LIMIT {
        Ok(Data::Register((v - MODULUS) as usize))
    } else {
        Err(VmError::InvalidWord(v))
    }
}

/// The raw word that a classified value stands for.
pub fn unpack_data_to_raw_address(d: Data) -> (r: u16)
    requires
        data_is_valid(d),
    ensures
        r as int == raw_of(d),
        is_valid_word(r as int),
        classify_spec(r as int) == d,
{
    match d {
        Data::LiteralValue(v) => v,
        Data::Register(r) => MODULUS + r as u16,
    }
}

/// Printable ASCII: the codes from 32 to 126.
pub open spec fn is_printable(c: char) -> bool {
    32 <= c as u32 <= 126
}

/// Whether `c` is a printable ASCII character.
pub fn char_is_printable(c: char) -> (r: bool)
    ensures
        r == is_printable(c),
{
    let code: u32 = c as u32;
    code >= 32 && code <= 126
}

/// Decomposing a valid word and composing the bytes again gives the word back.
pub proof fn lemma_compose_decompose(w: int)
    requires
        is_valid_word(w),
    ensures
        word_of_bytes((w % 256) as u8, (w / 256) as u8) == w,
{
}

} // verus!
