//! Ordered sequences of binary symbols, with their encodings as numbers and
//! as text.

use vstd::arithmetic::power2::{lemma2_to64, lemma_pow2_unfold, pow2};
use vstd::prelude::*;

verus! {

/// A binary symbol.
#[derive(Copy, Clone, Debug, PartialEq, Eq, Structural)]
pub enum Bit {
    Zero,
    One,
}

/// Why an operation on a bit sequence was rejected.
#[derive(Copy, Clone, Debug, PartialEq, Eq, Structural)]
pub enum BitstringError {
    /// The text holds a character other than `'0'` and `'1'`.
    InvalidEncoding,
    /// A symbol was asked of a sequence that holds none.
    EmptySequence,
}

/// The lowest binary digit of `value`.
pub open spec fn low_bit(value: nat) -> Bit {
    if value % 2 == 1 {
        Bit::One
    } else {
        Bit::Zero
    }
}

/// The number a single symbol stands for.
pub open spec fn bit_value(bit: Bit) -> nat {
    match bit {
        Bit::Zero => 0,
        Bit::One => 1,
    }
}

/// The binary digits of `value`, most significant first, without a leading
/// zero. Zero has no significant digit.
pub open spec fn significant_bits(value: nat) -> Seq<Bit>
    decreases value,
{
    if value == 0 {
        Seq::empty()
    } else {
        significant_bits(value / 2).push(low_bit(value))
    }
}

/// The shortest big-endian binary writing of `value`; zero is written as the
/// single symbol `Zero`.
pub open spec fn binary_expansion(value: nat) -> Seq<Bit> {
    if value == 0 {
        seq![Bit::Zero]
    } else {
        significant_bits(value)
    }
}

/// The number that `bits` denotes when read as a big-endian binary numeral.
pub open spec fn denoted_value(bits: Seq<Bit>) -> nat
    decreases bits.len(),
{
    if bits.len() == 0 {
        0
    } else {
        2 * denoted_value(bits.drop_last()) + bit_value(bits.last())
    }
}

/// The character a symbol is written as.
pub open spec fn bit_char(bit: Bit) -> char {
    match bit {
        Bit::Zero => '0',
        Bit::One => '1',
    }
}

/// Whether `c` is the writing of a symbol.
pub open spec fn is_bit_char(c: char) -> bool {
    c == '0' || c == '1'
}

/// The symbol that `c` is the writing of.
pub open spec fn char_bit(c: char) -> Bit {
    if c == '1' {
        Bit::One
    } else {
        Bit::Zero
    }
}

/// The writing of a sequence: one character per symbol, in order.
pub open spec fn text_of(bits: Seq<Bit>) -> Seq<char> {
    Seq::new(bits.len(), |i: int| bit_char(bits[i]))
}

/// Whether every character of `text` is the writing of a symbol.
pub open spec fn is_bit_text(text: Seq<char>) -> bool {
    forall|i: int| 0 <= i < text.len() ==> is_bit_char(#[trigger] text[i])
}

/// The sequence that `text` is the writing of.
pub open spec fn bits_of_text(text: Seq<char>) -> Seq<Bit> {
    Seq::new(text.len(), |i: int| char_bit(text[i]))
}

/// The expansion of a number denotes that number.
pub proof fn lemma_expansion_denotes_value(value: nat)
    ensures
        denoted_value(binary_expansion(value)) == value,
        denoted_value(significant_bits(value)) == value,
    decreases value,
{
    if value == 0 {
        let single = seq![Bit::Zero];
        assert(single.drop_last() == Seq::<Bit>::empty());
        assert(denoted_value(single.drop_last()) == 0);
        assert(single.last() == Bit::Zero);
    } else {
        lemma_expansion_denotes_value(value / 2);
        let bits = significant_bits(value);
        assert(bits.drop_last() == significant_bits(value / 2));
        assert(bits.last() == low_bit(value));
    }
}

/// The expansion of a positive number starts with `One`, and it is the
/// shortest writing: with `n` symbols it denotes a number from `2^(n-1)` up
/// to, but not including, `2^n`. Zero is written with one symbol.
pub proof fn lemma_expansion_is_shortest(value: nat)
    ensures
        binary_expansion(value).len() >= 1,
        value == 0 ==> binary_expansion(value).len() == 1,
        value > 0 ==> binary_expansion(value)[0] == Bit::One,
        value > 0 ==> pow2((binary_expansion(value).len() - 1) as nat) <= value < pow2(
            binary_expansion(value).len(),
        ),
    decreases value,
{
    if value > 1 {
        lemma_expansion_is_shortest(value / 2);
        let shorter = significant_bits(value / 2);
        assert(significant_bits(value) == shorter.push(low_bit(value)));
        assert(shorter.push(low_bit(value))[0] == shorter[0]);
        lemma_pow2_unfold(shorter.len());
        lemma_pow2_unfold((shorter.len() + 1) as nat);
    } else if value == 1 {
        assert(significant_bits(0) == Seq::<Bit>::empty());
        assert(significant_bits(1) == Seq::<Bit>::empty().push(Bit::One));
        lemma2_to64();
    }
}

/// Writing a sequence and reading the writing gives the sequence back, and
/// reading a text of `'0'` and `'1'` and writing the result gives the text
/// back.
pub proof fn lemma_text_round_trip(bits: Seq<Bit>, text: Seq<char>)
    ensures
        is_bit_text(text_of(bits)),
        bits_of_text(text_of(bits)) == bits,
        is_bit_text(text) ==> text_of(bits_of_text(text)) == text,
{
    assert(bits_of_text(text_of(bits)) =~= bits);
    if is_bit_text(text) {
        assert forall|i: int| 0 <= i < text.len() implies text_of(bits_of_text(text))[i]
            == text[i] by {
            assert(is_bit_char(text[i]));
        }
        assert(text_of(bits_of_text(text)) =~= text);
    }
}

/// An ordered, growable sequence of bits.
pub struct Bitstring {
    bits: Vec<Bit>,
}

impl View for Bitstring {
    type V = Seq<Bit>;

    closed spec fn view(&self) -> Seq<Bit> {
        self.bits@
    }
}

impl Clone for Bitstring {
    fn clone(&self) -> (copy: Self)
        ensures
            copy@ == self@,
    {
        let mut bits: Vec<Bit> = Vec::new();
        let mut i: usize = 0;
        while i < self.bits.len()
            invariant
                i <= self.bits.len(),
                bits@ == self.bits@.take(i as int),
            decreases self.bits.len() - i,
        {
            bits.push(self.bits[i]);
            i += 1;
            assert(bits@ == self.bits@.take(i as int));
        }
        assert(self.bits@.take(self.bits.len() as int) == self.bits@);
        Bitstring { bits }
    }
}

impl Bitstring {
    /// A sequence without symbols.
    pub fn new() -> (result: Self)
        ensures
            result@ == Seq::<Bit>::empty(),
    {
        Bitstring { bits: Vec::new() }
    }

    /// A sequence without symbols.
    pub fn create_empty() -> (result: Self)
        ensures
            result@ == Seq::<Bit>::empty(),
    {
        Bitstring::new()
    }

    /// The sequence with exactly the given symbols.
    pub fn create_from_bits(bits: Vec<Bit>) -> (result: Self)
        ensures
            result@ == bits@,
    {
        Bitstring { bits }
    }

    /// The shortest big-endian binary writing of `value`.
    pub fn create_from_u64(value: u64) -> (result: Self)
        ensures
            result@ == binary_expansion(value as nat),
    {
        if value == 0 {
            let mut bits: Vec<Bit> = Vec::new();
            bits.push(Bit::Zero);
            assert(bits@ == seq![Bit::Zero]);
            return Bitstring::create_from_bits(bits);
        }
        // The digits come out least significant first, so each one goes in
        // front of those found before it.
        let mut bits: Vec<Bit> = Vec::new();
        let mut remaining: u64 = value;
        while remaining > 0
            invariant
                significant_bits(value as nat) == significant_bits(remaining as nat) + bits@,
            decreases remaining,
        {
            let least: u64 = remaining % 2;
            let bit = if least == 1 {
                Bit::One
            } else {
                Bit::Zero
            };
            proof {
                let rest = significant_bits((remaining / 2) as nat);
                assert(significant_bits(remaining as nat) == rest.push(bit));
                assert(rest.push(bit) + bits@ == rest + bits@.insert(0, bit));
            }
            bits.insert(0, bit);
            remaining = remaining / 2;
        }
        assert(significant_bits(0) + bits@ == bits@);
        Bitstring::create_from_bits(bits)
    }

    /// Reads a sequence from its writing. Every character must be `'0'` or
    /// `'1'`.
    pub fn create_from_string(value: &str) -> (result: Result<Self, BitstringError>)
        ensures
            is_bit_text(value@) ==> result.is_ok() && result.unwrap()@ == bits_of_text(value@),
            !is_bit_text(value@) ==> result == Err::<Self, BitstringError>(
                BitstringError::InvalidEncoding,
            ),
    {
        let length = value.unicode_len();
        let mut bits: Vec<Bit> = Vec::new();
        let mut i: usize = 0;
        while i < length
            invariant
                length == value@.len(),
                i <= length,
                is_bit_text(value@.take(i as int)),
                bits@ == bits_of_text(value@.take(i as int)),
            decreases length - i,
        {
            let c = value.get_char(i);
            let bit = if c == '0' {
                Bit::Zero
            } else if c == '1' {
                Bit::One
            } else {
                assert(!is_bit_char(value@[i as int]));
                return Err(BitstringError::InvalidEncoding);
            };
            bits.push(bit);
            i += 1;
            assert(value@.take(i as int) == value@.take(i - 1).push(c));
            assert(bits@ == bits_of_text(value@.take(i as int)));
        }
        assert(value@.take(length as int) == value@);
        Ok(Bitstring::create_from_bits(bits))
    }

    /// The symbols, in order.
    pub fn bits(&self) -> (bits: &Vec<Bit>)
        ensures
            bits@ == self@,
    {
        &self.bits
    }

    /// The number of symbols.
    pub fn len(&self) -> (length: usize)
        ensures
            length == self@.len(),
    {
        self.bits.len()
    }

    /// The symbol at position `i`, counted from the front.
    pub fn bit(&self, i: usize) -> (bit: Bit)
        requires
            i < self@.len(),
        ensures
            bit == self@[i as int],
    {
        self.bits[i]
    }

    /// Appends `bit` at the end.
    pub fn push(&mut self, bit: Bit)
        ensures
            final(self)@ == old(self)@.push(bit),
    {
        self.bits.push(bit);
    }

    /// Removes the last symbol and returns it; an empty sequence has none to
    /// give.
    pub fn pop(&mut self) -> (result: Result<Bit, BitstringError>)
        ensures
            old(self)@.len() > 0 ==> result == Ok::<Bit, BitstringError>(old(self)@.last())
                && final(self)@ == old(self)@.drop_last(),
            old(self)@.len() == 0 ==> result == Err::<Bit, BitstringError>(
                BitstringError::EmptySequence,
            ) && final(self)@ == old(self)@,
    {
        match self.bits.pop() {
            Some(bit) => Ok(bit),
            None => Err(BitstringError::EmptySequence),
        }
    }

    /// The writing of the sequence: `'0'` and `'1'` characters, in order.
    pub fn to_string(&self) -> (text: String)
        ensures
            text@ == text_of(self@),
    {
        let mut text = String::new();
        let mut i: usize = 0;
        while i < self.bits.len()
            invariant
                i <= self.bits.len(),
                text@ == text_of(self.bits@.take(i as int)),
            decreases self.bits.len() - i,
        {
            proof {
                reveal_strlit("0");
                reveal_strlit("1");
            }
            match self.bits[i] {
                Bit::Zero => text.append("0"),
                Bit::One => text.append("1"),
            }
            i += 1;
            assert(text@ == text_of(self.bits@.take(i as int)));
        }
        assert(self.bits@.take(self.bits.len() as int) == self.bits@);
        text
    }
}

} // verus!
