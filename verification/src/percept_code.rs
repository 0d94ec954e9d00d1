//! How actions and percepts are written in bits, so that a predictor can
//! absorb them: every number in a fixed count of bits, most significant bit
//! first.

use crate::bitstring::{
    binary_expansion, denoted_value, lemma_expansion_is_shortest, low_bit, Bit,
    Bitstring,
};
use crate::environment::EnvironmentInfo;
use crate::types::{Action, Observation, Percept, SingleReward};
use vstd::arithmetic::power2::{lemma2_to64, lemma_pow2_strictly_increases, lemma_pow2_unfold, pow2};
use vstd::prelude::*;

verus! {

/// The number of bits that an observation is written in.
pub const OBSERVATION_BITS: usize = 16;

/// The `width` lowest binary digits of `value`, most significant first.
pub open spec fn fixed_width_bits(value: nat, width: nat) -> Seq<Bit>
    decreases width,
{
    if width == 0 {
        Seq::empty()
    } else {
        fixed_width_bits(value / 2, (width - 1) as nat).push(low_bit(value))
    }
}

/// A number that `width` bits can hold is the number that its `width`
/// digits denote.
pub proof fn lemma_fixed_width_denotes(value: nat, width: nat)
    requires
        value < pow2(width),
    ensures
        fixed_width_bits(value, width).len() == width,
        denoted_value(fixed_width_bits(value, width)) == value,
    decreases width,
{
    if width == 0 {
        lemma2_to64();
    } else {
        lemma_pow2_unfold(width);
        lemma_fixed_width_denotes(value / 2, (width - 1) as nat);
        let bits = fixed_width_bits(value, width);
        assert(bits.drop_last() == fixed_width_bits(value / 2, (width - 1) as nat));
        assert(bits.last() == low_bit(value));
    }
}

/// Bits denote a number that their count can hold, and the digits of that
/// number, in that count, are the bits.
pub proof fn lemma_denoted_fixed_width(bits: Seq<Bit>)
    ensures
        denoted_value(bits) < pow2(bits.len()),
        fixed_width_bits(denoted_value(bits), bits.len()) == bits,
    decreases bits.len(),
{
    if bits.len() == 0 {
        lemma2_to64();
    } else {
        lemma_pow2_unfold(bits.len());
        lemma_denoted_fixed_width(bits.drop_last());
        let value = denoted_value(bits);
        assert(value / 2 == denoted_value(bits.drop_last()));
        assert(low_bit(value) == bits.last());
        assert(bits.drop_last().push(bits.last()) == bits);
    }
}

/// The digits of a number have the count asked for.
pub proof fn lemma_fixed_width_len(value: nat, width: nat)
    ensures
        fixed_width_bits(value, width).len() == width,
    decreases width,
{
    if width > 0 {
        lemma_fixed_width_len(value / 2, (width - 1) as nat);
    }
}

/// The number of bits that the numbers from zero up to `greatest` can be
/// written in.
pub fn width_of(greatest: u64) -> (width: usize)
    ensures
        width == binary_expansion(greatest as nat).len(),
        1 <= width <= 64,
        greatest < pow2(width as nat),
{
    proof {
        lemma_expansion_is_shortest(greatest as nat);
        lemma2_to64();
        let length = binary_expansion(greatest as nat).len();
        if length > 64 {
            lemma_pow2_strictly_increases(64, (length - 1) as nat);
        }
    }
    Bitstring::create_from_u64(greatest).len()
}

/// The `width` lowest binary digits of `value`, most significant first.
pub fn write_number(value: u64, width: usize) -> (bits: Bitstring)
    ensures
        bits@ == fixed_width_bits(value as nat, width as nat),
{
    let mut bits: Vec<Bit> = Vec::new();
    let mut remaining: u64 = value;
    let mut written: usize = 0;
    while written < width
        invariant
            written <= width,
            fixed_width_bits(value as nat, width as nat) == fixed_width_bits(
                remaining as nat,
                (width - written) as nat,
            ) + bits@,
        decreases width - written,
    {
        let bit = if remaining % 2 == 1 {
            Bit::One
        } else {
            Bit::Zero
        };
        proof {
            let rest = fixed_width_bits((remaining / 2) as nat, (width - written - 1) as nat);
            assert(fixed_width_bits(remaining as nat, (width - written) as nat) == rest.push(bit));
            assert(rest.push(bit) + bits@ == rest + bits@.insert(0, bit));
        }
        bits.insert(0, bit);
        remaining = remaining / 2;
        written = written + 1;
    }
    assert(fixed_width_bits(remaining as nat, 0) + bits@ == bits@);
    Bitstring::create_from_bits(bits)
}

/// The number that the bits from place `start` up to, but not including,
/// place `end` denote.
pub fn read_number(bits: &Bitstring, start: usize, end: usize) -> (value: u64)
    requires
        start <= end <= bits@.len(),
        end - start <= 64,
    ensures
        value == denoted_value(bits@.subrange(start as int, end as int)),
{
    let mut value: u64 = 0;
    let mut i: usize = start;
    assert(bits@.subrange(start as int, start as int) == Seq::<Bit>::empty());
    while i < end
        invariant
            start <= i <= end <= bits@.len(),
            end - start <= 64,
            value == denoted_value(bits@.subrange(start as int, i as int)),
        decreases end - i,
    {
        let bit = bits.bit(i);
        proof {
            let longer = bits@.subrange(start as int, i + 1);
            assert(longer.drop_last() == bits@.subrange(start as int, i as int));
            assert(longer.last() == bit);
            lemma_denoted_fixed_width(longer);
            lemma2_to64();
            if longer.len() < 64 {
                lemma_pow2_strictly_increases(longer.len(), 64);
            }
        }
        value = 2 * value + match bit {
            Bit::Zero => 0,
            Bit::One => 1,
        };
        i = i + 1;
    }
    value
}

/// The number of bits that an action of the environment is written in.
pub open spec fn spec_action_bits(info: EnvironmentInfo) -> nat {
    if info@.num_actions > 0 {
        binary_expansion((info@.num_actions - 1) as nat).len()
    } else {
        1
    }
}

/// The number of bits that a reward of the environment is written in.
pub open spec fn spec_reward_bits(info: EnvironmentInfo) -> nat {
    if info.spec_reward_range() > 0 {
        binary_expansion(info.spec_reward_range() as nat).len()
    } else {
        1
    }
}

/// The number of bits that a percept of the environment is written in.
pub open spec fn spec_percept_bits(info: EnvironmentInfo) -> nat {
    OBSERVATION_BITS as nat + spec_reward_bits(info)
}

/// The writing of an action: its number.
pub open spec fn action_code(action: Action, info: EnvironmentInfo) -> Seq<Bit> {
    fixed_width_bits(action.0 as nat, spec_action_bits(info))
}

/// The writing of a percept: how far the observation lies above the least
/// observation there is, then how far the reward lies above the
/// environment's least reward.
pub open spec fn percept_code(percept: Percept, info: EnvironmentInfo) -> Seq<Bit> {
    fixed_width_bits((percept.0.0 - i16::MIN) as nat, OBSERVATION_BITS as nat) + fixed_width_bits(
        (percept.1.0 - info@.min_reward.0) as nat,
        spec_reward_bits(info),
    )
}

/// The percept that `bits` are read as. Bits that stand for more than the
/// environment's greatest reward are read as the greatest reward.
pub open spec fn percept_read(bits: Seq<Bit>, info: EnvironmentInfo) -> Percept {
    let observation = denoted_value(bits.take(OBSERVATION_BITS as int)) + i16::MIN;
    let above_least = denoted_value(bits.skip(OBSERVATION_BITS as int));
    let reward = if above_least <= info.spec_reward_range() {
        info@.min_reward.0 + above_least
    } else {
        info@.max_reward.0 as int
    };
    Percept(Observation(observation as i16), SingleReward(reward as i16))
}

/// The number of bits that an action of the environment is written in.
pub fn action_bits(info: &EnvironmentInfo) -> (width: usize)
    ensures
        width == spec_action_bits(*info),
        1 <= width <= 64,
{
    let num_actions = info.num_actions();
    if num_actions > 0 {
        width_of((num_actions - 1) as u64)
    } else {
        1
    }
}

/// The number of bits that a reward of the environment is written in.
pub fn reward_bits(info: &EnvironmentInfo) -> (width: usize)
    ensures
        width == spec_reward_bits(*info),
        1 <= width <= 64,
{
    let range = info.reward_range();
    if range > 0 {
        width_of(range as u64)
    } else {
        1
    }
}

/// The number of bits that a percept of the environment is written in.
pub fn percept_bits(info: &EnvironmentInfo) -> (width: usize)
    ensures
        width == spec_percept_bits(*info),
        OBSERVATION_BITS < width <= OBSERVATION_BITS + 64,
{
    OBSERVATION_BITS + reward_bits(info)
}

/// Writes an action of the environment in bits.
pub fn encode_action(action: Action, info: &EnvironmentInfo) -> (bits: Bitstring)
    requires
        info.allows(action),
    ensures
        bits@ == action_code(action, *info),
        bits@.len() == spec_action_bits(*info),
{
    proof {
        lemma_fixed_width_len(action.0 as nat, spec_action_bits(*info));
    }
    write_number(action.0 as u64, action_bits(info))
}

/// Writes a percept in bits. The reward lies within the environment's band.
pub fn encode_percept(percept: Percept, info: &EnvironmentInfo) -> (bits: Bitstring)
    requires
        info@.min_reward.0 <= percept.1.0 <= info@.max_reward.0,
    ensures
        bits@ == percept_code(percept, *info),
        bits@.len() == spec_percept_bits(*info),
{
    let Percept(Observation(observation), SingleReward(reward)) = percept;
    let above_least_observation: u64 = ((observation as i32) - (i16::MIN as i32)) as u64;
    let above_least_reward: u64 = ((reward as i32) - (info.min_reward().0 as i32)) as u64;
    let observation_part = write_number(above_least_observation, OBSERVATION_BITS);
    let reward_part = write_number(above_least_reward, reward_bits(info));
    let mut bits: Vec<Bit> = Vec::new();
    let mut i: usize = 0;
    while i < observation_part.len()
        invariant
            i <= observation_part@.len(),
            bits@ == observation_part@.take(i as int),
        decreases observation_part@.len() - i,
    {
        bits.push(observation_part.bit(i));
        i = i + 1;
        assert(bits@ == observation_part@.take(i as int));
    }
    assert(observation_part@.take(observation_part@.len() as int) == observation_part@);
    let mut j: usize = 0;
    while j < reward_part.len()
        invariant
            j <= reward_part@.len(),
            bits@ == observation_part@ + reward_part@.take(j as int),
        decreases reward_part@.len() - j,
    {
        bits.push(reward_part.bit(j));
        j = j + 1;
        assert(bits@ == observation_part@ + reward_part@.take(j as int));
    }
    assert(reward_part@.take(reward_part@.len() as int) == reward_part@);
    proof {
        lemma_fixed_width_len(above_least_observation as nat, OBSERVATION_BITS as nat);
        lemma_fixed_width_len(above_least_reward as nat, spec_reward_bits(*info));
    }
    Bitstring::create_from_bits(bits)
}

/// Reads a percept from bits.
pub fn decode_percept(bits: &Bitstring, info: &EnvironmentInfo) -> (percept: Percept)
    requires
        bits@.len() == spec_percept_bits(*info),
        info@.min_reward.0 <= info@.max_reward.0,
    ensures
        percept == percept_read(bits@, *info),
        info@.min_reward.0 <= percept.1.0 <= info@.max_reward.0,
{
    let width = percept_bits(info);
    let above_least_observation = read_number(bits, 0, OBSERVATION_BITS);
    let above_least_reward = read_number(bits, OBSERVATION_BITS, width);
    proof {
        assert(bits@.subrange(0, OBSERVATION_BITS as int) == bits@.take(OBSERVATION_BITS as int));
        assert(bits@.subrange(OBSERVATION_BITS as int, width as int) == bits@.skip(
            OBSERVATION_BITS as int,
        ));
        lemma_denoted_fixed_width(bits@.take(OBSERVATION_BITS as int));
        lemma2_to64();
    }
    let observation: i16 = ((above_least_observation as i32) + (i16::MIN as i32)) as i16;
    let range = info.reward_range();
    let reward: i16 = if above_least_reward <= range as u64 {
        ((info.min_reward().0 as i32) + (above_least_reward as i32)) as i16
    } else {
        info.max_reward().0
    };
    Percept(Observation(observation), SingleReward(reward))
}

/// Reading what was written gives the percept back.
pub proof fn lemma_percept_round_trip(percept: Percept, info: EnvironmentInfo)
    requires
        info@.min_reward.0 <= percept.1.0 <= info@.max_reward.0,
    ensures
        percept_code(percept, info).len() == spec_percept_bits(info),
        percept_read(percept_code(percept, info), info) == percept,
{
    let observation_part = fixed_width_bits(
        (percept.0.0 - i16::MIN) as nat,
        OBSERVATION_BITS as nat,
    );
    let above_least = (percept.1.0 - info@.min_reward.0) as nat;
    let reward_part = fixed_width_bits(above_least, spec_reward_bits(info));
    let code = percept_code(percept, info);
    lemma2_to64();
    lemma_fixed_width_denotes((percept.0.0 - i16::MIN) as nat, OBSERVATION_BITS as nat);
    lemma_fixed_width_len(above_least, spec_reward_bits(info));
    assert(above_least < pow2(spec_reward_bits(info))) by {
        if info.spec_reward_range() > 0 {
            lemma_expansion_is_shortest(info.spec_reward_range() as nat);
        }
    }
    lemma_fixed_width_denotes(above_least, spec_reward_bits(info));
    assert(code.take(OBSERVATION_BITS as int) == observation_part);
    assert(code.skip(OBSERVATION_BITS as int) == reward_part);
}

} // verus!
