//! The sounds the pictures of this window are taken holding: drawn from a
//! seed, the same ones every time.

use vstd::prelude::*;
use crate::program::{ParamId, Program, ProtocolVersion, ProgramName, PARAMETER_COUNT, parameter_min, parameter_max, stored, data_len};

verus! {

/// The multiplier that spreads a seed.
pub const SPREAD: u64 = 0x9E37_79B9_7F4A_7C15;

/// The multiplier that spreads a step.
pub const STRIDE: u64 = 0xBF58_476D_1CE4_E5B9;

/// The multiplier that mixes the two.
pub const MIX: u64 = 0x94D0_49BB_1331_11EB;

/// The hash of `seed` and `step`, before it is folded.
pub open spec fn mixed(seed: u64, step: u32) -> u64 {
    let word = seed.wrapping_mul(SPREAD).wrapping_add((step as u64).wrapping_mul(STRIDE));
    let word = word ^ (word >> 30u64);
    let word = word.wrapping_mul(MIX);
    word ^ (word >> 27u64)
}

/// The number drawn for `seed` and `step`: the hash folded onto the half of
/// itself that is wanted.
pub open spec fn draw_spec(seed: u64, step: u32) -> u32 {
    (mixed(seed, step) >> 16u64) as u32
}

/// Returns a number from `seed` and `step`, the same one every time.
pub fn draw(seed: u64, step: u32) -> (drawn: u32)
    ensures
        drawn == draw_spec(seed, step),
{
    let mut word: u64 = seed.wrapping_mul(SPREAD).wrapping_add((step as u64).wrapping_mul(STRIDE));
    word = word ^ (word >> 30u64);
    word = word.wrapping_mul(MIX);
    word = word ^ (word >> 27u64);
    (word >> 16u64) as u32
}

/// The byte drawn for the parameter at `offset` from `seed`: somewhere inside
/// the parameter's own range, as a byte.
pub open spec fn drawn_value(seed: u64, offset: u8) -> u8 {
    let least = parameter_min(offset);
    let most = parameter_max(offset);
    let span: int = (if most >= least { most - least } else { 0 }) + 1;
    let value: int = least + (draw_spec(seed, offset as u32) as int) % span;
    if value <= 255 { value as u8 } else { 255u8 }
}

/// Returns the byte drawn for `parameter` from `seed`.
fn drawn(seed: u64, parameter: ParamId) -> (byte: u8)
    ensures
        byte == drawn_value(seed, parameter@),
{
    let least = parameter.min();
    let most = parameter.max();
    let span: u32 = (if most >= least { most - least } else { 0 }) as u32 + 1;
    let value: u32 = least as u32 + draw(seed, parameter.offset() as u32) % span;
    if value <= 255 { value as u8 } else { 255 }
}

/// The sound drawn from `seed`: every parameter somewhere inside its own
/// range.
pub open spec fn sound_spec(seed: u64) -> Seq<u8> {
    Seq::new(
        data_len(ProtocolVersion::V7),
        |o: int| if o < PARAMETER_COUNT { stored(o as u8, drawn_value(seed, o as u8)) } else { 0u8 },
    )
}

/// Builds the sound a picture is taken holding, from `seed`: every parameter
/// put somewhere inside its own range, so nothing can be a value the
/// instrument would refuse.
pub fn sound(seed: u64) -> (sound: Program)
    ensures
        sound@ == sound_spec(seed),
        sound.version_of() == ProtocolVersion::V7,
{
    let mut sound = Program::new(ProtocolVersion::V7);
    match ProgramName::new("Preview") {
        Ok(name) => sound.set_name(&name),
        Err(_) => {},
    }
    proof {
        assert(sound@.len() == data_len(ProtocolVersion::V7));
        assert(forall|o: int| PARAMETER_COUNT <= o < sound@.len() ==> sound@[o] == 0u8);
    }
    let mut step: usize = 0;
    while step < PARAMETER_COUNT
        invariant
            step <= PARAMETER_COUNT,
            sound@.len() == data_len(ProtocolVersion::V7),
            forall|o: int| PARAMETER_COUNT <= o < sound@.len() ==> sound@[o] == 0u8,
            sound.version_of() == ProtocolVersion::V7,
            forall|o: int| 0 <= o < step ==> sound@[o] == stored(o as u8, drawn_value(seed, o as u8)),
        decreases PARAMETER_COUNT - step,
    {
        let parameter = ParamId::from_offset(step as u8).unwrap();
        let byte = drawn(seed, parameter);
        sound.set_clamped(parameter, byte);
        step = step + 1;
    }
    proof {
        assert(sound@ =~= sound_spec(seed));
    }
    sound
}

/// Where a parameter's range is a range of bytes, the value drawn for it is
/// inside that range: nothing drawn is a value the instrument would refuse.
pub proof fn lemma_drawn_is_accepted(seed: u64, offset: u8)
    requires
        (offset as usize) < PARAMETER_COUNT,
        parameter_min(offset) <= parameter_max(offset) <= 255,
    ensures
        crate::program::accepts(offset, sound_spec(seed)[offset as int] as u16),
{
    let least = parameter_min(offset);
    let most = parameter_max(offset);
    let span: int = most - least + 1;
    let drawn: int = draw_spec(seed, offset as u32) as int;
    assert(0 <= drawn % span < span) by (nonlinear_arith)
        requires span > 0;
}

} // verus!
