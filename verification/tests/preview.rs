use control::preview::{draw, sound};
use control::program::ParamId;
use control::sounds::{place_colour, Narrowing, LAMP};
use control::app::Where;

#[test]
fn a_draw_is_the_same_every_time_and_differs_by_step() {
    assert_eq!(draw(7, 3), draw(7, 3));
    assert_ne!(draw(7, 3), draw(7, 4));
    assert_ne!(draw(7, 3), draw(8, 3));
}

#[test]
fn a_draw_is_the_mixer_it_is_written_as() {
    let seed: u64 = 42;
    let step: u32 = 5;
    let mut word = seed
        .wrapping_mul(0x9E37_79B9_7F4A_7C15)
        .wrapping_add(u64::from(step).wrapping_mul(0xBF58_476D_1CE4_E5B9));
    word ^= word >> 30;
    word = word.wrapping_mul(0x94D0_49BB_1331_11EB);
    word ^= word >> 27;
    assert_eq!(draw(seed, step), u32::try_from((word >> 16) & 0xFFFF_FFFF).unwrap_or_default());
}

#[test]
fn a_drawn_sound_is_inside_every_range() {
    let drawn = sound(1234);
    for offset in 0..242u8 {
        let parameter = ParamId::from_offset(offset).expect("in the table");
        let value = u16::from(drawn.get(parameter));
        assert!(parameter.accepts(value), "offset {offset} holds {value}");
    }
    assert_eq!(sound(1234).as_bytes(), drawn.as_bytes(), "a seed gives the same sound back");
}

#[test]
fn the_instrument_is_written_in_the_lamp() {
    assert_eq!(place_colour(Where::Instrument), Some(LAMP));
    assert_eq!(place_colour(Where::Machine), None);
    assert_eq!(place_colour(Where::Library), None);
}

#[test]
fn the_option_that_narrows_nothing_prints_all() {
    let everything = Narrowing::everything();
    assert_eq!(everything.wanted(), "");
    assert_eq!(everything.label(), "All");
    let bass = Narrowing::to("Bass".to_owned());
    assert_eq!(bass.wanted(), "Bass");
    assert_eq!(bass.label(), "Bass");
}
