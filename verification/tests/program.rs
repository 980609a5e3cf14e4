use control::program::{NameRefused, OutOfRange, ParamId, Program, ProgramName, ProtocolVersion};

fn param(which: deepmind_midi::param::ParamId) -> ParamId {
    ParamId::from_offset(which.offset()).expect("in the table")
}

#[test]
fn a_name_longer_than_the_field_is_refused() {
    assert_eq!(ProgramName::new("Seventeen letters"), Err(NameRefused::TooLong(17)));
    assert!(ProgramName::new("Sixteen letters!").is_ok());
}

#[test]
fn a_character_the_display_cannot_draw_is_refused() {
    assert_eq!(ProgramName::new("Caf\u{e9}"), Err(NameRefused::Character('\u{e9}')));
    assert_eq!(ProgramName::new("Tab\there"), Err(NameRefused::Character('\t')));
}

#[test]
fn a_name_read_out_of_its_field_stops_at_the_terminator() {
    let name = ProgramName::from_field(b"Bass\0junk");
    assert_eq!(name.to_chars().into_iter().collect::<String>(), "Bass");
    let marked = ProgramName::from_field(&[b'A', 0x07, b'B']);
    assert_eq!(marked.to_chars().into_iter().collect::<String>(), "A?B", "a byte with no glyph is shown as a question mark");
}

#[test]
fn the_protocol_version_is_six_or_seven() {
    assert_eq!(ProtocolVersion::new(6), Some(ProtocolVersion::V6));
    assert_eq!(ProtocolVersion::new(7), Some(ProtocolVersion::V7));
    assert_eq!(ProtocolVersion::new(8), None);
    assert_eq!(ProtocolVersion::V6.program_data_len(), 242);
    assert_eq!(ProtocolVersion::V7.program_data_len(), 245);
}

#[test]
fn a_program_is_its_bytes_and_only_the_right_number_of_them() {
    assert!(Program::from_bytes(ProtocolVersion::V7, &[0; 242]).is_none());
    let program = Program::from_bytes(ProtocolVersion::V6, &[0; 242]).expect("the right length");
    assert_eq!(program.as_bytes().len(), 242);
}

#[test]
fn a_fresh_program_holds_the_floor_of_every_range_like_the_library() {
    let ours = Program::new(ProtocolVersion::V7);
    let theirs = deepmind_midi::program::Program::new(deepmind_midi::ids::ProtocolVersion::V7);
    for parameter in deepmind_midi::param::ParamId::ALL.iter().copied() {
        assert_eq!(ours.get(param(parameter)), theirs.get(parameter), "{}", parameter.name());
    }
}

#[test]
fn a_value_outside_the_range_is_refused_and_changes_nothing() {
    let mut program = Program::new(ProtocolVersion::V7);
    let shape = param(deepmind_midi::param::ParamId::Lfo1Shape);
    let before = program.get(shape);
    match program.set(shape, 7) {
        Err(OutOfRange { parameter, value, max }) => {
            assert_eq!(parameter, shape.offset());
            assert_eq!(value, 7);
            assert_eq!(max, 6);
        }
        Ok(()) => panic!("seven is past the last shape"),
    }
    assert_eq!(program.get(shape), before);
    assert_eq!(program.set_clamped(shape, 7), 6, "bringing it inside its range stores the top");
}

#[test]
fn the_difference_between_two_programs_is_every_parameter_that_moved() {
    let start = Program::new(ProtocolVersion::V7);
    let mut target = Program::new(ProtocolVersion::V7);
    target.set(param(deepmind_midi::param::ParamId::VcfFrequency), 200).expect("in range");
    target.set_name(&ProgramName::new("Bass").expect("a valid name"));
    let moves: Vec<(u8, u8)> = start.changes(&target).iter().map(|(p, v)| (p.offset(), *v)).collect();
    assert_eq!(moves.len(), 5);
    assert_eq!(moves[0], (deepmind_midi::param::ParamId::VcfFrequency.offset(), 200));
    assert!(start.changes(&start).is_empty());
}
