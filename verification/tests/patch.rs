use control::patch::{Confidence, Group, Patch};
use control::program::{ParamId, Program, ProgramName, ProtocolVersion};

fn param(which: deepmind_midi::param::ParamId) -> ParamId {
    ParamId::from_offset(which.offset()).expect("every parameter is in the table")
}

fn group(which: deepmind_midi::param::Group) -> Group {
    let index = deepmind_midi::param::Group::ALL
        .iter()
        .position(|one| *one == which)
        .expect("every group is listed");
    Group::from_index(u8::try_from(index).expect("fourteen fit in a byte")).expect("a known group")
}

fn name(text: &str) -> ProgramName {
    ProgramName::new(text).expect("a valid name")
}

fn read() -> Patch {
    let mut patch = Patch::new();
    patch.confirm(Program::new(ProtocolVersion::V7));
    patch
}

fn frequency() -> ParamId {
    param(deepmind_midi::param::ParamId::VcfFrequency)
}

#[test]
fn nothing_is_known_before_a_dump() {
    let patch = Patch::new();

    assert!(!patch.is_known());
    assert_eq!(patch.confidence(), Confidence::Unknown);
    assert_eq!(patch.claim(frequency()), Confidence::Unknown);
    assert_eq!(patch.value(frequency()), None);
}

#[test]
fn a_parameter_of_an_unread_sound_cannot_move() {
    let mut patch = Patch::new();

    assert!(!patch.edit(frequency(), 200));
    patch.report(frequency(), 200, true);

    assert_eq!(patch.value(frequency()), None);
}

#[test]
fn an_edit_assumes_one_parameter_and_leaves_the_rest_confirmed() {
    let mut patch = read();

    assert!(patch.edit(frequency(), 200));

    assert_eq!(patch.value(frequency()), Some(200));
    assert_eq!(patch.claim(frequency()), Confidence::Assumed);
    assert_eq!(
        patch.claim(param(deepmind_midi::param::ParamId::VcfResonance)),
        Confidence::Confirmed
    );
    assert_eq!(patch.confidence(), Confidence::Assumed);
}

#[test]
fn setting_a_parameter_where_it_already_is_sends_nothing() {
    let mut patch = read();
    patch.edit(frequency(), 200);

    assert!(!patch.edit(frequency(), 200));
}

#[test]
fn a_dump_confirms_everything_again() {
    let mut patch = read();
    patch.edit(frequency(), 200);

    let mut dumped = Program::new(ProtocolVersion::V7);
    dumped.set(frequency(), 200).expect("in range");
    patch.confirm(dumped);

    assert_eq!(patch.confidence(), Confidence::Confirmed);
    assert_eq!(patch.claim(frequency()), Confidence::Confirmed);
}

#[test]
fn an_exact_report_confirms_the_parameter_it_names() {
    let mut patch = read();

    patch.report(frequency(), 200, true);

    assert_eq!(patch.value(frequency()), Some(200));
    assert_eq!(patch.claim(frequency()), Confidence::Confirmed);
    assert_eq!(patch.confidence(), Confidence::Confirmed);
}

#[test]
fn a_coarse_report_is_an_assumption() {
    let mut patch = read();

    patch.report(frequency(), 200, false);

    assert_eq!(patch.value(frequency()), Some(200));
    assert_eq!(patch.claim(frequency()), Confidence::Assumed);
    assert_eq!(patch.confidence(), Confidence::Assumed);
}

#[test]
fn a_section_is_as_confirmed_as_its_least_confirmed_parameter() {
    let mut patch = Patch::new();
    let vcf = group(deepmind_midi::param::Group::Vcf);

    assert_eq!(patch.claim_of(vcf), Confidence::Unknown);

    patch.confirm(Program::new(ProtocolVersion::V7));
    assert_eq!(patch.claim_of(vcf), Confidence::Confirmed);

    patch.edit(frequency(), 200);
    assert_eq!(patch.claim_of(vcf), Confidence::Assumed);
    assert_eq!(
        patch.claim_of(group(deepmind_midi::param::Group::Lfo1)),
        Confidence::Confirmed
    );
}

#[test]
fn a_name_is_the_characters_it_changed_and_nothing_else() {
    let mut patch = read();

    let moved = patch.rename(name("Bass"));

    assert_eq!(patch.name(), Some(name("Bass")));
    for (parameter, _) in &moved {
        assert_eq!(patch.claim(*parameter), Confidence::Assumed);
    }
    assert_eq!(moved.len(), name("Bass").len());
}

#[test]
fn a_letter_onto_the_end_of_a_name_costs_one_parameter() {
    let mut patch = read();
    patch.rename(name("Bass"));

    let moved = patch.rename(name("Bassy"));

    assert_eq!(moved.len(), 1, "a keystroke moved more than its character");
    assert_eq!(moved.first().map(|&(_, value)| value), Some(b'y'));
}

#[test]
fn renaming_a_program_to_what_it_is_called_sends_nothing() {
    let mut patch = read();
    patch.rename(name("Bass"));

    assert!(patch.rename(name("Bass")).is_empty());
}

#[test]
fn a_shorter_name_clears_the_characters_it_no_longer_uses() {
    let mut patch = read();
    patch.rename(name("Bass Sweep"));

    patch.rename(name("Bass"));

    assert_eq!(
        patch.name().map(|held| held.to_chars().into_iter().collect::<String>()),
        Some("Bass".to_owned())
    );
}

#[test]
fn a_sound_nobody_has_read_cannot_be_named() {
    let mut patch = Patch::new();

    assert!(patch.rename(name("Bass")).is_empty());
    assert_eq!(patch.name(), None);
}

#[test]
fn a_name_is_as_confirmed_as_its_least_confirmed_character() {
    let mut patch = read();
    let characters: Vec<ParamId> = deepmind_midi::program::NAME_PARAMETERS
        .iter()
        .map(|one| param(*one))
        .collect();

    assert_eq!(patch.claim_across(&characters), Confidence::Confirmed);

    patch.rename(name("B"));
    assert_eq!(patch.claim_across(&characters), Confidence::Assumed);
    assert_eq!(patch.claim(frequency()), Confidence::Confirmed);
}

#[test]
fn a_program_from_a_file_is_assumed_throughout() {
    let mut patch = read();

    patch.presume(Program::new(ProtocolVersion::V7));

    assert_eq!(patch.confidence(), Confidence::Assumed);
    assert_eq!(patch.claim(frequency()), Confidence::Assumed);
}

#[test]
fn a_closed_port_leaves_nothing_behind() {
    let mut patch = read();

    patch.forget();

    assert!(!patch.is_known());
    assert_eq!(patch.confidence(), Confidence::Unknown);
}

#[test]
fn an_edit_outside_the_range_is_refused() {
    let mut patch = read();
    let resonance = param(deepmind_midi::param::ParamId::Lfo1Shape);
    let before = patch.value(resonance);

    assert!(!patch.edit(resonance, 7));
    assert_eq!(patch.value(resonance), before);
}

#[test]
fn a_report_touches_its_own_parameter_and_never_raises_the_whole() {
    let mut patch = Patch::new();
    let mut program = Program::new(ProtocolVersion::V7);
    program.set_name(&ProgramName::new("Keep").expect("a valid name"));
    patch.presume(program);
    let one = ParamId::from_offset(0).expect("a parameter");
    let other = ParamId::from_offset(1).expect("a parameter");
    let before = patch.value(other);
    patch.report(one, 40, true);
    assert_eq!(patch.value(one), Some(40));
    assert_eq!(patch.claim(one), Confidence::Confirmed);
    assert_eq!(patch.value(other), before, "another parameter keeps its value");
    assert_eq!(patch.claim(other), Confidence::Assumed, "and its claim");
    assert_eq!(patch.confidence(), Confidence::Assumed, "one confirmed value does not confirm the sound");
}
