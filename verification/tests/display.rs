use deepmind_midi::param::ParamId as P;
use control::name::{addresses, begins, characters, holds};
use control::program::ParamId;
use control::sequencer::{number, played, stepped, steps};
use control::patch::{Group, Patch};
use control::program::{Program, ProtocolVersion};
use control::window::fold;

fn param(which: deepmind_midi::param::ParamId) -> ParamId {
    ParamId::from_offset(which.offset()).expect("in the table")
}

#[test]
fn a_sequencer_is_counted_in_fours() {
    assert_eq!(number(0), "1");
    assert_eq!(number(3), "4");
    assert_eq!(number(31), "32");
    assert_eq!(number(1), "");
    assert_eq!(number(30), "");
}

#[test]
fn a_line_too_long_for_the_glass_is_broken_between_its_words() {
    let folded = fold("open a port and read the sound", 32);

    assert_eq!(folded, vec!["open", "a", "port"]);
}

#[test]
fn a_word_longer_than_the_glass_is_cut_rather_than_hyphenated() {
    assert_eq!(fold("unrecognisable", 20), vec!["un"]);
}

#[test]
fn short_words_share_a_line() {
    assert_eq!(fold("  read   the sound  ", 80), vec!["read the", "sound"]);
    assert_eq!(fold("", 80), Vec::<String>::new());
    assert_eq!(fold("a b", 0), vec!["a", "b"], "a glass too narrow still holds a character");
}

#[test]
fn the_name_is_the_field_the_library_describes() {
    let held = characters();
    assert_eq!(held.len(), deepmind_midi::program::NAME_LEN);
    assert!(
        held.iter().all(|parameter| {
            deepmind_midi::param::ParamId::from_offset(parameter.offset())
                .map(|one| one.group() == deepmind_midi::param::Group::Program)
                .unwrap_or(false)
        }),
        "a character of the name is not in the program's own section"
    );
}

#[test]
fn the_field_holds_one_more_byte_than_the_name_has_characters() {
    assert_eq!(characters().len(), deepmind_midi::program::ProgramName::MAX_CHARS + 1);
}

#[test]
fn the_characters_are_in_the_order_they_are_printed() {
    let offsets: Vec<u8> = characters().iter().map(|parameter| parameter.offset()).collect();
    let mut sorted = offsets.clone();
    sorted.sort_unstable();

    assert_eq!(offsets, sorted);
}

#[test]
fn only_the_name_is_held_and_only_its_first_character_begins_it() {
    assert!(holds(param(P::ProgramNameChar1)));
    assert!(holds(param(P::ProgramNameChar17)));
    assert!(!holds(param(P::ProgramCategory)));
    assert!(!holds(param(P::VcfFrequency)));

    assert!(begins(param(P::ProgramNameChar1)));
    assert!(!begins(param(P::ProgramNameChar2)));
    assert!(!begins(param(P::VcfFrequency)));
}

#[test]
fn the_name_says_the_run_of_addresses_it_takes() {
    assert_eq!(addresses(), "223\u{2013}239");
}

fn group(which: deepmind_midi::param::Group) -> Group {
    let index = deepmind_midi::param::Group::ALL
        .iter()
        .position(|one| *one == which)
        .expect("every group is listed");
    Group::from_index(u8::try_from(index).expect("fits")).expect("a known group")
}

#[test]
fn one_group_is_a_sequencer_and_the_rest_are_racks() {
    assert!(steps(group(deepmind_midi::param::Group::ControlSequencer)).is_some());
    for one in deepmind_midi::param::Group::ALL.iter().copied() {
        if one != deepmind_midi::param::Group::ControlSequencer {
            assert!(steps(group(one)).is_none(), "{one:?} has no steps");
        }
    }
}

#[test]
fn the_sequencer_is_thirty_two_steps_in_the_order_it_plays_them() {
    let steps = steps(group(deepmind_midi::param::Group::ControlSequencer)).expect("the sequencer is one");
    assert_eq!(steps.len(), 32);
    let offsets: Vec<u8> = steps.iter().map(|parameter| parameter.offset()).collect();
    let mut sorted = offsets.clone();
    sorted.sort_unstable();
    assert_eq!(offsets, sorted, "the steps are in the order they are played");
    assert!(
        offsets.windows(2).all(|pair| match pair {
            [first, second] => *second == first + 1,
            _ => false,
        }),
        "and they are one run of addresses"
    );
}

#[test]
fn the_settings_that_are_not_steps_stay_in_the_rack() {
    let sequencer = group(deepmind_midi::param::Group::ControlSequencer);
    let stepped: Vec<u8> = stepped(sequencer).iter().map(|parameter| parameter.offset()).collect();
    let rack: Vec<ParamId> = sequencer
        .parameters()
        .into_iter()
        .filter(|parameter| !stepped.contains(&parameter.offset()))
        .collect();
    assert_eq!(rack.len(), 6);
    assert!(
        rack.iter().all(|parameter| !parameter.name().starts_with("Seq Step Value")),
        "nothing the strip drew is left in the rack"
    );
}

#[test]
fn every_parameter_is_either_a_step_or_a_slot() {
    let sequencer = group(deepmind_midi::param::Group::ControlSequencer);
    let stepped: Vec<u8> = stepped(sequencer).iter().map(|parameter| parameter.offset()).collect();
    let total = sequencer.parameters().len();
    let rack = sequencer
        .parameters()
        .into_iter()
        .filter(|parameter| !stepped.contains(&parameter.offset()))
        .count();
    assert_eq!(stepped.len() + rack, total, "nothing falls between the two");
}

#[test]
fn a_step_is_a_sweep_however_the_table_describes_it() {
    let steps = steps(group(deepmind_midi::param::Group::ControlSequencer)).expect("the sequencer is one");
    for step in steps {
        assert_eq!(step.min(), 0, "{} starts at nothing", step.name());
        assert_eq!(step.max(), 255, "{} is a byte wide", step.name());
        let theirs = deepmind_midi::param::ParamId::from_offset(step.offset()).expect("a parameter");
        if theirs.kind() == deepmind_midi::param::Kind::Switch {
            assert!(step.max() > 1, "{} is the contradiction this guards, not a real switch", step.name());
        }
    }
}

#[test]
fn the_steps_past_the_length_are_not_played() {
    let steps = steps(group(deepmind_midi::param::Group::ControlSequencer)).expect("the sequencer is one");
    let unread = Patch::new();
    assert_eq!(played(&unread, &steps), None, "a length nobody has read says nothing");
    let mut patch = Patch::new();
    patch.confirm(Program::new(ProtocolVersion::V7));
    let length = param(P::SequenceLength);
    let least = u8::try_from(length.min()).expect("a byte");
    patch.edit(length, least + 7);
    assert_eq!(played(&patch, &steps), Some(8));
    patch.edit(length, u8::try_from(length.max()).expect("a byte"));
    assert!(played(&patch, &steps) <= Some(32));
    assert_eq!(played(&patch, &[]), None);
}

#[test]
fn the_reading_under_the_name_says_how_much_of_it_is_used() {
    let name = control::program::ProgramName::new("Bass").expect("a valid name");
    assert_eq!(control::name::reading(&name, true), "4/16");
    assert_eq!(control::name::reading(&name, false), "\u{2014}");
    assert_eq!(control::name::reading(&control::program::ProgramName::empty(), true), "0/16");
}

#[test]
fn the_title_bar_names_the_sound_once_it_has_been_read() {
    let mut patch = Patch::new();
    assert_eq!(control::window::title(&patch), "deepmind control");
    let mut program = control::program::Program::new(control::program::ProtocolVersion::V7);
    program.set_name(&control::program::ProgramName::new(" Bass ").expect("a valid name"));
    patch.presume(program);
    assert_eq!(control::window::title(&patch), "Bass \u{2014} deepmind control");
}
