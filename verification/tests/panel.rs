use control::panel::{sits_at, Choice};
use control::program::ParamId;

fn param(which: deepmind_midi::param::ParamId) -> ParamId {
    ParamId::from_offset(which.offset()).expect("in the table")
}

#[test]
fn a_bipolar_value_is_read_about_its_centre_and_not_from_the_floor() {
    let depth = deepmind_midi::param::ParamId::Mod1Depth;
    let deepmind_midi::param::Shape::Bipolar { centre } = depth.shape() else {
        panic!("{depth} is the bipolar one this guards");
    };
    let centre = u8::try_from(centre).unwrap_or_default();

    assert_eq!(sits_at(param(depth), centre), "+0");
    assert_eq!(sits_at(param(depth), centre + 40), "+40");
    assert_eq!(sits_at(param(depth), centre - 12), "-12");
}

#[test]
fn a_unipolar_value_is_still_the_byte() {
    let frequency = param(deepmind_midi::param::ParamId::VcfFrequency);
    assert_eq!(sits_at(frequency, 200), "200");
    assert_eq!(sits_at(frequency, 0), "0");
}

#[test]
fn a_step_of_nothing_is_a_skipped_step_and_not_the_quietest_one() {
    let step = param(deepmind_midi::param::ParamId::SeqStepValue1);

    assert_eq!(step.inactive(), Some(0), "the library says zero skips it");
    assert_eq!(sits_at(step, 0), "skip");
    assert_ne!(sits_at(step, 1), "skip", "and only zero does");
}

#[test]
fn a_choice_past_a_byte_is_stored_as_the_largest_byte() {
    assert_eq!(Choice { value: 12, name: "Twelve" }.byte(), 12);
    assert_eq!(Choice { value: 255, name: "Top" }.byte(), 255);
    assert_eq!(Choice { value: 300, name: "Past" }.byte(), 255);
}

fn every_group() -> Vec<control::patch::Group> {
    (0..control::patch::GROUP_COUNT)
        .map(|index| control::patch::Group::from_index(u8::try_from(index).expect("fits")).expect("a known group"))
        .collect()
}

fn drawn(places: &[control::panel::Place]) -> Vec<Option<u8>> {
    places
        .iter()
        .map(|place| match place {
            control::panel::Place::Name => None,
            control::panel::Place::Slot(parameter) => Some(parameter.offset()),
        })
        .collect()
}

fn expected(group: control::patch::Group, claimed: &[ParamId]) -> Vec<Option<u8>> {
    let routed: Vec<u8> = control::matrix::routed(group).iter().map(|p| p.offset()).collect();
    let stepped: Vec<u8> = control::sequencer::stepped(group).iter().map(|p| p.offset()).collect();
    let claimed: Vec<u8> = claimed.iter().map(|p| p.offset()).collect();
    group
        .parameters()
        .iter()
        .map(|p| p.offset())
        .filter(|o| !routed.contains(o) && !stepped.contains(o) && !claimed.contains(o))
        .filter(|o| *o == 223 || !(223..240).contains(o))
        .map(|o| if o == 223 { None } else { Some(o) })
        .collect()
}

#[test]
fn the_name_is_one_field_where_its_first_character_sits() {
    let named: Vec<_> = every_group()
        .into_iter()
        .filter(|group| group.parameters().iter().any(|p| p.offset() == 223))
        .collect();
    assert!(!named.is_empty(), "some section holds the name");
    for group in named {
        let places = drawn(&control::panel::rack(group, &[]));
        assert_eq!(places.iter().filter(|place| place.is_none()).count(), 1);
        assert!(places.iter().all(|place| !matches!(place, Some(224..=239))));
        assert_eq!(places, expected(group, &[]));
    }
}

#[test]
fn a_table_takes_its_own_parameters_out_of_the_rack_and_leaves_the_rest() {
    for group in every_group() {
        let places = drawn(&control::panel::rack(group, &[]));
        assert_eq!(places, expected(group, &[]), "{}", group.name());
        let routed = control::matrix::routed(group);
        assert!(places.iter().flatten().all(|o| routed.iter().all(|p| p.offset() != *o)));
    }
}

#[test]
fn what_an_engine_claims_has_no_slot() {
    let group = every_group()
        .into_iter()
        .find(|group| control::matrix::routed(*group).is_empty() && control::sequencer::stepped(*group).is_empty() && group.parameters().len() > 2)
        .expect("a plain rack");
    let members = group.parameters();
    let claimed = [members[0], members[2]];
    let places = drawn(&control::panel::rack(group, &claimed));
    assert_eq!(places, expected(group, &claimed));
    assert!(!places.contains(&Some(members[0].offset())));
    assert!(places.contains(&Some(members[1].offset())));
    assert_eq!(places.len(), drawn(&control::panel::rack(group, &[])).len() - 2);
}
