use control::app::{can, file_stem, Action, By, Chosen, Publishing, Sorting, Where};
use control::program::ProgramName;

#[test]
fn a_dot_is_toggled_where_it_was_pressed() {
    let mut said = Publishing::default();
    said.icon[2] |= 1 << 5;
    assert!(said.inked(5, 2));
    assert!(!said.inked(2, 5), "across and down are not the same axis");
    assert!(!said.inked(7, 2), "nothing outside the grid is inked");
}

#[test]
fn nothing_derivable_is_ever_asked_for() {
    let empty = Publishing::default();
    let missing = empty.missing();
    assert_eq!(missing.len(), 4, "{missing:?}");
    let filled = Publishing {
        author: "nyx".to_owned(),
        about: "A sound.".to_owned(),
        licence: "CC0-1.0".to_owned(),
        terms: vec![("role".to_owned(), "bass".to_owned())],
        ..Publishing::default()
    };
    assert!(filled.missing().is_empty());
}

#[test]
fn what_is_missing_is_said_in_order_and_blank_is_missing() {
    let said = Publishing {
        author: "   ".to_owned(),
        about: "A sound.".to_owned(),
        ..Publishing::default()
    };
    assert_eq!(said.missing(), vec!["a maker", "a licence", "at least one term"]);
}

#[test]
fn every_column_that_sorts_is_drawn() {
    for by in By::ALL {
        assert!(!by.heading().is_empty(), "{by:?} has no heading to press");
    }
}

#[test]
fn the_labels_are_the_ones_the_window_prints() {
    assert_eq!(Where::Instrument.label(), "Synth");
    assert_eq!(Where::Machine.label(), "Machine");
    assert_eq!(Where::Library.label(), "Library");
    assert_eq!(Where::ALL, [Where::Instrument, Where::Machine, Where::Library]);
    assert_eq!(Action::Store.label(), "Store\u{2026}");
    assert_eq!(Action::Play.label(), "Play");
    assert_eq!(Action::Export.about(), "Write it out as a `.syx` file of its own.");
    assert_eq!(Action::TOOLBAR, [Action::Edit, Action::Shelve, Action::Store]);
    assert_eq!(By::Number.heading(), "No.");
    assert_eq!(By::Where.heading(), "WHERE");
}

#[test]
fn nearness_puts_the_instrument_first() {
    assert_eq!(Where::Instrument.nearness(), 0);
    assert_eq!(Where::Machine.nearness(), 1);
    assert_eq!(Where::Library.nearness(), 2);
}

#[test]
fn four_columns_pick_and_one_starts_newest() {
    let picking: Vec<By> = By::ALL.into_iter().filter(|by| by.picks()).collect();
    assert_eq!(picking, vec![By::Where, By::Bank, By::Category, By::Version]);
    let newest: Vec<By> = By::ALL.into_iter().filter(|by| by.newest_first()).collect();
    assert_eq!(newest, vec![By::Version]);
    assert_eq!(By::default(), By::Where);
}

#[test]
fn pressing_the_heading_twice_turns_the_table_round_and_back() {
    let start = Sorting::default();
    let once = start.pressed(By::Where);
    assert_eq!(once, Sorting { by: By::Where, down: true });
    assert_eq!(once.pressed(By::Where), start);
}

#[test]
fn a_new_column_starts_from_the_end_it_is_read_from() {
    let turned = Sorting { by: By::Name, down: true };
    assert_eq!(turned.pressed(By::Maker), Sorting { by: By::Maker, down: false });
    assert_eq!(turned.pressed(By::Version), Sorting { by: By::Version, down: true });
}

#[test]
fn a_term_is_turned_on_and_off() {
    let mut said = Publishing::default();
    said.toggle_term("role", "bass");
    said.toggle_term("mood", "dark");
    assert!(said.carries("role", "bass"));
    assert!(said.carries("mood", "dark"));
    assert!(!said.carries("mood", "bass"), "a term is carried on its own axis");
    said.toggle_term("role", "bass");
    assert!(!said.carries("role", "bass"));
    assert_eq!(said.terms, vec![("mood".to_owned(), "dark".to_owned())]);
}

#[test]
fn a_dot_pressed_twice_is_as_it_was() {
    let mut said = Publishing::default();
    said.toggle_dot(3, 4);
    assert!(said.inked(3, 4));
    assert_eq!(said.icon[4], 1 << 3);
    said.toggle_dot(3, 4);
    assert!(!said.inked(3, 4));
    assert_eq!(said.icon, [0; 7]);
    said.toggle_dot(7, 0);
    said.toggle_dot(0, 7);
    assert_eq!(said.icon, [0; 7], "a press outside the grid changes nothing");
}

#[test]
fn a_file_is_called_what_the_sound_is_called() {
    let name = ProgramName::new(" Acid/Growl: 2 ").expect("a valid name");
    assert_eq!(file_stem(&name), "Acid-Growl- 2");
    let punctuation = ProgramName::new("!!!").expect("a valid name");
    assert_eq!(file_stem(&punctuation), "patch", "a name of nothing but punctuation is not a hidden file");
    let nothing = ProgramName::new("   ").expect("a valid name");
    assert_eq!(file_stem(&nothing), "patch");
}

#[test]
fn what_can_be_done_depends_on_what_is_picked() {
    let none: Option<Chosen> = None;
    for action in Action::ALL {
        assert!(!can(&none, action, true, true), "{action:?} with nothing picked");
    }
    let held = Some(Chosen::Held(0));
    let shared = Some(Chosen::Patch("bass/acid".to_owned()));
    assert!(can(&held, Action::Play, false, false));
    assert!(can(&held, Action::Share, false, false));
    assert!(!can(&held, Action::Shelve, true, false), "it is already here");
    assert!(can(&shared, Action::Shelve, true, false));
    assert!(!can(&shared, Action::Shelve, false, false), "no catalogue is held");
    assert!(!can(&held, Action::Store, true, true), "storing is not offered yet");
    assert!(can(&held, Action::Update, false, true));
    assert!(!can(&held, Action::Update, false, false));
}

#[test]
fn what_the_shelf_says_when_a_file_lands_on_it() {
    assert_eq!(control::app::shelved("pack.syx", 1, 0), "pack.syx: 1 program.");
    assert_eq!(control::app::shelved("pack.syx", 12, 1), "pack.syx: 12 programs, and one frame that could not be read.");
    assert_eq!(control::app::shelved("a", 0, 3), "a: 0 programs, and 3 frames that could not be read.");
}

#[test]
fn what_is_said_once_the_shelf_is_up_to_date() {
    assert_eq!(control::app::updated(0, 0), "Everything on the shelf is the published version already.");
    assert_eq!(control::app::updated(3, 1), "1 sound is the published version now.");
    assert_eq!(control::app::updated(3, 2), "2 sounds are the published version now.");
    assert_eq!(control::app::updated(1, 0), "0 sounds are the published version now.");
}
