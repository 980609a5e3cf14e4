use control::app::{By, Chosen, Sorting};
use control::catalogue::{fingerprint_of_program, Earlier, Entry, Listing};
use control::program::{ParamId, Program, ProgramName, ProtocolVersion};
use control::shelf::{Bank, ProgramNumber, Shelf, Slot};
use control::sounds::{laid_out, offered, rows, Row};

fn voiced(name: &str, first: u8) -> Program {
    let mut program = Program::new(ProtocolVersion::V7);
    program.set_name(&ProgramName::new(name).expect("a valid name"));
    program.set(ParamId::from_offset(0).expect("a parameter"), first).expect("in range");
    program
}

fn published(id: &str, name: &str, author: &str, category: u8, version: u32, fingerprint: [u8; 32]) -> Entry {
    Entry {
        id: id.to_owned(),
        name: name.to_owned(),
        author: author.to_owned(),
        about: String::new(),
        category,
        collection: None,
        genre: vec![],
        mood: vec![],
        timbre: vec![],
        role: vec![],
        tags: vec![],
        effects: vec![],
        licence: "CC0-1.0".to_owned(),
        icon: [0; 7],
        own_icon: false,
        version,
        fingerprint,
        history: vec![],
    }
}

fn table() -> (Shelf, Listing) {
    let acid = voiced("Acid Growl", 10);
    let bell = voiced("Bell", 20);
    let mut shelf = Shelf::new();
    let bank = Bank::new(1).expect("B");
    shelf.begin(bank, 2);
    shelf.arrived(Slot { bank, number: ProgramNumber::new(4).expect("5") }, acid.copied());
    shelf.arrived(Slot { bank, number: ProgramNumber::new(9).expect("10") }, bell);
    let mut first = published("bass/acid-growl-nyx", "Acid Growl", "nyx", 1, 2, [2; 32]);
    first.about = "A squelch".to_owned();
    first.mood = vec!["dark".to_owned()];
    first.timbre = vec!["warm".to_owned()];
    first.role = vec!["bass".to_owned()];
    first.genre = vec!["techno".to_owned()];
    first.history = vec![Earlier { version: 1, fingerprint: fingerprint_of_program(&acid) }];
    let second = published("pads/zed-pad-ann", "Zed Pad", "ann", 2, 3, [3; 32]);
    (shelf, Listing { entries: vec![first, second] })
}

fn column(row: &Row, by: By) -> String {
    row.said_in(by)
}

#[test]
fn every_column_says_what_it_shows() {
    let (shelf, listing) = table();
    let all = rows(&shelf, Some(&listing));
    assert_eq!(all.len(), 4);

    let acid = &all[0];
    assert_eq!(column(acid, By::Where), "Synth");
    assert_eq!(column(acid, By::Bank), "B");
    assert_eq!(column(acid, By::Number), "005");
    assert_eq!(column(acid, By::Name), "Acid Growl");
    assert_eq!(column(acid, By::Maker), "nyx", "a recognised program borrows the patch's maker");
    assert_eq!(column(acid, By::Tags), "dark warm bass techno");
    assert_eq!(column(acid, By::Version), "v1 behind");
    assert_eq!(column(acid, By::About), "A squelch");
    assert_eq!(acid.newest(), 2);
    assert_eq!(acid.chosen(), Chosen::Held(0));

    let bell = &all[1];
    assert_eq!(column(bell, By::Number), "010");
    assert_eq!(column(bell, By::Maker), "");
    assert_eq!(column(bell, By::Version), "");
    assert_eq!(column(bell, By::Tags), "");
    assert_eq!(bell.newest(), 0);

    let published_acid = &all[2];
    assert_eq!(column(published_acid, By::Where), "Library");
    assert_eq!(column(published_acid, By::Bank), "");
    assert_eq!(column(published_acid, By::Category), "Bass");
    assert_eq!(column(published_acid, By::Version), "v2 current");
    assert_eq!(published_acid.chosen(), Chosen::Patch("bass/acid-growl-nyx".to_owned()));
    assert_eq!(column(&all[3], By::Category), "Pad");
}

#[test]
fn a_column_offers_what_is_on_the_table() {
    let (shelf, listing) = table();
    let all = rows(&shelf, Some(&listing));
    assert_eq!(offered(&all, By::Where), vec!["Synth", "Library"]);
    assert_eq!(offered(&all, By::Version), vec!["behind", "current"]);
    assert_eq!(offered(&all, By::Maker), vec!["ann", "nyx"]);
    assert_eq!(offered(&all, By::Bank), vec!["B"]);
    assert_eq!(offered(&all, By::Category), vec!["Bass", "Pad"]);
    let only_shelf = rows(&shelf, None);
    assert_eq!(only_shelf.len(), 2);
    assert_eq!(offered(&only_shelf, By::Where), vec!["Synth"]);
}

#[test]
fn a_table_is_laid_out_by_its_heading_and_ties_keep_their_order() {
    let (shelf, listing) = table();
    let all = rows(&shelf, Some(&listing));
    assert_eq!(laid_out(&all, Sorting { by: By::Name, down: false }), vec![0, 2, 1, 3]);
    assert_eq!(laid_out(&all, Sorting { by: By::Name, down: true }), vec![3, 1, 0, 2]);
    assert_eq!(laid_out(&all, Sorting { by: By::Where, down: false }), vec![0, 1, 2, 3]);
    assert_eq!(laid_out(&all, Sorting { by: By::Where, down: true }), vec![2, 3, 0, 1]);
    assert_eq!(laid_out(&all, Sorting { by: By::Version, down: false }), vec![1, 0, 2, 3]);
}

#[test]
fn the_row_in_hand_is_lit_and_no_other() {
    let (shelf, listing) = table();
    let all = rows(&shelf, Some(&listing));
    let first_held = all[0];
    let second_held = all[1];
    let patch = all[2];
    assert!(control::sounds::lit(&first_held, None, Some(&Chosen::Held(0))));
    assert!(!control::sounds::lit(&second_held, None, Some(&Chosen::Held(0))));
    assert!(!control::sounds::lit(&first_held, None, None));
    let picked = Chosen::Patch("bass/acid-growl-nyx".to_owned());
    assert!(control::sounds::lit(&patch, None, Some(&picked)));
    assert!(!control::sounds::lit(&first_held, None, Some(&picked)));
    assert!(control::sounds::lit(&patch, Some("bass/acid-growl-nyx"), None));
    assert!(!control::sounds::lit(&patch, Some("pads/zed-pad-ann"), None));
    assert!(!control::sounds::lit(&first_held, Some("bass/acid-growl-nyx"), None));
}

#[test]
fn only_a_shared_patch_is_kept_and_only_once_the_sounds_are_here() {
    let (shelf, listing) = table();
    let all = rows(&shelf, Some(&listing));
    assert_eq!(control::sounds::keeps(&all[2], true), Some("bass/acid-growl-nyx".to_owned()));
    assert_eq!(control::sounds::keeps(&all[3], true), Some("pads/zed-pad-ann".to_owned()));
    assert_eq!(control::sounds::keeps(&all[2], false), None);
    assert_eq!(control::sounds::keeps(&all[0], true), None);
}
