use control::app::{matched_at, newer_at, stale};
use control::catalogue::{fingerprint_of_program, Earlier, Entry, Found, Listing};
use control::program::{ParamId, Program, ProgramName, ProtocolVersion};
use control::shelf::{Bank, ProgramNumber, Shelf, Slot};

fn patch(name: &str, version: u32, fingerprint: [u8; 32], history: Vec<Earlier>) -> Entry {
    Entry {
        id: format!("bass/{}", name.to_lowercase()),
        name: name.to_owned(),
        author: "nyx".to_owned(),
        about: String::new(),
        category: 1,
        collection: None,
        genre: vec![],
        mood: vec![],
        timbre: vec![],
        role: vec![],
        tags: vec![],
        effects: vec![],
        licence: "CC0-1.0".to_owned(),
        icon: [0; 7],
        own_icon: false,
        version,
        fingerprint,
        history,
    }
}

fn sound(name: &str, first: u8) -> Program {
    let mut program = Program::new(ProtocolVersion::V6);
    program.set_name(&ProgramName::new(name).expect("a valid name"));
    program.set(ParamId::from_offset(0).expect("a parameter"), first).expect("in range");
    program
}

fn slot(number: u8) -> Slot {
    Slot { bank: Bank::new(0).expect("A"), number: ProgramNumber::new(number).expect("a number") }
}

#[test]
fn a_fingerprint_is_found_by_the_current_version_before_the_history() {
    let listing = Listing {
        entries: vec![
            patch(
                "Acid",
                3,
                [1; 32],
                vec![
                    Earlier { version: 1, fingerprint: [7; 32] },
                    Earlier { version: 2, fingerprint: [8; 32] },
                    Earlier { version: 3, fingerprint: [1; 32] },
                ],
            ),
            patch("Bell", 1, [9; 32], vec![Earlier { version: 1, fingerprint: [9; 32] }]),
        ],
    };
    assert_eq!(listing.matching(&[1; 32]), Some(Found { patch: 0, version: 3, latest: true }));
    assert_eq!(listing.matching(&[8; 32]), Some(Found { patch: 0, version: 2, latest: false }));
    assert_eq!(listing.matching(&[7; 32]), Some(Found { patch: 0, version: 1, latest: false }));
    assert_eq!(listing.matching(&[9; 32]), Some(Found { patch: 1, version: 1, latest: true }));
    assert_eq!(listing.matching(&[5; 32]), None);
}

#[test]
fn the_first_patch_in_the_listing_that_ever_had_a_fingerprint_wins() {
    let listing = Listing {
        entries: vec![
            patch("Old", 2, [3; 32], vec![Earlier { version: 1, fingerprint: [4; 32] }]),
            patch("New", 1, [4; 32], vec![]),
        ],
    };
    assert_eq!(listing.matching(&[4; 32]), Some(Found { patch: 0, version: 1, latest: false }));
}

#[test]
fn a_fingerprint_is_what_the_library_takes_and_ignores_the_name() {
    let one = sound("Acid Growl", 10);
    let renamed = sound("Something Else", 10);
    let edited = sound("Acid Growl", 11);
    let print = fingerprint_of_program(&one);
    assert_eq!(print, fingerprint_of_program(&renamed), "a renamed sound is the same sound");
    assert_ne!(print, fingerprint_of_program(&edited), "an edited sound is another sound");

    let theirs = deepmind_midi::program::Program::from_bytes(
        deepmind_midi::ids::ProtocolVersion::V6,
        one.as_bytes(),
    )
    .expect("a program");
    assert_eq!(&print, deepmind_patches::Fingerprint::of(&theirs).as_bytes());
}

#[test]
fn the_shelf_counts_the_sounds_published_anew_since() {
    let old = sound("Acid Growl", 10);
    let current = sound("Bell Tower", 20);
    let unknown = sound("Mine", 30);
    let mut shelf = Shelf::new();
    shelf.begin(Bank::new(0).expect("A"), 3);
    shelf.arrived(slot(0), old.copied());
    shelf.arrived(slot(1), current.copied());
    shelf.arrived(slot(2), unknown.copied());

    let listing = Listing {
        entries: vec![
            patch(
                "Acid Growl",
                2,
                [2; 32],
                vec![Earlier { version: 1, fingerprint: fingerprint_of_program(&old) }],
            ),
            patch("Bell Tower", 5, fingerprint_of_program(&current), vec![]),
        ],
    };

    assert_eq!(matched_at(&shelf, Some(&listing), 0), Some(Found { patch: 0, version: 1, latest: false }));
    assert_eq!(matched_at(&shelf, Some(&listing), 1), Some(Found { patch: 1, version: 5, latest: true }));
    assert_eq!(matched_at(&shelf, Some(&listing), 2), None);
    assert_eq!(matched_at(&shelf, Some(&listing), 3), None);
    assert_eq!(newer_at(&shelf, Some(&listing), 0), Some(0));
    assert_eq!(newer_at(&shelf, Some(&listing), 1), None);
    assert_eq!(newer_at(&shelf, Some(&listing), 2), None);
    assert_eq!(stale(&shelf, Some(&listing)), 1);
    assert_eq!(stale(&shelf, None), 0);
    assert_eq!(matched_at(&shelf, None, 0), None);
}
