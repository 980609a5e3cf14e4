use control::app::Where;
use control::catalogue::{axis_key, chips, rgb, said_about, within, Axis, Catalogue, Entry, Heard, Listing, Looking, Palette, State};

fn entry() -> Entry {
    Entry {
        id: "bass/acid-growl-nyx".to_owned(),
        name: "Acid Growl".to_owned(),
        author: "nyx".to_owned(),
        about: "A squelch that bites.".to_owned(),
        category: 1,
        collection: Some("Basses".to_owned()),
        genre: vec!["techno".to_owned()],
        mood: vec!["dark".to_owned()],
        timbre: vec![],
        role: vec!["bass".to_owned()],
        tags: vec!["303".to_owned()],
        effects: vec!["Chorus".to_owned()],
        licence: "CC0-1.0".to_owned(),
        icon: [1, 2, 3, 4, 5, 6, 7],
        own_icon: true,
        version: 1,
        fingerprint: [0; 32],
        history: vec![],
    }
}

#[test]
fn nothing_out_of_a_catalogue_is_trusted_with_a_path() {
    let root = "/tmp/patches";
    assert!(within(root, "presets/Bass/Acid Growl - nyx.syx").is_some());
    assert!(within(root, "../../../.ssh/id_ed25519").is_none());
    assert!(within(root, "/etc/passwd").is_none());
    assert!(within(root, "presets/../../escape.syx").is_none());
    assert!(within(root, "").is_none());
}

#[test]
fn a_name_that_walks_down_is_joined_onto_the_root() {
    assert_eq!(
        within("/tmp/patches", "presets/Bass/a.syx"),
        Some("/tmp/patches/presets/Bass/a.syx".to_owned())
    );
    assert!(within("/tmp/patches", "./a.syx").is_none());
}

#[test]
fn a_new_catalogue_holds_nothing_and_says_so() {
    let catalogue = Catalogue::new();
    assert_eq!(*catalogue.state(), State::Empty);
    assert!(catalogue.held().is_none());
    assert!(!catalogue.working());
}

#[test]
fn settling_a_catalogue_nobody_asked_anything_of_changes_nothing() {
    let mut catalogue = Catalogue::new();
    assert!(!catalogue.settle(vec![Heard::Index(Listing { entries: vec![entry()] }), Heard::Quiet]));
    assert_eq!(*catalogue.state(), State::Empty);
}

#[test]
fn a_fetch_is_browsable_when_the_index_lands_and_loadable_when_the_bundle_does() {
    let mut catalogue = Catalogue::new();
    assert!(catalogue.fetching());
    assert!(!catalogue.fetching(), "one fetch at a time");
    assert_eq!(*catalogue.state(), State::Working("Asking for the newest patches\u{2026}"));
    assert!(!catalogue.settle(vec![Heard::Quiet]));
    assert!(catalogue.settle(vec![Heard::Index(Listing { entries: vec![entry()] }), Heard::Doing("Downloading the sounds\u{2026}"), Heard::Quiet]));
    assert_eq!(catalogue.held().map(|listing| listing.entries.len()), Some(1), "the index that arrived is held");
    assert!(!catalogue.loadable());
    assert_eq!(*catalogue.state(), State::Working("Downloading the sounds\u{2026}"));
    assert!(catalogue.settle(vec![Heard::Bundle, Heard::Failed("late".to_owned())]));
    assert_eq!(*catalogue.state(), State::Ready);
    assert!(catalogue.loadable());
    assert!(!catalogue.working());
}

#[test]
fn a_fetch_that_goes_before_anything_arrived_says_so() {
    let mut catalogue = Catalogue::new();
    catalogue.fetching();
    assert!(catalogue.settle(vec![Heard::Gone]));
    assert_eq!(*catalogue.state(), State::Failed("the download stopped".to_owned()));
    let mut kept = Catalogue::new();
    kept.fetching();
    kept.settle(vec![Heard::Index(Listing { entries: vec![entry()] }), Heard::Gone]);
    assert_eq!(*kept.state(), State::Ready, "what arrived is still held");
    let mut failed = Catalogue::new();
    failed.fetching();
    assert!(failed.settle(vec![Heard::Failed("no network".to_owned())]));
    assert_eq!(*failed.state(), State::Failed("no network".to_owned()));
}

#[test]
fn an_empty_search_is_not_asking_anything() {
    let mut looking = Looking::default();
    assert!(!looking.asking());
    looking.find = "   ".to_owned();
    assert!(!looking.asking(), "whitespace is not a question");
    looking.find = "pad".to_owned();
    assert!(looking.asking());
    let placed = Looking { place: Some(Where::Library), ..Looking::default() };
    assert!(placed.asking());
}

#[test]
fn a_search_reads_everything_a_patch_says_about_itself() {
    let patch = entry();
    let mut looking = Looking::default();
    assert!(looking.keeps(&patch));
    looking.find = "  SQUELCH ".to_owned();
    assert!(looking.keeps(&patch), "case and padding do not matter");
    looking.find = "basses".to_owned();
    assert!(looking.keeps(&patch), "the collection is searched");
    looking.find = "chorus".to_owned();
    assert!(looking.keeps(&patch), "the effects are searched");
    looking.find = "pads".to_owned();
    assert!(!looking.keeps(&patch));
}

#[test]
fn a_filter_keeps_only_what_carries_it() {
    let patch = entry();
    let category = Looking { category: Some(1), ..Looking::default() };
    assert!(category.keeps(&patch));
    let other = Looking { category: Some(2), ..Looking::default() };
    assert!(!other.keeps(&patch));
    let term = Looking { terms: vec![(Axis::Mood, "dark".to_owned())], ..Looking::default() };
    assert!(term.keeps(&patch));
    let elsewhere = Looking { terms: vec![(Axis::Genre, "dark".to_owned())], ..Looking::default() };
    assert!(!elsewhere.keeps(&patch), "a term is carried on its own axis");
}

#[test]
fn a_patch_says_its_category_both_ways() {
    let said = said_about(&entry());
    assert_eq!(
        said,
        vec![
            "Acid Growl", "nyx", "A squelch that bites.", "Bass", "Bass", "Basses", "techno", "dark", "bass",
            "303", "Chorus",
        ]
    );
    let mut effects = entry();
    effects.category = 7;
    effects.collection = None;
    let said = said_about(&effects);
    assert_eq!(&said[3..5], &["SFX".to_owned(), "Sound Effects".to_owned()]);
}

#[test]
fn a_colour_is_read_or_is_nothing() {
    assert_eq!(rgb("#5DB56A"), Some([0x5d, 0xb5, 0x6a]));
    assert_eq!(rgb("ff0000"), Some([0xff, 0, 0]));
    assert_eq!(rgb("#ff00"), None);
    assert_eq!(rgb("#gg0000"), None);
    assert_eq!(rgb("##ff0000"), None);
    assert_eq!(rgb("#ff00\u{e9}"), None);
    assert_eq!(rgb("#+f+f+f"), None, "each pair is two hex digits");
    assert_eq!(rgb("#ff8000"), Some([255, 128, 0]));
}

#[test]
fn the_palette_spells_every_axis_in_lowercase() {
    assert_eq!(axis_key(Axis::Genre), "genre");
    assert_eq!(axis_key(Axis::Mood), "mood");
    assert_eq!(axis_key(Axis::Timbre), "timbre");
    assert_eq!(axis_key(Axis::Role), "role");
}

fn palette() -> Palette {
    Palette {
        groups: vec![
            (
                "axis".to_owned(),
                vec![("mood".to_owned(), "#102030".to_owned()), ("role".to_owned(), "nonsense".to_owned())],
            ),
            ("category".to_owned(), vec![("Bass".to_owned(), "#5DB56A".to_owned())]),
        ],
    }
}

#[test]
fn a_colour_is_looked_up_by_group_and_key() {
    let palette = palette();
    assert_eq!(palette.colour("axis", "mood"), Some([0x10, 0x20, 0x30]));
    assert_eq!(palette.colour("axis", "role"), None, "a colour that does not read is nothing");
    assert_eq!(palette.colour("axis", "genre"), None);
    assert_eq!(palette.colour("nowhere", "mood"), None);
    assert_eq!(palette.category_colour(1), Some([0x5d, 0xb5, 0x6a]));
    assert_eq!(palette.axis_colour(Axis::Mood), Some([0x10, 0x20, 0x30]));
}

#[test]
fn a_row_prints_at_most_four_terms_in_their_axes_colours() {
    let mut patch = entry();
    patch.timbre = vec!["gritty".to_owned(), "thin".to_owned()];
    let printed = chips(&palette(), &patch);
    assert_eq!(
        printed,
        vec![
            ("dark".to_owned(), Some([0x10, 0x20, 0x30])),
            ("gritty".to_owned(), None),
            ("thin".to_owned(), None),
            ("bass".to_owned(), None),
        ]
    );
}

#[test]
fn a_listing_shows_what_a_search_keeps_in_index_order() {
    let mut pad = entry();
    pad.name = "Aurora".to_owned();
    pad.category = 2;
    pad.mood = vec!["bright".to_owned(), "dark".to_owned()];
    let listing = Listing { entries: vec![entry(), pad, entry()] };
    assert_eq!(listing.showing(&Looking::default()), vec![0, 1, 2]);
    let pads = Looking { category: Some(2), ..Looking::default() };
    assert_eq!(listing.showing(&pads), vec![1]);
    assert_eq!(listing.categories(), vec![1, 2]);
    assert_eq!(listing.terms(Axis::Mood), vec!["bright".to_owned(), "dark".to_owned()]);
    assert_eq!(listing.terms(Axis::Timbre), Vec::<String>::new());
}

#[test]
fn a_published_sound_opens_the_share_sheet_filled_in() {
    let patch = entry();
    let said = control::app::described(Some(&patch), [9; 7]);
    assert_eq!(said.author, "nyx");
    assert_eq!(said.licence, "CC0-1.0");
    assert_eq!(said.collection, "Basses");
    assert_eq!(said.icon, [1, 2, 3, 4, 5, 6, 7]);
    assert_eq!(
        said.terms,
        vec![
            ("genre".to_owned(), "techno".to_owned()),
            ("mood".to_owned(), "dark".to_owned()),
            ("role".to_owned(), "bass".to_owned()),
        ]
    );
    let mut borrowed = entry();
    borrowed.own_icon = false;
    assert_eq!(control::app::described(Some(&borrowed), [9; 7]).icon, [0; 7], "a category's drawing is not claimed");
    let fresh = control::app::described(None, [9; 7]);
    assert_eq!(fresh.icon, [9; 7]);
    assert!(fresh.author.is_empty() && fresh.terms.is_empty());
}

#[test]
fn a_patch_file_is_one_program_or_nothing() {
    let mut program = control::program::Program::new(control::program::ProtocolVersion::V7);
    program
        .set(control::program::ParamId::from_offset(0).expect("a parameter"), 42)
        .expect("in range");
    let bytes = control::shelf::patch_to_syx(&program).expect("a dump");
    let found = control::catalogue::program_of(&bytes).expect("one program");
    assert_eq!(found.as_bytes(), program.as_bytes());
    assert_eq!(found.version(), control::program::ProtocolVersion::V7);
    let mut twice = bytes.clone();
    twice.extend_from_slice(&bytes);
    assert!(control::catalogue::program_of(&twice).is_none(), "two programs are not a patch");
    assert!(control::catalogue::program_of(&[]).is_none(), "nothing is not a patch");
    assert!(control::catalogue::program_of(b"not a dump").is_none());
}
