use control::app::Publishing;
use control::program::{Program, ProgramName, ProtocolVersion};
use control::publish::{folder_for, instructions, meta_toml, prepare};

#[test]
fn a_patch_lands_where_the_repository_keeps_it() {
    let root = "/tmp/out";
    let plain = Publishing::default();
    assert!(
        folder_for(root, 1, &plain).ends_with("presets/Bass"),
        "a patch with no collection goes straight in its category"
    );
    let family = Publishing {
        collection: "Aurora Pads".to_owned(),
        ..Publishing::default()
    };
    assert!(
        folder_for(root, 2, &family).ends_with("presets/Pads/Aurora Pads"),
        "a collection is one folder deeper and never more"
    );
}

#[test]
fn the_stem_is_the_repositorys_own_rule() {
    assert_eq!(deepmind_patches::slug::stem("Acid Growl", "nyx"), "Acid Growl - nyx");
}

#[test]
fn a_blank_grid_is_not_a_drawing() {
    let said = Publishing {
        author: "nyx".to_owned(),
        about: "A sound.".to_owned(),
        licence: "CC0-1.0".to_owned(),
        ..Publishing::default()
    };
    let written = meta_toml("Acid Growl", &said).expect("serialises");
    assert!(!written.contains("icon"), "a blank icon should not be written at all");

    let drawn = Publishing {
        icon: [0, 0b010_0010, 0, 0b100_0001, 0b011_1110, 0, 0],
        ..said
    };
    let written = meta_toml("Acid Growl", &drawn).expect("serialises");
    assert!(written.contains("icon"), "a drawn icon is written");
}

#[test]
fn the_terms_are_written_under_their_axes() {
    let said = Publishing {
        author: " nyx ".to_owned(),
        about: "A sound.".to_owned(),
        licence: "CC0-1.0".to_owned(),
        terms: vec![
            ("role".to_owned(), "bass".to_owned()),
            ("colour".to_owned(), "red".to_owned()),
            ("mood".to_owned(), "dark".to_owned()),
        ],
        ..Publishing::default()
    };
    let written = meta_toml("Acid Growl", &said).expect("serialises");
    assert!(written.contains("author = \"nyx\""), "{written}");
    assert!(written.contains("role = ["), "{written}");
    assert!(written.contains("\"bass\""), "{written}");
    assert!(written.contains("mood = ["), "{written}");
    assert!(written.contains("\"dark\""), "{written}");
    assert!(!written.contains("red"), "a term of no axis is left out: {written}");
    assert!(written.contains("version = 1"), "{written}");
}

#[test]
fn the_note_says_where_the_pair_went() {
    let family = Publishing {
        collection: " Aurora Pads ".to_owned(),
        ..Publishing::default()
    };
    let note = instructions("Aurora 1 - nyx", 2, &family);
    assert!(note.starts_with("# Sharing `Aurora 1 - nyx`\n\nTwo files are beside this note, under `presets/Pads/Aurora Pads/`:"));
    assert!(note.contains("`demos/Pads/Aurora Pads/Aurora 1 - nyx.mp3`"));
    assert!(note.contains("1. Fork and clone <https://github.com/MysteriousWolf/deepmind-patches>."));
    let plain = instructions("Acid Growl - nyx", 1, &Publishing::default());
    assert!(plain.contains("under `presets/Bass/`:"));
    assert!(plain.contains("`demos/Bass/Acid Growl - nyx.mp3`"));
    assert!(plain.ends_with("library groups them by name.\n"));
}

#[test]
fn a_sound_without_a_name_is_not_shared() {
    let said = Publishing::default();
    let program = Program::new(ProtocolVersion::V7);
    match prepare("/tmp/out", &program, 1, &said) {
        Err(why) => assert_eq!(why, "the sound has no name: give it one on the instrument"),
        Ok(_) => panic!("a sound with no name was shared"),
    }
}

#[test]
fn a_named_sound_is_laid_out_for_a_pull_request() {
    let said = Publishing {
        author: "nyx".to_owned(),
        about: "A sound.".to_owned(),
        licence: "CC0-1.0".to_owned(),
        terms: vec![("role".to_owned(), "bass".to_owned())],
        ..Publishing::default()
    };
    let mut program = Program::new(ProtocolVersion::V7);
    program.set_name(&ProgramName::new(" Acid Growl ").expect("a valid name"));
    let sharing = prepare("/tmp/out", &program, 1, &said).expect("shareable");
    assert_eq!(sharing.folder, "/tmp/out/presets/Bass");
    assert_eq!(sharing.syx_path, "/tmp/out/presets/Bass/Acid Growl - nyx.syx");
    assert_eq!(sharing.toml_path, "/tmp/out/presets/Bass/Acid Growl - nyx.toml");
    assert_eq!(sharing.note_path, "/tmp/out/HOW TO SHARE THIS.md");
    assert!(sharing.toml.contains("name = \"Acid Growl\""), "{}", sharing.toml);
    assert_eq!(sharing.syx.first(), Some(&0xF0));
    assert_eq!(sharing.syx.last(), Some(&0xF7));
}
