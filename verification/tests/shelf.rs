use control::program::{Program, ProgramName, ProtocolVersion};
use control::shelf::{patch_to_syx, Bank, ProgramNumber, Shelf, Slot, Source};

fn slot(bank: u8, number: u8) -> Slot {
    Slot {
        bank: Bank::new(bank).expect("a bank"),
        number: ProgramNumber::new(number).expect("a number"),
    }
}

fn named(text: &str) -> Program {
    let mut program = Program::new(ProtocolVersion::V7);
    program.set_name(&ProgramName::new(text).expect("a valid name"));
    program
}

#[test]
fn a_bank_read_keeps_the_shelf_in_slot_order() {
    let mut shelf = Shelf::new();
    shelf.begin(Bank::new(1).expect("B"), 128);
    shelf.arrived(slot(1, 5), named("Five"));
    shelf.arrived(slot(1, 2), named("Two"));
    shelf.arrived(slot(1, 9), named("Nine"));
    shelf.arrived(slot(1, 2), named("Again"));
    let names: Vec<String> = shelf.held().iter().map(|held| held.name()).collect();
    assert_eq!(names, vec!["Again", "Five", "Nine"], "a slot read twice is replaced, not repeated");
    assert_eq!(shelf.file_name(), "bank-b.syx");
    assert_eq!(shelf.source().map(|source| source.label()), Some("bank B, off the synthesizer".to_owned()));
}

#[test]
fn a_pack_written_out_reads_back_as_the_same_programs() {
    let mut shelf = Shelf::new();
    shelf.begin(Bank::new(0).expect("A"), 2);
    shelf.arrived(slot(0, 0), named("Acid Growl"));
    shelf.arrived(slot(0, 1), named("Aurora"));
    let bytes = shelf.to_syx().expect("writable");

    let mut read = Shelf::new();
    read.open("pack.syx".to_owned(), &bytes);
    assert_eq!(read.held().len(), 2);
    assert_eq!(read.skipped(), 0);
    for (one, other) in read.held().iter().zip(shelf.held()) {
        assert_eq!(one.program.as_bytes(), other.program.as_bytes());
        assert_eq!(one.address(), other.address());
    }
    assert_eq!(read.file_name(), "pack.syx");
    assert_eq!(read.source().map(|source| source.label()), Some("pack.syx".to_owned()));
}

#[test]
fn a_sound_on_its_own_is_an_edit_buffer_dump() {
    let bytes = patch_to_syx(&named(" Bass ")).expect("writable");
    let mut read = Shelf::new();
    read.open("one.syx".to_owned(), &bytes);
    assert_eq!(read.held().len(), 1);
    assert!(read.held()[0].slot.is_none());
    assert_eq!(read.held()[0].name(), "Bass", "the padding is taken off the name");
    assert_eq!(read.held()[0].address(), "\u{2014}");
}

#[test]
fn loading_marks_what_was_loaded_and_nothing_past_the_end() {
    let mut shelf = Shelf::new();
    shelf.begin(Bank::new(2).expect("C"), 1);
    shelf.arrived(slot(2, 3), named("Three"));
    assert!(shelf.load(1).is_none());
    assert_eq!(shelf.loaded(), None);
    let program = shelf.load(0).expect("held");
    assert_eq!(program.as_bytes(), shelf.held()[0].program.as_bytes());
    assert_eq!(shelf.loaded(), Some(0));
    assert_eq!(shelf.held()[0].address(), "C4");
}

#[test]
fn a_transfer_counts_what_arrived_and_stops() {
    let mut shelf = Shelf::new();
    assert!(shelf.is_empty());
    shelf.begin(Bank::new(3).expect("D"), 128);
    shelf.advance(12, 128);
    let transfer = shelf.transfer().expect("running");
    assert_eq!((transfer.received, transfer.expected), (12, 128));
    shelf.finish();
    assert!(shelf.transfer().is_none());
}

#[test]
fn a_file_of_nothing_holds_nothing() {
    let mut shelf = Shelf::new();
    shelf.open("empty.syx".to_owned(), &[]);
    assert!(shelf.is_empty());
    assert_eq!(shelf.skipped(), 0);
    assert!(matches!(shelf.source(), Some(Source::File(name)) if name == "empty.syx"));
}

#[test]
fn a_pack_with_more_after_it_reads_as_the_pack_and_then_the_rest() {
    let mut shelf = Shelf::new();
    shelf.begin(Bank::new(1).expect("B"), 2);
    shelf.arrived(slot(1, 4), named("Four"));
    shelf.arrived(slot(1, 9), named("Nine"));
    let mut bytes = shelf.to_syx().expect("writable");
    bytes.extend_from_slice(&patch_to_syx(&named("Loose")).expect("writable"));

    let mut read = Shelf::new();
    read.open("joined.syx".to_owned(), &bytes);
    let names: Vec<String> = read.held().iter().map(|held| held.name()).collect();
    assert_eq!(names, vec!["Four", "Nine", "Loose"]);
    let addresses: Vec<String> = read.held().iter().map(|held| held.address()).collect();
    assert_eq!(addresses, vec!["B5", "B10", "\u{2014}"]);
    assert_eq!(read.skipped(), 0);
}

#[test]
fn an_empty_shelf_writes_an_empty_file() {
    let shelf = Shelf::new();
    let bytes = shelf.to_syx().expect("writable");
    assert!(bytes.is_empty());
    let mut read = Shelf::new();
    read.open("none.syx".to_owned(), &bytes);
    assert!(read.is_empty());
    assert_eq!(read.skipped(), 0);
}

#[test]
fn a_slot_that_arrives_twice_keeps_the_second_and_the_rest_stay() {
    let mut shelf = Shelf::new();
    let bank = Bank::new(0).expect("A");
    shelf.begin(bank, 3);
    shelf.arrived(slot(0, 2), named("Two"));
    shelf.arrived(slot(0, 7), named("Seven"));
    shelf.arrived(slot(0, 2), named("Again"));
    let held: Vec<(String, String)> = shelf.held().iter().map(|one| (one.address(), one.name())).collect();
    assert_eq!(
        held,
        vec![("A3".to_owned(), "Again".to_owned()), ("A8".to_owned(), "Seven".to_owned())],
        "the slots are the old ones and the new one, and the second arrival wins"
    );
    shelf.arrived(slot(0, 0), named("Zero"));
    assert_eq!(shelf.held().len(), 3, "a slot not held before grows the shelf by one");
    assert_eq!(shelf.held()[0].name(), "Zero");
}

#[test]
fn a_bank_read_in_any_order_stands_in_slot_order() {
    let mut shelf = Shelf::new();
    let bank = Bank::new(2).expect("C");
    shelf.begin(bank, 6);
    for number in [9u8, 3, 120, 0, 3, 64] {
        shelf.arrived(slot(2, number), named("Any"));
    }
    let held: Vec<String> = shelf.held().iter().map(|one| one.address()).collect();
    assert_eq!(held, vec!["C1", "C4", "C10", "C65", "C121"]);
}
