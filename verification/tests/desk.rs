use deepmind_midi::param::ParamId as P;
use control::desk::{moved, reach, swap, Page, Press, Shown, Surface};
use control::patch::{Group, Patch};
use control::program::{ParamId, Program, ProtocolVersion};

fn param(which: deepmind_midi::param::ParamId) -> ParamId {
    ParamId::from_offset(which.offset()).expect("in the table")
}

fn read() -> Patch {
    let mut patch = Patch::new();
    patch.confirm(Program::new(ProtocolVersion::V7));
    patch
}

#[test]
fn a_sheet_comes_up_over_the_panel_and_goes_down_again() {
    let index = deepmind_midi::param::Group::ALL
        .iter()
        .position(|one| *one == deepmind_midi::param::Group::Vcf)
        .expect("listed");
    let vcf = Group::from_index(u8::try_from(index).expect("fits")).expect("a section");
    let start = Surface::opening();
    let shown = start.pressed(Press::Show(vcf));
    assert_eq!(shown, Surface { view: Shown::Panel, editing: Some(vcf) });
    assert_eq!(shown.pressed(Press::Close), start);
    let shelf = shown.pressed(Press::Shelf);
    assert_eq!(shelf, Surface { view: Shown::Library, editing: None });
    assert_eq!(shelf.pressed(Press::Close), shelf, "escape on the shelf stays on the shelf");
    let opened = shelf.pressed(Press::Open(vcf));
    assert_eq!(opened, Surface { view: Shown::Section(vcf), editing: None });
    assert_eq!(opened.pressed(Press::Front), start);
}

#[test]
fn an_edit_is_sent_once() {
    let mut patch = read();
    let frequency = param(P::VcfFrequency);
    assert_eq!(moved(&mut patch, frequency, 200).map(|(p, v)| (p.offset(), v)), Some((frequency.offset(), 200)));
    assert_eq!(moved(&mut patch, frequency, 200).map(|(p, v)| (p.offset(), v)), None);
    let mut unread = Patch::new();
    assert!(moved(&mut unread, frequency, 200).is_none());
}

#[test]
fn a_swap_trades_two_routings_parameter_for_parameter() {
    let mut patch = read();
    let one = [param(P::Mod1Source), param(P::Mod1Destination), param(P::Mod1Depth)];
    let other = [param(P::Mod2Source), param(P::Mod2Destination), param(P::Mod2Depth)];
    moved(&mut patch, one[0], 3);
    moved(&mut patch, one[1], 7);
    moved(&mut patch, other[2], 200);
    let before: Vec<Option<u8>> = one.iter().chain(other.iter()).map(|p| patch.value(*p)).collect();

    let sent = swap(&mut patch, &one, &other);

    for k in 0..3 {
        assert_eq!(patch.value(one[k]), before[k + 3]);
        assert_eq!(patch.value(other[k]), before[k]);
    }
    assert!(!sent.is_empty());
    assert!(sent.len() <= 6);
    let again = swap(&mut patch, &one, &other);
    for k in 0..3 {
        assert_eq!(patch.value(one[k]), before[k]);
    }
    assert_eq!(again.len(), sent.len());
}

#[test]
fn a_swap_of_a_sound_nobody_read_sends_nothing() {
    let mut patch = Patch::new();
    let one = [param(P::Mod1Source)];
    let other = [param(P::Mod2Source)];
    assert!(swap(&mut patch, &one, &other).is_empty());
}

#[test]
fn a_reach_says_where_and_how_much_in_that_order() {
    let mut patch = read();
    let sent = reach(&mut patch, param(P::Mod1Destination), 4, param(P::Mod1Depth), 180);
    let offsets: Vec<(u8, u8)> = sent.iter().map(|(p, v)| (p.offset(), *v)).collect();
    assert_eq!(offsets, vec![(P::Mod1Destination.offset(), 4), (P::Mod1Depth.offset(), 180)]);
}

#[test]
fn a_picture_is_named_after_what_it_shows() {
    let section = |which: deepmind_midi::param::Group| {
        let index = deepmind_midi::param::Group::ALL.iter().position(|one| *one == which).expect("listed");
        Group::from_index(u8::try_from(index).expect("fits")).expect("a section")
    };

    assert_eq!(Page { view: Shown::Panel, section: None }.slug(), "front-panel");
    assert_eq!(Page { view: Shown::Library, section: None }.slug(), "library");
    assert_eq!(Page { view: Shown::Panel, section: Some(section(deepmind_midi::param::Group::Lfo1)) }.slug(), "lfo-1");
    assert_eq!(Page { view: Shown::Section(section(deepmind_midi::param::Group::ModMatrix)), section: None }.slug(), "mod-matrix");
    assert_eq!(Page { view: Shown::Panel, section: Some(section(deepmind_midi::param::Group::VcaEnvelope)) }.slug(), "vca-envelope");
}

#[test]
fn a_slug_is_lowered_and_hyphenated_once_between_words() {
    assert_eq!(control::desk::slug_text("  Hello,  World!! "), "hello-world");
    assert_eq!(control::desk::slug_text("---"), "");
    assert_eq!(control::desk::slug_text("OSC 2"), "osc-2");
}

#[test]
fn a_unit_that_answers_is_asked_for_its_sound() {
    let mut desk = control::desk::Desk::new();
    assert_eq!(desk.status, "Choose a port.");
    desk.connected("DeepMind 12");
    assert_eq!(desk.status, "Opening DeepMind 12\u{2026}");
    assert!(desk.absorb(control::desk::Happened::Opened).is_empty());
    assert_eq!(desk.status, "Port open. Asking who is there\u{2026}");
    let asks = desk.absorb(control::desk::Happened::Identified { firmware: "1.2.4".to_owned(), channel: 1 });
    assert!(matches!(asks.as_slice(), [control::desk::Ask::ReadEditBuffer]));
    assert_eq!(desk.status, "A DeepMind answered: firmware 1.2.4, channel 1. Reading the sound\u{2026}");
    let mut dumped = Program::new(ProtocolVersion::V7);
    dumped.set_name(&control::program::ProgramName::new("Bass").expect("a name"));
    desk.absorb(control::desk::Happened::EditBuffer(dumped));
    assert_eq!(desk.status, "Read Bass.");
    assert!(desk.patch.is_known());
}

#[test]
fn a_closed_port_forgets_the_sound_and_keeps_the_shelf() {
    let mut desk = control::desk::Desk::new();
    desk.connected("sim");
    desk.absorb(control::desk::Happened::EditBuffer(Program::new(ProtocolVersion::V7)));
    let asks = desk.absorb(control::desk::Happened::Failed("gone".to_owned()));
    assert!(matches!(asks.as_slice(), [control::desk::Ask::Close]));
    assert_eq!(desk.status, "The port failed: gone");
    assert!(!desk.patch.is_known());
    assert!(!desk.linked);
    assert!(desk.absorb(control::desk::Happened::Closed).is_empty(), "nothing to close twice");
    assert_eq!(desk.status, "The port is closed.");
}

#[test]
fn nothing_is_asked_of_a_port_nobody_opened() {
    let mut desk = control::desk::Desk::new();
    let asks = desk.absorb(control::desk::Happened::Identified { firmware: "1".to_owned(), channel: 3 });
    assert!(asks.is_empty());
    assert_eq!(desk.status, "Nothing is open.");
    assert!(desk.read_bank(control::shelf::Bank::new(0).expect("A")).is_empty());
    assert_eq!(desk.status, "Nothing is open to read a bank from.");
}

#[test]
fn a_bank_read_fills_the_shelf_and_says_how_it_ended() {
    let mut desk = control::desk::Desk::new();
    desk.connected("sim");
    let bank = control::shelf::Bank::new(1).expect("B");
    let asks = desk.read_bank(bank);
    assert!(matches!(asks.as_slice(), [control::desk::Ask::ReadBank(_)]));
    assert_eq!(desk.status, "Reading bank B\u{2026}");
    let slot = control::shelf::Slot { bank, number: control::shelf::ProgramNumber::new(0).expect("1") };
    desk.absorb(control::desk::Happened::Stored { slot, program: Program::new(ProtocolVersion::V7) });
    desk.absorb(control::desk::Happened::Progress { received: 1, expected: 128 });
    assert_eq!(desk.shelf.transfer().map(|t| t.received), Some(1));
    desk.absorb(control::desk::Happened::Finished { bank, received: 1, expected: 128, outcome: "cancelled".to_owned() });
    assert_eq!(desk.status, "Bank B: 1 of 128, cancelled.");
    assert!(desk.shelf.transfer().is_none());
    assert_eq!(desk.shelf.held().len(), 1);
    let asks = desk.load(0);
    assert!(matches!(asks.as_slice(), [control::desk::Ask::LoadProgram(_)]));
    assert_eq!(desk.status, "Sending  to the edit buffer\u{2026}");
    assert!(desk.load(5).is_empty());
}

#[test]
fn a_report_moves_a_parameter_only_of_a_sound_that_was_read() {
    let mut desk = control::desk::Desk::new();
    let frequency = param(P::VcfFrequency);
    desk.absorb(control::desk::Happened::Parameter { parameter: frequency, value: 200, confirmed: true });
    assert_eq!(desk.patch.value(frequency), None);
    desk.absorb(control::desk::Happened::EditBuffer(Program::new(ProtocolVersion::V7)));
    desk.absorb(control::desk::Happened::Parameter { parameter: frequency, value: 300, confirmed: true });
    assert_eq!(desk.patch.value(frequency), Some(0), "a value past a byte is not a value");
    desk.absorb(control::desk::Happened::Parameter { parameter: frequency, value: 200, confirmed: false });
    assert_eq!(desk.patch.value(frequency), Some(200));
    desk.absorb(control::desk::Happened::Refused { command: "Read".to_owned(), reason: "busy".to_owned() });
    assert_eq!(desk.status, "Read refused: busy");
    desk.absorb(control::desk::Happened::Silent);
    assert_eq!(desk.status, "Nothing answered the inquiry. Switch the synthesizer on and ask again.");
}

#[test]
fn an_edit_is_sent_once_and_only_to_an_open_port() {
    let mut desk = control::desk::Desk::new();
    desk.absorb(control::desk::Happened::EditBuffer(Program::new(ProtocolVersion::V7)));
    let frequency = param(P::VcfFrequency);
    assert!(desk.edit(frequency, 200).is_empty());
    assert_eq!(desk.status, "Nothing is open.");
    assert_eq!(desk.patch.value(frequency), Some(200), "the window still shows it");
    desk.connected("sim");
    let asks = desk.edit(frequency, 100);
    assert!(matches!(asks.as_slice(), [control::desk::Ask::SetParameter(p, 100)] if p.offset() == frequency.offset()));
    assert!(desk.edit(frequency, 100).is_empty(), "an edit it already holds is not sent");
    let asks = desk.rename(control::program::ProgramName::new("Bass").expect("a name"));
    assert_eq!(asks.len(), 4);
    let one = [param(P::Mod1Source)];
    let other = [param(P::Mod2Source)];
    desk.edit(one[0], 3);
    let asks = desk.swap(&one, &other);
    assert_eq!(asks.len(), 2);
    assert_eq!(desk.patch.value(other[0]), Some(3));
}

fn called(name: &str) -> Program {
    let mut program = Program::new(ProtocolVersion::V7);
    program.set_name(&control::program::ProgramName::new(name).expect("a valid name"));
    program
}

#[test]
fn a_shared_patch_is_tried_without_being_kept() {
    let mut desk = control::desk::Desk::new();
    let asks = desk.audition("bass/acid-growl-nyx", called(" Acid Growl "), "nyx");
    assert!(asks.is_empty());
    assert_eq!(desk.status, "Acid Growl by nyx is on the screen. Nothing is open to send it to.");
    assert_eq!(desk.trying.as_deref(), Some("bass/acid-growl-nyx"));
    assert!(desk.shelf.is_empty(), "the shelf is untouched");

    desk.connected("sim");
    let asks = desk.audition("pads/zed-pad-ann", called("Zed Pad"), "ann");
    assert!(matches!(asks.as_slice(), [control::desk::Ask::LoadProgram(_)]));
    assert_eq!(desk.status, "Trying Zed Pad by ann. Nothing is kept.");
    assert!(desk.shelf.is_empty());
    assert_eq!(desk.shelf.loaded(), None);
}

#[test]
fn a_shared_patch_is_shelved_under_its_name_and_maker() {
    let mut desk = control::desk::Desk::new();
    desk.shelve_patch("Acid Growl", "nyx", &called("Acid Growl"));
    assert_eq!(desk.shelf.held().len(), 1);
    assert_eq!(desk.shelf.file_name(), "Acid Growl - nyx");
    assert_eq!(desk.status, "Acid Growl - nyx: 1 program.");
    assert!(desk.shelf.held()[0].slot.is_none(), "an edit buffer dump names no slot");
}

#[test]
fn loading_from_the_shelf_ends_a_trial() {
    let mut desk = control::desk::Desk::new();
    desk.shelve("pack.syx", &control::shelf::patch_to_syx(&called("One")).expect("writable"));
    desk.audition("x/y", called("Two"), "me");
    desk.load(0);
    assert_eq!(desk.trying, None);
}

#[test]
fn a_patch_that_would_not_open_is_said_and_nothing_else_moves() {
    let mut desk = control::desk::Desk::new();
    let before = desk.shelf.held().len();
    desk.would_not_open("Acid Growl", "bass/acid.syx is not one program");
    assert_eq!(desk.status, "Acid Growl would not open: bass/acid.syx is not one program");
    assert_eq!(desk.shelf.held().len(), before);
    assert!(!desk.linked);
    assert!(desk.trying.is_none());
}
