//! What the librarian is holding, and where it came from.
//!
//! A shelf is the programs a `.syx` file turned out to contain, or the ones a
//! bank read off the synthesizer produced. Nothing in it opens a file or talks
//! to a port: reading and writing the protocol's frames is the protocol
//! library's, and the rest is here.
//!
//! A stored program dump names the slot it came from and an edit buffer dump
//! names nothing, so a [`Held`] carries `Option<Slot>`. A file is untrusted
//! input and is read leniently: a frame that does not parse is counted rather
//! than refused.

use vstd::prelude::*;

use crate::program::{Program, ProtocolVersion};
use crate::text::{decimal, digits, string_of};

verus! {

/// How many banks there are.
pub const BANK_COUNT: u8 = 8;

/// How many programs a bank holds.
pub const PROGRAMS_PER_BANK: u8 = 128;

/// One of the eight program banks, `A` through `H`, by its zero-based index.
#[derive(Debug, Clone, Copy, PartialEq, Eq, Structural)]
pub struct Bank {
    /// Zero-based: `A` is 0.
    pub index: u8,
}

/// A program within a bank, 0 through 127; the front panel counts from 1.
#[derive(Debug, Clone, Copy, PartialEq, Eq, Structural)]
pub struct ProgramNumber {
    /// Zero-based.
    pub number: u8,
}

/// One of the 1024 places a program is stored.
#[derive(Debug, Clone, Copy, PartialEq, Eq, Structural)]
pub struct Slot {
    /// Bank the program is stored in.
    pub bank: Bank,
    /// Program within that bank.
    pub number: ProgramNumber,
}

/// A slot as a pair of plain numbers: bank index, then program number.
pub open spec fn slot_pair(slot: Slot) -> (u8, u8) {
    (slot.bank.index, slot.number.number)
}

/// Whether a slot names a place that exists.
pub open spec fn slot_exists(slot: Slot) -> bool {
    slot.bank.index < BANK_COUNT && slot.number.number < PROGRAMS_PER_BANK
}

/// The order slots are kept in: bank first, then number.
pub open spec fn slot_before(one: Slot, other: Slot) -> bool {
    one.bank.index < other.bank.index || (one.bank.index == other.bank.index
        && one.number.number < other.number.number)
}

/// Whether `one` is at or after `other` in slot order.
pub open spec fn at_or_after(one: Slot, other: Slot) -> bool {
    !slot_before(one, other)
}

impl Bank {
    /// Builds a bank from its zero-based index, or nothing past `H`.
    pub fn new(index: u8) -> (bank: Option<Bank>)
        ensures
            bank is Some <==> index < BANK_COUNT,
            bank matches Some(b) ==> b.index == index,
    {
        if index < BANK_COUNT {
            Some(Bank { index })
        } else {
            None
        }
    }

    /// Returns the bank letter, `A` through `H`.
    pub fn letter(self) -> (letter: char)
        requires
            self.index < BANK_COUNT,
        ensures
            letter == ((65 + self.index) as u32) as char,
    {
        (65u8 + self.index) as char
    }
}

impl ProgramNumber {
    /// Builds a program number, or nothing past 127.
    pub fn new(number: u8) -> (made: Option<ProgramNumber>)
        ensures
            made is Some <==> number < PROGRAMS_PER_BANK,
            made matches Some(n) ==> n.number == number,
    {
        if number < PROGRAMS_PER_BANK {
            Some(ProgramNumber { number })
        } else {
            None
        }
    }
}

/// How the front panel writes a slot: the bank letter, then the program
/// counted from one.
pub open spec fn written_slot(slot: Slot) -> Seq<char> {
    seq![((65 + slot.bank.index) as u32) as char] + digits(slot.number.number as nat + 1)
}

impl Slot {
    /// Returns whether this slot comes before `other`.
    pub fn before(self, other: Slot) -> (yes: bool)
        ensures
            yes == slot_before(self, other),
    {
        self.bank.index < other.bank.index || (self.bank.index == other.bank.index
            && self.number.number < other.number.number)
    }

    /// Returns how the front panel writes the slot: `A1` through `H128`.
    pub fn written(self) -> (text: Vec<char>)
        requires
            slot_exists(self),
        ensures
            text@ == written_slot(self),
    {
        let mut text: Vec<char> = Vec::new();
        text.push(self.bank.letter());
        let count = decimal(self.number.number as u64 + 1);
        let mut i: usize = 0;
        while i < count.len()
            invariant
                i <= count@.len(),
                text@ == seq![((65 + self.bank.index) as u32) as char] + count@.subrange(
                    0,
                    i as int,
                ),
            decreases count@.len() - i,
        {
            text.push(count[i]);
            i = i + 1;
            proof {
                assert(text@ =~= seq![((65 + self.bank.index) as u32) as char] + count@.subrange(
                    0,
                    i as int,
                ));
            }
        }
        proof {
            assert(count@.subrange(0, count@.len() as int) =~= count@);
        }
        text
    }
}

/// Where the programs on a shelf came from.
#[derive(Debug, Clone, PartialEq, Eq)]
pub enum Source {
    /// A `.syx` file, under the name it has on this machine.
    File(String),
    /// A bank read off the synthesizer.
    Bank(Bank),
}

/// What a shelf from `source` is saved as.
pub open spec fn file_name_of(source: Option<Source>) -> Seq<char> {
    match source {
        Some(Source::File(name)) => name@,
        Some(Source::Bank(bank)) => "bank-"@ + seq![((97 + bank.index) as u32) as char] + ".syx"@,
        None => "pack.syx"@,
    }
}

/// One program on the shelf, and where it says it belongs.
#[derive(Debug)]
pub struct Held {
    /// The slot the dump named, absent for an edit buffer dump.
    pub slot: Option<Slot>,
    /// The program itself.
    pub program: Program,
}

/// The address a held program is written under: its slot, or a dash for
/// one that names none.
pub open spec fn address_of(slot: Option<Slot>) -> Seq<char> {
    match slot {
        Some(s) => written_slot(s),
        None => seq!['\u{2014}'],
    }
}

/// How a source is named where the shelf says where it came from.
pub open spec fn source_label(source: Source) -> Seq<char> {
    match source {
        Source::File(name) => name@,
        Source::Bank(bank) => "bank "@ + seq![((65 + bank.index) as u32) as char] + ", off the synthesizer"@,
    }
}

impl Source {
    /// Returns how the source is named: a file by its name, and a bank read
    /// by its letter and where it came from.
    pub fn label(&self) -> (said: String)
        requires
            self matches Source::Bank(bank) ==> bank.index < BANK_COUNT,
        ensures
            said@ == source_label(*self),
    {
        match self {
            Source::File(name) => name.clone(),
            Source::Bank(bank) => {
                let mut text = crate::text::chars_of("bank ");
                text.push(bank.letter());
                crate::text::extend(&mut text, &crate::text::chars_of(", off the synthesizer"));
                proof {
                    assert(text@ =~= source_label(*self));
                }
                string_of(&text)
            },
        }
    }
}

/// A held program's name, with the padding the instrument stores taken off.
pub open spec fn held_name(program: Seq<u8>) -> Seq<char> {
    crate::text::trimmed(crate::app::name_text(crate::program::decoded(crate::program::name_field(program))))
}

impl Held {
    /// Returns the program's name, with the padding the instrument stores
    /// taken off.
    pub fn name(&self) -> (name: String)
        ensures
            name@ == held_name(self.program@),
    {
        let called = self.program.name();
        let letters = called.to_chars();
        proof {
            assert(letters@ =~= crate::app::name_text(called@));
        }
        string_of(&crate::text::trim(&letters))
    }

    /// Returns how the slot is written on the front panel, or a dash for a
    /// program that names none.
    pub fn address(&self) -> (text: String)
        requires
            self.slot matches Some(s) ==> slot_exists(s),
        ensures
            text@ == address_of(self.slot),
    {
        match self.slot {
            Some(slot) => {
                let written = slot.written();
                string_of(&written)
            },
            None => {
                let mut dash: Vec<char> = Vec::new();
                dash.push('\u{2014}');
                proof {
                    assert(dash@ =~= seq!['\u{2014}']);
                }
                string_of(&dash)
            },
        }
    }
}

/// A bank read on its way in.
#[derive(Debug, Clone, Copy, PartialEq, Eq, Structural)]
pub struct Transfer {
    /// Bank being read.
    pub bank: Bank,
    /// Dumps that have arrived.
    pub received: u16,
    /// Dumps the run asked for.
    pub expected: u16,
}

/// One program dump as the protocol library read it out of a file: the slot
/// it names, if any, as a bank index and a program number, the comms protocol
/// version, and the unpacked program bytes.
#[derive(Debug)]
pub struct Dump {
    pub slot: Option<(u8, u8)>,
    pub version: u8,
    pub data: Vec<u8>,
}

/// A dump as plain values.
pub open spec fn dump_view(dump: Dump) -> (Option<(u8, u8)>, u8, Seq<u8>) {
    (dump.slot, dump.version, dump.data@)
}

/// The program dumps `deepmind_midi` reads out of a file, in the order the
/// file holds them, with `None` for a frame it could not read.
pub uninterp spec fn file_dumps(bytes: Seq<u8>) -> Seq<Option<(Option<(u8, u8)>, u8, Seq<u8>)>>;

/// Whether a dump is one the protocol library could have produced: a known
/// version, a program of that version's length, and a slot that exists.
pub open spec fn sound_dump(dump: (Option<(u8, u8)>, u8, Seq<u8>)) -> bool {
    &&& (dump.1 == 6 && dump.2.len() == 242) || (dump.1 == 7 && dump.2.len() == 245)
    &&& dump.0 matches Some(pair) ==> pair.0 < BANK_COUNT && pair.1 < PROGRAMS_PER_BANK
}

/// `deepmind_midi::syx::File::programs`, walked to the end.
///
/// Trusted to return one entry per program frame the library's lenient walk
/// finds, in file order, `None` where the frame did not parse, each read
/// entry given as its slot, its protocol version and its unpacked bytes: the
/// sequence named [`file_dumps`]. Also trusted for what the library's own
/// types guarantee of every entry: a version of 6 or 7, bytes as long as that
/// version's dump, and a slot inside the banks; and for an empty file holding
/// nothing, since the walk finds no `F0` in it.
#[verifier::external_body]
fn read_dumps(bytes: &[u8]) -> (dumps: Vec<Option<Dump>>)
    ensures
        dumps@.len() == file_dumps(bytes@).len(),
        bytes@.len() == 0 ==> dumps@.len() == 0,
        forall|i: int|
            0 <= i < dumps@.len() ==> match #[trigger] dumps@[i] {
                Some(d) => file_dumps(bytes@)[i] == Some(dump_view(d)),
                None => file_dumps(bytes@)[i] is None,
            },
        forall|i: int|
            0 <= i < dumps@.len() ==> (#[trigger] dumps@[i] matches Some(d) ==> sound_dump(
                dump_view(d),
            )),
{
    deepmind_midi::syx::File::new(bytes).programs().map(|entry| match entry {
        Ok(entry) => Some(
            Dump {
                slot: entry.slot.map(|slot| (slot.bank.index(), slot.number.get())),
                version: entry.program.version().get(),
                data: entry.program.as_bytes().to_vec(),
            },
        ),
        Err(_) => None,
    }).collect()
}

/// The frame that carries one program from a bank: its bank index, program
/// number, protocol version and bytes in; the frame's bytes out, or nothing
/// where the library refused to write one.
pub uninterp spec fn program_frame(bank: u8, number: u8, version: u8, data: Seq<u8>) -> Option<
    Seq<u8>,
>;

/// The frame that carries one program as the edit buffer, which names no
/// slot.
pub uninterp spec fn edit_buffer_frame(version: u8, data: Seq<u8>) -> Option<Seq<u8>>;

/// `deepmind_midi::syx::Writer::push_program`, for one frame.
///
/// Trusted to return the bytes the library writes for a stored program dump
/// of these bytes at this slot, addressed to every unit, named
/// [`program_frame`]; `None` where the library refused. Also trusted for the
/// round trip the library's `syx` documentation promises ("a program that
/// goes in comes out unchanged") and its reader shows: the frame alone reads
/// back as this one program, at this slot, under this version; and a file
/// that starts with the frame reads as that program followed by whatever the
/// bytes after the frame read as on their own, since a frame runs from its
/// `F0` to its `F7` and the walk resumes after it.
#[verifier::external_body]
fn write_program_frame(bank: u8, number: u8, version: u8, data: &[u8]) -> (frame: Option<Vec<u8>>)
    ensures
        match frame {
            Some(f) => {
                &&& program_frame(bank, number, version, data@) == Some(f@)
                &&& file_dumps(f@) == seq![Some((Some((bank, number)), version, data@))]
                &&& forall|rest: Seq<u8>|
                    #[trigger] file_dumps(f@ + rest) == seq![
                        Some((Some((bank, number)), version, data@)),
                    ] + file_dumps(rest)
            },
            None => program_frame(bank, number, version, data@) is None,
        },
{
    let version = deepmind_midi::ids::ProtocolVersion::new(version).ok()?;
    let program = deepmind_midi::program::Program::from_bytes(version, data).ok()?;
    let bank = deepmind_midi::ids::Bank::new(bank).ok()?;
    let number = deepmind_midi::ids::ProgramNumber::new(number).ok()?;
    let mut out = vec![0; deepmind_midi::syx::MAX_PROGRAM_FRAME_LEN];
    let mut writer = deepmind_midi::syx::Writer::new(&mut out, deepmind_midi::ids::DeviceId::Broadcast);
    writer.push_program(bank, number, &program).ok()?;
    let written = writer.finish();
    out.truncate(written);
    Some(out)
}

/// `deepmind_midi::syx::Writer::push_edit_buffer`, for one frame.
///
/// Trusted to return the bytes the library writes for an edit buffer dump of
/// these bytes, addressed to every unit, named [`edit_buffer_frame`]; `None`
/// where the library refused. Also trusted for the same round trip as
/// [`write_program_frame`]: the frame reads back as this program under this
/// version, naming no slot, and what follows it reads as it would alone.
#[verifier::external_body]
fn write_edit_buffer_frame(version: u8, data: &[u8]) -> (frame: Option<Vec<u8>>)
    ensures
        match frame {
            Some(f) => {
                &&& edit_buffer_frame(version, data@) == Some(f@)
                &&& file_dumps(f@) == seq![Some((None::<(u8, u8)>, version, data@))]
                &&& forall|rest: Seq<u8>|
                    #[trigger] file_dumps(f@ + rest) == seq![Some((None::<(u8, u8)>, version, data@))]
                        + file_dumps(rest)
            },
            None => edit_buffer_frame(version, data@) is None,
        },
{
    let version = deepmind_midi::ids::ProtocolVersion::new(version).ok()?;
    let program = deepmind_midi::program::Program::from_bytes(version, data).ok()?;
    let mut out = vec![0; deepmind_midi::syx::MAX_PROGRAM_FRAME_LEN];
    let mut writer = deepmind_midi::syx::Writer::new(&mut out, deepmind_midi::ids::DeviceId::Broadcast);
    writer.push_edit_buffer(&program).ok()?;
    let written = writer.finish();
    out.truncate(written);
    Some(out)
}

/// The wire byte of a version.
pub open spec fn wire(version: ProtocolVersion) -> u8 {
    match version {
        ProtocolVersion::V6 => 6,
        ProtocolVersion::V7 => 7,
    }
}

/// The frame one held program is written as: the stored dump for its slot,
/// or the edit buffer dump where it names none.
pub open spec fn frame_of(slot: Option<Slot>, program: Program) -> Option<Seq<u8>> {
    match slot {
        Some(s) => program_frame(s.bank.index, s.number.number, wire(program.version_of()), program@),
        None => edit_buffer_frame(wire(program.version_of()), program@),
    }
}

/// A whole shelf written out: every frame, back to back, in the order they
/// are held; nothing at all if any frame was refused.
pub open spec fn pack_of(held: Seq<Held>) -> Option<Seq<u8>>
    decreases held.len(),
{
    if held.len() == 0 {
        Some(Seq::empty())
    } else {
        match (pack_of(held.drop_last()), frame_of(held.last().slot, held.last().program)) {
            (Some(rest), Some(frame)) => Some(rest + frame),
            _ => None,
        }
    }
}

/// A frame the protocol library would not write.
#[derive(Debug, Clone, Copy, PartialEq, Eq)]
pub struct Unwritable;

fn frame_for(slot: Option<Slot>, program: &Program) -> (frame: Option<Vec<u8>>)
    ensures
        match frame {
            Some(f) => {
                &&& frame_of(slot, *program) == Some(f@)
                &&& file_dumps(f@) == seq![Some(held_view(Held { slot, program: *program }))]
                &&& forall|rest: Seq<u8>|
                    #[trigger] file_dumps(f@ + rest) == seq![
                        Some(held_view(Held { slot, program: *program })),
                    ] + file_dumps(rest)
            },
            None => frame_of(slot, *program) is None,
        },
{
    let version = program.version();
    let wire_byte = version.get();
    proof {
        assert(wire_byte == wire(version));
    }
    match slot {
        Some(s) => write_program_frame(s.bank.index, s.number.number, wire_byte, program.as_bytes().as_slice()),
        None => write_edit_buffer_frame(wire_byte, program.as_bytes().as_slice()),
    }
}

/// Writes one sound out as a `.syx` file: an edit buffer dump, because a
/// sound on its own belongs nowhere in particular.
pub fn patch_to_syx(program: &Program) -> (bytes: Result<Vec<u8>, Unwritable>)
    ensures
        match bytes {
            Ok(b) => edit_buffer_frame(wire(program.version_of()), program@) == Some(b@),
            Err(_) => edit_buffer_frame(wire(program.version_of()), program@) is None,
        },
{
    match frame_for(None, program) {
        Some(frame) => Ok(frame),
        None => Err(Unwritable),
    }
}

/// The held programs a file's dumps turn into: every one that was read, in
/// file order.
pub open spec fn readable(dumps: Seq<Option<(Option<(u8, u8)>, u8, Seq<u8>)>>) -> Seq<
    (Option<(u8, u8)>, u8, Seq<u8>),
>
    decreases dumps.len(),
{
    if dumps.len() == 0 {
        Seq::empty()
    } else {
        let rest = readable(dumps.drop_last());
        match dumps.last() {
            Some(d) => rest.push(d),
            None => rest,
        }
    }
}

/// How many of a file's frames could not be read.
pub open spec fn unreadable(dumps: Seq<Option<(Option<(u8, u8)>, u8, Seq<u8>)>>) -> nat
    decreases dumps.len(),
{
    if dumps.len() == 0 {
        0
    } else {
        unreadable(dumps.drop_last()) + if dumps.last() is None {
            1nat
        } else {
            0nat
        }
    }
}

/// What reading back a file written from `held` gives: every program, read,
/// in the order it was held.
pub open spec fn dumps_of(held: Seq<Held>) -> Seq<Option<(Option<(u8, u8)>, u8, Seq<u8>)>> {
    held.map_values(|h: Held| Some(held_view(h)))
}

/// A held program as plain values, the way a dump gives one.
pub open spec fn held_view(held: Held) -> (Option<(u8, u8)>, u8, Seq<u8>) {
    (
        match held.slot {
            Some(s) => Some(slot_pair(s)),
            None => None,
        },
        wire(held.program.version_of()),
        held.program@,
    )
}

/// Whether the slotted programs in `held` stand in strictly increasing slot
/// order.
pub open spec fn in_slot_order(held: Seq<Held>) -> bool {
    forall|i: int, j: int|
        0 <= i < j < held.len() ==> match ((#[trigger] held[i]).slot, (#[trigger] held[j]).slot) {
            (Some(a), Some(b)) => slot_before(a, b),
            _ => true,
        }
}

/// Whether every program on the shelf names its slot and the slots stand in
/// strictly increasing order: what a bank read keeps from its first dump on.
pub open spec fn bank_ordered(held: Seq<Held>) -> bool {
    &&& forall|i: int| 0 <= i < held.len() ==> (#[trigger] held[i]).slot is Some
    &&& in_slot_order(held)
}

/// Whether a held program names a slot at or after `slot`.
pub open spec fn stops_at(held: Held, slot: Slot) -> bool {
    held.slot matches Some(s) && at_or_after(s, slot)
}

/// Where a program dumped from `slot` goes on the shelf: the first place
/// holding a slot at or after it, or the end.
pub open spec fn place_for(held: Seq<Held>, slot: Slot) -> int {
    if exists|i: int|
        0 <= i < held.len() && stops_at(#[trigger] held[i], slot) {
        choose|i: int|
            0 <= i < held.len() && stops_at(#[trigger] held[i], slot)
                && forall|j: int|
                0 <= j < i ==> !stops_at(#[trigger] held[j], slot)
    } else {
        held.len() as int
    }
}

/// The programs the librarian has in front of it.
#[derive(Debug)]
pub struct Shelf {
    /// Where what is on the shelf came from.
    source: Option<Source>,
    /// What is on it, in the order a file gave them or in slot order.
    held: Vec<Held>,
    /// Frames the library could not read.
    skipped: usize,
    /// Which one was last sent to the edit buffer.
    loaded: Option<usize>,
    /// A bank read in flight.
    transfer: Option<Transfer>,
}

impl Shelf {
    /// Where what is on the shelf came from.
    pub closed spec fn source_of(&self) -> Option<Source> {
        self.source
    }

    /// What is on the shelf.
    pub closed spec fn held_of(&self) -> Seq<Held> {
        self.held@
    }

    /// How many frames of the last file could not be read.
    pub closed spec fn skipped_of(&self) -> nat {
        self.skipped as nat
    }

    /// Which program was last sent to the edit buffer.
    pub closed spec fn loaded_of(&self) -> Option<usize> {
        self.loaded
    }

    /// The bank read in flight.
    pub closed spec fn transfer_of(&self) -> Option<Transfer> {
        self.transfer
    }

    /// An empty shelf.
    pub fn new() -> (shelf: Shelf)
        ensures
            shelf.source_of() is None,
            shelf.held_of().len() == 0,
            shelf.skipped_of() == 0,
            shelf.loaded_of() is None,
            shelf.transfer_of() is None,
    {
        Shelf { source: None, held: Vec::new(), skipped: 0, loaded: None, transfer: None }
    }

    /// Returns where what is on the shelf came from.
    pub fn source(&self) -> (source: Option<&Source>)
        ensures
            source is Some <==> self.source_of() is Some,
            source matches Some(s) ==> self.source_of() == Some(*s),
    {
        match &self.source {
            Some(s) => Some(s),
            None => None,
        }
    }

    /// Returns what is on the shelf.
    pub fn held(&self) -> (held: &[Held])
        ensures
            held@ == self.held_of(),
    {
        self.held.as_slice()
    }

    /// Returns how many frames of the last file could not be read.
    pub fn skipped(&self) -> (skipped: usize)
        ensures
            skipped == self.skipped_of(),
    {
        self.skipped
    }

    /// Returns which program was last sent to the edit buffer.
    pub fn loaded(&self) -> (loaded: Option<usize>)
        ensures
            loaded == self.loaded_of(),
    {
        self.loaded
    }

    /// Returns the bank read in flight, if one is.
    pub fn transfer(&self) -> (transfer: Option<Transfer>)
        ensures
            transfer == self.transfer_of(),
    {
        self.transfer
    }

    /// Returns whether there is nothing on the shelf.
    pub fn is_empty(&self) -> (empty: bool)
        ensures
            empty == (self.held_of().len() == 0),
    {
        self.held.len() == 0
    }

    /// Puts the programs a `.syx` file holds on the shelf, under its name:
    /// everything the library can read, in the order the file gives them, and
    /// a count of the frames it could not.
    pub fn open(&mut self, name: String, bytes: &[u8])
        ensures
            final(self).source_of() == Some(Source::File(name)),
            final(self).held_of().map_values(|h: Held| held_view(h)) == readable(file_dumps(bytes@)),
            final(self).skipped_of() == unreadable(file_dumps(bytes@)),
            bytes@.len() == 0 ==> final(self).held_of().len() == 0 && final(self).skipped_of() == 0,
            final(self).loaded_of() is None,
            final(self).transfer_of() is None,
    {
        let dumps = read_dumps(bytes);
        let ghost all = file_dumps(bytes@);
        let mut held: Vec<Held> = Vec::new();
        let mut skipped: usize = 0;
        let mut i: usize = 0;
        let mut rest = dumps;
        let ghost taken: Seq<Option<Dump>> = Seq::empty();
        while i < rest.len()
            invariant
                i <= rest@.len(),
                rest@.len() == all.len(),
                forall|k: int|
                    i <= k < rest@.len() ==> match #[trigger] rest@[k] {
                        Some(d) => all[k] == Some(dump_view(d)),
                        None => all[k] is None,
                    },
                forall|k: int|
                    i <= k < rest@.len() ==> (#[trigger] rest@[k] matches Some(d) ==> sound_dump(
                        dump_view(d),
                    )),
                held@.map_values(|h: Held| held_view(h)) == readable(all.subrange(0, i as int)),
                skipped == unreadable(all.subrange(0, i as int)),
                skipped <= i,
            decreases rest@.len() - i,
        {
            let ghost prefix = all.subrange(0, i as int);
            let ghost next = all.subrange(0, i + 1);
            proof {
                assert(next.drop_last() =~= prefix);
            }
            let mut entry: Option<Dump> = None;
            rest.set_and_swap(i, &mut entry);
            match entry {
                Some(dump) => {
                    proof {
                        assert(sound_dump(dump_view(dump)));
                    }
                    let version = match ProtocolVersion::new(dump.version) {
                        Some(v) => v,
                        None => {
                            proof {
                                assert(false);
                            }
                            ProtocolVersion::V7
                        },
                    };
                    let program = match Program::from_bytes(version, dump.data.as_slice()) {
                        Some(p) => p,
                        None => {
                            proof {
                                assert(false);
                            }
                            Program::new(version)
                        },
                    };
                    let slot = match dump.slot {
                        Some((bank, number)) => Some(
                            Slot { bank: Bank { index: bank }, number: ProgramNumber { number } },
                        ),
                        None => None,
                    };
                    let ghost before = held@;
                    held.push(Held { slot, program });
                    proof {
                        assert(held@.map_values(|h: Held| held_view(h)) =~= before.map_values(
                            |h: Held| held_view(h),
                        ).push(dump_view(dump)));
                    }
                },
                None => {
                    skipped = skipped + 1;
                },
            }
            i = i + 1;
        }
        proof {
            assert(all.subrange(0, all.len() as int) =~= all);
        }
        *self = Shelf {
            source: Some(Source::File(name)),
            held,
            skipped,
            loaded: None,
            transfer: None,
        };
    }

    /// Returns what to call the file this shelf would be saved as: the name it
    /// was opened under, `bank-` and the bank's letter for a bank read, and
    /// `pack.syx` for a shelf that came from neither.
    pub fn file_name(&self) -> (name: String)
        requires
            self.source_of() matches Some(Source::Bank(bank)) ==> bank.index < BANK_COUNT,
        ensures
            name@ == file_name_of(self.source_of()),
    {
        match &self.source {
            Some(Source::File(name)) => name.clone(),
            Some(Source::Bank(bank)) => {
                let letter = ((97u8 + bank.index) as char);
                let mut text: Vec<char> = Vec::new();
                crate::text::extend(&mut text, &crate::text::chars_of("bank-"));
                text.push(letter);
                crate::text::extend(&mut text, &crate::text::chars_of(".syx"));
                proof {
                    assert(text@ =~= "bank-"@ + seq![((97 + bank.index) as u32) as char] + ".syx"@);
                }
                crate::text::string_of(&text)
            },
            None => "pack.syx".to_owned(),
        }
    }

    /// Clears the shelf and starts a bank read onto it.
    pub fn begin(&mut self, bank: Bank, expected: u16)
        ensures
            final(self).source_of() == Some(Source::Bank(bank)),
            final(self).held_of().len() == 0,
            bank_ordered(final(self).held_of()),
            final(self).skipped_of() == 0,
            final(self).loaded_of() is None,
            final(self).transfer_of() == Some(Transfer { bank, received: 0, expected }),
    {
        *self = Shelf {
            source: Some(Source::Bank(bank)),
            held: Vec::new(),
            skipped: 0,
            loaded: None,
            transfer: Some(Transfer { bank, received: 0, expected }),
        };
    }

    /// Takes one stored program dump, kept in slot order: it goes in front of
    /// the first program at or after its slot, and replaces the program
    /// already at that slot if there is one.
    pub fn arrived(&mut self, slot: Slot, program: Program)
        ensures
            final(self).source_of() == old(self).source_of(),
            final(self).skipped_of() == old(self).skipped_of(),
            final(self).loaded_of() == old(self).loaded_of(),
            final(self).transfer_of() == old(self).transfer_of(),
            ({
                let before = old(self).held_of();
                let at = place_for(before, slot);
                let one = Held { slot: Some(slot), program };
                if at < before.len() && before[at].slot == Some(slot) {
                    final(self).held_of() == before.update(at, one)
                } else {
                    final(self).held_of() == before.insert(at, one)
                }
            }),
            bank_ordered(old(self).held_of()) ==> bank_ordered(final(self).held_of()),
            bank_ordered(old(self).held_of()) ==> forall|s: Slot|
                holds_slot(final(self).held_of(), s) <==> (holds_slot(old(self).held_of(), s)
                    || s == slot),
            bank_ordered(old(self).held_of()) ==> forall|i: int|
                0 <= i < final(self).held_of().len() && (#[trigger] final(self).held_of()[i]).slot
                    == Some(slot) ==> final(self).held_of()[i] == (Held { slot: Some(slot), program }),
            bank_ordered(old(self).held_of()) ==> forall|i: int|
                0 <= i < old(self).held_of().len() && (#[trigger] old(self).held_of()[i]).slot
                    != Some(slot) ==> final(self).held_of().contains(old(self).held_of()[i]),
            bank_ordered(old(self).held_of()) ==> forall|j: int|
                0 <= j < final(self).held_of().len() && (#[trigger] final(self).held_of()[j]).slot
                    != Some(slot) ==> old(self).held_of().contains(final(self).held_of()[j]),
            bank_ordered(old(self).held_of()) ==> (final(self).held_of().len()
                == old(self).held_of().len() + 1 <==> !holds_slot(old(self).held_of(), slot)),
            bank_ordered(old(self).held_of()) ==> (final(self).held_of().len()
                == old(self).held_of().len() <==> holds_slot(old(self).held_of(), slot)),
    {
        let ghost arriving = program;
        let mut at: usize = 0;
        while at < self.held.len()
            invariant
                at <= self.held@.len(),
                forall|j: int|
                    0 <= j < at ==> !stops_at(#[trigger] self.held@[j], slot),
            ensures
                at <= self.held@.len(),
                forall|j: int|
                    0 <= j < at ==> !stops_at(#[trigger] self.held@[j], slot),
                at < self.held@.len() ==> stops_at(self.held@[at as int], slot),
            decreases self.held@.len() - at,
        {
            let stop = match self.held[at].slot {
                Some(other) => !other.before(slot),
                None => false,
            };
            if stop {
                break;
            }
            at = at + 1;
        }
        proof {
            let before = self.held@;
            lemma_place_for(before, slot);
            let chosen = place_for(before, slot);
            if chosen < at {
                assert(stops_at(before[chosen], slot));
            }
            if chosen > at {
                assert(!stops_at(before[at as int], slot));
            }
            assert(chosen == at);
        }
        let same = at < self.held.len() && match self.held[at].slot {
            Some(other) => other == slot,
            None => false,
        };
        let one = Held { slot: Some(slot), program };
        if same {
            self.held.set(at, one);
        } else {
            self.held.insert(at, one);
        }
        proof {
            if bank_ordered(old(self).held@) {
                lemma_arrival_keeps_order(old(self).held@, slot, arriving);
                lemma_arrival_adds_its_slot(old(self).held@, slot, arriving);
            }
        }
    }

    /// Notes how far the bank read has got; ignored when nothing is in
    /// flight.
    pub fn advance(&mut self, received: u16, expected: u16)
        ensures
            final(self).source_of() == old(self).source_of(),
            final(self).held_of() == old(self).held_of(),
            final(self).skipped_of() == old(self).skipped_of(),
            final(self).loaded_of() == old(self).loaded_of(),
            old(self).transfer_of() matches Some(t) ==> final(self).transfer_of() == Some(
                Transfer { bank: t.bank, received, expected },
            ),
            old(self).transfer_of() is None ==> final(self).transfer_of() is None,
    {
        match self.transfer {
            Some(t) => {
                self.transfer = Some(Transfer { bank: t.bank, received, expected });
            },
            None => {},
        }
    }

    /// Ends the bank read, keeping whatever arrived.
    pub fn finish(&mut self)
        ensures
            final(self).source_of() == old(self).source_of(),
            final(self).held_of() == old(self).held_of(),
            final(self).skipped_of() == old(self).skipped_of(),
            final(self).loaded_of() == old(self).loaded_of(),
            final(self).transfer_of() is None,
    {
        self.transfer = None;
    }

    /// Takes one program off the shelf to be played, and remembers which;
    /// what is on the shelf stays on it.
    pub fn load(&mut self, index: usize) -> (program: Option<Program>)
        ensures
            program is Some <==> index < old(self).held_of().len(),
            program matches Some(p) ==> p@ == old(self).held_of()[index as int].program@
                && p.version_of() == old(self).held_of()[index as int].program.version_of(),
            final(self).held_of() == old(self).held_of(),
            final(self).source_of() == old(self).source_of(),
            final(self).skipped_of() == old(self).skipped_of(),
            final(self).transfer_of() == old(self).transfer_of(),
            index < old(self).held_of().len() ==> final(self).loaded_of() == Some(index),
            index >= old(self).held_of().len() ==> final(self).loaded_of() == old(self).loaded_of(),
    {
        if index >= self.held.len() {
            return None;
        }
        let program = self.held[index].program.copied();
        self.loaded = Some(index);
        Some(program)
    }

    /// Writes the shelf out as a `.syx` file: one dump per program, in the
    /// order they are held, the stored dump for a program that names a slot
    /// and the edit buffer dump for one that names none.
    ///
    /// What is written reads back as what was held: every program, in the
    /// same order, at the same slot, under the same version, with nothing
    /// skipped; and followed by more bytes, it reads as the held programs
    /// and then whatever those bytes read as.
    pub fn to_syx(&self) -> (bytes: Result<Vec<u8>, Unwritable>)
        ensures
            match bytes {
                Ok(b) => pack_of(self.held_of()) == Some(b@),
                Err(_) => pack_of(self.held_of()) is None,
            },
            bytes matches Ok(b) ==> forall|rest: Seq<u8>|
                #[trigger] file_dumps(b@ + rest) == dumps_of(self.held_of()) + file_dumps(rest),
            bytes matches Ok(b) ==> self.held_of().len() > 0 ==> {
                &&& readable(file_dumps(b@)) == self.held_of().map_values(|h: Held| held_view(h))
                &&& unreadable(file_dumps(b@)) == 0
            },
    {
        let mut out: Vec<u8> = Vec::new();
        let mut i: usize = 0;
        while i < self.held.len()
            invariant
                i <= self.held@.len(),
                pack_of(self.held@.subrange(0, i as int)) == Some(out@),
                forall|rest: Seq<u8>|
                    #[trigger] file_dumps(out@ + rest) == dumps_of(self.held@.subrange(0, i as int))
                        + file_dumps(rest),
                i > 0 ==> file_dumps(out@) == dumps_of(self.held@.subrange(0, i as int)),
            decreases self.held@.len() - i,
        {
            let ghost prefix = self.held@.subrange(0, i as int);
            let ghost next = self.held@.subrange(0, i + 1);
            proof {
                assert(next.drop_last() =~= prefix);
                assert(dumps_of(next) =~= dumps_of(prefix).push(Some(held_view(self.held@[i as int]))));
            }
            match frame_for(self.held[i].slot, &self.held[i].program) {
                Some(frame) => {
                    let ghost before = out@;
                    let ghost f = frame@;
                    let ghost one = seq![Some(held_view(self.held@[i as int]))];
                    let mut frame = frame;
                    out.append(&mut frame);
                    proof {
                        assert(out@ == before + f);
                        assert forall|rest: Seq<u8>|
                            #[trigger] file_dumps(out@ + rest) == dumps_of(next) + file_dumps(rest) by {
                            assert(out@ + rest =~= before + (f + rest));
                            assert(file_dumps(before + (f + rest)) == dumps_of(prefix) + file_dumps(f + rest));
                            assert(file_dumps(f + rest) == one + file_dumps(rest));
                            assert(dumps_of(prefix) + (one + file_dumps(rest)) =~= dumps_of(next) + file_dumps(rest));
                        }
                        if i == 0 {
                            assert(before.len() == 0);
                            assert(out@ =~= f);
                            assert(dumps_of(prefix) =~= Seq::empty());
                            assert(one =~= dumps_of(next));
                        } else {
                            assert(file_dumps(before + f) == dumps_of(prefix) + file_dumps(f));
                            assert(dumps_of(prefix) + one =~= dumps_of(next));
                        }
                    }
                },
                None => {
                    proof {
                        let later = self.held@.subrange(i + 1, self.held@.len() as int);
                        lemma_pack_refused(self.held@, i as int);
                    }
                    return Err(Unwritable);
                },
            }
            i = i + 1;
        }
        proof {
            assert(self.held@.subrange(0, self.held@.len() as int) =~= self.held@);
            lemma_written_reads_back(self.held@);
        }
        Ok(out)
    }
}

/// Reading back what was held gives every held program, in order, and skips
/// nothing.
proof fn lemma_written_reads_back(held: Seq<Held>)
    ensures
        readable(dumps_of(held)) == held.map_values(|h: Held| held_view(h)),
        unreadable(dumps_of(held)) == 0,
    decreases held.len(),
{
    if held.len() > 0 {
        lemma_written_reads_back(held.drop_last());
        assert(dumps_of(held).drop_last() =~= dumps_of(held.drop_last()));
        assert(held.map_values(|h: Held| held_view(h)) =~= held.drop_last().map_values(
            |h: Held| held_view(h),
        ).push(held_view(held.last())));
    } else {
        assert(dumps_of(held) =~= Seq::empty());
        assert(held.map_values(|h: Held| held_view(h)) =~= Seq::empty());
    }
}

proof fn lemma_pack_refused(held: Seq<Held>, i: int)
    requires
        0 <= i < held.len(),
        frame_of(held[i].slot, held[i].program) is None,
    ensures
        pack_of(held) is None,
    decreases held.len(),
{
    if i < held.len() - 1 {
        assert(held.drop_last()[i] == held[i]);
        lemma_pack_refused(held.drop_last(), i);
    }
}

proof fn lemma_place_for(held: Seq<Held>, slot: Slot)
    ensures
        0 <= place_for(held, slot) <= held.len(),
        forall|j: int|
            0 <= j < place_for(held, slot) ==> !stops_at(#[trigger] held[j], slot),
        place_for(held, slot) < held.len() ==> stops_at(held[place_for(held, slot)], slot),
{
    if exists|i: int|
        0 <= i < held.len() && stops_at(#[trigger] held[i], slot) {
        lemma_first_place(held, slot, held.len() as int);
    }
}

proof fn lemma_first_place(held: Seq<Held>, slot: Slot, n: int)
    requires
        0 <= n <= held.len(),
        exists|i: int| 0 <= i < n && stops_at(#[trigger] held[i], slot),
    ensures
        exists|i: int|
            0 <= i < held.len() && stops_at(#[trigger] held[i], slot)
                && forall|j: int|
                0 <= j < i ==> !stops_at(#[trigger] held[j], slot),
    decreases n,
{
    if exists|i: int| 0 <= i < n - 1 && stops_at(#[trigger] held[i], slot) {
        lemma_first_place(held, slot, n - 1);
    } else {
        let k = n - 1;
        assert(stops_at(held[k], slot));
        assert forall|j: int| 0 <= j < k implies !stops_at(#[trigger] held[j], slot) by {}
    }
}

/// A bank read arriving in any order stays in slot order: a dump taken onto a
/// shelf whose slots are in order leaves them in order, with the new slot on
/// it.
pub proof fn lemma_arrival_keeps_order(before: Seq<Held>, slot: Slot, program: Program)
    requires
        in_slot_order(before),
        forall|i: int| 0 <= i < before.len() ==> (#[trigger] before[i]).slot is Some,
    ensures
        ({
            let at = place_for(before, slot);
            let one = Held { slot: Some(slot), program };
            let after = if at < before.len() && before[at].slot == Some(slot) {
                before.update(at, one)
            } else {
                before.insert(at, one)
            };
            &&& in_slot_order(after)
            &&& after.len() == if at < before.len() && before[at].slot == Some(slot) {
                before.len()
            } else {
                before.len() + 1
            }
            &&& 0 <= at < after.len() && after[at] == one
        }),
{
    let at = place_for(before, slot);
    let one = Held { slot: Some(slot), program };
    lemma_place_for(before, slot);
    let replaced = at < before.len() && before[at].slot == Some(slot);
    if replaced {
        let after = before.update(at, one);
        assert forall|i: int, j: int| 0 <= i < j < after.len() implies match ((#[trigger] after[i]).slot, (#[trigger] after[j]).slot) {
            (Some(a), Some(b)) => slot_before(a, b),
            _ => true,
        } by {
            assert(before[i].slot is Some && before[j].slot is Some);
            if i == at {
                assert(after[i].slot == before[i].slot);
            }
            if j == at {
                assert(after[j].slot == before[j].slot);
            }
        }
    } else {
        let after = before.insert(at, one);
        assert forall|i: int, j: int| 0 <= i < j < after.len() implies match ((#[trigger] after[i]).slot, (#[trigger] after[j]).slot) {
            (Some(a), Some(b)) => slot_before(a, b),
            _ => true,
        } by {
            if i < at && j < at {
                assert(after[i] == before[i] && after[j] == before[j]);
            } else if i < at && j == at {
                assert(after[i] == before[i]);
                assert(before[i].slot is Some);
            } else if i < at {
                assert(after[i] == before[i] && after[j] == before[j - 1]);
                assert(before[i].slot is Some && before[j - 1].slot is Some);
            } else if i == at {
                assert(after[j] == before[j - 1]);
                assert(before[at].slot is Some);
                if j - 1 > at {
                    assert(before[j - 1].slot is Some);
                }
            } else {
                assert(after[i] == before[i - 1] && after[j] == before[j - 1]);
                assert(before[i - 1].slot is Some && before[j - 1].slot is Some);
            }
        }
    }
}


/// Whether some held program names `slot`.
pub open spec fn holds_slot(held: Seq<Held>, slot: Slot) -> bool {
    exists|i: int| 0 <= i < held.len() && (#[trigger] held[i]).slot == Some(slot)
}

/// A dump taken onto a bank read's shelf puts its slot among the slots held
/// and changes nothing else: the slots held afterwards are those held before
/// and the new one; the program at the new slot is the one that arrived, so
/// a slot that arrives twice keeps the second; every other program stays;
/// and the shelf grows by one exactly where the slot was not held before.
pub proof fn lemma_arrival_adds_its_slot(before: Seq<Held>, slot: Slot, program: Program)
    requires
        in_slot_order(before),
        forall|i: int| 0 <= i < before.len() ==> (#[trigger] before[i]).slot is Some,
    ensures
        ({
            let at = place_for(before, slot);
            let one = Held { slot: Some(slot), program };
            let after = if at < before.len() && before[at].slot == Some(slot) {
                before.update(at, one)
            } else {
                before.insert(at, one)
            };
            &&& forall|i: int| 0 <= i < after.len() ==> (#[trigger] after[i]).slot is Some
            &&& forall|s: Slot| holds_slot(after, s) <==> (holds_slot(before, s) || s == slot)
            &&& forall|i: int| 0 <= i < after.len() && (#[trigger] after[i]).slot == Some(slot) ==> after[i] == one
            &&& forall|i: int|
                0 <= i < before.len() && (#[trigger] before[i]).slot != Some(slot) ==> after.contains(before[i])
            &&& forall|j: int|
                0 <= j < after.len() && (#[trigger] after[j]).slot != Some(slot) ==> before.contains(after[j])
            &&& (after.len() == before.len() + 1 <==> !holds_slot(before, slot))
            &&& (after.len() == before.len() <==> holds_slot(before, slot))
        }),
{
    let at = place_for(before, slot);
    let one = Held { slot: Some(slot), program };
    lemma_place_for(before, slot);
    lemma_arrival_keeps_order(before, slot, program);
    let replaced = at < before.len() && before[at].slot == Some(slot);
    // Where the slot is not at `at`, it is nowhere: everything before `at`
    // stands before it, and everything from `at` on stands after it.
    if !replaced {
        assert forall|i: int| 0 <= i < before.len() implies (#[trigger] before[i]).slot != Some(slot) by {
            if i < at {
                assert(!stops_at(before[i], slot));
            } else {
                assert(stops_at(before[at], slot));
                if i > at {
                    assert(slot_before(before[at].slot.unwrap(), before[i].slot.unwrap()));
                }
            }
        }
        assert(!holds_slot(before, slot));
    } else {
        assert(holds_slot(before, slot));
    }
    if replaced {
        let after = before.update(at, one);
        assert forall|i: int| 0 <= i < after.len() && (#[trigger] after[i]).slot == Some(slot) implies after[i] == one by {
            if i != at {
                assert(before[i].slot == Some(slot));
                if i < at {
                    assert(slot_before(before[i].slot.unwrap(), before[at].slot.unwrap()));
                } else {
                    assert(slot_before(before[at].slot.unwrap(), before[i].slot.unwrap()));
                }
            }
        }
        assert forall|s: Slot| holds_slot(after, s) <==> (holds_slot(before, s) || s == slot) by {
            if holds_slot(after, s) {
                let i = choose|i: int| 0 <= i < after.len() && (#[trigger] after[i]).slot == Some(s);
                if i != at {
                    assert(before[i].slot == Some(s));
                }
            }
            if holds_slot(before, s) {
                let i = choose|i: int| 0 <= i < before.len() && (#[trigger] before[i]).slot == Some(s);
                if i == at {
                    assert(after[at].slot == Some(s));
                } else {
                    assert(after[i].slot == Some(s));
                }
            }
            if s == slot {
                assert(after[at].slot == Some(s));
            }
        }
        assert forall|i: int| 0 <= i < before.len() && (#[trigger] before[i]).slot != Some(slot) implies after.contains(before[i]) by {
            assert(i != at);
            assert(after[i] == before[i]);
        }
        assert forall|j: int| 0 <= j < after.len() && (#[trigger] after[j]).slot != Some(slot) implies before.contains(after[j]) by {
            assert(j != at);
            assert(after[j] == before[j]);
        }
    } else {
        let after = before.insert(at, one);
        assert forall|i: int| 0 <= i < after.len() && (#[trigger] after[i]).slot == Some(slot) implies after[i] == one by {
            if i < at {
                assert(after[i] == before[i]);
            } else if i > at {
                assert(after[i] == before[i - 1]);
            }
        }
        assert forall|s: Slot| holds_slot(after, s) <==> (holds_slot(before, s) || s == slot) by {
            if holds_slot(after, s) {
                let i = choose|i: int| 0 <= i < after.len() && (#[trigger] after[i]).slot == Some(s);
                if i < at {
                    assert(before[i].slot == Some(s));
                } else if i > at {
                    assert(before[i - 1].slot == Some(s));
                }
            }
            if holds_slot(before, s) {
                let i = choose|i: int| 0 <= i < before.len() && (#[trigger] before[i]).slot == Some(s);
                if i < at {
                    assert(after[i].slot == Some(s));
                } else {
                    assert(after[i + 1].slot == Some(s));
                }
            }
            if s == slot {
                assert(after[at].slot == Some(s));
            }
        }
        assert forall|i: int| 0 <= i < before.len() && (#[trigger] before[i]).slot != Some(slot) implies after.contains(before[i]) by {
            if i < at {
                assert(after[i] == before[i]);
            } else {
                assert(after[i + 1] == before[i]);
            }
        }
        assert forall|j: int| 0 <= j < after.len() && (#[trigger] after[j]).slot != Some(slot) implies before.contains(after[j]) by {
            if j < at {
                assert(after[j] == before[j]);
            } else {
                assert(j != at);
                assert(after[j] == before[j - 1]);
            }
        }
        assert forall|i: int| 0 <= i < after.len() implies (#[trigger] after[i]).slot is Some by {
            if i < at {
                assert(after[i] == before[i]);
            } else if i > at {
                assert(after[i] == before[i - 1]);
            }
        }
    }
}

} // verus!
