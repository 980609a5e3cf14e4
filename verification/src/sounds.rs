//! The table of sounds: what each column narrows to, and which places are
//! lit.

use vstd::prelude::*;
use crate::app::{By, Chosen, Where, place_label};
use crate::catalogue::{Entry, category_label, category_label_of, category_of_program, is_category, stored_category, texts};
use crate::shelf::{Held, Shelf, Source, slot_exists, held_name};
use crate::app::{listed, match_at, matched_at};
use crate::catalogue::{Listing, listed_categories, insert_term, strictly_sorted, lowercase, lowercased};
use crate::app::{Sorting, nearness_of};
use crate::text::{text_before, before, lemma_before_total, lemma_before_transitive};
use crate::text::{chars_of, decimal, digits, extend, string_of};

verus! {

/// The instrument's own lamp colour, which marks what is in the instrument.
pub const LAMP: [u8; 3] = [0xff, 0xbe, 0x3d];

/// The colour a place is written in: the lamp for the instrument, and the
/// ordinary ink for the other two.
pub open spec fn place_colour_of(place: Where) -> Option<[u8; 3]> {
    match place {
        Where::Instrument => Some(LAMP),
        Where::Machine | Where::Library => None,
    }
}

/// Returns the colour a place is written in, where it is not the ink's.
pub fn place_colour(place: Where) -> (colour: Option<[u8; 3]>)
    ensures
        colour == place_colour_of(place),
{
    match place {
        Where::Instrument => Some(LAMP),
        Where::Machine | Where::Library => None,
    }
}

/// One option of a column's picker: the text it narrows the column to, where
/// the empty text is the option that narrows nothing.
#[derive(Debug, Clone)]
pub struct Narrowing {
    wanted: String,
}

impl View for Narrowing {
    type V = Seq<char>;

    closed spec fn view(&self) -> Seq<char> {
        self.wanted@
    }
}

impl Narrowing {
    /// The option that stops narrowing the column.
    pub fn everything() -> (all: Narrowing)
        ensures
            all@.len() == 0,
    {
        Narrowing { wanted: String::new() }
    }

    /// The option that narrows the column to `wanted`.
    pub fn to(wanted: String) -> (option: Narrowing)
        ensures
            option@ == wanted@,
    {
        Narrowing { wanted }
    }

    /// The text this option narrows to, which is nothing at all for the
    /// option that narrows nothing.
    pub fn wanted(&self) -> (text: String)
        ensures
            text@ == self@,
    {
        self.wanted.clone()
    }

    /// What the picker prints for this option: `All` for the one that
    /// narrows nothing, and the text itself for the rest.
    pub fn label(&self) -> (said: String)
        ensures
            said@ == (if self@.len() == 0 { "All"@ } else { self@ }),
    {
        if self.wanted.unicode_len() == 0 {
            "All".to_owned()
        } else {
            self.wanted.clone()
        }
    }
}


/// What the library knows of a held program it recognised: the patch, the
/// version that matched, and whether that is the patch's current one.
#[derive(Debug, Clone, Copy)]
pub struct Known<'a> {
    /// The patch.
    pub patch: &'a Entry,
    /// The version whose fingerprint matched.
    pub version: u32,
    /// Whether that is the patch's current version.
    pub latest: bool,
}

/// One line of the table of sounds: a program on this machine's shelf, or a
/// patch in the shared library. Everything about the table asks a row for a
/// column and does not care which it is.
#[derive(Debug, Clone, Copy)]
pub enum Row<'a> {
    /// A program on the shelf, and what the library knows about it.
    Held {
        /// Where it sits on the shelf.
        at: usize,
        /// The program.
        held: &'a Held,
        /// The patch it is, where the library ever published those bytes.
        known: Option<Known<'a>>,
        /// Which of the two nearby places it is in.
        place: Where,
    },
    /// A patch in the shared library.
    Patch(&'a Entry),
}

/// A number the way the `No.` column writes it: at least three digits,
/// padded with noughts, so that sorting the text sorts the numbers.
pub open spec fn padded(n: nat) -> Seq<char> {
    if n < 10 {
        "00"@ + digits(n)
    } else if n < 100 {
        "0"@ + digits(n)
    } else {
        digits(n)
    }
}

/// How many digits a number is written with.
proof fn lemma_digit_count(n: nat)
    ensures
        n < 10 ==> digits(n).len() == 1,
        10 <= n < 100 ==> digits(n).len() == 2,
        100 <= n ==> digits(n).len() >= 3,
        10 <= n ==> digits(n).len() >= 2,
    decreases n,
{
    if n >= 10 {
        lemma_digit_count(n / 10);
    }
}

/// The `No.` column writes a slot's number counted from one as its decimal
/// digits, with noughts in front of them up to three characters: never
/// fewer than three, and never more than three or the digits, whichever is
/// more.
pub proof fn lemma_a_number_is_written_in_three_places(row: Row)
    ensures
        match row.slot_of() {
            Some((_, number)) => {
                let written = digits(number as nat + 1);
                let said = row.said_in_spec(By::Number);
                &&& said.len() == if written.len() < 3 { 3 } else { written.len() }
                &&& said.subrange(said.len() - written.len(), said.len() as int) == written
                &&& forall|i: int| 0 <= i < said.len() - written.len() ==> said[i] == '0'
            },
            None => row.said_in_spec(By::Number).len() == 0,
        },
{
    if let Some((_, number)) = row.slot_of() {
        let n = number as nat + 1;
        let written = digits(n);
        let said = row.said_in_spec(By::Number);
        lemma_digit_count(n);
        assert(said == padded(n));
        reveal_strlit("00");
        reveal_strlit("0");
        if n < 10 {
            assert(said.subrange(2, 3) =~= written);
        } else if n < 100 {
            assert(said.subrange(1, 3) =~= written);
        } else {
            assert(said.subrange(0, said.len() as int) =~= written);
        }
    }
}

/// Texts run together with a space between each two.
pub open spec fn spaced(list: Seq<Seq<char>>) -> Seq<char>
    decreases list.len(),
{
    if list.len() == 0 {
        Seq::empty()
    } else if list.len() == 1 {
        list[0]
    } else {
        spaced(list.drop_last()) + " "@ + list.last()
    }
}

impl<'a> Row<'a> {
    /// Where this sound is.
    pub open spec fn place_of(self) -> Where {
        match self {
            Row::Held { place, .. } => place,
            Row::Patch(_) => Where::Library,
        }
    }

    /// What it is called.
    pub open spec fn name_of(self) -> Seq<char> {
        match self {
            Row::Held { held, .. } => held_name(held.program@),
            Row::Patch(patch) => patch.name@,
        }
    }

    /// The patch it is, where there is one.
    pub open spec fn patch_of(self) -> Option<Entry> {
        match self {
            Row::Held { known, .. } => match known {
                Some(found) => Some(*found.patch),
                None => None,
            },
            Row::Patch(patch) => Some(*patch),
        }
    }

    /// Who made it, where anybody knows.
    pub open spec fn maker_of(self) -> Option<Seq<char>> {
        match self.patch_of() {
            Some(patch) => Some(patch.author@),
            None => None,
        }
    }

    /// The category it calls itself, by the value stored for it.
    pub open spec fn category_of(self) -> Option<u8> {
        match self {
            Row::Held { held, .. } => stored_category(held.program@),
            Row::Patch(patch) => Some(patch.category),
        }
    }

    /// Which version it is, and whether that is the newest published.
    pub open spec fn version_of(self) -> Option<(u32, bool)> {
        match self {
            Row::Held { known, .. } => match known {
                Some(found) => Some((found.version, found.latest)),
                None => None,
            },
            Row::Patch(patch) => Some((patch.version, true)),
        }
    }

    /// The newest version the library has published of it; nought for a
    /// sound it has never published.
    pub open spec fn newest_of(self) -> u32 {
        match self.patch_of() {
            Some(patch) => patch.version,
            None => 0,
        }
    }

    /// What it sounds like, where anybody has said.
    pub open spec fn about_of(self) -> Seq<char> {
        match self.patch_of() {
            Some(patch) => patch.about@,
            None => Seq::empty(),
        }
    }

    /// The bank index and program number it sits at, for a sound that sits
    /// in a bank.
    pub open spec fn slot_of(self) -> Option<(u8, u8)> {
        match self {
            Row::Held { held, .. } => match held.slot {
                Some(slot) => Some((slot.bank.index, slot.number.number)),
                None => None,
            },
            Row::Patch(_) => None,
        }
    }

    /// Every vocabulary term it carries, in the order they are drawn: mood,
    /// timbre, role, then genre.
    pub open spec fn tags_of(self) -> Seq<Seq<char>> {
        match self.patch_of() {
            Some(patch) => texts(patch.mood@) + texts(patch.timbre@) + texts(patch.role@) + texts(patch.genre@),
            None => Seq::empty(),
        }
    }

    /// Whether what the row says can be written: a slot that exists, and a
    /// patch filed under a category.
    pub open spec fn sound(self) -> bool {
        match self {
            Row::Held { held, .. } => held.slot matches Some(slot) ==> slot_exists(slot),
            Row::Patch(patch) => is_category(patch.category),
        }
    }

    /// What one column says about this row, as a filter reads it and as the
    /// column is sorted by: the version column says `current` or `behind`
    /// rather than drawing an arrow, and every other column says what it
    /// shows.
    pub open spec fn said_in_spec(self, by: By) -> Seq<char> {
        match by {
            By::Where => place_label(self.place_of()),
            By::Bank => match self.slot_of() {
                Some((bank, _)) => seq![((65 + bank) as u32) as char],
                None => Seq::empty(),
            },
            By::Number => match self.slot_of() {
                Some((_, number)) => padded((number + 1) as nat),
                None => Seq::empty(),
            },
            By::Name => self.name_of(),
            By::Maker => match self.maker_of() {
                Some(maker) => maker,
                None => Seq::empty(),
            },
            By::Category => match self.category_of() {
                Some(category) => category_label_of(category),
                None => Seq::empty(),
            },
            By::Tags => spaced(self.tags_of()),
            By::Version => match self.version_of() {
                Some((version, true)) => "v"@ + digits(version as nat) + " current"@,
                Some((version, false)) => "v"@ + digits(version as nat) + " behind"@,
                None => Seq::empty(),
            },
            By::About => self.about_of(),
        }
    }

    /// Returns where this sound is.
    pub fn place(&self) -> (place: Where)
        ensures
            place == self.place_of(),
    {
        match self {
            Row::Held { place, .. } => *place,
            Row::Patch(_) => Where::Library,
        }
    }

    /// Returns what it is called.
    pub fn name(&self) -> (name: String)
        ensures
            name@ == self.name_of(),
    {
        match self {
            Row::Held { held, .. } => held.name(),
            Row::Patch(patch) => patch.name.clone(),
        }
    }

    /// Returns the patch it is, where there is one.
    pub fn patch(&self) -> (patch: Option<&'a Entry>)
        ensures
            match patch {
                Some(p) => self.patch_of() == Some(*p),
                None => self.patch_of() is None,
            },
    {
        match self {
            Row::Held { known, .. } => match known {
                Some(found) => Some(found.patch),
                None => None,
            },
            Row::Patch(patch) => Some(*patch),
        }
    }

    /// Returns who made it, where anybody knows.
    pub fn maker(&self) -> (maker: Option<String>)
        ensures
            match maker {
                Some(m) => self.maker_of() == Some(m@),
                None => self.maker_of() is None,
            },
    {
        match self.patch() {
            Some(patch) => Some(patch.author.clone()),
            None => None,
        }
    }

    /// Returns the category it calls itself, by the value stored for it.
    pub fn category(&self) -> (category: Option<u8>)
        ensures
            category == self.category_of(),
            self.sound() ==> (category matches Some(value) ==> is_category(value)),
    {
        match self {
            Row::Held { held, .. } => category_of_program(&held.program),
            Row::Patch(patch) => Some(patch.category),
        }
    }

    /// Returns which version it is, and whether that is the newest published.
    pub fn version(&self) -> (version: Option<(u32, bool)>)
        ensures
            version == self.version_of(),
    {
        match self {
            Row::Held { known, .. } => match known {
                Some(found) => Some((found.version, found.latest)),
                None => None,
            },
            Row::Patch(patch) => Some((patch.version, true)),
        }
    }

    /// Returns the newest version of this sound the library has published,
    /// so a press that takes it can say what it is about to become.
    pub fn newest(&self) -> (newest: u32)
        ensures
            newest == self.newest_of(),
    {
        match self.patch() {
            Some(patch) => patch.version,
            None => 0,
        }
    }

    /// Returns what it sounds like, where anybody has said.
    pub fn about(&self) -> (about: String)
        ensures
            about@ == self.about_of(),
    {
        match self.patch() {
            Some(patch) => patch.about.clone(),
            None => String::new(),
        }
    }

    /// Returns the bank index and program number it sits at.
    pub fn slot(&self) -> (slot: Option<(u8, u8)>)
        ensures
            slot == self.slot_of(),
    {
        match self {
            Row::Held { held, .. } => match held.slot {
                Some(slot) => Some((slot.bank.index, slot.number.number)),
                None => None,
            },
            Row::Patch(_) => None,
        }
    }

    /// Returns which sound this row is, as something that outlives the
    /// drawing: a place on the shelf, or a patch's id.
    pub fn chosen(&self) -> (chosen: Chosen)
        ensures
            match *self {
                Row::Held { at, .. } => chosen == Chosen::Held(at),
                Row::Patch(patch) => chosen matches Chosen::Patch(id) && id@ == patch.id@,
            },
    {
        match self {
            Row::Held { at, .. } => Chosen::Held(*at),
            Row::Patch(patch) => Chosen::Patch(patch.id.clone()),
        }
    }

    /// Returns every vocabulary term it carries, in the order they are
    /// drawn.
    pub fn tags(&self) -> (tags: Vec<String>)
        ensures
            texts(tags@) == self.tags_of(),
    {
        let mut tags: Vec<String> = Vec::new();
        match self.patch() {
            Some(patch) => {
                append_all(&mut tags, &patch.mood);
                append_all(&mut tags, &patch.timbre);
                append_all(&mut tags, &patch.role);
                append_all(&mut tags, &patch.genre);
                proof {
                    assert(texts(tags@) =~= self.tags_of());
                }
            },
            None => {
                proof {
                    assert(texts(tags@) =~= Seq::<Seq<char>>::empty());
                }
            },
        }
        tags
    }

    /// Returns what one column says about this row.
    pub fn said_in(&self, by: By) -> (said: String)
        requires
            self.sound(),
        ensures
            said@ == self.said_in_spec(by),
            by == By::Number ==> match self.slot_of() {
                Some((_, number)) => {
                    let written = digits(number as nat + 1);
                    &&& said@.len() == if written.len() < 3 { 3 } else { written.len() }
                    &&& said@.subrange(said@.len() - written.len(), said@.len() as int) == written
                    &&& forall|i: int| 0 <= i < said@.len() - written.len() ==> said@[i] == '0'
                },
                None => said@.len() == 0,
            },
    {
        proof {
            lemma_a_number_is_written_in_three_places(*self);
        }
        match by {
            By::Where => self.place().label().to_owned(),
            By::Bank => match self.slot() {
                Some((bank, _)) => {
                    let mut text: Vec<char> = Vec::new();
                    text.push((65u8 + bank) as char);
                    proof {
                        assert(text@ =~= seq![((65 + bank) as u32) as char]);
                    }
                    string_of(&text)
                },
                None => String::new(),
            },
            By::Number => match self.slot() {
                Some((_, number)) => {
                    let shown: u8 = number + 1;
                    let mut text: Vec<char> = Vec::new();
                    if shown < 10 {
                        extend(&mut text, &chars_of("00"));
                    } else if shown < 100 {
                        extend(&mut text, &chars_of("0"));
                    }
                    extend(&mut text, &decimal(shown as u64));
                    proof {
                        assert(text@ =~= padded((number + 1) as nat));
                    }
                    string_of(&text)
                },
                None => String::new(),
            },
            By::Name => self.name(),
            By::Maker => match self.maker() {
                Some(maker) => maker,
                None => String::new(),
            },
            By::Category => match self.category() {
                Some(category) => category_label(category).to_owned(),
                None => String::new(),
            },
            By::Tags => {
                let tags = self.tags();
                join(&tags)
            },
            By::Version => match self.version() {
                Some((version, latest)) => {
                    let mut text = chars_of("v");
                    extend(&mut text, &decimal(version as u64));
                    if latest {
                        extend(&mut text, &chars_of(" current"));
                    } else {
                        extend(&mut text, &chars_of(" behind"));
                    }
                    proof {
                        if latest {
                            assert(text@ =~= "v"@ + digits(version as nat) + " current"@);
                        } else {
                            assert(text@ =~= "v"@ + digits(version as nat) + " behind"@);
                        }
                    }
                    string_of(&text)
                },
                None => String::new(),
            },
            By::About => self.about(),
        }
    }
}

/// Appends each of `more` to `list`.
fn append_all(list: &mut Vec<String>, more: &Vec<String>)
    ensures
        texts(final(list)@) == texts(old(list)@) + texts(more@),
{
    let ghost start = texts(list@);
    let mut i: usize = 0;
    while i < more.len()
        invariant
            i <= more@.len(),
            texts(list@) == start + texts(more@.take(i as int)),
        decreases more@.len() - i,
    {
        let ghost before = list@;
        list.push(more[i].clone());
        proof {
            assert(more@.take(i + 1) =~= more@.take(i as int).push(more@[i as int]));
            assert(texts(list@) =~= texts(before).push(more@[i as int]@));
            assert(texts(more@.take(i + 1)) =~= texts(more@.take(i as int)).push(more@[i as int]@));
        }
        i = i + 1;
    }
    proof {
        assert(more@.take(more@.len() as int) =~= more@);
    }
}

/// Returns texts run together with a space between each two.
fn join(list: &Vec<String>) -> (said: String)
    ensures
        said@ == spaced(texts(list@)),
{
    let mut text: Vec<char> = Vec::new();
    let mut i: usize = 0;
    while i < list.len()
        invariant
            i <= list@.len(),
            text@ == spaced(texts(list@).take(i as int)),
        decreases list@.len() - i,
    {
        let ghost taken = texts(list@).take(i as int);
        let ghost next = texts(list@).take(i + 1);
        proof {
            assert(next.drop_last() =~= taken);
            assert(next.last() == list@[i as int]@);
        }
        if i > 0 {
            extend(&mut text, &chars_of(" "));
        }
        extend(&mut text, &chars_of(list[i].as_str()));
        proof {
            if i == 0 {
                assert(taken =~= Seq::<Seq<char>>::empty());
                assert(text@ =~= next[0]);
            } else {
                assert(text@ =~= spaced(taken) + " "@ + next.last());
            }
        }
        i = i + 1;
    }
    proof {
        assert(texts(list@).take(list@.len() as int) =~= texts(list@));
    }
    string_of(&text)
}


/// Whether a row is the one somebody has in hand, and so is lit: the sound
/// chosen last, or the shared patch being tried. Choosing a row plays it, so
/// the two almost always agree.
pub open spec fn lit_spec(row: Row, trying: Option<&str>, picked: Option<&Chosen>) -> bool {
    ||| match (picked, row) {
        (Some(Chosen::Held(i)), Row::Held { at, .. }) => *i == at,
        (Some(Chosen::Patch(id)), Row::Patch(patch)) => id@ == patch.id@,
        _ => false,
    }
    ||| (row matches Row::Patch(patch) && trying matches Some(t) && t@ == patch.id@)
}

/// Returns whether a row is lit: it is the sound chosen last, or the shared
/// patch being tried.
pub fn lit(row: &Row, trying: Option<&str>, picked: Option<&Chosen>) -> (yes: bool)
    ensures
        yes == lit_spec(*row, trying, picked),
{
    let chosen = match (picked, row) {
        (Some(Chosen::Held(i)), Row::Held { at, .. }) => *i == *at,
        (Some(Chosen::Patch(id)), Row::Patch(patch)) => crate::text::same_chars(
            &chars_of(id.as_str()),
            &chars_of(patch.id.as_str()),
        ),
        _ => false,
    };
    let tried = match (row, trying) {
        (Row::Patch(patch), Some(t)) => crate::text::same_chars(&chars_of(t), &chars_of(patch.id.as_str())),
        _ => false,
    };
    chosen || tried
}

/// Returns what a row's keep press would put on the shelf: a shared patch,
/// by its id, where the sounds themselves are here; nothing for a program
/// that is on the shelf already, and nothing while only what is said about
/// the patches has arrived.
pub fn keeps(row: &Row, loadable: bool) -> (kept: Option<String>)
    ensures
        match *row {
            Row::Patch(patch) => if loadable {
                kept matches Some(id) && id@ == patch.id@
            } else {
                kept is None
            },
            Row::Held { .. } => kept is None,
        },
{
    match row {
        Row::Patch(patch) => if loadable {
            Some(patch.id.clone())
        } else {
            None
        },
        Row::Held { .. } => None,
    }
}

/// Which of the two nearby places a shelf's programs are in: the instrument
/// for a bank read off it, this machine otherwise.
pub open spec fn shelf_place(source: Option<Source>) -> Where {
    match source {
        Some(Source::Bank(_)) => Where::Instrument,
        _ => Where::Machine,
    }
}

/// Whether a row for the program at `at` on the shelf is the one the table
/// draws for it: in its place, with what the library knows of it.
pub open spec fn held_row(row: Row, shelf: Shelf, listing: Option<&Listing>, at: int) -> bool {
    match row {
        Row::Held { at: place_on_shelf, held, known, place } => {
            &&& place_on_shelf == at
            &&& *held == shelf.held_of()[at]
            &&& place == shelf_place(shelf.source_of())
            &&& match (known, match_at(shelf.held_of(), listed(listing), at)) {
                (Some(k), Some(found)) => listing matches Some(l) && *k.patch == l.entries@[found.0]
                    && k.version == found.1 && k.latest == found.2,
                (None, None) => true,
                _ => false,
            }
        },
        Row::Patch(_) => false,
    }
}

/// Returns every sound, wherever it is: the shelf first and the library
/// after it, because the nearer a sound is the sooner somebody wants to see
/// it.
pub fn rows<'a>(shelf: &'a Shelf, listing: Option<&'a Listing>) -> (rows: Vec<Row<'a>>)
    ensures
        rows@.len() == shelf.held_of().len() + match listing {
            Some(l) => l.entries@.len(),
            None => 0,
        },
        forall|i: int| 0 <= i < shelf.held_of().len() ==> held_row(#[trigger] rows@[i], *shelf, listing, i),
        listing matches Some(l) ==> forall|j: int|
            0 <= j < l.entries@.len() ==> (#[trigger] rows@[shelf.held_of().len() + j] matches Row::Patch(p)
                && *p == l.entries@[j]),
        (forall|i: int| 0 <= i < shelf.held_of().len() ==> ((#[trigger] shelf.held_of()[i]).slot matches Some(s) ==> slot_exists(s)))
            && (listing matches Some(l) ==> listed_categories(l.entries@))
            ==> forall|k: int| 0 <= k < rows@.len() ==> (#[trigger] rows@[k]).sound(),
{
    let place = match shelf.source() {
        Some(Source::Bank(_)) => Where::Instrument,
        _ => Where::Machine,
    };
    let held = shelf.held();
    let mut rows: Vec<Row<'a>> = Vec::new();
    let mut at: usize = 0;
    while at < held.len()
        invariant
            at <= held@.len(),
            held@ == shelf.held_of(),
            place == shelf_place(shelf.source_of()),
            rows@.len() == at,
            forall|i: int| 0 <= i < at ==> held_row(#[trigger] rows@[i], *shelf, listing, i),
        decreases held@.len() - at,
    {
        let known = match matched_at(shelf, listing, at) {
            Some(found) => match listing {
                Some(l) => Some(Known { patch: &l.entries[found.patch], version: found.version, latest: found.latest }),
                None => None,
            },
            None => None,
        };
        rows.push(Row::Held { at, held: &held[at], known, place });
        at = at + 1;
    }
    match listing {
        Some(l) => {
            let mut j: usize = 0;
            while j < l.entries.len()
                invariant
                    j <= l.entries@.len(),
                    rows@.len() == shelf.held_of().len() + j,
                    forall|i: int| 0 <= i < shelf.held_of().len() ==> held_row(#[trigger] rows@[i], *shelf, listing, i),
                    forall|k: int|
                        0 <= k < j ==> (#[trigger] rows@[shelf.held_of().len() + k] matches Row::Patch(p) && *p == l.entries@[k]),
                decreases l.entries@.len() - j,
            {
                let ghost before = rows@;
                rows.push(Row::Patch(&l.entries[j]));
                proof {
                    assert forall|i: int| 0 <= i < shelf.held_of().len() implies held_row(#[trigger] rows@[i], *shelf, listing, i) by {
                        assert(rows@[i] == before[i]);
                    }
                    assert forall|k: int| 0 <= k < j + 1 implies (#[trigger] rows@[shelf.held_of().len() + k] matches Row::Patch(p) && *p == l.entries@[k]) by {
                        if k < j {
                            assert(rows@[shelf.held_of().len() + k] == before[shelf.held_of().len() + k]);
                        }
                    }
                }
                j = j + 1;
            }
        },
        None => {},
    }
    proof {
        let n = shelf.held_of().len();
        if (forall|i: int| 0 <= i < n ==> ((#[trigger] shelf.held_of()[i]).slot matches Some(s) ==> slot_exists(s)))
            && (listing matches Some(l) ==> listed_categories(l.entries@)) {
            assert forall|k: int| 0 <= k < rows@.len() implies (#[trigger] rows@[k]).sound() by {
                if k < n {
                    assert(held_row(rows@[k], *shelf, listing, k));
                    assert(shelf.held_of()[k].slot matches Some(s) ==> slot_exists(s));
                } else {
                    let l = listing.unwrap();
                    assert(rows@[n + (k - n)] matches Row::Patch(p) && *p == l.entries@[k - n]);
                    assert(is_category(l.entries@[k - n].category));
                }
            }
        }
    }
    rows
}


/// Whether some row is in `place`.
pub open spec fn anywhere_in(rows: Seq<Row>, place: Where) -> bool {
    exists|k: int| 0 <= k < rows.len() && (#[trigger] rows[k]).place_of() == place
}

/// The places the `WHERE` column can be narrowed to: those some row is in,
/// nearest first.
pub open spec fn places_offered(rows: Seq<Row>) -> Seq<Seq<char>> {
    let instrument = if anywhere_in(rows, Where::Instrument) { seq![place_label(Where::Instrument)] } else { Seq::empty() };
    let machine = if anywhere_in(rows, Where::Machine) { seq![place_label(Where::Machine)] } else { Seq::empty() };
    let library = if anywhere_in(rows, Where::Library) { seq![place_label(Where::Library)] } else { Seq::empty() };
    instrument + machine + library
}

/// Whether some row says `text` in column `by`.
pub open spec fn said_anywhere(rows: Seq<Row>, by: By, text: Seq<char>) -> bool {
    exists|k: int| 0 <= k < rows.len() && (#[trigger] rows[k]).said_in_spec(by) == text
}

/// Returns the values one column can be narrowed to, read off what is
/// actually on the table: the version column offers `behind` and `current`;
/// the `WHERE` column the places some sound is in, nearest first; every
/// other column what some row says in it, each once, in the order text
/// sorts, never the empty text.
pub fn offered(rows: &Vec<Row>, by: By) -> (options: Vec<String>)
    requires
        forall|k: int| 0 <= k < rows@.len() ==> (#[trigger] rows@[k]).sound(),
    ensures
        by == By::Version ==> texts(options@) == seq!["behind"@, "current"@],
        by == By::Where ==> texts(options@) == places_offered(rows@),
        by != By::Version && by != By::Where ==> {
            &&& strictly_sorted(texts(options@))
            &&& forall|t: Seq<char>| texts(options@).contains(t) <==> (t.len() > 0 && said_anywhere(rows@, by, t))
        },
{
    match by {
        By::Version => {
            let options = vec!["behind".to_owned(), "current".to_owned()];
            proof {
                assert(texts(options@) =~= seq!["behind"@, "current"@]);
            }
            options
        },
        By::Where => {
            let mut options: Vec<String> = Vec::new();
            let mut p: usize = 0;
            while p < 3
                invariant
                    p <= 3,
                    texts(options@) == places_offered_upto(rows@, p as int),
                decreases 3 - p,
            {
                let place = Where::ALL[p];
                proof {
                    assert(place == where_at(p as int));
                }
                let mut found = false;
                let mut k: usize = 0;
                while k < rows.len()
                    invariant
                        k <= rows@.len(),
                        found == exists|m: int| 0 <= m < k && (#[trigger] rows@[m]).place_of() == place,
                    decreases rows@.len() - k,
                {
                    if rows[k].place() == place {
                        found = true;
                    }
                    k = k + 1;
                }
                let ghost before = options@;
                if found {
                    options.push(place.label().to_owned());
                }
                proof {
                    if found {
                        assert(texts(options@) =~= texts(before).push(place_label(place)));
                    }
                }
                p = p + 1;
            }
            proof {
                reveal_with_fuel(places_offered_upto, 4);
                let one = places_offered_upto(rows@, 1);
                assert(one =~= if anywhere_in(rows@, Where::Instrument) { seq![place_label(Where::Instrument)] } else { Seq::empty() });
                assert(places_offered_upto(rows@, 3) =~= places_offered(rows@));
            }
            options
        },
        _ => {
            let mut sorted: Vec<String> = Vec::new();
            let mut k: usize = 0;
            while k < rows.len()
                invariant
                    k <= rows@.len(),
                    forall|m: int| 0 <= m < rows@.len() ==> (#[trigger] rows@[m]).sound(),
                    strictly_sorted(texts(sorted@)),
                    forall|t: Seq<char>| texts(sorted@).contains(t) <==> (t.len() > 0 && said_anywhere(rows@.take(k as int), by, t)),
                decreases rows@.len() - k,
            {
                let said = rows[k].said_in(by);
                let ghost prior = sorted@;
                if said.as_str().unicode_len() > 0 {
                    insert_term(&mut sorted, &said);
                }
                proof {
                    let seen = rows@.take(k + 1);
                    assert forall|t: Seq<char>| texts(sorted@).contains(t) <==> (t.len() > 0 && said_anywhere(seen, by, t)) by {
                        if said_anywhere(seen, by, t) {
                            let m = choose|m: int| 0 <= m < seen.len() && (#[trigger] seen[m]).said_in_spec(by) == t;
                            if m < k {
                                assert(rows@.take(k as int)[m] == seen[m]);
                            }
                        }
                        if said_anywhere(rows@.take(k as int), by, t) {
                            let m = choose|m: int| 0 <= m < k && (#[trigger] rows@.take(k as int)[m]).said_in_spec(by) == t;
                            assert(seen[m] == rows@.take(k as int)[m]);
                        }
                        if t == said@ {
                            assert(seen[k as int] == rows@[k as int]);
                        }
                    }
                }
                k = k + 1;
            }
            proof {
                assert(rows@.take(rows@.len() as int) =~= rows@);
            }
            sorted
        },
    }
}

/// The place `Where::ALL` puts `p`th.
pub open spec fn where_at(p: int) -> Where {
    if p == 0 {
        Where::Instrument
    } else if p == 1 {
        Where::Machine
    } else {
        Where::Library
    }
}

/// The labels of the first `p` places, nearest first, that some row is in.
pub open spec fn places_offered_upto(rows: Seq<Row>, p: int) -> Seq<Seq<char>>
    decreases p,
{
    if p <= 0 {
        Seq::empty()
    } else {
        let before = places_offered_upto(rows, p - 1);
        if anywhere_in(rows, where_at(p - 1)) {
            before.push(place_label(where_at(p - 1)))
        } else {
            before
        }
    }
}


/// What a column is sorted by for one row: what it says there, in lower
/// case.
pub open spec fn sort_key(row: Row, by: By) -> Seq<char> {
    lowercase(row.said_in_spec(by))
}

/// Whether row `i` belongs strictly above row `j` by what the column says:
/// the `WHERE` column by nearness rather than by the word, every other
/// column by its text in lower case, the other way up when the largest is at
/// the top.
pub open spec fn key_before(rows: Seq<Row>, sorting: Sorting, i: int, j: int) -> bool {
    let (a, b) = if sorting.down { (j, i) } else { (i, j) };
    if sorting.by == By::Where {
        nearness_of(rows[a].place_of()) < nearness_of(rows[b].place_of())
    } else {
        text_before(sort_key(rows[a], sorting.by), sort_key(rows[b], sorting.by))
    }
}

/// Whether two rows say the same in the column the table is sorted by.
pub open spec fn key_same(rows: Seq<Row>, sorting: Sorting, i: int, j: int) -> bool {
    if sorting.by == By::Where {
        nearness_of(rows[i].place_of()) == nearness_of(rows[j].place_of())
    } else {
        sort_key(rows[i], sorting.by) == sort_key(rows[j], sorting.by)
    }
}

/// Whether row `i` is drawn above row `j`: by the column, and where the
/// column says the same of both, in the order the rows came.
pub open spec fn comes_first(rows: Seq<Row>, sorting: Sorting, i: int, j: int) -> bool {
    key_before(rows, sorting, i, j) || (key_same(rows, sorting, i, j) && i < j)
}

/// Drawing one row above another is a strict order that puts any two rows
/// one way round.
proof fn lemma_comes_first(rows: Seq<Row>, sorting: Sorting, i: int, j: int, k: int)
    ensures
        !comes_first(rows, sorting, i, i),
        i != j ==> (comes_first(rows, sorting, i, j) || comes_first(rows, sorting, j, i)),
        !(comes_first(rows, sorting, i, j) && comes_first(rows, sorting, j, i)),
        comes_first(rows, sorting, i, j) && comes_first(rows, sorting, j, k) ==> comes_first(rows, sorting, i, k),
{
    if sorting.by != By::Where {
        let by = sorting.by;
        let (ki, kj, kk) = (sort_key(rows[i], by), sort_key(rows[j], by), sort_key(rows[k], by));
        lemma_before_total(ki, ki);
        lemma_before_total(ki, kj);
        lemma_before_total(kj, kk);
        lemma_before_total(ki, kk);
        if text_before(ki, kj) && text_before(kj, kk) {
            lemma_before_transitive(ki, kj, kk);
        }
        if text_before(kk, kj) && text_before(kj, ki) {
            lemma_before_transitive(kk, kj, ki);
        }
    }
}

/// Returns the order the rows are drawn in, as their places in `rows`: laid
/// out by the column the heading asks for, the rows that say the same there
/// kept in the order they came. Sorting never touches the rows themselves.
pub fn laid_out(rows: &Vec<Row>, sorting: Sorting) -> (order: Vec<usize>)
    requires
        forall|k: int| 0 <= k < rows@.len() ==> (#[trigger] rows@[k]).sound(),
    ensures
        order@.len() == rows@.len(),
        forall|a: int| 0 <= a < order@.len() ==> (#[trigger] order@[a]) < rows@.len(),
        forall|a: int, b: int|
            0 <= a < b < order@.len() ==> comes_first(rows@, sorting, #[trigger] order@[a] as int, #[trigger] order@[b] as int),
        forall|a: int, b: int| 0 <= a < b < order@.len() ==> (#[trigger] order@[a]) != (#[trigger] order@[b]),
{
    let by = sorting.by;
    let mut keys: Vec<Vec<char>> = Vec::new();
    let mut near: Vec<u8> = Vec::new();
    let mut k: usize = 0;
    while k < rows.len()
        invariant
            k <= rows@.len(),
            forall|m: int| 0 <= m < rows@.len() ==> (#[trigger] rows@[m]).sound(),
            keys@.len() == k,
            near@.len() == k,
            by != By::Where ==> forall|m: int| 0 <= m < k ==> (#[trigger] keys@[m])@ == sort_key(rows@[m], by),
            forall|m: int| 0 <= m < k ==> (#[trigger] near@[m]) == nearness_of(rows@[m].place_of()),
        decreases rows@.len() - k,
    {
        if by == By::Where {
            keys.push(Vec::new());
        } else {
            let said = rows[k].said_in(by);
            keys.push(chars_of(lowercased(said.as_str()).as_str()));
        }
        near.push(rows[k].place().nearness());
        k = k + 1;
    }
    let mut order: Vec<usize> = Vec::new();
    let mut i: usize = 0;
    while i < rows.len()
        invariant
            i <= rows@.len(),
            keys@.len() == rows@.len(),
            near@.len() == rows@.len(),
            by == sorting.by,
            by != By::Where ==> forall|m: int| 0 <= m < rows@.len() ==> (#[trigger] keys@[m])@ == sort_key(rows@[m], by),
            forall|m: int| 0 <= m < rows@.len() ==> (#[trigger] near@[m]) == nearness_of(rows@[m].place_of()),
            order@.len() == i,
            forall|a: int| 0 <= a < order@.len() ==> (#[trigger] order@[a]) < i,
            forall|a: int, b: int|
                0 <= a < b < order@.len() ==> comes_first(rows@, sorting, #[trigger] order@[a] as int, #[trigger] order@[b] as int),
        decreases rows@.len() - i,
    {
        let mut p: usize = 0;
        while p < order.len() && !above(&keys, &near, sorting, i, order[p])
            invariant
                p <= order@.len(),
                i < rows@.len(),
                keys@.len() == rows@.len(),
                near@.len() == rows@.len(),
                by == sorting.by,
                by != By::Where ==> forall|m: int| 0 <= m < rows@.len() ==> (#[trigger] keys@[m])@ == sort_key(rows@[m], by),
                forall|m: int| 0 <= m < rows@.len() ==> (#[trigger] near@[m]) == nearness_of(rows@[m].place_of()),
                forall|a: int| 0 <= a < order@.len() ==> (#[trigger] order@[a]) < i,
                forall|q: int| 0 <= q < p ==> !key_before(rows@, sorting, i as int, #[trigger] order@[q] as int),
            decreases order@.len() - p,
        {
            p = p + 1;
        }
        proof {
            assert forall|q: int| 0 <= q < p implies comes_first(rows@, sorting, #[trigger] order@[q] as int, i as int) by {
                lemma_comes_first(rows@, sorting, order@[q] as int, i as int, i as int);
            }
            if p < order@.len() {
                assert(key_before(rows@, sorting, i as int, order@[p as int] as int));
                assert forall|q: int| p <= q < order@.len() implies comes_first(rows@, sorting, i as int, #[trigger] order@[q] as int) by {
                    if q > p {
                        lemma_comes_first(rows@, sorting, i as int, order@[p as int] as int, order@[q] as int);
                    }
                }
            }
        }
        let ghost before_insert = order@;
        order.insert(p, i);
        proof {
            assert(order@ == before_insert.insert(p as int, i));
            assert forall|a: int, b: int|
                0 <= a < b < order@.len() implies comes_first(rows@, sorting, #[trigger] order@[a] as int, #[trigger] order@[b] as int) by {
                if b < p {
                    assert(order@[a] == before_insert[a] && order@[b] == before_insert[b]);
                } else if b == p {
                    assert(order@[a] == before_insert[a]);
                } else if a < p {
                    assert(order@[a] == before_insert[a] && order@[b] == before_insert[b - 1]);
                    lemma_comes_first(rows@, sorting, order@[a] as int, i as int, order@[b] as int);
                } else if a == p {
                    assert(order@[b] == before_insert[b - 1]);
                } else {
                    assert(order@[a] == before_insert[a - 1] && order@[b] == before_insert[b - 1]);
                }
            }
        }
        i = i + 1;
    }
    proof {
        assert forall|a: int, b: int| 0 <= a < b < order@.len() implies (#[trigger] order@[a]) != (#[trigger] order@[b]) by {
            lemma_comes_first(rows@, sorting, order@[a] as int, order@[b] as int, order@[b] as int);
        }
    }
    order
}

/// Returns whether row `i` belongs strictly above row `other` by what the
/// column says.
fn above(keys: &Vec<Vec<char>>, near: &Vec<u8>, sorting: Sorting, i: usize, other: usize) -> (yes: bool)
    requires
        i < keys@.len(),
        other < keys@.len(),
        keys@.len() == near@.len(),
    ensures
        yes == (if sorting.down {
            if sorting.by == By::Where { near@[other as int] < near@[i as int] } else { text_before(keys@[other as int]@, keys@[i as int]@) }
        } else {
            if sorting.by == By::Where { near@[i as int] < near@[other as int] } else { text_before(keys@[i as int]@, keys@[other as int]@) }
        }),
{
    if sorting.by == By::Where {
        if sorting.down {
            near[other] < near[i]
        } else {
            near[i] < near[other]
        }
    } else if sorting.down {
        before(&keys[other], &keys[i])
    } else {
        before(&keys[i], &keys[other])
    }
}

} // verus!
