//! Where a sound is, what can be done to it, how the table of sounds is laid
//! out, and what somebody writes about a sound before sharing it.

use vstd::prelude::*;
use crate::program::ProgramName;
use crate::shelf::{Held, Shelf};
use crate::catalogue::{Entry, Found, Listing, fingerprint, fingerprint_of_program, found_view, lookup_from};
use crate::text::{is_alphanumeric, trimmed, string_of, trim, is_blank};

verus! {

/// Where a sound is.
#[derive(Debug, Clone, Copy, PartialEq, Eq, Hash, Structural)]
pub enum Where {
    /// On this machine: opened from a `.syx` file.
    Machine,
    /// On the synthesizer: read out of one of its banks.
    Instrument,
    /// In the shared library, published by somebody.
    Library,
}

/// How near to hand a sound in each place is: the instrument, then this
/// machine, then the published library.
pub open spec fn nearness_of(place: Where) -> u8 {
    match place {
        Where::Instrument => 0,
        Where::Machine => 1,
        Where::Library => 2,
    }
}

/// What the `WHERE` column prints for each place.
pub open spec fn place_label(place: Where) -> Seq<char> {
    match place {
        Where::Machine => "Machine"@,
        Where::Instrument => "Synth"@,
        Where::Library => "Library"@,
    }
}

impl Where {
    /// The three, in the order somebody reads them: nearest first.
    pub const ALL: [Where; 3] = [Where::Instrument, Where::Machine, Where::Library];

    /// What the column prints.
    pub fn label(self) -> (said: &'static str)
        ensures
            said@ == place_label(self),
    {
        match self {
            Where::Machine => "Machine",
            Where::Instrument => "Synth",
            Where::Library => "Library",
        }
    }

    /// How near to hand a sound in this place is, which is what the `WHERE`
    /// column sorts by.
    pub fn nearness(self) -> (near: u8)
        ensures
            near == nearness_of(self),
    {
        match self {
            Where::Instrument => 0,
            Where::Machine => 1,
            Where::Library => 2,
        }
    }
}

/// The sound a row names, as something that outlives the drawing.
#[derive(Debug, Clone, PartialEq, Eq)]
pub enum Chosen {
    /// The program at this place on the shelf.
    Held(usize),
    /// The shared patch with this id.
    Patch(String),
}

/// Everything that can be done to a sound.
#[derive(Debug, Clone, Copy, PartialEq, Eq, Hash, Structural)]
pub enum Action {
    /// Hear it now.
    Play,
    /// Hear it and go to the panel, which is where it is changed.
    Edit,
    /// Onto this machine's shelf.
    Shelve,
    /// Into the instrument's memory, at a slot somebody chooses.
    Store,
    /// Describe it and write the files a pull request is made of.
    Share,
    /// Write it out as a `.syx` on its own.
    Export,
    /// Replace it with the newer version the library has published.
    Update,
}

/// What each action is called, everywhere it is offered.
pub open spec fn action_label(action: Action) -> Seq<char> {
    match action {
        Action::Play => "Play"@,
        Action::Edit => "Edit"@,
        Action::Shelve => "Shelve"@,
        Action::Store => "Store\u{2026}"@,
        Action::Share => "Share\u{2026}"@,
        Action::Export => "Export\u{2026}"@,
        Action::Update => "Update"@,
    }
}

/// What each action does, for the footer while the pointer is on it.
pub open spec fn action_about(action: Action) -> Seq<char> {
    match action {
        Action::Play => "Send it to the edit buffer. Nothing is stored and nothing is kept."@,
        Action::Edit => "Send it to the edit buffer and go to the front panel."@,
        Action::Shelve => "Put it on this machine's shelf, where a file or a bank read puts one."@,
        Action::Store => "Write it into the instrument's memory, at a slot you choose."@,
        Action::Share => "Describe it and write the files a pull request is made of."@,
        Action::Export => "Write it out as a `.syx` file of its own."@,
        Action::Update => "Replace it with the newer version the library has published."@,
    }
}

impl Action {
    /// Every one, in the order they are offered.
    pub const ALL: [Action; 7] = [
        Action::Play,
        Action::Edit,
        Action::Shelve,
        Action::Store,
        Action::Share,
        Action::Export,
        Action::Update,
    ];

    /// The three that stand on the toolbar: the ones that move a sound.
    pub const TOOLBAR: [Action; 3] = [Action::Edit, Action::Shelve, Action::Store];

    /// What it is called, everywhere it is offered.
    pub fn label(self) -> (said: &'static str)
        ensures
            said@ == action_label(self),
    {
        match self {
            Action::Play => "Play",
            Action::Edit => "Edit",
            Action::Shelve => "Shelve",
            Action::Store => "Store\u{2026}",
            Action::Share => "Share\u{2026}",
            Action::Export => "Export\u{2026}",
            Action::Update => "Update",
        }
    }

    /// What it does, for the footer while the pointer is on it.
    pub fn about(self) -> (said: &'static str)
        ensures
            said@ == action_about(self),
    {
        match self {
            Action::Play => "Send it to the edit buffer. Nothing is stored and nothing is kept.",
            Action::Edit => "Send it to the edit buffer and go to the front panel.",
            Action::Shelve => "Put it on this machine's shelf, where a file or a bank read puts one.",
            Action::Store => "Write it into the instrument's memory, at a slot you choose.",
            Action::Share => "Describe it and write the files a pull request is made of.",
            Action::Export => "Write it out as a `.syx` file of its own.",
            Action::Update => "Replace it with the newer version the library has published.",
        }
    }
}

/// Whether `action` can be done to what is picked.
///
/// Nothing can be done where nothing is picked. Anything picked can be heard,
/// put on the panel, written out or described. Only a shared patch can be
/// shelved, and only while a catalogue is held. Nothing can be stored yet.
/// Only a sound the library has published a newer version of can be updated.
pub open spec fn permitted(picked: Option<Chosen>, action: Action, catalogue_held: bool, newer: bool) -> bool {
    match picked {
        None => false,
        Some(chosen) => match action {
            Action::Play | Action::Edit | Action::Export | Action::Share => true,
            Action::Shelve => chosen is Patch && catalogue_held,
            Action::Store => false,
            Action::Update => newer,
        },
    }
}

/// Returns whether an action can be done to what is picked.
///
/// The one place that decides, so the toolbar and the menu grey out the same
/// presses. `catalogue_held` is whether a catalogue of shared patches is held,
/// and `newer` whether the library has published a newer version of what is
/// picked.
pub fn can(picked: &Option<Chosen>, action: Action, catalogue_held: bool, newer: bool) -> (yes: bool)
    ensures
        yes == permitted(*picked, action, catalogue_held, newer),
{
    match picked {
        None => false,
        Some(chosen) => match action {
            Action::Play | Action::Edit | Action::Export | Action::Share => true,
            Action::Shelve => {
                let shared = match chosen {
                    Chosen::Patch(_) => true,
                    Chosen::Held(_) => false,
                };
                shared && catalogue_held
            },
            Action::Store => false,
            Action::Update => newer,
        },
    }
}

/// Which column the table is laid out by, named after its heading.
#[derive(Debug, Clone, Copy, PartialEq, Eq, Hash, PartialOrd, Ord, Structural)]
pub enum By {
    /// Nearest first: the instrument, then the machine, then the library.
    Where,
    /// The bank a sound sits in.
    Bank,
    /// The number within that bank.
    Number,
    /// What it is called.
    Name,
    /// Who made it.
    Maker,
    /// What it calls itself.
    Category,
    /// The vocabulary terms it carries.
    Tags,
    /// Which version it is, and whether a newer one is published.
    Version,
    /// What it sounds like, in the maker's words.
    About,
}

/// What each column is headed.
pub open spec fn heading_of(by: By) -> Seq<char> {
    match by {
        By::Where => "WHERE"@,
        By::Bank => "BANK"@,
        By::Number => "No."@,
        By::Name => "NAME"@,
        By::Maker => "MAKER"@,
        By::Category => "CATEGORY"@,
        By::Tags => "TAGS"@,
        By::Version => "VERSION"@,
        By::About => "ABOUT"@,
    }
}

/// Whether a column's values are a set somebody can be offered in a picker:
/// where a sound is, which bank, what it calls itself, and which version.
pub open spec fn picks_from_set(by: By) -> bool {
    by == By::Where || by == By::Bank || by == By::Category || by == By::Version
}

/// Whether a column starts with its largest value at the top: only the
/// version column.
pub open spec fn starts_newest(by: By) -> bool {
    by == By::Version
}

impl Default for By {
    fn default() -> (by: By)
        ensures
            by == By::Where,
    {
        By::Where
    }
}

impl By {
    /// Every column, in the order they are drawn.
    pub const ALL: [By; 9] = [
        By::Where,
        By::Bank,
        By::Number,
        By::Name,
        By::Maker,
        By::Category,
        By::Tags,
        By::Version,
        By::About,
    ];

    /// What the column is headed.
    pub fn heading(self) -> (said: &'static str)
        ensures
            said@ == heading_of(self),
    {
        match self {
            By::Where => "WHERE",
            By::Bank => "BANK",
            By::Number => "No.",
            By::Name => "NAME",
            By::Maker => "MAKER",
            By::Category => "CATEGORY",
            By::Tags => "TAGS",
            By::Version => "VERSION",
            By::About => "ABOUT",
        }
    }

    /// Whether this column's values are a set somebody can be offered.
    pub fn picks(self) -> (yes: bool)
        ensures
            yes == picks_from_set(self),
    {
        match self {
            By::Where | By::Bank | By::Category | By::Version => true,
            _ => false,
        }
    }

    /// Whether the largest value belongs at the top when this column is first
    /// pressed.
    pub fn newest_first(self) -> (yes: bool)
        ensures
            yes == starts_newest(self),
    {
        match self {
            By::Version => true,
            _ => false,
        }
    }
}

/// Which way round the table is laid out.
#[derive(Debug, Clone, Copy, PartialEq, Eq, Structural)]
pub struct Sorting {
    /// The column it is laid out by.
    pub by: By,
    /// Whether the largest is at the top.
    pub down: bool,
}

impl Default for Sorting {
    fn default() -> (sorting: Sorting)
        ensures
            sorting == (Sorting { by: By::Where, down: false }),
    {
        Sorting { by: By::Where, down: false }
    }
}

/// What pressing the heading of `by` makes of `sorting`: the other way round
/// where the table is already laid out by it, and otherwise that column from
/// the end it is usually read from.
pub open spec fn pressed_spec(sorting: Sorting, by: By) -> Sorting {
    if sorting.by == by {
        Sorting { by, down: !sorting.down }
    } else {
        Sorting { by, down: starts_newest(by) }
    }
}

impl Sorting {
    /// Lays the table out by a column, or turns it round if it already is.
    pub fn pressed(self, by: By) -> (after: Sorting)
        ensures
            after == pressed_spec(self, by),
    {
        if self.by == by {
            Sorting { by, down: !self.down }
        } else {
            Sorting { by, down: by.newest_first() }
        }
    }
}

/// Pressing the heading the table is laid out by twice leaves it as it was.
pub proof fn lemma_press_twice(sorting: Sorting)
    ensures
        pressed_spec(pressed_spec(sorting, sorting.by), sorting.by) == sorting,
{
}

/// Pressing a heading always lays the table out by that column, and coming to
/// a column from another starts it from the end it is usually read from,
/// whichever way round it was left.
pub proof fn lemma_press_lays_out_by(sorting: Sorting, by: By)
    ensures
        pressed_spec(sorting, by).by == by,
        sorting.by != by ==> pressed_spec(sorting, by).down == starts_newest(by),
{
}

/// What a person is writing about a sound they are about to share: what the
/// repository asks for that cannot be worked out from the program bytes.
#[derive(Debug, Clone)]
pub struct Publishing {
    /// A person or a handle. Not an email address.
    pub author: String,
    /// What it sounds like and how to play it.
    pub about: String,
    /// An SPDX identifier, or `All rights reserved`.
    pub licence: String,
    /// The collection folder it belongs in, where it belongs in one.
    pub collection: String,
    /// The 7x7 picture, packed a row to a byte with bit 0 leftmost.
    pub icon: [u8; 7],
    /// The vocabulary terms chosen, as the axis they came from and the term.
    pub terms: Vec<(String, String)>,
    /// Where the pair was last written, once it has been.
    pub wrote: Option<String>,
}

impl Default for Publishing {
    fn default() -> (blank: Publishing)
        ensures
            blank.author@.len() == 0,
            blank.about@.len() == 0,
            blank.licence@.len() == 0,
            blank.collection@.len() == 0,
            forall|row: int| 0 <= row < 7 ==> #[trigger] blank.icon[row] == 0,
            blank.terms@.len() == 0,
            blank.wrote is None,
    {
        Publishing {
            author: String::new(),
            about: String::new(),
            licence: String::new(),
            collection: String::new(),
            icon: [0u8, 0u8, 0u8, 0u8, 0u8, 0u8, 0u8],
            terms: Vec::new(),
            wrote: None,
        }
    }
}

/// How many dots an icon is across, and how many down.
pub const ICON_SIDE: usize = 7;

/// Whether the dot `across` from the left of row `row` is inked.
pub open spec fn dot(row: u8, across: int) -> bool {
    0 <= across < 7 && row & (1u8 << (across as u8)) != 0
}

/// Whether the dot `across`, `down` of an icon is inked: nothing outside the
/// seven by seven grid is.
pub open spec fn inked_at(icon: [u8; 7], across: int, down: int) -> bool {
    0 <= down < 7 && dot(icon[down], across)
}

/// The vocabulary terms as plain text: the axis, and the term.
pub open spec fn terms_view(terms: Seq<(String, String)>) -> Seq<(Seq<char>, Seq<char>)> {
    terms.map_values(|pair: (String, String)| (pair.0@, pair.1@))
}

/// Where the first `(axis, term)` at or after `from` is, or the length where
/// there is none.
pub open spec fn first_from(terms: Seq<(Seq<char>, Seq<char>)>, axis: Seq<char>, term: Seq<char>, from: int) -> int
    decreases terms.len() - from,
{
    if from < 0 || from >= terms.len() {
        terms.len() as int
    } else if terms[from] == (axis, term) {
        from
    } else {
        first_from(terms, axis, term, from + 1)
    }
}

/// Whether a term has been chosen.
pub open spec fn carried(terms: Seq<(Seq<char>, Seq<char>)>, axis: Seq<char>, term: Seq<char>) -> bool {
    exists|i: int| 0 <= i < terms.len() && terms[i] == (axis, term)
}

/// The terms with one turned on or off: its first occurrence taken out where
/// it was chosen, and it added at the end where it was not.
pub open spec fn toggled(terms: Seq<(Seq<char>, Seq<char>)>, axis: Seq<char>, term: Seq<char>) -> Seq<(Seq<char>, Seq<char>)> {
    let at = first_from(terms, axis, term, 0);
    if at < terms.len() {
        terms.remove(at)
    } else {
        terms.push((axis, term))
    }
}

/// No term chosen twice.
pub open spec fn distinct(terms: Seq<(Seq<char>, Seq<char>)>) -> bool {
    forall|i: int, j: int| 0 <= i < j < terms.len() ==> terms[i] != terms[j]
}

/// What the repository insists on that is still missing, in the order it is
/// asked for: a maker, a sentence, a licence, and at least one term.
pub open spec fn wanted(author: Seq<char>, about: Seq<char>, licence: Seq<char>, terms: nat) -> Seq<Seq<char>> {
    let maker = if trimmed(author).len() == 0 { seq!["a maker"@] } else { Seq::empty() };
    let sentence = if trimmed(about).len() == 0 { seq!["a sentence about it"@] } else { Seq::empty() };
    let rights = if trimmed(licence).len() == 0 { seq!["a licence"@] } else { Seq::empty() };
    let vocabulary = if terms == 0 { seq!["at least one term"@] } else { Seq::empty() };
    maker + sentence + rights + vocabulary
}

/// `first_from` lands on a match, or runs off the end, and passes nothing
/// that matches on the way.
proof fn lemma_first_from(terms: Seq<(Seq<char>, Seq<char>)>, axis: Seq<char>, term: Seq<char>, from: int)
    requires
        0 <= from <= terms.len(),
    ensures
        from <= first_from(terms, axis, term, from) <= terms.len(),
        first_from(terms, axis, term, from) < terms.len() ==> terms[first_from(terms, axis, term, from)] == (axis, term),
        forall|k: int| from <= k < first_from(terms, axis, term, from) ==> terms[k] != (axis, term),
    decreases terms.len() - from,
{
    if from < terms.len() && terms[from] != (axis, term) {
        lemma_first_from(terms, axis, term, from + 1);
    }
}

impl Publishing {
    /// Whether a dot of the icon is inked.
    pub fn inked(&self, across: usize, down: usize) -> (yes: bool)
        ensures
            yes == inked_at(self.icon, across as int, down as int),
    {
        if across < 7 && down < 7 {
            let bit: u8 = 1u8 << (across as u8);
            self.icon[down] & bit != 0
        } else {
            false
        }
    }

    /// Whether a term has been chosen.
    pub fn carries(&self, axis: &str, term: &str) -> (yes: bool)
        ensures
            yes == carried(terms_view(self.terms@), axis@, term@),
    {
        let at = self.find(axis, term);
        proof {
            lemma_first_from(terms_view(self.terms@), axis@, term@, 0);
        }
        at < self.terms.len()
    }

    /// Where the first occurrence of a term is, or the count of terms where
    /// it has not been chosen.
    fn find(&self, axis: &str, term: &str) -> (at: usize)
        ensures
            at == first_from(terms_view(self.terms@), axis@, term@, 0),
    {
        let ghost view = terms_view(self.terms@);
        let wanted_axis = axis.to_owned();
        let wanted_term = term.to_owned();
        let mut i: usize = 0;
        while i < self.terms.len()
            invariant
                i <= self.terms@.len(),
                view == terms_view(self.terms@),
                wanted_axis@ == axis@,
                wanted_term@ == term@,
                first_from(view, axis@, term@, 0) == first_from(view, axis@, term@, i as int),
            decreases self.terms@.len() - i,
        {
            let held = &self.terms[i];
            if held.0 == wanted_axis && held.1 == wanted_term {
                return i;
            }
            i = i + 1;
        }
        i
    }

    /// Everything the repository insists on, or what is missing of it.
    pub fn missing(&self) -> (still: Vec<&'static str>)
        ensures
            still@.map_values(|said: &'static str| said@) == wanted(
                self.author@,
                self.about@,
                self.licence@,
                self.terms@.len(),
            ),
    {
        let mut still: Vec<&'static str> = Vec::new();
        if is_blank(self.author.as_str()) {
            still.push("a maker");
        }
        if is_blank(self.about.as_str()) {
            still.push("a sentence about it");
        }
        if is_blank(self.licence.as_str()) {
            still.push("a licence");
        }
        if self.terms.len() == 0 {
            still.push("at least one term");
        }
        proof {
            assert(still@.map_values(|said: &'static str| said@) =~= wanted(
                self.author@,
                self.about@,
                self.licence@,
                self.terms@.len(),
            ));
        }
        still
    }

    /// Turns one vocabulary term on or off.
    pub fn toggle_term(&mut self, axis: &str, term: &str)
        ensures
            terms_view(final(self).terms@) == toggled(terms_view(old(self).terms@), axis@, term@),
            final(self).author == old(self).author,
            final(self).about == old(self).about,
            final(self).licence == old(self).licence,
            final(self).collection == old(self).collection,
            final(self).icon == old(self).icon,
            final(self).wrote == old(self).wrote,
    {
        let at = self.find(axis, term);
        let ghost before = terms_view(self.terms@);
        proof {
            lemma_first_from(before, axis@, term@, 0);
        }
        if at < self.terms.len() {
            let _gone = self.terms.remove(at);
            proof {
                assert(terms_view(self.terms@) =~= before.remove(at as int));
            }
        } else {
            self.terms.push((axis.to_owned(), term.to_owned()));
            proof {
                assert(terms_view(self.terms@) =~= before.push((axis@, term@)));
            }
        }
    }

    /// Turns one dot of the icon on or off. A dot outside the grid is left
    /// alone.
    pub fn toggle_dot(&mut self, across: usize, down: usize)
        ensures
            forall|a: int, d: int| #![trigger inked_at(final(self).icon, a, d)]
                inked_at(final(self).icon, a, d) == if a == across && d == down && across < 7 && down < 7 {
                    !inked_at(old(self).icon, a, d)
                } else {
                    inked_at(old(self).icon, a, d)
                },
            across < 7 && down < 7 ==> final(self).icon@ == old(self).icon@.update(
                down as int,
                old(self).icon[down as int] ^ (1u8 << (across as u8)),
            ),
            !(across < 7 && down < 7) ==> final(self).icon == old(self).icon,
            final(self).author == old(self).author,
            final(self).about == old(self).about,
            final(self).licence == old(self).licence,
            final(self).collection == old(self).collection,
            final(self).terms == old(self).terms,
            final(self).wrote == old(self).wrote,
    {
        if across < 7 && down < 7 {
            let shift: u8 = across as u8;
            let row: u8 = self.icon[down];
            let flipped: u8 = row ^ (1u8 << shift);
            self.icon[down] = flipped;
            proof {
                assert forall|a: int, d: int| #![trigger inked_at(self.icon, a, d)]
                    inked_at(self.icon, a, d) == if a == across && d == down {
                        !inked_at(old(self).icon, a, d)
                    } else {
                        inked_at(old(self).icon, a, d)
                    } by {
                    if 0 <= d < 7 && 0 <= a < 7 && d == down {
                        let b: u8 = a as u8;
                        assert(b < 7);
                        if a == across {
                            assert((row ^ (1u8 << shift)) & (1u8 << shift) != 0 <==> row & (1u8 << shift) == 0)
                                by (bit_vector)
                                requires shift < 7;
                        } else {
                            assert(b != shift);
                            assert((row ^ (1u8 << shift)) & (1u8 << b) != 0 <==> row & (1u8 << b) != 0)
                                by (bit_vector)
                                requires shift < 7, b < 7, b != shift;
                        }
                    }
                }
            }
        }
    }
}

/// Turning a dot on or off twice leaves the icon as it was.
pub proof fn lemma_dot_twice(row: u8, across: u8)
    requires
        across < 7,
    ensures
        (row ^ (1u8 << across)) ^ (1u8 << across) == row,
{
    assert((row ^ (1u8 << across)) ^ (1u8 << across) == row) by (bit_vector);
}

/// Turning a term that was not chosen on and then off again leaves the terms
/// as they were; and among terms chosen at most once each, turning one on or
/// off flips whether it is chosen and keeps each chosen at most once.
pub proof fn lemma_toggle_term(terms: Seq<(Seq<char>, Seq<char>)>, axis: Seq<char>, term: Seq<char>)
    ensures
        !carried(terms, axis, term) ==> toggled(toggled(terms, axis, term), axis, term) == terms,
        distinct(terms) ==> distinct(toggled(terms, axis, term)),
        distinct(terms) ==> carried(toggled(terms, axis, term), axis, term) == !carried(terms, axis, term),
{
    lemma_first_from(terms, axis, term, 0);
    let at = first_from(terms, axis, term, 0);
    if at < terms.len() {
        let after = terms.remove(at);
        assert(carried(terms, axis, term));
        if distinct(terms) {
            assert forall|i: int, j: int| 0 <= i < j < after.len() implies after[i] != after[j] by {
                let oi = if i < at { i } else { i + 1 };
                let oj = if j < at { j } else { j + 1 };
                assert(after[i] == terms[oi]);
                assert(after[j] == terms[oj]);
            }
            if carried(after, axis, term) {
                let k = choose|k: int| 0 <= k < after.len() && after[k] == (axis, term);
                let ok = if k < at { k } else { k + 1 };
                assert(terms[ok] == (axis, term));
                assert(false);
            }
        }
    } else {
        assert(!carried(terms, axis, term)) by {
            if carried(terms, axis, term) {
                let k = choose|k: int| 0 <= k < terms.len() && terms[k] == (axis, term);
                assert(terms[k] != (axis, term));
            }
        }
        let after = terms.push((axis, term));
        assert(after[terms.len() as int] == (axis, term));
        lemma_first_from(after, axis, term, 0);
        let again = first_from(after, axis, term, 0);
        assert(again == terms.len());
        assert(after.remove(again) =~= terms);
        if distinct(terms) {
            assert forall|i: int, j: int| 0 <= i < j < after.len() implies after[i] != after[j] by {
                if j == terms.len() {
                    assert(terms[i] != (axis, term));
                }
            }
        }
    }
}

/// What to call a character in a file name: itself where a file system is
/// happy with it, and a hyphen where it would rather not see it.
pub open spec fn filed(c: char) -> char {
    if is_alphanumeric(c) || c == ' ' || c == '-' || c == '_' {
        c
    } else {
        '-'
    }
}

/// Whether a text holds a letter or a digit.
pub open spec fn has_alphanumeric(text: Seq<char>) -> bool {
    exists|i: int| 0 <= i < text.len() && is_alphanumeric(#[trigger] text[i])
}

/// What a file holding a sound called `text` is called: the name trimmed,
/// each character a file system would rather not see made a hyphen, trimmed
/// again; and `patch` where no letter or digit is left, since a name of
/// nothing but punctuation would make a file hidden on two of the three
/// platforms.
pub open spec fn stem_of(text: Seq<char>) -> Seq<char> {
    let kept = trimmed(trimmed(text).map_values(|c: char| filed(c)));
    if !has_alphanumeric(kept) {
        "patch"@
    } else {
        kept
    }
}

/// A name's characters as text.
pub open spec fn name_text(name: Seq<u8>) -> Seq<char> {
    name.map_values(|b: u8| b as char)
}

/// Returns what to call the file a sound would be saved as.
pub fn file_stem(name: &ProgramName) -> (stem: String)
    ensures
        stem@ == stem_of(name_text(name@)),
{
    let text = name.to_chars();
    proof {
        assert(text@ =~= name_text(name@));
    }
    let inner = trim(&text);
    let mut safe: Vec<char> = Vec::new();
    let mut i: usize = 0;
    while i < inner.len()
        invariant
            i <= inner@.len(),
            safe@ == inner@.subrange(0, i as int).map_values(|c: char| filed(c)),
        decreases inner@.len() - i,
    {
        let c = inner[i];
        let kept = if crate::text::alphanumeric(c) || c == ' ' || c == '-' || c == '_' {
            c
        } else {
            '-'
        };
        safe.push(kept);
        i = i + 1;
        proof {
            assert(safe@ =~= inner@.subrange(0, i as int).map_values(|c: char| filed(c)));
        }
    }
    proof {
        assert(inner@.subrange(0, inner@.len() as int) =~= inner@);
    }
    let stem = trim(&safe);
    let mut any = false;
    let mut k: usize = 0;
    while k < stem.len()
        invariant
            k <= stem@.len(),
            any == exists|m: int| 0 <= m < k && is_alphanumeric(#[trigger] stem@[m]),
        decreases stem@.len() - k,
    {
        if crate::text::alphanumeric(stem[k]) {
            any = true;
        }
        k = k + 1;
    }
    if !any {
        "patch".to_owned()
    } else {
        string_of(&stem)
    }
}

/// What is said once a file's programs are on the shelf: its name, how many
/// programs, and how many frames could not be read, where any could not.
pub open spec fn shelved_spec(name: Seq<char>, held: nat, skipped: nat) -> Seq<char> {
    let sound = if held == 1 { "program"@ } else { "programs"@ };
    let unreadable = if skipped == 0 {
        Seq::empty()
    } else if skipped == 1 {
        ", and one frame that could not be read"@
    } else {
        ", and "@ + crate::text::digits(skipped) + " frames that could not be read"@
    };
    name + ": "@ + crate::text::digits(held) + " "@ + sound + unreadable + "."@
}

/// Returns what is said once a file's programs are on the shelf.
pub fn shelved(name: &str, held: usize, skipped: usize) -> (said: String)
    ensures
        said@ == shelved_spec(name@, held as nat, skipped as nat),
{
    let mut text = crate::text::chars_of(name);
    crate::text::extend(&mut text, &crate::text::chars_of(": "));
    crate::text::extend(&mut text, &crate::text::decimal(held as u64));
    crate::text::extend(&mut text, &crate::text::chars_of(" "));
    if held == 1 {
        crate::text::extend(&mut text, &crate::text::chars_of("program"));
    } else {
        crate::text::extend(&mut text, &crate::text::chars_of("programs"));
    }
    if skipped == 1 {
        crate::text::extend(&mut text, &crate::text::chars_of(", and one frame that could not be read"));
    } else if skipped > 1 {
        crate::text::extend(&mut text, &crate::text::chars_of(", and "));
        crate::text::extend(&mut text, &crate::text::decimal(skipped as u64));
        crate::text::extend(&mut text, &crate::text::chars_of(" frames that could not be read"));
    }
    crate::text::extend(&mut text, &crate::text::chars_of("."));
    proof {
        assert(text@ =~= shelved_spec(name@, held as nat, skipped as nat));
    }
    string_of(&text)
}

/// What is said once the shelf has been brought up to date: that every sound
/// already was the published version where none had a newer one, and
/// otherwise how many are now.
pub open spec fn updated_spec(found: nat, done: nat) -> Seq<char> {
    if found == 0 {
        "Everything on the shelf is the published version already."@
    } else if done == 1 {
        "1 sound is the published version now."@
    } else {
        crate::text::digits(done) + " sounds are the published version now."@
    }
}

/// Returns what is said once the shelf has been brought up to date: `found`
/// sounds had a newer published version, and `done` of them were replaced.
pub fn updated(found: usize, done: usize) -> (said: String)
    ensures
        said@ == updated_spec(found as nat, done as nat),
{
    if found == 0 {
        return "Everything on the shelf is the published version already.".to_owned();
    }
    if done == 1 {
        return "1 sound is the published version now.".to_owned();
    }
    let mut text = crate::text::decimal(done as u64);
    crate::text::extend(&mut text, &crate::text::chars_of(" sounds are the published version now."));
    string_of(&text)
}

/// Which published patch, at which version, the program at `at` on the shelf
/// is: looked up by its fingerprint, so a renamed sound is still recognised
/// and an edited one is not; nothing where no catalogue is held or nothing
/// sits there.
pub open spec fn match_at(held: Seq<Held>, entries: Option<Seq<Entry>>, at: int) -> Option<(int, u32, bool)> {
    match entries {
        Some(entries) => if 0 <= at < held.len() {
            lookup_from(entries, fingerprint(held[at].program@), 0)
        } else {
            None
        },
        None => None,
    }
}

/// The patch whose newest version should replace the program at `at`: one
/// it matches at a version that is not the patch's current one.
pub open spec fn newer_spec(held: Seq<Held>, entries: Option<Seq<Entry>>, at: int) -> Option<int> {
    match match_at(held, entries, at) {
        Some((patch, _, latest)) => if latest {
            None
        } else {
            Some(patch)
        },
        None => None,
    }
}

/// How many of the first `upto` programs on the shelf the library has since
/// published a newer version of.
pub open spec fn stale_upto(held: Seq<Held>, entries: Option<Seq<Entry>>, upto: int) -> nat
    decreases upto,
{
    if upto <= 0 {
        0
    } else {
        stale_upto(held, entries, upto - 1) + if newer_spec(held, entries, upto - 1) is Some {
            1nat
        } else {
            0nat
        }
    }
}

/// A listing's patches, where one is held.
pub open spec fn listed(listing: Option<&Listing>) -> Option<Seq<Entry>> {
    match listing {
        Some(listing) => Some(listing.entries@),
        None => None,
    }
}

/// Returns which published patch, at which version, the program at `at` on
/// the shelf is, matched on the sound rather than on the name.
pub fn matched_at(shelf: &Shelf, listing: Option<&Listing>, at: usize) -> (found: Option<Found>)
    ensures
        found_view(found) == match_at(shelf.held_of(), listed(listing), at as int),
        found matches Some(f) ==> listing matches Some(l) && f.patch < l.entries@.len(),
{
    match listing {
        None => None,
        Some(listing) => {
            let held = shelf.held();
            if at < held.len() {
                let print = fingerprint_of_program(&held[at].program);
                listing.matching(&print)
            } else {
                None
            }
        },
    }
}

/// Returns the place in the listing of the patch whose newest version
/// should replace the program at `at`: `None` where nothing was published,
/// where nothing matched, and where what is here is already the newest.
pub fn newer_at(shelf: &Shelf, listing: Option<&Listing>, at: usize) -> (patch: Option<usize>)
    ensures
        match patch {
            Some(p) => newer_spec(shelf.held_of(), listed(listing), at as int) == Some(p as int),
            None => newer_spec(shelf.held_of(), listed(listing), at as int) is None,
        },
{
    match matched_at(shelf, listing, at) {
        Some(found) => if found.latest {
            None
        } else {
            Some(found.patch)
        },
        None => None,
    }
}

/// Returns how many sounds on the shelf the library has since published a
/// newer version of: none where no catalogue is held.
pub fn stale(shelf: &Shelf, listing: Option<&Listing>) -> (count: usize)
    ensures
        count == stale_upto(shelf.held_of(), listed(listing), shelf.held_of().len() as int),
        count <= shelf.held_of().len(),
{
    let total = shelf.held().len();
    let mut count: usize = 0;
    let mut at: usize = 0;
    while at < total
        invariant
            total == shelf.held_of().len(),
            at <= total,
            count == stale_upto(shelf.held_of(), listed(listing), at as int),
            count <= at,
        decreases total - at,
    {
        if newer_at(shelf, listing, at).is_some() {
            count = count + 1;
        }
        at = at + 1;
    }
    count
}

/// Terms of one axis as the pairs a record holds them in.
pub open spec fn on_axis(axis: Seq<char>, terms: Seq<Seq<char>>) -> Seq<(Seq<char>, Seq<char>)> {
    terms.map_values(|term: Seq<char>| (axis, term))
}

/// Appends each of `terms` under `axis` to `pairs`.
fn add_axis(pairs: &mut Vec<(String, String)>, axis: &str, terms: &Vec<String>)
    ensures
        terms_view(final(pairs)@) == terms_view(old(pairs)@) + on_axis(axis@, crate::catalogue::texts(terms@)),
{
    let ghost start = terms_view(pairs@);
    let mut i: usize = 0;
    while i < terms.len()
        invariant
            i <= terms@.len(),
            terms_view(pairs@) == start + on_axis(axis@, crate::catalogue::texts(terms@.take(i as int))),
        decreases terms@.len() - i,
    {
        let ghost before = pairs@;
        pairs.push((axis.to_owned(), terms[i].clone()));
        proof {
            assert(crate::catalogue::texts(terms@.take(i + 1)) =~= crate::catalogue::texts(terms@.take(i as int)).push(terms@[i as int]@));
            assert(terms_view(pairs@) =~= terms_view(before).push((axis@, terms@[i as int]@)));
            assert(on_axis(axis@, crate::catalogue::texts(terms@.take(i + 1))) =~= on_axis(axis@, crate::catalogue::texts(terms@.take(i as int))).push((axis@, terms@[i as int]@)));
        }
        i = i + 1;
    }
    proof {
        assert(terms@.take(terms@.len() as int) =~= terms@);
    }
}

/// What the library already says about a sound, as a half-written record:
/// its maker, sentence, licence and collection, every term it carries by
/// axis, and its own drawing where it has one. A sound nothing has published
/// opens on its category's drawing and nothing else.
pub open spec fn described_spec(known: Option<crate::catalogue::Entry>, category_icon: [u8; 7], said: Publishing) -> bool {
    &&& said.wrote is None
    &&& match known {
        None => {
            &&& said.author@.len() == 0 && said.about@.len() == 0 && said.licence@.len() == 0
            &&& said.collection@.len() == 0
            &&& said.icon == category_icon
            &&& said.terms@.len() == 0
        },
        Some(patch) => {
            &&& said.author@ == patch.author@ && said.about@ == patch.about@ && said.licence@ == patch.licence@
            &&& said.collection@ == (match patch.collection { Some(named) => named@, None => Seq::empty() })
            &&& (if patch.own_icon { said.icon == patch.icon } else { forall|row: int| 0 <= row < 7 ==> #[trigger] said.icon[row] == 0 })
            &&& terms_view(said.terms@) == on_axis("genre"@, crate::catalogue::texts(patch.genre@))
                + on_axis("mood"@, crate::catalogue::texts(patch.mood@))
                + on_axis("timbre"@, crate::catalogue::texts(patch.timbre@))
                + on_axis("role"@, crate::catalogue::texts(patch.role@))
        },
    }
}

/// Returns what the library already says about a sound, as a half-written
/// record, to open the share sheet on.
pub fn described(known: Option<&crate::catalogue::Entry>, category_icon: [u8; 7]) -> (said: Publishing)
    ensures
        described_spec(match known { Some(patch) => Some(*patch), None => None }, category_icon, said),
{
    match known {
        None => {
            let mut blank = Publishing::default();
            blank.icon = category_icon;
            blank
        },
        Some(patch) => {
            let mut terms: Vec<(String, String)> = Vec::new();
            add_axis(&mut terms, "genre", &patch.genre);
            add_axis(&mut terms, "mood", &patch.mood);
            add_axis(&mut terms, "timbre", &patch.timbre);
            add_axis(&mut terms, "role", &patch.role);
            let collection = match &patch.collection {
                Some(named) => named.clone(),
                None => String::new(),
            };
            Publishing {
                author: patch.author.clone(),
                about: patch.about.clone(),
                licence: patch.licence.clone(),
                collection,
                icon: if patch.own_icon { patch.icon } else { [0u8, 0u8, 0u8, 0u8, 0u8, 0u8, 0u8] },
                terms,
                wrote: None,
            }
        },
    }
}

} // verus!
