//! The shared patch library, as this window holds it: which of its file names
//! are trusted with a path, what a search asks of a patch, what colour a hex
//! string names, and what a running fetch has done to the catalogue.

use vstd::prelude::*;
use crate::app::Where;
use crate::shelf::{Shelf, Held, held_view, readable, file_dumps, wire};
use crate::text::{trimmed, chars_of, trim, text_before, lemma_before_total, lemma_before_transitive};

verus! {

/// The readable name of each of the twelve categories, by the value a
/// program stores for it: the folder under `presets/` and what the index
/// writes.
pub open spec fn category_name_of(value: u8) -> Seq<char> {
    if value == 1 { "Bass"@ }
    else if value == 2 { "Pads"@ }
    else if value == 3 { "Leads"@ }
    else if value == 4 { "Monophonic"@ }
    else if value == 5 { "Polyphonic"@ }
    else if value == 6 { "Stabs"@ }
    else if value == 7 { "Sound Effects"@ }
    else if value == 8 { "Arpeggios"@ }
    else if value == 9 { "Sequences"@ }
    else if value == 10 { "Percussion"@ }
    else if value == 11 { "Ambient"@ }
    else { "Modular"@ }
}

/// The short label the instrument's display uses for each category, by the
/// value a program stores for it.
pub open spec fn category_label_of(value: u8) -> Seq<char> {
    if value == 1 { "Bass"@ }
    else if value == 2 { "Pad"@ }
    else if value == 3 { "Lead"@ }
    else if value == 4 { "Mono"@ }
    else if value == 5 { "Poly"@ }
    else if value == 6 { "Stab"@ }
    else if value == 7 { "SFX"@ }
    else if value == 8 { "Arp"@ }
    else if value == 9 { "Seq"@ }
    else if value == 10 { "Perc"@ }
    else if value == 11 { "Ambient"@ }
    else { "Modular"@ }
}

/// Whether `value` is one a category is stored as.
pub open spec fn is_category(value: u8) -> bool {
    1 <= value <= 12
}

/// Returns whether `value` is one a category is stored as.
pub fn is_category_value(value: u8) -> (yes: bool)
    ensures
        yes == is_category(value),
{
    1 <= value && value <= 12
}

/// `deepmind_patches::Category::name`, for the category stored as `value`.
///
/// Trusted to give the readable name the crate's `name` table gives for the
/// category `Category::from_value` finds for `value`.
#[verifier::external_body]
pub(crate) fn category_name(value: u8) -> (name: &'static str)
    requires
        is_category(value),
    ensures
        name@ == category_name_of(value),
{
    match deepmind_patches::Category::from_value(value) {
        Some(category) => category.name(),
        None => "",
    }
}

/// `deepmind_patches::Category::label`, for the category stored as `value`.
///
/// Trusted to give the short label the crate's `label` table gives for the
/// category `Category::from_value` finds for `value`.
#[verifier::external_body]
pub(crate) fn category_label(value: u8) -> (label: &'static str)
    requires
        is_category(value),
    ensures
        label@ == category_label_of(value),
{
    match deepmind_patches::Category::from_value(value) {
        Some(category) => category.label(),
        None => "",
    }
}

/// One piece of a path, as `std::path::Path::components` tells them apart.
#[derive(Debug, Clone, Copy, PartialEq, Eq, Structural)]
pub enum Part {
    /// A Windows drive or share prefix.
    Prefix,
    /// The root: the path is absolute.
    Root,
    /// A `.` at the start.
    Current,
    /// A `..`.
    Parent,
    /// A name: a step downwards.
    Normal,
}

/// What `std::path::Path::components` makes of a path, piece by piece, under
/// the path rules of the platform the library is built for (a drive prefix
/// and a backslash separate pieces on Windows and nowhere else).
pub uninterp spec fn path_parts(path: Seq<char>) -> Seq<Part>;

/// What `std::path::Path::join` makes of a directory and a name under it,
/// under the path rules of the platform the library is built for.
pub uninterp spec fn path_join(root: Seq<char>, file: Seq<char>) -> Seq<char>;

/// `std::path::Path::components`, each piece told apart by its kind.
///
/// Trusted to list the components of `path` in order, one for each, which is
/// a function of the text alone.
#[verifier::external_body]
fn parts_of(path: &str) -> (parts: Vec<Part>)
    ensures
        parts@ == path_parts(path@),
{
    let mut parts = Vec::new();
    for part in std::path::Path::new(path).components() {
        parts.push(match part {
            std::path::Component::Prefix(_) => Part::Prefix,
            std::path::Component::RootDir => Part::Root,
            std::path::Component::CurDir => Part::Current,
            std::path::Component::ParentDir => Part::Parent,
            std::path::Component::Normal(_) => Part::Normal,
        });
    }
    parts
}

/// `std::path::Path::join`, written back as text.
///
/// Trusted to give the text of `root` joined with `file`, which is a function
/// of the two texts alone.
#[verifier::external_body]
pub(crate) fn joined(root: &str, file: &str) -> (path: String)
    ensures
        path@ == path_join(root@, file@),
{
    std::path::Path::new(root).join(file).to_string_lossy().into_owned()
}

/// Whether every piece of a path is a step downwards.
pub open spec fn walks_down(parts: Seq<Part>) -> bool {
    forall|i: int| 0 <= i < parts.len() ==> parts[i] == Part::Normal
}

/// What `within` gives for `root` and `file`: the two joined where the name
/// is not empty and only walks downwards, and nothing otherwise.
pub open spec fn within_spec(root: Seq<char>, file: Seq<char>) -> Option<Seq<char>> {
    if walks_down(path_parts(file)) && file.len() > 0 {
        Some(path_join(root, file))
    } else {
        None
    }
}

/// Joins `file` onto `root`, or refuses.
///
/// The one place a name out of a catalogue becomes a path: relative, walking
/// downwards, no `..` anywhere, no root and no prefix, or nothing at all.
pub fn within(root: &str, file: &str) -> (path: Option<String>)
    ensures
        path.is_some() == within_spec(root@, file@).is_some(),
        path.is_some() ==> path.unwrap()@ == within_spec(root@, file@).unwrap(),
{
    let parts = parts_of(file);
    let mut i: usize = 0;
    while i < parts.len()
        invariant
            i <= parts@.len(),
            parts@ == path_parts(file@),
            forall|k: int| 0 <= k < i ==> parts@[k] == Part::Normal,
        decreases parts@.len() - i,
    {
        if parts[i] != Part::Normal {
            return None;
        }
        i = i + 1;
    }
    if file.unicode_len() == 0 {
        None
    } else {
        Some(joined(root, file))
    }
}

/// Reads the one program a patch's file holds.
///
/// A patch is one program dump, so a file out of which the protocol library
/// reads exactly one program gives that program, with its bytes and its
/// version; a file with none, or with more than one, gives nothing.
pub fn program_of(bytes: &[u8]) -> (found: Option<crate::program::Program>)
    ensures
        found is Some <==> readable(file_dumps(bytes@)).len() == 1,
        found matches Some(p) ==> p@ == readable(file_dumps(bytes@))[0].2
            && wire(p.version_of()) == readable(file_dumps(bytes@))[0].1,
{
    let mut shelf = Shelf::new();
    shelf.open(String::new(), bytes);
    let ghost held = shelf.held_of();
    proof {
        assert(held.map_values(|h: Held| held_view(h)).len() == held.len());
    }
    if shelf.held().len() == 1 {
        proof {
            assert(held.map_values(|h: Held| held_view(h))[0] == held_view(held[0]));
        }
        shelf.load(0)
    } else {
        None
    }
}

/// The value of a hexadecimal digit, where `c` is one.
pub open spec fn hex_digit(c: char) -> Option<u8> {
    let u = c as u32;
    if 48 <= u <= 57 {
        Some((u - 48) as u8)
    } else if 97 <= u <= 102 {
        Some((u - 87) as u8)
    } else if 65 <= u <= 70 {
        Some((u - 55) as u8)
    } else {
        None
    }
}

/// The component two hexadecimal digits make; nothing unless both are
/// digits.
pub open spec fn hex_pair(high: char, low: char) -> Option<u8> {
    match (hex_digit(high), hex_digit(low)) {
        (Some(h), Some(l)) => Some((h * 16 + l) as u8),
        _ => None,
    }
}

/// Whether every character is ASCII.
pub open spec fn all_ascii(text: Seq<char>) -> bool {
    forall|i: int| 0 <= i < text.len() ==> (text[i] as u32) < 128
}

/// What `rgb` reads out of a colour: after one leading `#` at most, exactly
/// six hexadecimal digits making three pairs, or nothing.
pub open spec fn rgb_spec(hex: Seq<char>) -> Option<[u8; 3]> {
    let digits = if hex.len() > 0 && hex[0] == '#' { hex.skip(1) } else { hex };
    if digits.len() != 6 || !all_ascii(digits) {
        None
    } else {
        match (hex_pair(digits[0], digits[1]), hex_pair(digits[2], digits[3]), hex_pair(digits[4], digits[5])) {
            (Some(r), Some(g), Some(b)) => Some([r, g, b]),
            _ => None,
        }
    }
}

/// Returns the value of a hexadecimal digit.
fn digit_value(c: char) -> (value: Option<u8>)
    ensures
        value == hex_digit(c),
{
    let u = c as u32;
    if 48 <= u && u <= 57 {
        Some((u - 48) as u8)
    } else if 97 <= u && u <= 102 {
        Some((u - 87) as u8)
    } else if 65 <= u && u <= 70 {
        Some((u - 55) as u8)
    } else {
        None
    }
}

/// Reads one component out of two characters.
fn pair_value(high: char, low: char) -> (value: Option<u8>)
    ensures
        value == hex_pair(high, low),
{
    match (digit_value(high), digit_value(low)) {
        (Some(h), Some(l)) => Some(h * 16 + l),
        _ => None,
    }
}

/// Parses `#rrggbb`, or nothing at all.
pub fn rgb(hex: &str) -> (colour: Option<[u8; 3]>)
    ensures
        colour == rgb_spec(hex@),
{
    let all = chars_of(hex);
    let start: usize = if all.len() > 0 && all[0] == '#' { 1 } else { 0 };
    if all.len() - start != 6 {
        proof {
            assert(start == 1 ==> hex@.skip(1).len() == hex@.len() - 1);
        }
        return None;
    }
    let mut i: usize = start;
    while i < all.len()
        invariant
            start <= i <= all@.len(),
            all@ == hex@,
            all@.len() == start + 6,
            start == (if hex@.len() > 0 && hex@[0] == '#' { 1int } else { 0int }),
            forall|k: int| start <= k < i ==> (all@[k] as u32) < 128,
        decreases all@.len() - i,
    {
        if all[i] as u32 >= 128 {
            proof {
                let digits = if hex@.len() > 0 && hex@[0] == '#' { hex@.skip(1) } else { hex@ };
                assert(digits[i - start] == all@[i as int]);
            }
            return None;
        }
        i = i + 1;
    }
    let ghost digits = if hex@.len() > 0 && hex@[0] == '#' { hex@.skip(1) } else { hex@ };
    proof {
        assert forall|k: int| 0 <= k < digits.len() implies (digits[k] as u32) < 128 by {
            assert(digits[k] == all@[k + start]);
        }
        assert(digits[0] == all@[start as int]);
        assert(digits[1] == all@[start + 1]);
        assert(digits[2] == all@[start + 2]);
        assert(digits[3] == all@[start + 3]);
        assert(digits[4] == all@[start + 4]);
        assert(digits[5] == all@[start + 5]);
    }
    let red = pair_value(all[start], all[start + 1]);
    let green = pair_value(all[start + 2], all[start + 3]);
    let blue = pair_value(all[start + 4], all[start + 5]);
    match (red, green, blue) {
        (Some(r), Some(g), Some(b)) => Some([r, g, b]),
        _ => None,
    }
}

/// One axis of the shared library's vocabulary.
#[derive(Debug, Clone, Copy, PartialEq, Eq, Hash, Structural)]
pub enum Axis {
    /// What kind of music it belongs to.
    Genre,
    /// How it feels.
    Mood,
    /// What it sounds like.
    Timbre,
    /// What it does in a track.
    Role,
}

/// What the palette and the taxonomy call each axis.
pub open spec fn axis_key_of(axis: Axis) -> Seq<char> {
    match axis {
        Axis::Genre => "genre"@,
        Axis::Mood => "mood"@,
        Axis::Timbre => "timbre"@,
        Axis::Role => "role"@,
    }
}

/// What the palette calls an axis: lowercase, as `taxonomy.toml` and
/// `palette.toml` both spell it.
pub fn axis_key(axis: Axis) -> (key: &'static str)
    ensures
        key@ == axis_key_of(axis),
{
    match axis {
        Axis::Genre => "genre",
        Axis::Mood => "mood",
        Axis::Timbre => "timbre",
        Axis::Role => "role",
    }
}

/// One patch of a catalogue, as everything it says about itself.
#[derive(Debug, Clone)]
pub struct Entry {
    /// Where the patch lives in the library: `bass/acid-growl-nyx`.
    pub id: String,
    /// The program's stored name.
    pub name: String,
    /// Who made it.
    pub author: String,
    /// What it sounds like, in the maker's words.
    pub about: String,
    /// The value the program stores for its category.
    pub category: u8,
    /// The collection it belongs to, where it belongs to one.
    pub collection: Option<String>,
    /// Its genre terms.
    pub genre: Vec<String>,
    /// Its mood terms.
    pub mood: Vec<String>,
    /// Its timbre terms.
    pub timbre: Vec<String>,
    /// Its role terms.
    pub role: Vec<String>,
    /// Free text, searched but never styled.
    pub tags: Vec<String>,
    /// The effects its program uses.
    pub effects: Vec<String>,
    /// The licence its maker wrote.
    pub licence: String,
    /// The icon drawn for it, a row to a byte with bit 0 leftmost.
    pub icon: [u8; 7],
    /// Whether the icon is the patch's own rather than its category's.
    pub own_icon: bool,
    /// The patch's current version.
    pub version: u32,
    /// What the sound is at its current version: the digest the library
    /// takes over what makes a program sound the way it does.
    pub fingerprint: [u8; 32],
    /// Its versions so far, oldest first, each by the fingerprint it had.
    pub history: Vec<Earlier>,
}

/// One version of a patch, by the fingerprint it had then.
#[derive(Debug, Clone, Copy, PartialEq, Eq)]
pub struct Earlier {
    /// The version.
    pub version: u32,
    /// The fingerprint at that version.
    pub fingerprint: [u8; 32],
}

/// What the library makes of a program's bytes to recognise the sound: a
/// digest over what makes it sound the way it does, whatever it is called.
pub uninterp spec fn fingerprint(data: Seq<u8>) -> Seq<u8>;

/// `deepmind_patches::Fingerprint::of`, on a program of this version and
/// these bytes.
///
/// Trusted to return the library's fingerprint of the program, named
/// [`fingerprint`]: a function of the bytes alone. The library builds the
/// program from bytes of the version's length without fail, so the error arm
/// is never taken.
#[verifier::external_body]
fn fingerprint_of(version: u8, data: &[u8]) -> (print: [u8; 32])
    requires
        (version == 6 && data@.len() == 242) || (version == 7 && data@.len() == 245),
    ensures
        print@ == fingerprint(data@),
{
    match deepmind_midi::ids::ProtocolVersion::new(version).and_then(
        |version| deepmind_midi::program::Program::from_bytes(version, data),
    ) {
        Ok(program) => *deepmind_patches::Fingerprint::of(&program).as_bytes(),
        Err(_) => [0; 32],
    }
}

/// The fingerprint of a held program.
pub fn fingerprint_of_program(program: &crate::program::Program) -> (print: [u8; 32])
    ensures
        print@ == fingerprint(program@),
{
    let version = program.version();
    let bytes = program.as_bytes();
    fingerprint_of(version.get(), bytes.as_slice())
}

/// The category a program is stored with, by the value it stores for it;
/// nothing for a value that names no category.
pub open spec fn stored_category(data: Seq<u8>) -> Option<u8> {
    let value = data[crate::program::CATEGORY_OFFSET as int];
    if is_category(value) { Some(value) } else { None }
}

/// `deepmind_patches::Category::of`, on a program of this version and these
/// bytes, the category taken by the value a program stores for it.
///
/// Trusted to return the category the program is stored with, which the
/// library reads as the category byte where it is 1 to 12 and nothing
/// otherwise: [`stored_category`]. The library builds
/// the program from bytes of the version's length without fail, so the
/// error arm is never taken.
#[verifier::external_body]
fn category_stored(version: u8, data: &[u8]) -> (category: Option<u8>)
    requires
        (version == 6 && data@.len() == 242) || (version == 7 && data@.len() == 245),
    ensures
        category == stored_category(data@),
{
    match deepmind_midi::ids::ProtocolVersion::new(version).and_then(
        |version| deepmind_midi::program::Program::from_bytes(version, data),
    ) {
        Ok(program) => deepmind_patches::Category::of(&program).map(|category| category.value()),
        Err(_) => None,
    }
}

/// Returns the category a held program is stored with.
pub fn category_of_program(program: &crate::program::Program) -> (category: Option<u8>)
    ensures
        category == stored_category(program@),
        category matches Some(value) ==> is_category(value),
{
    let version = program.version();
    let bytes = program.as_bytes();
    category_stored(version.get(), bytes.as_slice())
}

/// Whether two fingerprints are the same.
fn same_print(one: &[u8; 32], other: &[u8; 32]) -> (same: bool)
    ensures
        same == (one@ == other@),
{
    let mut i: usize = 0;
    while i < 32
        invariant
            i <= 32,
            one@.len() == 32,
            other@.len() == 32,
            forall|k: int| 0 <= k < i ==> one@[k] == other@[k],
        decreases 32 - i,
    {
        if one[i] != other[i] {
            return false;
        }
        i = i + 1;
    }
    proof {
        assert(one@ =~= other@);
    }
    true
}

/// The version of the first of `history`, from `from` on, that had this
/// fingerprint.
pub open spec fn first_earlier(history: Seq<Earlier>, print: Seq<u8>, from: int) -> Option<u32>
    decreases history.len() - from,
{
    if from < 0 || from >= history.len() {
        None
    } else if history[from].fingerprint@ == print {
        Some(history[from].version)
    } else {
        first_earlier(history, print, from + 1)
    }
}

/// Which version of one patch a fingerprint is, and whether that is the
/// patch's current version: the current fingerprint first, then the history
/// oldest first.
pub open spec fn found_in(entry: Entry, print: Seq<u8>) -> Option<(u32, bool)> {
    if entry.fingerprint@ == print {
        Some((entry.version, true))
    } else {
        match first_earlier(entry.history@, print, 0) {
            Some(version) => Some((version, version == entry.version)),
            None => None,
        }
    }
}

/// The first patch, from `from` on, that ever had this fingerprint: its
/// place, the version that matched, and whether that is its current one.
pub open spec fn lookup_from(entries: Seq<Entry>, print: Seq<u8>, from: int) -> Option<(int, u32, bool)>
    decreases entries.len() - from,
{
    if from < 0 || from >= entries.len() {
        None
    } else {
        match found_in(entries[from], print) {
            Some((version, latest)) => Some((from, version, latest)),
            None => lookup_from(entries, print, from + 1),
        }
    }
}

/// What a fingerprint lookup found.
#[derive(Debug, Clone, Copy, PartialEq, Eq)]
pub struct Found {
    /// The place of the patch in the listing.
    pub patch: usize,
    /// The version whose fingerprint matched.
    pub version: u32,
    /// Whether that is the patch's current version.
    pub latest: bool,
}

/// A lookup's answer as plain values.
pub open spec fn found_view(found: Option<Found>) -> Option<(int, u32, bool)> {
    match found {
        Some(f) => Some((f.patch as int, f.version, f.latest)),
        None => None,
    }
}

/// The version of the first entry of a history with this fingerprint.
fn earlier_version(history: &Vec<Earlier>, print: &[u8; 32]) -> (version: Option<u32>)
    ensures
        version == first_earlier(history@, print@, 0),
{
    let mut i: usize = 0;
    while i < history.len()
        invariant
            i <= history@.len(),
            first_earlier(history@, print@, 0) == first_earlier(history@, print@, i as int),
        decreases history@.len() - i,
    {
        if same_print(&history[i].fingerprint, print) {
            return Some(history[i].version);
        }
        i = i + 1;
    }
    None
}

/// A list of strings as text.
pub open spec fn texts(list: Seq<String>) -> Seq<Seq<char>> {
    list.map_values(|said: String| said@)
}

/// The terms an entry carries on one axis.
pub open spec fn terms_on(entry: Entry, axis: Axis) -> Seq<Seq<char>> {
    match axis {
        Axis::Genre => texts(entry.genre@),
        Axis::Mood => texts(entry.mood@),
        Axis::Timbre => texts(entry.timbre@),
        Axis::Role => texts(entry.role@),
    }
}

/// Everything a patch says about itself, as a search reads it: its name, its
/// maker, its sentence, its category both ways, its collection, then every
/// term, tag and effect.
pub open spec fn said_spec(entry: Entry) -> Seq<Seq<char>> {
    let first = seq![
        entry.name@,
        entry.author@,
        entry.about@,
        category_label_of(entry.category),
        category_name_of(entry.category),
    ];
    let collection = match entry.collection {
        Some(named) => seq![named@],
        None => Seq::empty(),
    };
    first + collection + texts(entry.genre@) + texts(entry.mood@) + texts(entry.timbre@)
        + texts(entry.role@) + texts(entry.tags@) + texts(entry.effects@)
}

/// What `str::to_lowercase` makes of a text.
pub uninterp spec fn lowercase(text: Seq<char>) -> Seq<char>;

/// `str::to_lowercase`.
///
/// Trusted to give the lowercase mapping of `text`, which is a function of
/// the text alone; nothing more is claimed of it.
#[verifier::external_body]
pub(crate) fn lowercased(text: &str) -> (lower: String)
    ensures
        lower@ == lowercase(text@),
{
    text.to_lowercase()
}

/// Appends each of `more` to `said`.
fn extend_texts(said: &mut Vec<String>, more: &Vec<String>)
    ensures
        texts(final(said)@) == texts(old(said)@) + texts(more@),
{
    let ghost start = texts(said@);
    let mut i: usize = 0;
    while i < more.len()
        invariant
            i <= more@.len(),
            texts(said@) == start + texts(more@.subrange(0, i as int)),
        decreases more@.len() - i,
    {
        let ghost before = said@;
        said.push(more[i].clone());
        i = i + 1;
        proof {
            assert(said@ == before.push(more@[i - 1]));
            assert(more@.subrange(0, i as int) =~= more@.subrange(0, i - 1).push(more@[i - 1]));
            assert(texts(said@) =~= texts(before).push(more@[i - 1]@));
            assert(texts(more@.subrange(0, i as int)) =~= texts(more@.subrange(0, i - 1)).push(more@[i - 1]@));
            assert(texts(said@) =~= start + texts(more@.subrange(0, i as int)));
        }
    }
    proof {
        assert(more@.subrange(0, more@.len() as int) =~= more@);
    }
}

/// Everything a patch says about itself, as a search reads it.
pub fn said_about(entry: &Entry) -> (said: Vec<String>)
    requires
        is_category(entry.category),
    ensures
        texts(said@) == said_spec(*entry),
{
    let mut said: Vec<String> = Vec::new();
    said.push(entry.name.clone());
    said.push(entry.author.clone());
    said.push(entry.about.clone());
    said.push(category_label(entry.category).to_owned());
    said.push(category_name(entry.category).to_owned());
    match &entry.collection {
        Some(named) => said.push(named.clone()),
        None => {},
    }
    proof {
        let collection: Seq<Seq<char>> = if entry.collection is Some {
            seq![entry.collection->0@]
        } else {
            Seq::empty()
        };
        assert(texts(said@) =~= seq![
            entry.name@,
            entry.author@,
            entry.about@,
            category_label_of(entry.category),
            category_name_of(entry.category),
        ] + collection);
    }
    extend_texts(&mut said, &entry.genre);
    extend_texts(&mut said, &entry.mood);
    extend_texts(&mut said, &entry.timbre);
    extend_texts(&mut said, &entry.role);
    extend_texts(&mut said, &entry.tags);
    extend_texts(&mut said, &entry.effects);
    said
}

/// What a person is looking for in a catalogue.
#[derive(Debug, Clone)]
pub struct Looking {
    /// The search field, matched case-insensitively against everything a
    /// patch says about itself.
    pub find: String,
    /// One category, by the value a program stores for it, where one is
    /// chosen.
    pub category: Option<u8>,
    /// Vocabulary terms, each of which a patch has to carry.
    pub terms: Vec<(Axis, String)>,
    /// One bank, where one is chosen.
    pub bank: Option<crate::shelf::Bank>,
    /// One of the three places a sound can be, where one is chosen.
    pub place: Option<Where>,
}

impl Default for Looking {
    fn default() -> (nothing: Looking)
        ensures
            nothing.find@.len() == 0,
            nothing.category is None,
            nothing.terms@.len() == 0,
            nothing.bank is None,
            nothing.place is None,
    {
        Looking { find: String::new(), category: None, terms: Vec::new(), bank: None, place: None }
    }
}

/// Whether anything is being asked: a search that is more than white space,
/// or any filter at all.
pub open spec fn asking_spec(looking: Looking) -> bool {
    trimmed(looking.find@).len() != 0 || looking.category is Some || looking.terms@.len() != 0
        || looking.place is Some || looking.bank is Some
}

/// Whether an entry carries every term asked for on its axis.
pub open spec fn carries_all(looking: Looking, entry: Entry) -> bool {
    forall|k: int| 0 <= k < looking.terms@.len() ==>
        #[trigger] terms_on(entry, looking.terms@[k].0).contains(looking.terms@[k].1@)
}

/// The search as it is matched: trimmed, then lowercased.
pub open spec fn wanted_text(looking: Looking) -> Seq<char> {
    lowercase(trimmed(looking.find@))
}

/// Whether one patch survives a search: its category where one is chosen,
/// every term asked for, and, where the search is not empty, something it
/// says about itself that holds the search once both are lowercased.
pub open spec fn keeps_spec(looking: Looking, entry: Entry) -> bool {
    &&& (looking.category matches Some(wanted) ==> entry.category == wanted)
    &&& carries_all(looking, entry)
    &&& (wanted_text(looking).len() == 0 || exists|j: int|
        0 <= j < said_spec(entry).len() && #[trigger] crate::text::occurs(
            lowercase(said_spec(entry)[j]),
            wanted_text(looking),
        ))
}

/// Whether a search's text turns up in `text`, once both are lowercased.
pub open spec fn turns_up(looking: Looking, text: Seq<char>) -> bool {
    crate::text::occurs(lowercase(text), wanted_text(looking))
}

/// Where each thing a patch says about itself stands in what a search reads.
proof fn lemma_said_holds(entry: Entry)
    ensures
        said_spec(entry).len() > 4,
        said_spec(entry)[0] == entry.name@,
        said_spec(entry)[1] == entry.author@,
        said_spec(entry)[2] == entry.about@,
        said_spec(entry)[3] == category_label_of(entry.category),
        said_spec(entry)[4] == category_name_of(entry.category),
        entry.collection matches Some(c) ==> said_spec(entry).contains(c@),
        forall|k: int| 0 <= k < entry.genre@.len() ==> said_spec(entry).contains(#[trigger] entry.genre@[k]@),
        forall|k: int| 0 <= k < entry.mood@.len() ==> said_spec(entry).contains(#[trigger] entry.mood@[k]@),
        forall|k: int| 0 <= k < entry.timbre@.len() ==> said_spec(entry).contains(#[trigger] entry.timbre@[k]@),
        forall|k: int| 0 <= k < entry.role@.len() ==> said_spec(entry).contains(#[trigger] entry.role@[k]@),
        forall|k: int| 0 <= k < entry.tags@.len() ==> said_spec(entry).contains(#[trigger] entry.tags@[k]@),
        forall|k: int| 0 <= k < entry.effects@.len() ==> said_spec(entry).contains(#[trigger] entry.effects@[k]@),
        forall|j: int| 0 <= j < said_spec(entry).len() ==> {
            ||| #[trigger] said_spec(entry)[j] == entry.name@
            ||| said_spec(entry)[j] == entry.author@
            ||| said_spec(entry)[j] == entry.about@
            ||| said_spec(entry)[j] == category_label_of(entry.category)
            ||| said_spec(entry)[j] == category_name_of(entry.category)
            ||| (entry.collection matches Some(c) && said_spec(entry)[j] == c@)
            ||| texts(entry.genre@).contains(said_spec(entry)[j])
            ||| texts(entry.mood@).contains(said_spec(entry)[j])
            ||| texts(entry.timbre@).contains(said_spec(entry)[j])
            ||| texts(entry.role@).contains(said_spec(entry)[j])
            ||| texts(entry.tags@).contains(said_spec(entry)[j])
            ||| texts(entry.effects@).contains(said_spec(entry)[j])
        },
{
    let first = seq![
        entry.name@,
        entry.author@,
        entry.about@,
        category_label_of(entry.category),
        category_name_of(entry.category),
    ];
    let collection: Seq<Seq<char>> = match entry.collection {
        Some(named) => seq![named@],
        None => Seq::empty(),
    };
    let a = first + collection;
    let g = texts(entry.genre@);
    let m = texts(entry.mood@);
    let t = texts(entry.timbre@);
    let r = texts(entry.role@);
    let tg = texts(entry.tags@);
    let e = texts(entry.effects@);
    let s1 = a + g;
    let s2 = s1 + m;
    let s3 = s2 + t;
    let s4 = s3 + r;
    let s5 = s4 + tg;
    let s6 = s5 + e;
    assert(said_spec(entry) == s6);
    assert(s6[0] == s5[0] && s5[0] == s4[0] && s4[0] == s3[0] && s3[0] == s2[0] && s2[0] == s1[0] && s1[0] == a[0]);
    assert(s6[1] == a[1] && s6[2] == a[2] && s6[3] == a[3] && s6[4] == a[4]);
    if entry.collection is Some {
        assert(s6[5] == a[5]);
    }
    assert forall|k: int| 0 <= k < entry.genre@.len() implies s6.contains(#[trigger] entry.genre@[k]@) by {
        assert(s6[a.len() + k] == g[k]);
    }
    assert forall|k: int| 0 <= k < entry.mood@.len() implies s6.contains(#[trigger] entry.mood@[k]@) by {
        assert(s6[s1.len() + k] == m[k]);
    }
    assert forall|k: int| 0 <= k < entry.timbre@.len() implies s6.contains(#[trigger] entry.timbre@[k]@) by {
        assert(s6[s2.len() + k] == t[k]);
    }
    assert forall|k: int| 0 <= k < entry.role@.len() implies s6.contains(#[trigger] entry.role@[k]@) by {
        assert(s6[s3.len() + k] == r[k]);
    }
    assert forall|k: int| 0 <= k < entry.tags@.len() implies s6.contains(#[trigger] entry.tags@[k]@) by {
        assert(s6[s4.len() + k] == tg[k]);
    }
    assert forall|k: int| 0 <= k < entry.effects@.len() implies s6.contains(#[trigger] entry.effects@[k]@) by {
        assert(s6[s5.len() + k] == e[k]);
    }
    assert forall|j: int| 0 <= j < s6.len() implies {
        ||| #[trigger] s6[j] == entry.name@
        ||| s6[j] == entry.author@
        ||| s6[j] == entry.about@
        ||| s6[j] == category_label_of(entry.category)
        ||| s6[j] == category_name_of(entry.category)
        ||| (entry.collection matches Some(c) && s6[j] == c@)
        ||| g.contains(s6[j])
        ||| m.contains(s6[j])
        ||| t.contains(s6[j])
        ||| r.contains(s6[j])
        ||| tg.contains(s6[j])
        ||| e.contains(s6[j])
    } by {
        if j < a.len() {
            assert(s6[j] == a[j]);
            if j >= 5 {
                assert(a[j] == collection[j - 5]);
            }
        } else if j < s1.len() {
            assert(s6[j] == g[j - a.len()]);
        } else if j < s2.len() {
            assert(s6[j] == m[j - s1.len()]);
        } else if j < s3.len() {
            assert(s6[j] == t[j - s2.len()]);
        } else if j < s4.len() {
            assert(s6[j] == r[j - s3.len()]);
        } else if j < s5.len() {
            assert(s6[j] == tg[j - s4.len()]);
        } else {
            assert(s6[j] == e[j - s5.len()]);
        }
    }
}

/// A search finds a patch by anything it says about itself: once the
/// patch passes the category and term filters, it is kept where the search
/// is empty, and where the search turns up in its name, its maker, its
/// sentence, either name of its category, its collection, or any one of its
/// terms, tags or effects.
pub proof fn lemma_a_search_finds_what_a_patch_says(looking: Looking, entry: Entry)
    requires
        looking.category matches Some(wanted) ==> entry.category == wanted,
        carries_all(looking, entry),
    ensures
        wanted_text(looking).len() == 0 ==> keeps_spec(looking, entry),
        turns_up(looking, entry.name@) ==> keeps_spec(looking, entry),
        turns_up(looking, entry.author@) ==> keeps_spec(looking, entry),
        turns_up(looking, entry.about@) ==> keeps_spec(looking, entry),
        turns_up(looking, category_label_of(entry.category)) ==> keeps_spec(looking, entry),
        turns_up(looking, category_name_of(entry.category)) ==> keeps_spec(looking, entry),
        (entry.collection matches Some(c) && turns_up(looking, c@)) ==> keeps_spec(looking, entry),
        forall|k: int| 0 <= k < entry.genre@.len() && turns_up(looking, #[trigger] entry.genre@[k]@) ==> keeps_spec(looking, entry),
        forall|k: int| 0 <= k < entry.mood@.len() && turns_up(looking, #[trigger] entry.mood@[k]@) ==> keeps_spec(looking, entry),
        forall|k: int| 0 <= k < entry.timbre@.len() && turns_up(looking, #[trigger] entry.timbre@[k]@) ==> keeps_spec(looking, entry),
        forall|k: int| 0 <= k < entry.role@.len() && turns_up(looking, #[trigger] entry.role@[k]@) ==> keeps_spec(looking, entry),
        forall|k: int| 0 <= k < entry.tags@.len() && turns_up(looking, #[trigger] entry.tags@[k]@) ==> keeps_spec(looking, entry),
        forall|k: int| 0 <= k < entry.effects@.len() && turns_up(looking, #[trigger] entry.effects@[k]@) ==> keeps_spec(looking, entry),
{
    lemma_said_holds(entry);
    let said = said_spec(entry);
    assert(turns_up(looking, said[0]) ==> keeps_spec(looking, entry));
    assert(turns_up(looking, said[1]) ==> keeps_spec(looking, entry));
    assert(turns_up(looking, said[2]) ==> keeps_spec(looking, entry));
    assert(turns_up(looking, said[3]) ==> keeps_spec(looking, entry));
    assert(turns_up(looking, said[4]) ==> keeps_spec(looking, entry));
    assert forall|text: Seq<char>| said.contains(text) && turns_up(looking, text) implies keeps_spec(looking, entry) by {
        let j = choose|j: int| 0 <= j < said.len() && said[j] == text;
        assert(turns_up(looking, said[j]));
    }
    if let Some(c) = entry.collection {
        assert(said.contains(c@));
    }
}

/// A patch a search keeps passes every filter: it is in the category asked
/// for, it carries every term asked for, and where the search is not empty,
/// the search turns up in something it says about itself.
pub proof fn lemma_a_kept_patch_says_what_was_searched(looking: Looking, entry: Entry)
    requires
        keeps_spec(looking, entry),
    ensures
        looking.category matches Some(wanted) ==> entry.category == wanted,
        carries_all(looking, entry),
        wanted_text(looking).len() == 0 || {
            ||| turns_up(looking, entry.name@)
            ||| turns_up(looking, entry.author@)
            ||| turns_up(looking, entry.about@)
            ||| turns_up(looking, category_label_of(entry.category))
            ||| turns_up(looking, category_name_of(entry.category))
            ||| (entry.collection matches Some(c) && turns_up(looking, c@))
            ||| exists|k: int| 0 <= k < entry.genre@.len() && turns_up(looking, #[trigger] entry.genre@[k]@)
            ||| exists|k: int| 0 <= k < entry.mood@.len() && turns_up(looking, #[trigger] entry.mood@[k]@)
            ||| exists|k: int| 0 <= k < entry.timbre@.len() && turns_up(looking, #[trigger] entry.timbre@[k]@)
            ||| exists|k: int| 0 <= k < entry.role@.len() && turns_up(looking, #[trigger] entry.role@[k]@)
            ||| exists|k: int| 0 <= k < entry.tags@.len() && turns_up(looking, #[trigger] entry.tags@[k]@)
            ||| exists|k: int| 0 <= k < entry.effects@.len() && turns_up(looking, #[trigger] entry.effects@[k]@)
        },
{
    lemma_said_holds(entry);
    if wanted_text(looking).len() != 0 {
        let said = said_spec(entry);
        let j = choose|j: int| 0 <= j < said.len() && #[trigger] crate::text::occurs(
            lowercase(said[j]),
            wanted_text(looking),
        );
        assert(turns_up(looking, said[j]));
        let text = said[j];
        if texts(entry.genre@).contains(text) {
            let k = choose|k: int| 0 <= k < texts(entry.genre@).len() && texts(entry.genre@)[k] == text;
            assert(turns_up(looking, entry.genre@[k]@));
        }
        if texts(entry.mood@).contains(text) {
            let k = choose|k: int| 0 <= k < texts(entry.mood@).len() && texts(entry.mood@)[k] == text;
            assert(turns_up(looking, entry.mood@[k]@));
        }
        if texts(entry.timbre@).contains(text) {
            let k = choose|k: int| 0 <= k < texts(entry.timbre@).len() && texts(entry.timbre@)[k] == text;
            assert(turns_up(looking, entry.timbre@[k]@));
        }
        if texts(entry.role@).contains(text) {
            let k = choose|k: int| 0 <= k < texts(entry.role@).len() && texts(entry.role@)[k] == text;
            assert(turns_up(looking, entry.role@[k]@));
        }
        if texts(entry.tags@).contains(text) {
            let k = choose|k: int| 0 <= k < texts(entry.tags@).len() && texts(entry.tags@)[k] == text;
            assert(turns_up(looking, entry.tags@[k]@));
        }
        if texts(entry.effects@).contains(text) {
            let k = choose|k: int| 0 <= k < texts(entry.effects@).len() && texts(entry.effects@)[k] == text;
            assert(turns_up(looking, entry.effects@[k]@));
        }
    }
}

/// Whether `list` holds `term`.
fn holds(list: &Vec<String>, term: &String) -> (found: bool)
    ensures
        found == texts(list@).contains(term@),
{
    let mut i: usize = 0;
    while i < list.len()
        invariant
            i <= list@.len(),
            forall|k: int| 0 <= k < i ==> list@[k]@ != term@,
        decreases list@.len() - i,
    {
        if list[i] == *term {
            proof {
                assert(texts(list@)[i as int] == term@);
            }
            return true;
        }
        i = i + 1;
    }
    proof {
        if texts(list@).contains(term@) {
            let k = choose|k: int| 0 <= k < texts(list@).len() && texts(list@)[k] == term@;
            assert(list@[k]@ == term@);
        }
    }
    false
}

impl Looking {
    /// Whether anything is being asked, which is what a count says
    /// `12 of 32` rather than `32 patches` for.
    pub fn asking(&self) -> (yes: bool)
        ensures
            yes == asking_spec(*self),
    {
        !crate::text::is_blank(self.find.as_str()) || self.category.is_some() || self.terms.len() != 0
            || self.place.is_some() || self.bank.is_some()
    }

    /// Whether one patch survives it.
    pub fn keeps(&self, entry: &Entry) -> (kept: bool)
        requires
            is_category(entry.category),
        ensures
            kept == keeps_spec(*self, *entry),
            kept ==> (self.category matches Some(wanted) ==> entry.category == wanted),
            kept ==> carries_all(*self, *entry),
            (self.category matches Some(wanted) ==> entry.category == wanted) && carries_all(*self, *entry) ==> {
                &&& wanted_text(*self).len() == 0 ==> kept
                &&& turns_up(*self, entry.name@) ==> kept
                &&& turns_up(*self, entry.author@) ==> kept
                &&& turns_up(*self, entry.about@) ==> kept
                &&& turns_up(*self, category_label_of(entry.category)) ==> kept
                &&& turns_up(*self, category_name_of(entry.category)) ==> kept
                &&& (entry.collection matches Some(c) && turns_up(*self, c@)) ==> kept
                &&& forall|k: int| 0 <= k < entry.tags@.len() && turns_up(*self, #[trigger] entry.tags@[k]@) ==> kept
            },
    {
        proof {
            if (self.category matches Some(wanted) ==> entry.category == wanted) && carries_all(*self, *entry) {
                lemma_a_search_finds_what_a_patch_says(*self, *entry);
            }
        }
        match self.category {
            Some(wanted) => {
                if entry.category != wanted {
                    return false;
                }
            },
            None => {},
        }
        let mut k: usize = 0;
        while k < self.terms.len()
            invariant
                k <= self.terms@.len(),
                forall|m: int| 0 <= m < k ==>
                    #[trigger] terms_on(*entry, self.terms@[m].0).contains(self.terms@[m].1@),
            decreases self.terms@.len() - k,
        {
            let (axis, term) = &self.terms[k];
            let list = match axis {
                Axis::Genre => &entry.genre,
                Axis::Mood => &entry.mood,
                Axis::Timbre => &entry.timbre,
                Axis::Role => &entry.role,
            };
            if !holds(list, term) {
                proof {
                    assert(!terms_on(*entry, self.terms@[k as int].0).contains(self.terms@[k as int].1@));
                }
                return false;
            }
            k = k + 1;
        }
        let trimmed_find = trim(&chars_of(self.find.as_str()));
        let lowered = lowercased(crate::text::string_of(&trimmed_find).as_str());
        let find = chars_of(lowered.as_str());
        if find.len() == 0 {
            return true;
        }
        let said = said_about(entry);
        let mut j: usize = 0;
        while j < said.len()
            invariant
                j <= said@.len(),
                texts(said@) == said_spec(*entry),
                find@ == wanted_text(*self),
                find@.len() != 0,
                carries_all(*self, *entry),
                self.category matches Some(wanted) ==> entry.category == wanted,
                forall|m: int| 0 <= m < j ==> !crate::text::occurs(
                    lowercase(#[trigger] said_spec(*entry)[m]),
                    wanted_text(*self),
                ),
            decreases said@.len() - j,
        {
            let lower = lowercased(said[j].as_str());
            let hay = chars_of(lower.as_str());
            proof {
                assert(said_spec(*entry)[j as int] == said@[j as int]@);
            }
            if crate::text::contains(&hay, &find) {
                proof {
                    assert(crate::text::occurs(lowercase(said_spec(*entry)[j as int]), wanted_text(*self)));
                }
                return true;
            }
            j = j + 1;
        }
        false
    }
}

/// What a catalogue is doing.
#[derive(Debug, Clone, PartialEq, Eq)]
pub enum State {
    /// Nothing held and nothing asked for.
    Empty,
    /// A fetch or an open is running. The sentence says which.
    Working(&'static str),
    /// A catalogue is held.
    Ready,
    /// The last attempt failed, and this is what it said.
    Failed(String),
}

/// What a catalogue is doing, as text.
pub enum Doing {
    /// Nothing held and nothing asked for.
    Empty,
    /// Working, and the sentence that says at what.
    Working(Seq<char>),
    /// A catalogue is held.
    Ready,
    /// Failed, and why.
    Failed(Seq<char>),
}

/// A state as text.
pub open spec fn doing(state: State) -> Doing {
    match state {
        State::Empty => Doing::Empty,
        State::Working(what) => Doing::Working(what@),
        State::Ready => Doing::Ready,
        State::Failed(why) => Doing::Failed(why@),
    }
}

/// One thing heard from a running fetch, or that there is nothing more to
/// hear for now, or that the fetch has gone.
#[derive(Debug, Clone)]
pub enum Heard {
    /// Still going, and this is what it is doing.
    Doing(&'static str),
    /// The index arrived, as the patches it lists; the bundle may still be
    /// coming.
    Index(Listing),
    /// The bundle is unpacked.
    Bundle,
    /// It stopped, and this is why.
    Failed(String),
    /// Nothing more has been said yet.
    Quiet,
    /// The fetch went away without a last word.
    Gone,
}

/// What a catalogue knows of itself: what it is doing, whether an index is
/// held, whether the sounds themselves are here, and whether a fetch is
/// running.
pub struct Standing {
    /// What it is doing.
    pub doing: Doing,
    /// The index held, as the patches it lists, where one is.
    pub held: Option<Seq<Entry>>,
    /// Whether the sounds are unpacked where the index says.
    pub loadable: bool,
    /// Whether a fetch is running.
    pub listening: bool,
}

/// The sentence a catalogue shows while it asks for the newest release.
pub open spec fn asking_sentence() -> Seq<char> {
    "Asking for the newest patches\u{2026}"@
}

/// The reason given when a fetch goes away before any index arrived.
pub open spec fn stopped_sentence() -> Seq<char> {
    "the download stopped"@
}

/// What folding in `heard`, from its start, does to a catalogue standing at
/// `now` that has `changed` so far: the standing after, and whether anything
/// changed. Folding stops at the bundle, a failure, the fetch going, or
/// silence.
pub open spec fn settled(now: Standing, heard: Seq<Heard>, changed: bool) -> (Standing, bool)
    decreases heard.len(),
{
    if heard.len() == 0 {
        (now, changed)
    } else {
        let rest = heard.skip(1);
        match heard[0] {
            Heard::Doing(what) => settled(Standing { doing: Doing::Working(what@), ..now }, rest, true),
            Heard::Index(listing) => settled(
                Standing { doing: Doing::Ready, held: Some(listing.entries@), loadable: false, ..now },
                rest,
                true,
            ),
            Heard::Bundle => (
                Standing { doing: Doing::Ready, loadable: now.held is Some, listening: false, ..now },
                true,
            ),
            Heard::Failed(why) => (Standing { doing: Doing::Failed(why@), listening: false, ..now }, true),
            Heard::Quiet => (now, changed),
            Heard::Gone => (
                Standing {
                    doing: if now.held is Some { now.doing } else { Doing::Failed(stopped_sentence()) },
                    listening: false,
                    ..now
                },
                true,
            ),
        }
    }
}

/// Whether something a fetch says is its last word: the bundle arriving, a
/// failure, or the fetch going away.
pub open spec fn last_word(heard: Heard) -> bool {
    heard is Bundle || heard is Failed || heard is Gone
}

/// A fetch's last word ends it: where what is heard runs through progress
/// and indexes to a bundle, a failure or the fetch going away, the catalogue
/// is listening no more, something changed, and a failure is what it says
/// it is doing. Nothing after the last word is read.
pub proof fn lemma_a_last_word_ends_the_fetch(now: Standing, heard: Seq<Heard>, changed: bool, k: int)
    requires
        0 <= k < heard.len(),
        forall|j: int| 0 <= j < k ==> (#[trigger] heard[j] is Doing || heard[j] is Index),
        last_word(heard[k]),
    ensures
        !settled(now, heard, changed).0.listening,
        settled(now, heard, changed).1,
        heard[k] matches Heard::Failed(why) ==> settled(now, heard, changed).0.doing == Doing::Failed(why@),
        heard[k] is Bundle ==> settled(now, heard, changed).0.doing == Doing::Ready,
        settled(now, heard, changed) == settled(now, heard.take(k + 1), changed),
    decreases k,
{
    if k > 0 {
        let rest = heard.skip(1);
        assert forall|j: int| 0 <= j < k - 1 implies (#[trigger] rest[j] is Doing || rest[j] is Index) by {
            assert(rest[j] == heard[j + 1]);
        }
        assert(rest[k - 1] == heard[k]);
        assert(heard.take(k + 1).skip(1) =~= rest.take(k));
        assert(heard.take(k + 1)[0] == heard[0]);
        assert(heard[0] is Doing || heard[0] is Index);
        match heard[0] {
            Heard::Doing(what) => {
                lemma_a_last_word_ends_the_fetch(Standing { doing: Doing::Working(what@), ..now }, rest, true, k - 1);
            },
            Heard::Index(listing) => {
                lemma_a_last_word_ends_the_fetch(
                    Standing { doing: Doing::Ready, held: Some(listing.entries@), loadable: false, ..now },
                    rest,
                    true,
                    k - 1,
                );
            },
            _ => {},
        }
    } else {
        assert(heard.take(1)[0] == heard[0]);
    }
}

/// Until its last word a fetch is still running: where what is heard is
/// only progress and indexes, the catalogue is listening exactly as it was.
pub proof fn lemma_a_fetch_runs_until_its_last_word(now: Standing, heard: Seq<Heard>, changed: bool)
    requires
        forall|j: int| 0 <= j < heard.len() ==> (#[trigger] heard[j] is Doing || heard[j] is Index),
    ensures
        settled(now, heard, changed).0.listening == now.listening,
    decreases heard.len(),
{
    if heard.len() > 0 {
        let rest = heard.skip(1);
        assert forall|j: int| 0 <= j < rest.len() implies (#[trigger] rest[j] is Doing || rest[j] is Index) by {
            assert(rest[j] == heard[j + 1]);
        }
        assert(heard[0] is Doing || heard[0] is Index);
        match heard[0] {
            Heard::Doing(what) => {
                lemma_a_fetch_runs_until_its_last_word(Standing { doing: Doing::Working(what@), ..now }, rest, true);
            },
            Heard::Index(listing) => {
                lemma_a_fetch_runs_until_its_last_word(
                    Standing { doing: Doing::Ready, held: Some(listing.entries@), loadable: false, ..now },
                    rest,
                    true,
                );
            },
            _ => {},
        }
    }
}

/// The shared patch library's catalogue, as this window tracks it: what it
/// is doing, and what it holds.
#[derive(Debug)]
pub struct Catalogue {
    state: State,
    held: Option<Listing>,
    loadable: bool,
    listening: bool,
}

impl View for Catalogue {
    type V = Standing;

    closed spec fn view(&self) -> Standing {
        Standing {
            doing: doing(self.state),
            held: match self.held {
                Some(listing) => Some(listing.entries@),
                None => None,
            },
            loadable: self.loadable,
            listening: self.listening,
        }
    }
}

impl Catalogue {
    /// A catalogue holding nothing.
    pub fn new() -> (catalogue: Catalogue)
        ensures
            catalogue@ == (Standing { doing: Doing::Empty, held: None, loadable: false, listening: false }),
    {
        Catalogue { state: State::Empty, held: None, loadable: false, listening: false }
    }

    /// What it is doing.
    pub fn state(&self) -> (state: &State)
        ensures
            doing(*state) == self@.doing,
    {
        &self.state
    }

    /// The index held, where one is.
    pub fn held(&self) -> (held: Option<&Listing>)
        ensures
            match held {
                Some(listing) => self@.held == Some(listing.entries@),
                None => self@.held is None,
            },
    {
        match &self.held {
            Some(listing) => Some(listing),
            None => None,
        }
    }

    /// Whether the sounds themselves are here, rather than only what is said
    /// about them.
    pub fn loadable(&self) -> (yes: bool)
        ensures
            yes == self@.loadable,
    {
        self.loadable
    }

    /// Whether a fetch is running.
    pub fn working(&self) -> (yes: bool)
        ensures
            yes == self@.listening,
    {
        self.listening
    }

    /// Records that a checkout on disk was opened: its index is held, its
    /// sounds are beside it, and it is ready.
    pub fn opened(&mut self, index: Listing)
        ensures
            final(self)@ == (Standing { doing: Doing::Ready, held: Some(index.entries@), loadable: true, ..old(self)@ }),
    {
        self.held = Some(index);
        self.loadable = true;
        self.state = State::Ready;
    }

    /// Starts listening to a fetch of the newest release. Returns whether one
    /// was started: not while one is already running.
    pub fn fetching(&mut self) -> (started: bool)
        ensures
            started == !old(self)@.listening,
            started ==> final(self)@ == (Standing {
                doing: Doing::Working(asking_sentence()),
                listening: true,
                ..old(self)@
            }),
            !started ==> final(self)@ == old(self)@,
    {
        if self.listening {
            return false;
        }
        self.state = State::Working("Asking for the newest patches\u{2026}");
        self.listening = true;
        true
    }

    /// Folds in what a running fetch has said since the last time, in the
    /// order it was said, and returns whether anything changed. A catalogue
    /// nobody asked anything of changes nothing.
    pub fn settle(&mut self, heard: Vec<Heard>) -> (changed: bool)
        ensures
            !old(self)@.listening ==> final(self)@ == old(self)@ && !changed,
            old(self)@.listening ==> (final(self)@, changed) == settled(old(self)@, heard@, false),
            (exists|k: int| 0 <= k < heard@.len() && last_word(#[trigger] heard@[k]) && forall|j: int|
                0 <= j < k ==> (#[trigger] heard@[j] is Doing || heard@[j] is Index)) ==> !final(self)@.listening,
            (forall|j: int| 0 <= j < heard@.len() ==> (#[trigger] heard@[j] is Doing || heard@[j] is Index))
                ==> final(self)@.listening == old(self)@.listening,
    {
        proof {
            if exists|k: int| 0 <= k < heard@.len() && last_word(#[trigger] heard@[k]) && forall|j: int|
                0 <= j < k ==> (#[trigger] heard@[j] is Doing || heard@[j] is Index) {
                let k = choose|k: int| 0 <= k < heard@.len() && last_word(#[trigger] heard@[k]) && forall|j: int|
                    0 <= j < k ==> (#[trigger] heard@[j] is Doing || heard@[j] is Index);
                lemma_a_last_word_ends_the_fetch(self@, heard@, false, k);
            }
            if forall|j: int| 0 <= j < heard@.len() ==> (#[trigger] heard@[j] is Doing || heard@[j] is Index) {
                lemma_a_fetch_runs_until_its_last_word(self@, heard@, false);
            }
        }
        if !self.listening {
            return false;
        }
        let mut changed = false;
        let mut rest = heard;
        while rest.len() > 0
            invariant
                old(self)@.listening,
                settled(old(self)@, heard@, false) == settled(self@, rest@, changed),
                (exists|k: int| 0 <= k < heard@.len() && last_word(#[trigger] heard@[k]) && forall|j: int|
                    0 <= j < k ==> (#[trigger] heard@[j] is Doing || heard@[j] is Index))
                    ==> !settled(old(self)@, heard@, false).0.listening,
                (forall|j: int| 0 <= j < heard@.len() ==> (#[trigger] heard@[j] is Doing || heard@[j] is Index))
                    ==> settled(old(self)@, heard@, false).0.listening == old(self)@.listening,
            decreases rest@.len(),
        {
            let ghost before = rest@;
            let next = rest.remove(0);
            proof {
                assert(before[0] == next);
                assert(before.skip(1) =~= rest@);
            }
            match next {
                Heard::Doing(what) => {
                    self.state = State::Working(what);
                    changed = true;
                },
                Heard::Index(listing) => {
                    self.held = Some(listing);
                    self.loadable = false;
                    self.state = State::Ready;
                    changed = true;
                },
                Heard::Bundle => {
                    self.loadable = self.held.is_some();
                    self.state = State::Ready;
                    self.listening = false;
                    return true;
                },
                Heard::Failed(why) => {
                    self.state = State::Failed(why);
                    self.listening = false;
                    return true;
                },
                Heard::Quiet => {
                    return changed;
                },
                Heard::Gone => {
                    self.listening = false;
                    if self.held.is_none() {
                        self.state = State::Failed("the download stopped".to_owned());
                    }
                    return true;
                },
            }
        }
        changed
    }
}

/// The colours a catalogue names: for each group of them, each key and the
/// hex text of its colour.
#[derive(Debug, Clone)]
pub struct Palette {
    /// The groups, each with its keyed colours.
    pub groups: Vec<(String, Vec<(String, String)>)>,
}

/// The hex text a palette's first group called `group` gives its first key
/// called `key`, from `from` on.
pub open spec fn hex_in(keys: Seq<(String, String)>, key: Seq<char>, from: int) -> Option<Seq<char>>
    decreases keys.len() - from,
{
    if from < 0 || from >= keys.len() {
        None
    } else if keys[from].0@ == key {
        Some(keys[from].1@)
    } else {
        hex_in(keys, key, from + 1)
    }
}

/// The hex text a palette names for `key` under `group`: the first group of
/// that name, and the first key of that name in it.
pub open spec fn hex_of(groups: Seq<(String, Vec<(String, String)>)>, group: Seq<char>, key: Seq<char>, from: int) -> Option<Seq<char>>
    decreases groups.len() - from,
{
    if from < 0 || from >= groups.len() {
        None
    } else if groups[from].0@ == group {
        hex_in(groups[from].1@, key, 0)
    } else {
        hex_of(groups, group, key, from + 1)
    }
}

/// The colour a palette names, where it names one that reads as a colour.
pub open spec fn colour_spec(palette: Palette, group: Seq<char>, key: Seq<char>) -> Option<[u8; 3]> {
    match hex_of(palette.groups@, group, key, 0) {
        Some(hex) => rgb_spec(hex),
        None => None,
    }
}

impl Palette {
    /// Returns a colour the library named, as three components: nothing
    /// where it names none, or names one that does not read.
    pub fn colour(&self, group: &str, key: &str) -> (colour: Option<[u8; 3]>)
        ensures
            colour == colour_spec(*self, group@, key@),
    {
        let wanted_group = group.to_owned();
        let wanted_key = key.to_owned();
        let mut g: usize = 0;
        while g < self.groups.len()
            invariant
                g <= self.groups@.len(),
                wanted_group@ == group@,
                wanted_key@ == key@,
                hex_of(self.groups@, group@, key@, 0) == hex_of(self.groups@, group@, key@, g as int),
            decreases self.groups@.len() - g,
        {
            if self.groups[g].0 == wanted_group {
                let keys = &self.groups[g].1;
                let mut k: usize = 0;
                while k < keys.len()
                    invariant
                        k <= keys@.len(),
                        wanted_key@ == key@,
                        g < self.groups@.len(),
                        keys@ == self.groups@[g as int].1@,
                        self.groups@[g as int].0@ == group@,
                        hex_of(self.groups@, group@, key@, 0) == hex_of(self.groups@, group@, key@, g as int),
                        hex_in(keys@, key@, 0) == hex_in(keys@, key@, k as int),
                    decreases keys@.len() - k,
                {
                    if keys[k].0 == wanted_key {
                        return rgb(keys[k].1.as_str());
                    }
                    k = k + 1;
                }
                return None;
            }
            g = g + 1;
        }
        None
    }

    /// Returns the colour of a category, keyed by the instrument's own short
    /// label, where the palette names one.
    pub fn category_colour(&self, category: u8) -> (colour: Option<[u8; 3]>)
        requires
            is_category(category),
        ensures
            colour == colour_spec(*self, "category"@, category_label_of(category)),
    {
        self.colour("category", category_label(category))
    }

    /// Returns the colour of a vocabulary axis, where the palette names one.
    pub fn axis_colour(&self, axis: Axis) -> (colour: Option<[u8; 3]>)
        ensures
            colour == colour_spec(*self, "axis"@, axis_key_of(axis)),
    {
        self.colour("axis", axis_key(axis))
    }
}

/// How many vocabulary terms one row prints.
pub const CHIPS: usize = 4;

/// The terms a row prints, each with its axis's colour: its moods, its
/// timbres, its roles and its genres, in that order, and no more than four.
pub open spec fn chips_spec(palette: Palette, entry: Entry) -> Seq<(Seq<char>, Option<[u8; 3]>)> {
    let coloured = |terms: Seq<Seq<char>>, axis: Axis| terms.map_values(
        |term: Seq<char>| (term, colour_spec(palette, "axis"@, axis_key_of(axis))),
    );
    let all = coloured(texts(entry.mood@), Axis::Mood) + coloured(texts(entry.timbre@), Axis::Timbre)
        + coloured(texts(entry.role@), Axis::Role) + coloured(texts(entry.genre@), Axis::Genre);
    all.take(if all.len() < CHIPS { all.len() as int } else { CHIPS as int })
}

/// A list of chips as text.
pub open spec fn chips_text(chips: Seq<(String, Option<[u8; 3]>)>) -> Seq<(Seq<char>, Option<[u8; 3]>)> {
    chips.map_values(|chip: (String, Option<[u8; 3]>)| (chip.0@, chip.1))
}

/// Appends each of `terms`, with `colour`, to `chips`.
fn colour_terms(chips: &mut Vec<(String, Option<[u8; 3]>)>, terms: &Vec<String>, colour: Option<[u8; 3]>)
    ensures
        chips_text(final(chips)@) == chips_text(old(chips)@) + texts(terms@).map_values(
            |term: Seq<char>| (term, colour),
        ),
{
    let ghost start = chips_text(chips@);
    let mut i: usize = 0;
    while i < terms.len()
        invariant
            i <= terms@.len(),
            chips_text(chips@) == start + texts(terms@.take(i as int)).map_values(|term: Seq<char>| (term, colour)),
        decreases terms@.len() - i,
    {
        let ghost before = chips@;
        chips.push((terms[i].clone(), colour));
        proof {
            assert(chips@ == before.push((terms@[i as int], colour)));
            assert(texts(terms@.take(i + 1)) =~= texts(terms@.take(i as int)).push(terms@[i as int]@));
            assert(chips_text(chips@) =~= chips_text(before).push((terms@[i as int]@, colour)));
            assert(texts(terms@.take(i + 1)).map_values(|term: Seq<char>| (term, colour)) =~= texts(terms@.take(i as int)).map_values(
                |term: Seq<char>| (term, colour),
            ).push((terms@[i as int]@, colour)));
        }
        i = i + 1;
    }
    proof {
        assert(terms@.take(terms@.len() as int) =~= terms@);
    }
}

/// Returns the terms a row prints, each with its axis's colour.
pub fn chips(palette: &Palette, entry: &Entry) -> (chips: Vec<(String, Option<[u8; 3]>)>)
    ensures
        chips_text(chips@) == chips_spec(*palette, *entry),
{
    let mut chips: Vec<(String, Option<[u8; 3]>)> = Vec::new();
    colour_terms(&mut chips, &entry.mood, palette.axis_colour(Axis::Mood));
    colour_terms(&mut chips, &entry.timbre, palette.axis_colour(Axis::Timbre));
    colour_terms(&mut chips, &entry.role, palette.axis_colour(Axis::Role));
    colour_terms(&mut chips, &entry.genre, palette.axis_colour(Axis::Genre));
    chips.truncate(CHIPS);
    proof {
        assert(chips_text(chips@) =~= chips_spec(*palette, *entry));
    }
    chips
}

/// Every patch of a catalogue, in the order the index sorts them.
#[derive(Debug, Clone)]
pub struct Listing {
    /// The patches.
    pub entries: Vec<Entry>,
}

impl Listing {
    /// The patch and version a fingerprint belongs to, if any version of any
    /// patch ever had it: the first patch in the listing's order that does,
    /// recognised by its current fingerprint before its history.
    pub fn matching(&self, print: &[u8; 32]) -> (found: Option<Found>)
        ensures
            found_view(found) == lookup_from(self.entries@, print@, 0),
            found matches Some(f) ==> f.patch < self.entries@.len(),
    {
        let mut i: usize = 0;
        while i < self.entries.len()
            invariant
                i <= self.entries@.len(),
                lookup_from(self.entries@, print@, 0) == lookup_from(self.entries@, print@, i as int),
            decreases self.entries@.len() - i,
        {
            let entry = &self.entries[i];
            if same_print(&entry.fingerprint, print) {
                return Some(Found { patch: i, version: entry.version, latest: true });
            }
            match earlier_version(&entry.history, print) {
                Some(version) => {
                    return Some(Found { patch: i, version, latest: version == entry.version });
                },
                None => {},
            }
            i = i + 1;
        }
        None
    }
}

/// Whether every patch of a listing is stored under a category.
pub open spec fn listed_categories(entries: Seq<Entry>) -> bool {
    forall|i: int| 0 <= i < entries.len() ==> is_category(#[trigger] entries[i].category)
}

/// The places in the listing of the patches a search keeps, in index order.
pub open spec fn kept(looking: Looking, entries: Seq<Entry>, upto: int) -> Seq<usize>
    decreases upto,
{
    if upto <= 0 || upto > entries.len() {
        Seq::empty()
    } else if keeps_spec(looking, entries[upto - 1]) {
        kept(looking, entries, upto - 1).push((upto - 1) as usize)
    } else {
        kept(looking, entries, upto - 1)
    }
}

/// The categories that have anything in them, in the instrument's order.
pub open spec fn used_categories(entries: Seq<Entry>, upto: int) -> Seq<u8>
    decreases upto,
{
    if upto <= 0 {
        Seq::empty()
    } else {
        let before = used_categories(entries, upto - 1);
        let value = upto as u8;
        if exists|i: int| 0 <= i < entries.len() && entries[i].category == value {
            before.push(value)
        } else {
            before
        }
    }
}

/// The categories offered up to `upto` are those at most `upto` that some
/// patch is filed under, in increasing order.
proof fn lemma_used_up_to(entries: Seq<Entry>, upto: int)
    requires
        0 <= upto <= 12,
    ensures
        forall|c: u8| used_categories(entries, upto).contains(c) <==> (1 <= c <= upto && exists|i: int|
            0 <= i < entries.len() && (#[trigger] entries[i]).category == c),
        forall|a: int, b: int| 0 <= a < b < used_categories(entries, upto).len() ==> (#[trigger] used_categories(
            entries,
            upto,
        )[a]) < (#[trigger] used_categories(entries, upto)[b]),
        forall|a: int| 0 <= a < used_categories(entries, upto).len() ==> 1 <= #[trigger] used_categories(
            entries,
            upto,
        )[a] <= upto,
    decreases upto,
{
    if upto > 0 {
        lemma_used_up_to(entries, upto - 1);
        let before = used_categories(entries, upto - 1);
        let value = upto as u8;
        assert(value as int == upto);
        if exists|i: int| 0 <= i < entries.len() && entries[i].category == value {
            let after = before.push(value);
            assert(used_categories(entries, upto) == after);
            assert forall|c: u8| after.contains(c) <==> (1 <= c <= upto && exists|i: int|
                0 <= i < entries.len() && (#[trigger] entries[i]).category == c) by {
                if after.contains(c) && c != value {
                    let k = choose|k: int| 0 <= k < after.len() && after[k] == c;
                    assert(before[k] == c);
                }
                if c == value {
                    assert(after[before.len() as int] == c);
                } else if before.contains(c) {
                    let k = choose|k: int| 0 <= k < before.len() && before[k] == c;
                    assert(after[k] == c);
                }
            }
        } else {
            assert(used_categories(entries, upto) == before);
            assert forall|c: u8| before.contains(c) <==> (1 <= c <= upto && exists|i: int|
                0 <= i < entries.len() && (#[trigger] entries[i]).category == c) by {
                if c == value && exists|i: int| 0 <= i < entries.len() && (#[trigger] entries[i]).category == c {
                    let i = choose|i: int| 0 <= i < entries.len() && (#[trigger] entries[i]).category == c;
                    assert(entries[i].category == value);
                }
            }
        }
    }
}

/// Which categories a listing offers as filters: a category is offered
/// exactly when some patch of the listing is filed under it, and the offered
/// categories run in increasing order, each one of the twelve.
pub proof fn lemma_every_used_category_is_offered(entries: Seq<Entry>)
    ensures
        forall|c: u8| used_categories(entries, 12).contains(c) <==> (1 <= c <= 12 && exists|i: int|
            0 <= i < entries.len() && (#[trigger] entries[i]).category == c),
        forall|a: int, b: int| 0 <= a < b < used_categories(entries, 12).len() ==> (#[trigger] used_categories(
            entries,
            12,
        )[a]) < (#[trigger] used_categories(entries, 12)[b]),
{
    lemma_used_up_to(entries, 12);
}

impl Listing {
    /// Returns where the patches a search and a set of filters leave stand,
    /// in index order.
    pub fn showing(&self, looking: &Looking) -> (places: Vec<usize>)
        requires
            listed_categories(self.entries@),
        ensures
            places@ == kept(*looking, self.entries@, self.entries@.len() as int),
    {
        let mut places: Vec<usize> = Vec::new();
        let mut i: usize = 0;
        while i < self.entries.len()
            invariant
                i <= self.entries@.len(),
                listed_categories(self.entries@),
                places@ == kept(*looking, self.entries@, i as int),
            decreases self.entries@.len() - i,
        {
            if looking.keeps(&self.entries[i]) {
                places.push(i);
            }
            i = i + 1;
        }
        places
    }

    /// Returns which categories have anything in them, in the instrument's
    /// own order.
    pub fn categories(&self) -> (used: Vec<u8>)
        ensures
            used@ == used_categories(self.entries@, 12),
            forall|c: u8| used@.contains(c) <==> (1 <= c <= 12 && exists|i: int|
                0 <= i < self.entries@.len() && (#[trigger] self.entries@[i]).category == c),
            forall|a: int, b: int| 0 <= a < b < used@.len() ==> (#[trigger] used@[a]) < (#[trigger] used@[b]),
    {
        proof {
            lemma_every_used_category_is_offered(self.entries@);
        }
        let mut used: Vec<u8> = Vec::new();
        let mut value: u8 = 1;
        while value <= 12
            invariant
                1 <= value <= 13,
                used@ == used_categories(self.entries@, value - 1),
            decreases 13 - value,
        {
            let mut found = false;
            let mut i: usize = 0;
            while i < self.entries.len()
                invariant
                    i <= self.entries@.len(),
                    found == exists|j: int| 0 <= j < i && self.entries@[j].category == value,
                decreases self.entries@.len() - i,
            {
                if self.entries[i].category == value {
                    found = true;
                }
                i = i + 1;
            }
            if found {
                used.push(value);
            }
            value = value + 1;
        }
        used
    }
}

/// Whether texts run strictly upwards in the order `str` sorts by.
pub open spec fn strictly_sorted(list: Seq<Seq<char>>) -> bool {
    forall|i: int, j: int| 0 <= i < j < list.len() ==> text_before(#[trigger] list[i], #[trigger] list[j])
}

/// Whether some patch of `entries` carries `term` on `axis`.
pub open spec fn carried_anywhere(entries: Seq<Entry>, axis: Axis, term: Seq<char>) -> bool {
    exists|i: int| 0 <= i < entries.len() && #[trigger] terms_on(entries[i], axis).contains(term)
}

/// Puts `term` into a sorted list of distinct terms, where it is not there
/// already.
pub(crate) fn insert_term(sorted: &mut Vec<String>, term: &String)
    requires
        strictly_sorted(texts(old(sorted)@)),
    ensures
        strictly_sorted(texts(final(sorted)@)),
        forall|t: Seq<char>| texts(final(sorted)@).contains(t) <==> (texts(old(sorted)@).contains(t) || t == term@),
{
    let wanted = chars_of(term.as_str());
    let mut at: usize = 0;
    while at < sorted.len() && crate::text::before(&chars_of(sorted[at].as_str()), &wanted)
        invariant
            at <= sorted@.len(),
            wanted@ == term@,
            forall|k: int| 0 <= k < at ==> text_before(#[trigger] texts(sorted@)[k], term@),
        decreases sorted@.len() - at,
    {
        at = at + 1;
    }
    let ghost old_list = texts(sorted@);
    if at < sorted.len() && sorted[at] == *term {
        proof {
            assert(old_list[at as int] == term@);
        }
        return;
    }
    proof {
        if at < old_list.len() {
            assert(!text_before(old_list[at as int], term@));
            assert(old_list[at as int] != term@);
            lemma_before_total(old_list[at as int], term@);
            assert(text_before(term@, old_list[at as int]));
        }
    }
    let ghost before = sorted@;
    sorted.insert(at, term.clone());
    proof {
        let list = texts(sorted@);
        assert(sorted@ == before.insert(at as int, *term));
        assert(list =~= old_list.insert(at as int, term@));
        assert forall|i: int, j: int| 0 <= i < j < list.len() implies text_before(#[trigger] list[i], #[trigger] list[j]) by {
            if j < at {
                assert(list[i] == old_list[i] && list[j] == old_list[j]);
            } else if j == at {
                assert(list[i] == old_list[i]);
            } else if i == at {
                assert(list[j] == old_list[j - 1]);
                if j - 1 > at {
                    assert(text_before(old_list[at as int], old_list[j - 1]));
                    lemma_before_transitive(term@, old_list[at as int], old_list[j - 1]);
                }
            } else if i < at {
                assert(list[i] == old_list[i] && list[j] == old_list[j - 1]);
                assert(text_before(old_list[i], term@));
                if j - 1 == at as int {
                    lemma_before_transitive(old_list[i], term@, old_list[j - 1]);
                } else {
                    assert(text_before(term@, old_list[at as int]));
                    assert(text_before(old_list[at as int], old_list[j - 1]));
                    lemma_before_transitive(term@, old_list[at as int], old_list[j - 1]);
                    lemma_before_transitive(old_list[i], term@, old_list[j - 1]);
                }
            } else {
                assert(list[i] == old_list[i - 1] && list[j] == old_list[j - 1]);
            }
        }
        assert forall|t: Seq<char>| list.contains(t) <==> (old_list.contains(t) || t == term@) by {
            if list.contains(t) {
                let k = choose|k: int| 0 <= k < list.len() && list[k] == t;
                if k < at {
                    assert(old_list[k] == t);
                } else if k > at {
                    assert(old_list[k - 1] == t);
                }
            }
            if old_list.contains(t) {
                let k = choose|k: int| 0 <= k < old_list.len() && old_list[k] == t;
                if k < at {
                    assert(list[k] == t);
                } else {
                    assert(list[k + 1] == t);
                }
            }
            if t == term@ {
                assert(list[at as int] == t);
            }
        }
    }
}

impl Listing {
    /// Returns every vocabulary term any patch of the listing carries on
    /// `axis`, each once, in the order `str` sorts by.
    pub fn terms(&self, axis: Axis) -> (terms: Vec<String>)
        ensures
            strictly_sorted(texts(terms@)),
            forall|t: Seq<char>| texts(terms@).contains(t) <==> carried_anywhere(self.entries@, axis, t),
    {
        let mut sorted: Vec<String> = Vec::new();
        let mut i: usize = 0;
        while i < self.entries.len()
            invariant
                i <= self.entries@.len(),
                strictly_sorted(texts(sorted@)),
                forall|t: Seq<char>| texts(sorted@).contains(t) <==> carried_anywhere(self.entries@.take(i as int), axis, t),
            decreases self.entries@.len() - i,
        {
            let entry = &self.entries[i];
            let list = match axis {
                Axis::Genre => &entry.genre,
                Axis::Mood => &entry.mood,
                Axis::Timbre => &entry.timbre,
                Axis::Role => &entry.role,
            };
            proof {
                assert(texts(list@) == terms_on(*entry, axis));
            }
            let mut k: usize = 0;
            while k < list.len()
                invariant
                    k <= list@.len(),
                    i < self.entries@.len(),
                    texts(list@) == terms_on(self.entries@[i as int], axis),
                    strictly_sorted(texts(sorted@)),
                    forall|t: Seq<char>| texts(sorted@).contains(t) <==> (carried_anywhere(self.entries@.take(i as int), axis, t)
                        || texts(list@).take(k as int).contains(t)),
                decreases list@.len() - k,
            {
                let ghost prior = texts(sorted@);
                insert_term(&mut sorted, &list[k]);
                proof {
                    assert forall|t: Seq<char>| texts(list@).take(k + 1).contains(t) <==> (texts(list@).take(k as int).contains(t) || t == list@[k as int]@) by {
                        if texts(list@).take(k + 1).contains(t) {
                            let m = choose|m: int| 0 <= m < k + 1 && #[trigger] texts(list@).take(k + 1)[m] == t;
                            if m < k {
                                assert(texts(list@).take(k as int)[m] == t);
                            }
                        }
                        if texts(list@).take(k as int).contains(t) {
                            let m = choose|m: int| 0 <= m < k && #[trigger] texts(list@).take(k as int)[m] == t;
                            assert(texts(list@).take(k + 1)[m] == t);
                        }
                        if t == list@[k as int]@ {
                            assert(texts(list@).take(k + 1)[k as int] == t);
                        }
                    }
                    assert forall|t: Seq<char>| texts(sorted@).contains(t) <==> (carried_anywhere(self.entries@.take(i as int), axis, t)
                        || texts(list@).take(k + 1).contains(t)) by {
                        assert(texts(sorted@).contains(t) <==> (prior.contains(t) || t == list@[k as int]@));
                        assert(prior.contains(t) <==> (carried_anywhere(self.entries@.take(i as int), axis, t)
                            || texts(list@).take(k as int).contains(t)));
                    }
                }
                k = k + 1;
            }
            proof {
                assert(texts(list@).take(list@.len() as int) =~= texts(list@));
                assert forall|t: Seq<char>| carried_anywhere(self.entries@.take(i + 1), axis, t) <==> (carried_anywhere(self.entries@.take(i as int), axis, t)
                    || terms_on(self.entries@[i as int], axis).contains(t)) by {
                    let before = self.entries@.take(i as int);
                    let after = self.entries@.take(i + 1);
                    if carried_anywhere(after, axis, t) {
                        let m = choose|m: int| 0 <= m < after.len() && #[trigger] terms_on(after[m], axis).contains(t);
                        if m < i {
                            assert(before[m] == after[m]);
                        }
                    }
                    if carried_anywhere(before, axis, t) {
                        let m = choose|m: int| 0 <= m < before.len() && #[trigger] terms_on(before[m], axis).contains(t);
                        assert(after[m] == before[m]);
                    }
                    if terms_on(self.entries@[i as int], axis).contains(t) {
                        assert(after[i as int] == self.entries@[i as int]);
                    }
                }
            }
            i = i + 1;
        }
        proof {
            assert(self.entries@.take(self.entries@.len() as int) =~= self.entries@);
        }
        sorted
    }
}

} // verus!
