//! A program: the bytes that are one sound, and the names of the parameters
//! that read them.
//!
//! The library holds a program as plain bytes, the way the synthesizer sends
//! one. What a parameter accepts is the parameter table's business, and that
//! table lives in `deepmind_midi`: the two bounds of each range are asked of it
//! and everything else is worked out here.

use vstd::prelude::*;

verus! {

/// Number of program parameters. Offsets run `0..PARAMETER_COUNT`.
pub const PARAMETER_COUNT: usize = 242;

/// The offset of the first character of the name.
pub const NAME_OFFSET: usize = 223;

/// How many parameters the name field takes, terminator included.
pub const NAME_LEN: usize = 17;

/// How many characters a name holds at most.
pub const MAX_CHARS: usize = 16;

/// The offset of the parameter that says how many of the sequencer's steps
/// are played.
pub const SEQUENCE_LENGTH: u8 = 119;

/// The offset of the sequencer's first step.
pub const FIRST_STEP: u8 = 123;

/// The offset of the sequencer's last step.
pub const LAST_STEP: u8 = 154;

/// The offset of the program's category.
pub const CATEGORY_OFFSET: u8 = 240;

/// The offset of the program's transpose.
pub const TRANSPOSE_OFFSET: u8 = 241;

/// Whether the parameter at `offset` is one of the sequencer's steps.
pub open spec fn is_step_offset(offset: u8) -> bool {
    FIRST_STEP <= offset <= LAST_STEP
}

/// The lowest value the parameter at `offset` accepts, as the parameter table
/// gives it: nought, but for the transpose, which starts at 80.
pub open spec fn parameter_min(offset: u8) -> u16 {
    if offset == TRANSPOSE_OFFSET { 80 } else { 0 }
}

/// The highest value the parameter at `offset` accepts, as the parameter table
/// gives it.
pub uninterp spec fn parameter_max(offset: u8) -> u16;

/// `deepmind_midi::param::ParamId::min`, for the parameter at `offset`.
///
/// Trusted to return the lower bound the generated parameter table holds for
/// that offset, which [`parameter_min`] writes out: every row of the table
/// starts at nought but the transpose's, which starts at 80.
#[verifier::external_body]
fn table_min(offset: u8) -> (least: u16)
    requires
        (offset as usize) < PARAMETER_COUNT,
    ensures
        least == parameter_min(offset),
{
    match deepmind_midi::param::ParamId::from_offset(offset) {
        Ok(parameter) => parameter.min(),
        Err(_) => 0,
    }
}

/// The value that switches the parameter at `offset` off, where one does,
/// as the parameter table gives it: nought skips a sequencer step, and no
/// other parameter has such a value.
pub open spec fn parameter_inactive(offset: u8) -> Option<u16> {
    if is_step_offset(offset) { Some(0) } else { None }
}

/// The raw value that reads as zero for the parameter at `offset`, where it
/// reads signed about a centre, as the parameter table gives it: 24 for the
/// two pitch bend depths; 128 for the pan spread, the portamento balance,
/// the eight matrix depths, the sequencer's steps and the transpose; and
/// nothing for any other parameter.
pub open spec fn parameter_centre(offset: u8) -> Option<u16> {
    if offset == 36 || offset == 37 {
        Some(24)
    } else if offset == 83 || offset == 91 || (95 <= offset <= 116 && (offset - 95) % 3 == 0)
        || is_step_offset(offset) || offset == TRANSPOSE_OFFSET {
        Some(128)
    } else {
        None
    }
}

/// `deepmind_midi::param::ParamId::inactive`, for the parameter at `offset`.
///
/// Trusted to return what the generated table's match holds for that
/// offset, which [`parameter_inactive`] writes out.
#[verifier::external_body]
fn table_inactive(offset: u8) -> (skip: Option<u16>)
    requires
        (offset as usize) < PARAMETER_COUNT,
    ensures
        skip == parameter_inactive(offset),
{
    match deepmind_midi::param::ParamId::from_offset(offset) {
        Ok(parameter) => parameter.inactive(),
        Err(_) => None,
    }
}

/// `deepmind_midi::param::ParamId::shape`, for the parameter at `offset`:
/// the centre of a bipolar parameter, and nothing for any other shape.
///
/// Trusted to return the centre the generated table's match holds for that
/// offset, which [`parameter_centre`] writes out.
#[verifier::external_body]
fn table_centre(offset: u8) -> (centre: Option<u16>)
    requires
        (offset as usize) < PARAMETER_COUNT,
    ensures
        centre == parameter_centre(offset),
{
    match deepmind_midi::param::ParamId::from_offset(offset) {
        Ok(parameter) => match parameter.shape() {
            deepmind_midi::param::Shape::Bipolar { centre } => Some(centre),
            _ => None,
        },
        Err(_) => None,
    }
}

/// What the parameter table calls the parameter at `offset`.
pub uninterp spec fn parameter_name(offset: u8) -> Seq<char>;

/// The offset of the parameter that bounds how much of a run the parameter
/// at `offset` belongs to is played, where one does, as the table gives it:
/// the sequence length, for each of the sequencer's steps.
pub open spec fn parameter_bound(offset: u8) -> Option<u8> {
    if is_step_offset(offset) { Some(SEQUENCE_LENGTH) } else { None }
}

/// `deepmind_midi::param::ParamId::name`, for the parameter at `offset`.
///
/// Trusted to return the name the generated parameter table holds for that
/// offset, named [`parameter_name`]; nothing more is claimed of it.
#[verifier::external_body]
fn table_name(offset: u8) -> (name: &'static str)
    requires
        (offset as usize) < PARAMETER_COUNT,
    ensures
        name@ == parameter_name(offset),
{
    match deepmind_midi::param::ParamId::from_offset(offset) {
        Ok(parameter) => parameter.name(),
        Err(_) => "",
    }
}

/// `deepmind_midi::param::ParamId::bounded_by`, for the parameter at
/// `offset`, given by the bounding parameter's offset.
///
/// Trusted to return what the generated table's match holds for that
/// offset, which [`parameter_bound`] writes out.
#[verifier::external_body]
fn table_bound(offset: u8) -> (bound: Option<u8>)
    requires
        (offset as usize) < PARAMETER_COUNT,
    ensures
        bound == parameter_bound(offset),
{
    match deepmind_midi::param::ParamId::from_offset(offset) {
        Ok(parameter) => match parameter.bounded_by() {
            Some(bound) => Some(bound.offset()),
            None => None,
        },
        Err(_) => None,
    }
}

/// `deepmind_midi::param::ParamId::max`, for the parameter at `offset`.
///
/// Trusted to return the upper bound the generated parameter table holds for
/// that offset, named [`parameter_max`]; nothing more is claimed of it.
#[verifier::external_body]
fn table_max(offset: u8) -> (most: u16)
    requires
        (offset as usize) < PARAMETER_COUNT,
    ensures
        most == parameter_max(offset),
{
    match deepmind_midi::param::ParamId::from_offset(offset) {
        Ok(parameter) => parameter.max(),
        Err(_) => 0,
    }
}

/// Whether the parameter at `offset` accepts `value`.
pub open spec fn accepts(offset: u8, value: u16) -> bool {
    parameter_min(offset) <= value && value <= parameter_max(offset)
}

/// `value` brought inside the range of the parameter at `offset`.
pub open spec fn clamped(offset: u8, value: u16) -> u16 {
    if value < parameter_min(offset) {
        parameter_min(offset)
    } else if value > parameter_max(offset) {
        parameter_max(offset)
    } else {
        value
    }
}

/// What a fresh program stores at `offset`: the lowest value the parameter
/// accepts, put through the same byte conversions a fresh program is built
/// with.
pub open spec fn lowest(offset: u8) -> u8 {
    let min = if parameter_min(offset) <= 255 {
        parameter_min(offset) as u8
    } else {
        0u8
    };
    let bent = clamped(offset, min as u16);
    if bent <= 255 {
        bent as u8
    } else {
        min
    }
}

/// What setting the parameter at `offset` to `value` stores once the value
/// is brought inside its range: the clamped value where it is a byte, and the
/// value as given where it is not.
pub open spec fn stored(offset: u8, value: u8) -> u8 {
    let bent = clamped(offset, value as u16);
    if bent <= 255 {
        bent as u8
    } else {
        value
    }
}

/// One program parameter, by its offset in a dump.
#[derive(Debug, Clone, Copy, PartialEq, Eq, Hash)]
pub struct ParamId {
    offset: u8,
}

impl View for ParamId {
    type V = u8;

    closed spec fn view(&self) -> u8 {
        self.offset
    }
}

impl ParamId {
    #[verifier::type_invariant]
    spec fn in_table(self) -> bool {
        (self.offset as usize) < PARAMETER_COUNT
    }

    /// Returns the parameter at `offset`, or nothing past the last one.
    pub fn from_offset(offset: u8) -> (parameter: Option<ParamId>)
        ensures
            parameter is Some <==> (offset as usize) < PARAMETER_COUNT,
            parameter matches Some(p) ==> p@ == offset,
    {
        if (offset as usize) < PARAMETER_COUNT {
            Some(ParamId { offset })
        } else {
            None
        }
    }

    /// Returns the offset, which is also the NRPN number.
    pub fn offset(self) -> (offset: u8)
        ensures
            offset == self@,
            (offset as usize) < PARAMETER_COUNT,
    {
        proof {
            use_type_invariant(&self);
        }
        self.offset
    }

    /// Returns the lowest accepted value.
    pub fn min(self) -> (least: u16)
        ensures
            least == parameter_min(self@),
    {
        table_min(self.offset())
    }

    /// Returns the highest accepted value.
    pub fn max(self) -> (most: u16)
        ensures
            most == parameter_max(self@),
    {
        table_max(self.offset())
    }

    /// Returns the value that means the parameter is switched off, where one
    /// does.
    pub fn inactive(self) -> (skip: Option<u16>)
        ensures
            skip == parameter_inactive(self@),
    {
        table_inactive(self.offset())
    }

    /// Returns the raw value that reads as zero, where the parameter reads
    /// signed about a centre.
    pub fn centre(self) -> (centre: Option<u16>)
        ensures
            centre == parameter_centre(self@),
    {
        table_centre(self.offset())
    }

    /// Returns what the parameter table calls this parameter.
    pub fn name(self) -> (name: &'static str)
        ensures
            name@ == parameter_name(self@),
    {
        table_name(self.offset())
    }

    /// Returns the parameter that bounds how much of the run this one belongs
    /// to is played, where one does.
    pub fn bounded_by(self) -> (bound: Option<ParamId>)
        ensures
            bound is Some <==> (parameter_bound(self@) matches Some(o) && (o as usize) < PARAMETER_COUNT),
            bound matches Some(b) ==> parameter_bound(self@) == Some(b@),
    {
        match table_bound(self.offset()) {
            Some(offset) => ParamId::from_offset(offset),
            None => None,
        }
    }

    /// Returns whether this parameter accepts `value`.
    pub fn accepts(self, value: u16) -> (yes: bool)
        ensures
            yes == accepts(self@, value),
    {
        value >= self.min() && value <= self.max()
    }

    /// Returns `value` brought inside the accepted range.
    pub fn clamp(self, value: u16) -> (bent: u16)
        ensures
            bent == clamped(self@, value),
    {
        let least = self.min();
        let most = self.max();
        if value < least {
            least
        } else if value > most {
            most
        } else {
            value
        }
    }
}

/// Whether a byte is one the display has a glyph for: printable ASCII.
pub open spec fn printable(byte: u8) -> bool {
    32 <= byte && byte <= 126
}

/// Whether a character is one the display has a glyph for.
pub open spec fn printable_char(c: char) -> bool {
    32 <= (c as u32) && (c as u32) <= 126
}

/// A program's name: sixteen printable characters at most, no terminator.
#[derive(Debug, PartialEq, Eq, Hash)]
pub struct ProgramName {
    bytes: Vec<u8>,
}

impl View for ProgramName {
    type V = Seq<u8>;

    closed spec fn view(&self) -> Seq<u8> {
        self.bytes@
    }
}

/// Why a string is not a program name.
#[derive(Debug, Clone, Copy, PartialEq, Eq)]
pub enum NameRefused {
    /// More characters than a name holds; the count it had.
    TooLong(usize),
    /// The first character the display has no glyph for.
    Character(char),
}

/// Whether `bytes` could be a name: short enough, and all of it printable.
pub open spec fn is_name(bytes: Seq<u8>) -> bool {
    bytes.len() <= MAX_CHARS && forall|i: int| 0 <= i < bytes.len() ==> printable(#[trigger] bytes[i])
}

/// The index of the first character of `text`, from `i` on, that the display
/// has no glyph for, or the length where there is none.
pub open spec fn first_unprintable(text: Seq<char>, i: int) -> int
    decreases text.len() - i,
{
    if i >= text.len() {
        text.len() as int
    } else if !printable_char(text[i]) {
        i
    } else {
        first_unprintable(text, i + 1)
    }
}

/// The bytes a name written as `text` holds.
pub open spec fn bytes_of(text: Seq<char>) -> Seq<u8> {
    Seq::new(text.len(), |i: int| (text[i] as u32) as u8)
}

/// Where a name field stops: its first zero, or sixteen characters in.
pub open spec fn field_stop(field: Seq<u8>, i: int) -> int
    decreases MAX_CHARS - i,
{
    if i >= MAX_CHARS as int || i >= field.len() {
        i
    } else if field[i] == 0 {
        i
    } else {
        field_stop(field, i + 1)
    }
}

/// What the display shows for one stored byte of a name.
pub open spec fn shown(byte: u8) -> u8 {
    if printable(byte) {
        byte
    } else {
        63u8
    }
}

/// The name a field of stored bytes reads as.
pub open spec fn decoded(field: Seq<u8>) -> Seq<u8> {
    Seq::new(field_stop(field, 0) as nat, |i: int| shown(field[i]))
}

proof fn lemma_first_unprintable(text: Seq<char>, i: int)
    requires
        0 <= i <= text.len(),
    ensures
        i <= first_unprintable(text, i) <= text.len(),
        forall|j: int| i <= j < first_unprintable(text, i) ==> printable_char(#[trigger] text[j]),
        first_unprintable(text, i) < text.len() ==> !printable_char(
            text[first_unprintable(text, i)],
        ),
    decreases text.len() - i,
{
    if i < text.len() && printable_char(text[i]) {
        lemma_first_unprintable(text, i + 1);
    }
}

proof fn lemma_field_stop(field: Seq<u8>, i: int)
    requires
        0 <= i <= MAX_CHARS,
    ensures
        i <= field_stop(field, i) <= MAX_CHARS,
        field_stop(field, i) <= field.len() || field_stop(field, i) == i,
        forall|j: int| i <= j < field_stop(field, i) ==> #[trigger] field[j] != 0,
        field_stop(field, i) < MAX_CHARS && field_stop(field, i) < field.len() ==> field[field_stop(
            field,
            i,
        )] == 0,
    decreases MAX_CHARS - i,
{
    if i < MAX_CHARS && i < field.len() && field[i] != 0 {
        lemma_field_stop(field, i + 1);
    }
}

impl ProgramName {
    #[verifier::type_invariant]
    spec fn holds_a_name(self) -> bool {
        is_name(self.bytes@)
    }

    /// The empty name, which is what an unnamed program carries.
    pub fn empty() -> (name: ProgramName)
        ensures
            name@ == Seq::<u8>::empty(),
    {
        ProgramName { bytes: Vec::new() }
    }

    /// Builds a name from a string, refusing one the display cannot show.
    ///
    /// Too long is refused first, with the count; otherwise the first
    /// character that is not printable ASCII.
    pub fn new(text: &str) -> (made: Result<ProgramName, NameRefused>)
        ensures
            text@.len() > MAX_CHARS ==> made == Err::<ProgramName, NameRefused>(
                NameRefused::TooLong(text@.len() as usize),
            ),
            text@.len() <= MAX_CHARS && first_unprintable(text@, 0) < text@.len() ==> made
                == Err::<ProgramName, NameRefused>(
                NameRefused::Character(text@[first_unprintable(text@, 0)]),
            ),
            text@.len() <= MAX_CHARS && first_unprintable(text@, 0) == text@.len() ==> (
            made matches Ok(name) && name@ == bytes_of(text@)),
    {
        let count = text.unicode_len();
        if count > MAX_CHARS {
            return Err(NameRefused::TooLong(count));
        }
        proof {
            lemma_first_unprintable(text@, 0);
        }
        let mut bytes: Vec<u8> = Vec::new();
        let mut i: usize = 0;
        while i < count
            invariant
                count == text@.len(),
                count <= MAX_CHARS,
                i <= count,
                bytes@.len() == i,
                forall|j: int| 0 <= j < i ==> printable_char(#[trigger] text@[j]),
                forall|j: int| 0 <= j < i ==> #[trigger] bytes@[j] == (text@[j] as u32) as u8,
                first_unprintable(text@, 0) >= i,
                0 <= first_unprintable(text@, 0) <= count,
                forall|j: int|
                    0 <= j < first_unprintable(text@, 0) ==> printable_char(#[trigger] text@[j]),
                first_unprintable(text@, 0) < count ==> !printable_char(
                    text@[first_unprintable(text@, 0)],
                ),
            decreases count - i,
        {
            let c = text.get_char(i);
            let code = c as u32;
            if code < 32 || code > 126 {
                return Err(NameRefused::Character(c));
            }
            bytes.push(code as u8);
            i = i + 1;
        }
        proof {
            assert(bytes@ =~= bytes_of(text@));
        }
        Ok(ProgramName { bytes })
    }

    /// Returns the characters the name holds, as bytes.
    pub fn as_bytes(&self) -> (bytes: &Vec<u8>)
        ensures
            bytes@ == self@,
            is_name(self@),
    {
        proof {
            use_type_invariant(self);
        }
        &self.bytes
    }

    /// Returns the number of characters in the name.
    pub fn len(&self) -> (count: usize)
        ensures
            count == self@.len(),
            count <= MAX_CHARS,
    {
        proof {
            use_type_invariant(self);
        }
        self.bytes.len()
    }

    /// Returns whether the name is empty.
    pub fn is_empty(&self) -> (none: bool)
        ensures
            none == (self@.len() == 0),
    {
        self.bytes.len() == 0
    }

    /// Returns the name as text.
    pub fn to_chars(&self) -> (text: Vec<char>)
        ensures
            text@.len() == self@.len(),
            forall|i: int| 0 <= i < text@.len() ==> #[trigger] text@[i] == self@[i] as char,
    {
        let mut text: Vec<char> = Vec::new();
        let mut i: usize = 0;
        while i < self.bytes.len()
            invariant
                i <= self.bytes@.len(),
                text@.len() == i,
                forall|j: int| 0 <= j < i ==> #[trigger] text@[j] == self.bytes@[j] as char,
            decreases self.bytes@.len() - i,
        {
            text.push(self.bytes[i] as char);
            i = i + 1;
        }
        text
    }

    /// Reads a name out of the field that stores it, stopping at the
    /// terminator and showing a question mark for a byte with no glyph.
    pub fn from_field(field: &[u8]) -> (name: ProgramName)
        ensures
            name@ == decoded(field@),
    {
        proof {
            lemma_field_stop(field@, 0);
        }
        let mut bytes: Vec<u8> = Vec::new();
        let mut i: usize = 0;
        while i < MAX_CHARS && i < field.len()
            invariant
                i <= MAX_CHARS,
                bytes@.len() == i,
                i <= field_stop(field@, 0) <= MAX_CHARS,
                forall|j: int| 0 <= j < field_stop(field@, 0) ==> #[trigger] field@[j] != 0,
                field_stop(field@, 0) < MAX_CHARS && field_stop(field@, 0) < field@.len()
                    ==> field@[field_stop(field@, 0)] == 0,
                field_stop(field@, 0) <= field@.len() || field_stop(field@, 0) == 0,
                forall|j: int| 0 <= j < i ==> #[trigger] bytes@[j] == shown(field@[j]),
                forall|j: int| 0 <= j < i ==> printable(#[trigger] bytes@[j]),
            ensures
                i == field_stop(field@, 0),
                bytes@.len() == i,
                forall|j: int| 0 <= j < i ==> #[trigger] bytes@[j] == shown(field@[j]),
                forall|j: int| 0 <= j < i ==> printable(#[trigger] bytes@[j]),
            decreases MAX_CHARS - i,
        {
            let byte = field[i];
            if byte == 0 {
                proof {
                    assert(field@[i as int] == 0);
                    if field_stop(field@, 0) > i {
                        assert(field@[i as int] != 0);
                    }
                    assert(i == field_stop(field@, 0));
                }
                break;
            }
            let glyph = if 32 <= byte && byte <= 126 {
                byte
            } else {
                63u8
            };
            bytes.push(glyph);
            i = i + 1;
        }
        proof {
            assert(i == field_stop(field@, 0));
            assert(bytes@ =~= decoded(field@));
        }
        ProgramName { bytes }
    }
}

/// The comms protocol version a program was dumped under.
#[derive(Debug, Clone, Copy, PartialEq, Eq, Hash)]
pub enum ProtocolVersion {
    /// The version the `DeepMind` 12 user manual documents.
    V6,
    /// The version current firmware emits.
    V7,
}

/// How many bytes of program data a dump of this version carries.
pub open spec fn data_len(version: ProtocolVersion) -> nat {
    match version {
        ProtocolVersion::V6 => 242,
        ProtocolVersion::V7 => 245,
    }
}

impl ProtocolVersion {
    /// Returns how many bytes of program data a dump of this version carries.
    pub fn program_data_len(self) -> (len: usize)
        ensures
            len == data_len(self),
    {
        match self {
            ProtocolVersion::V6 => 242,
            ProtocolVersion::V7 => 245,
        }
    }

    /// Returns the wire byte.
    pub fn get(self) -> (wire: u8)
        ensures
            wire == (if self == ProtocolVersion::V6 {
                6u8
            } else {
                7u8
            }),
    {
        match self {
            ProtocolVersion::V6 => 6,
            ProtocolVersion::V7 => 7,
        }
    }

    /// Builds a version from its wire byte: 6 or 7, and nothing else.
    pub fn new(wire: u8) -> (version: Option<ProtocolVersion>)
        ensures
            wire == 6 ==> version == Some(ProtocolVersion::V6),
            wire == 7 ==> version == Some(ProtocolVersion::V7),
            wire != 6 && wire != 7 ==> version is None,
    {
        if wire == 6 {
            Some(ProtocolVersion::V6)
        } else if wire == 7 {
            Some(ProtocolVersion::V7)
        } else {
            None
        }
    }
}

/// A parameter that does not accept the value it was asked to hold.
#[derive(Debug, Clone, Copy, PartialEq, Eq)]
pub struct OutOfRange {
    /// The parameter's offset.
    pub parameter: u8,
    /// The value refused.
    pub value: u16,
    /// The most the parameter accepts.
    pub max: u16,
}

/// What a fresh program of `version` holds: every parameter at the lowest
/// value it accepts, and nothing in the reserved bytes.
pub open spec fn fresh(version: ProtocolVersion) -> Seq<u8> {
    Seq::new(
        data_len(version),
        |o: int|
            if o < PARAMETER_COUNT {
                lowest(o as u8)
            } else {
                0u8
            },
    )
}

/// `data` with `name` written into the name field, and zeros after it.
pub open spec fn with_name(data: Seq<u8>, name: Seq<u8>) -> Seq<u8> {
    Seq::new(
        data.len(),
        |o: int|
            if NAME_OFFSET <= o < NAME_OFFSET + NAME_LEN {
                if o - NAME_OFFSET < name.len() {
                    name[o - NAME_OFFSET]
                } else {
                    0u8
                }
            } else {
                data[o]
            },
    )
}

/// The stored bytes of the name field.
pub open spec fn name_field(data: Seq<u8>) -> Seq<u8> {
    data.subrange(NAME_OFFSET as int, (NAME_OFFSET + NAME_LEN) as int)
}

/// Whether `moves` is exactly the list of edits that turns `from` into `to`:
/// one entry per parameter that differs, in offset order, carrying the value
/// `to` holds.
pub open spec fn is_changes(moves: Seq<(u8, u8)>, from: Seq<u8>, to: Seq<u8>) -> bool {
    &&& forall|i: int|
        0 <= i < moves.len() ==> {
            &&& (#[trigger] moves[i]).0 < PARAMETER_COUNT
            &&& from[moves[i].0 as int] != to[moves[i].0 as int]
            &&& moves[i].1 == to[moves[i].0 as int]
        }
    &&& forall|i: int, j: int| 0 <= i < j < moves.len() ==> moves[i].0 < moves[j].0
    &&& forall|o: int|
        0 <= o < PARAMETER_COUNT && from[o] != to[o] ==> exists|i: int|
            0 <= i < moves.len() && (#[trigger] moves[i]).0 == o
}

/// One program: a sound, as the synthesizer stores and sends it.
#[derive(Debug, PartialEq, Eq, Hash)]
pub struct Program {
    version: ProtocolVersion,
    data: Vec<u8>,
}

impl View for Program {
    type V = Seq<u8>;

    closed spec fn view(&self) -> Seq<u8> {
        self.data@
    }
}

impl Program {
    #[verifier::type_invariant]
    spec fn sized(self) -> bool {
        self.data@.len() == data_len(self.version)
    }

    /// The version the program was dumped under.
    pub closed spec fn version_of(&self) -> ProtocolVersion {
        self.version
    }

    /// Returns the version the program was dumped under.
    pub fn version(&self) -> (version: ProtocolVersion)
        ensures
            version == self.version_of(),
            self@.len() == data_len(version),
    {
        proof {
            use_type_invariant(self);
        }
        self.version
    }

    /// Builds a program with every parameter at the lowest value it accepts.
    pub fn new(version: ProtocolVersion) -> (program: Program)
        ensures
            program@ == fresh(version),
            program.version_of() == version,
    {
        let len = version.program_data_len();
        let mut data: Vec<u8> = Vec::new();
        let mut o: usize = 0;
        while o < len
            invariant
                len == data_len(version),
                o <= len,
                data@.len() == o,
                forall|j: int| 0 <= j < o ==> #[trigger] data@[j] == fresh(version)[j],
            decreases len - o,
        {
            if o < PARAMETER_COUNT {
                let parameter = ParamId { offset: o as u8 };
                let least = parameter.min();
                let min: u8 = if least <= 255 {
                    least as u8
                } else {
                    0
                };
                let bent = parameter.clamp(min as u16);
                let stored: u8 = if bent <= 255 {
                    bent as u8
                } else {
                    min
                };
                data.push(stored);
            } else {
                data.push(0);
            }
            o = o + 1;
        }
        proof {
            assert(data@ =~= fresh(version));
        }
        Program { version, data }
    }

    /// Reads a program from the bytes of an unpacked dump, refusing one of
    /// the wrong length.
    pub fn from_bytes(version: ProtocolVersion, bytes: &[u8]) -> (program: Option<Program>)
        ensures
            program is Some <==> bytes@.len() == data_len(version),
            program matches Some(p) ==> p@ == bytes@ && p.version_of() == version,
    {
        if bytes.len() != version.program_data_len() {
            return None;
        }
        let mut data: Vec<u8> = Vec::new();
        let mut i: usize = 0;
        while i < bytes.len()
            invariant
                i <= bytes@.len(),
                data@ == bytes@.subrange(0, i as int),
            decreases bytes@.len() - i,
        {
            data.push(bytes[i]);
            i = i + 1;
            proof {
                assert(data@ =~= bytes@.subrange(0, i as int));
            }
        }
        proof {
            assert(data@ =~= bytes@);
        }
        Some(Program { version, data })
    }

    /// Returns the bytes of the dump.
    pub fn as_bytes(&self) -> (bytes: &Vec<u8>)
        ensures
            bytes@ == self@,
            bytes@.len() == data_len(self.version_of()),
    {
        proof {
            use_type_invariant(self);
        }
        &self.data
    }

    /// Returns a copy of the program.
    pub fn copied(&self) -> (copy: Program)
        ensures
            copy@ == self@,
            copy.version_of() == self.version_of(),
    {
        proof {
            use_type_invariant(self);
        }
        let mut data: Vec<u8> = Vec::new();
        let mut i: usize = 0;
        while i < self.data.len()
            invariant
                i <= self.data@.len(),
                data@ == self.data@.subrange(0, i as int),
            decreases self.data@.len() - i,
        {
            data.push(self.data[i]);
            i = i + 1;
            proof {
                assert(data@ =~= self.data@.subrange(0, i as int));
            }
        }
        proof {
            assert(data@ =~= self.data@);
        }
        Program { version: self.version, data }
    }

    /// Returns the raw value of one parameter.
    pub fn get(&self, parameter: ParamId) -> (value: u8)
        ensures
            value == self@[parameter@ as int],
            (parameter@ as int) < self@.len(),
    {
        proof {
            use_type_invariant(self);
        }
        self.data[parameter.offset() as usize]
    }

    /// Sets one parameter, refusing a value it does not accept.
    pub fn set(&mut self, parameter: ParamId, value: u8) -> (done: Result<(), OutOfRange>)
        ensures
            done is Ok <==> accepts(parameter@, value as u16),
            done is Ok ==> final(self)@ == old(self)@.update(parameter@ as int, value),
            done is Err ==> final(self)@ == old(self)@,
            final(self).version_of() == old(self).version_of(),
    {
        proof {
            use_type_invariant(&*self);
        }
        if !parameter.accepts(value as u16) {
            return Err(OutOfRange { parameter: parameter.offset(), value: value as u16, max: parameter.max() });
        }
        let at = parameter.offset() as usize;
        let mut data = self.data.clone();
        proof {
            assert(data@ =~= self.data@);
        }
        data.set(at, value);
        *self = Program { version: self.version, data };
        Ok(())
    }

    /// Returns the program's name.
    pub fn name(&self) -> (name: ProgramName)
        ensures
            name@ == decoded(name_field(self@)),
    {
        proof {
            use_type_invariant(self);
        }
        let mut field: Vec<u8> = Vec::new();
        let mut i: usize = 0;
        while i < NAME_LEN
            invariant
                i <= NAME_LEN,
                self.data@.len() >= PARAMETER_COUNT,
                field@ == self.data@.subrange(NAME_OFFSET as int, NAME_OFFSET + i),
            decreases NAME_LEN - i,
        {
            field.push(self.data[NAME_OFFSET + i]);
            i = i + 1;
            proof {
                assert(field@ =~= self.data@.subrange(NAME_OFFSET as int, NAME_OFFSET + i));
            }
        }
        ProgramName::from_field(field.as_slice())
    }

    /// Sets the program's name, clearing the characters past it.
    /// Sets one parameter, bringing the value inside its range first, and
    /// returns what was stored.
    pub fn set_clamped(&mut self, parameter: ParamId, value: u8) -> (kept: u8)
        ensures
            kept == stored(parameter@, value),
            final(self)@ == old(self)@.update(parameter@ as int, kept),
            final(self).version_of() == old(self).version_of(),
    {
        proof {
            use_type_invariant(&*self);
        }
        let bent = parameter.clamp(value as u16);
        let kept: u8 = if bent <= 255 { bent as u8 } else { value };
        let at = parameter.offset() as usize;
        let mut data = self.data.clone();
        proof {
            assert(data@ =~= self.data@);
        }
        data.set(at, kept);
        *self = Program { version: self.version, data };
        kept
    }

    pub fn set_name(&mut self, name: &ProgramName)
        ensures
            final(self)@ == with_name(old(self)@, name@),
            final(self).version_of() == old(self).version_of(),
    {
        proof {
            use_type_invariant(&*self);
        }
        let bytes = name.as_bytes();
        let mut data = self.data.clone();
        proof {
            assert(data@ =~= self.data@);
        }
        let ghost before = data@;
        let mut i: usize = 0;
        while i < NAME_LEN
            invariant
                i <= NAME_LEN,
                bytes@.len() <= MAX_CHARS,
                data@.len() == before.len(),
                data@.len() >= PARAMETER_COUNT,
                forall|o: int|
                    0 <= o < data@.len() ==> #[trigger] data@[o] == (if NAME_OFFSET <= o
                        < NAME_OFFSET + i {
                        with_name(before, bytes@)[o]
                    } else {
                        before[o]
                    }),
            decreases NAME_LEN - i,
        {
            let byte: u8 = if i < bytes.len() {
                bytes[i]
            } else {
                0
            };
            data.set(NAME_OFFSET + i, byte);
            i = i + 1;
        }
        proof {
            assert(data@ =~= with_name(before, bytes@));
        }
        *self = Program { version: self.version, data };
    }

    /// Returns the parameters whose values differ, and what `target` holds
    /// there, in offset order.
    pub fn changes(&self, target: &Program) -> (moves: Vec<(ParamId, u8)>)
        ensures
            is_changes(moves@.map_values(|m: (ParamId, u8)| (m.0@, m.1)), self@, target@),
    {
        proof {
            use_type_invariant(self);
            use_type_invariant(target);
        }
        let mut moves: Vec<(ParamId, u8)> = Vec::new();
        let mut o: usize = 0;
        while o < PARAMETER_COUNT
            invariant
                o <= PARAMETER_COUNT,
                self.data@.len() >= PARAMETER_COUNT,
                target.data@.len() >= PARAMETER_COUNT,
                forall|i: int|
                    0 <= i < moves@.len() ==> {
                        &&& (#[trigger] moves@[i]).0@ < o
                        &&& self.data@[moves@[i].0@ as int] != target.data@[moves@[i].0@ as int]
                        &&& moves@[i].1 == target.data@[moves@[i].0@ as int]
                    },
                forall|i: int, j: int| 0 <= i < j < moves@.len() ==> moves@[i].0@ < moves@[j].0@,
                forall|p: int|
                    0 <= p < o && self.data@[p] != target.data@[p] ==> exists|i: int|
                        0 <= i < moves@.len() && (#[trigger] moves@[i]).0@ == p,
            decreases PARAMETER_COUNT - o,
        {
            let here = self.data[o];
            let there = target.data[o];
            let ghost before = moves@;
            if here != there {
                let parameter = ParamId { offset: o as u8 };
                moves.push((parameter, there));
                proof {
                    let last = (moves@.len() - 1) as int;
                    assert(moves@[last].0@ == o);
                }
            }
            proof {
                assert forall|p: int|
                    0 <= p < o + 1 && self.data@[p] != target.data@[p] implies exists|i: int|
                    0 <= i < moves@.len() && (#[trigger] moves@[i]).0@ == p by {
                    if p < o {
                        let i = choose|i: int| 0 <= i < before.len() && (#[trigger] before[i]).0@ == p;
                        assert(moves@[i] == before[i]);
                    } else {
                        let last = (moves@.len() - 1) as int;
                        assert(moves@[last].0@ == p);
                    }
                }
            }
            o = o + 1;
        }
        proof {
            let viewed = moves@.map_values(|m: (ParamId, u8)| (m.0@, m.1));
            assert forall|p: int|
                0 <= p < PARAMETER_COUNT && self@[p] != target@[p] implies exists|i: int|
                0 <= i < viewed.len() && (#[trigger] viewed[i]).0 == p by {
                let i = choose|i: int| 0 <= i < moves@.len() && (#[trigger] moves@[i]).0@ == p;
                assert(viewed[i].0 == p);
            }
        }
        moves
    }
}

/// Setting a name and reading it back gives the name.
pub proof fn lemma_name_round_trip(data: Seq<u8>, name: Seq<u8>)
    requires
        data.len() >= PARAMETER_COUNT,
        is_name(name),
    ensures
        decoded(name_field(with_name(data, name))) == name,
{
    let field = name_field(with_name(data, name));
    assert(field.len() == NAME_LEN);
    assert forall|i: int| 0 <= i < name.len() implies field[i] == name[i] && field[i] != 0 by {}
    lemma_field_stop(field, 0);
    let stop = field_stop(field, 0);
    if stop < name.len() {
        assert(field[stop] == 0);
        assert(field[stop] == name[stop]);
        assert(printable(name[stop]));
    }
    if name.len() < stop {
        assert(field[name.len() as int] == 0);
    }
    assert(stop == name.len());
    assert(decoded(field) =~= name);
}

} // verus!
