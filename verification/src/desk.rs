//! What a press in the window does: which surface it shows, and which edits
//! of the sound it sends to the synthesizer.

use vstd::prelude::*;
use crate::patch::{Group, Patch, PatchView, edit_moves, edited, group_name, GROUP_COUNT};
use crate::text::{is_alphanumeric, lowered, chars_of, string_of, alphanumeric, lower};
use crate::program::{ParamId, Program, ProgramName, accepts};
use crate::shelf::{Bank, Shelf, Slot, Source, Held, Transfer, place_for, held_name, BANK_COUNT, PROGRAMS_PER_BANK};

verus! {

/// The surface the window is showing.
#[derive(Debug, Clone, Copy, PartialEq, Eq, Structural)]
pub enum Shown {
    /// The front panel: the sound as the instrument itself shows it.
    Panel,
    /// The shelf: the sounds a file or a bank read put there.
    Library,
    /// One of the sections no plate on the front panel carries.
    Section(Group),
}

impl Default for Shown {
    fn default() -> (view: Shown)
        ensures
            view == Shown::Panel,
    {
        Shown::Panel
    }
}

/// What the window shows: a surface, and the section open as a sheet over
/// it, where one is.
#[derive(Debug, Clone, Copy, PartialEq, Eq, Structural)]
pub struct Surface {
    /// The surface.
    pub view: Shown,
    /// The section open as a sheet over the panel.
    pub editing: Option<Group>,
}

/// A press that moves the window from one surface to another.
#[derive(Debug, Clone, Copy, PartialEq, Eq, Structural)]
pub enum Press {
    /// A plate's `EDIT`: the section as a sheet over the front panel.
    Show(Group),
    /// A cap of the band: the section as the surface itself.
    Open(Group),
    /// The shelf.
    Shelf,
    /// Out from under a sheet, onto whatever surface is underneath.
    Close,
    /// The front of the instrument, with nothing over it.
    Front,
}

/// Where a press takes the window.
pub open spec fn after_press(surface: Surface, press: Press) -> Surface {
    match press {
        Press::Show(section) => Surface { view: Shown::Panel, editing: Some(section) },
        Press::Open(section) => Surface { view: Shown::Section(section), editing: None },
        Press::Shelf => Surface { view: Shown::Library, editing: None },
        Press::Close => Surface { editing: None, ..surface },
        Press::Front => Surface { view: Shown::Panel, editing: None },
    }
}

impl Surface {
    /// Where the window opens: the front panel, with nothing over it.
    pub fn opening() -> (surface: Surface)
        ensures
            surface == (Surface { view: Shown::Panel, editing: None }),
    {
        Surface { view: Shown::Panel, editing: None }
    }

    /// Returns where a press takes the window.
    pub fn pressed(self, press: Press) -> (after: Surface)
        ensures
            after == after_press(self, press),
    {
        match press {
            Press::Show(section) => Surface { view: Shown::Panel, editing: Some(section) },
            Press::Open(section) => Surface { view: Shown::Section(section), editing: None },
            Press::Shelf => Surface { view: Shown::Library, editing: None },
            Press::Close => Surface { view: self.view, editing: None },
            Press::Front => Surface { view: Shown::Panel, editing: None },
        }
    }
}

/// A sheet only ever stands over the front panel, and closing one leaves the
/// surface under it where it was.
pub proof fn lemma_sheets_stand_over_the_panel(surface: Surface, press: Press)
    requires
        surface.editing is Some ==> surface.view == Shown::Panel,
    ensures
        after_press(surface, press).editing is Some ==> after_press(surface, press).view == Shown::Panel,
        after_press(surface, Press::Close).view == surface.view,
        after_press(surface, Press::Close).editing is None,
{
}

/// One edit this window makes to the sound, applied: the patch after it, and
/// what it sends to the synthesizer, which is the edit where it moved
/// anything and nothing where it did not.
pub open spec fn edit_step(view: PatchView, edit: (u8, u8)) -> (PatchView, Seq<(u8, u8)>) {
    if edit_moves(view, edit.0, edit.1) {
        (edited(view, edit.0, edit.1), seq![edit])
    } else {
        (view, Seq::empty())
    }
}

/// A run of edits applied in order: the patch after them, and everything they
/// send, in the order they send it.
pub open spec fn edit_run(view: PatchView, edits: Seq<(u8, u8)>) -> (PatchView, Seq<(u8, u8)>)
    decreases edits.len(),
{
    if edits.len() == 0 {
        (view, Seq::empty())
    } else {
        let (before, sent) = edit_run(view, edits.drop_last());
        let (after, more) = edit_step(before, edits.last());
        (after, sent + more)
    }
}

/// Edits as offsets and values.
pub open spec fn edits_view(edits: Seq<(ParamId, u8)>) -> Seq<(u8, u8)> {
    edits.map_values(|edit: (ParamId, u8)| (edit.0@, edit.1))
}

/// Moves one parameter and returns what to tell the synthesizer: the edit,
/// once, where it moved anything.
pub fn moved(patch: &mut Patch, parameter: ParamId, value: u8) -> (sent: Option<(ParamId, u8)>)
    ensures
        final(patch)@ == edit_step(old(patch)@, (parameter@, value)).0,
        match sent {
            Some(edit) => edit == (parameter, value) && edit_step(old(patch)@, (parameter@, value)).1
                == seq![(parameter@, value)],
            None => edit_step(old(patch)@, (parameter@, value)).1.len() == 0,
        },
{
    if patch.edit(parameter, value) {
        Some((parameter, value))
    } else {
        None
    }
}

/// Applies a run of edits in order and returns what they send.
pub fn apply(patch: &mut Patch, edits: &Vec<(ParamId, u8)>) -> (sent: Vec<(ParamId, u8)>)
    ensures
        (final(patch)@, edits_view(sent@)) == edit_run(old(patch)@, edits_view(edits@)),
{
    let ghost start = patch@;
    let mut sent: Vec<(ParamId, u8)> = Vec::new();
    let mut i: usize = 0;
    while i < edits.len()
        invariant
            i <= edits@.len(),
            (patch@, edits_view(sent@)) == edit_run(start, edits_view(edits@).take(i as int)),
        decreases edits@.len() - i,
    {
        let (parameter, value) = edits[i];
        proof {
            assert(edits_view(edits@).take(i + 1).drop_last() =~= edits_view(edits@).take(i as int));
            assert(edits_view(edits@).take(i + 1).last() == (parameter@, value));
        }
        let ghost before = sent@;
        match moved(patch, parameter, value) {
            Some(edit) => {
                sent.push(edit);
                proof {
                    assert(edits_view(sent@) =~= edits_view(before) + seq![(parameter@, value)]);
                }
            },
            None => {
                proof {
                    assert(edits_view(sent@) =~= edits_view(before) + Seq::<(u8, u8)>::empty());
                }
            },
        }
        i = i + 1;
    }
    proof {
        assert(edits_view(edits@).take(edits@.len() as int) =~= edits_view(edits@));
    }
    sent
}

/// The edits a swap of two runs of parameters makes, read off the values
/// before any of them moves: each parameter of the first run takes its
/// partner's value and each partner takes the first's, pair by pair, and
/// nothing at all where the sound has not been read.
pub open spec fn swap_edits(view: PatchView, one: Seq<u8>, other: Seq<u8>) -> Seq<(u8, u8)> {
    match view.program {
        None => Seq::empty(),
        Some(values) => {
            let pairs = if one.len() < other.len() { one.len() } else { other.len() };
            Seq::new(pairs * 2, |k: int| {
                let i = k / 2;
                if k % 2 == 0 {
                    (one[i], values[other[i] as int])
                } else {
                    (other[i], values[one[i] as int])
                }
            })
        },
    }
}

/// Offsets of a run of parameters.
pub open spec fn offsets(parameters: Seq<ParamId>) -> Seq<u8> {
    parameters.map_values(|p: ParamId| p@)
}

/// Trades two runs of parameters pair by pair, reading both sides before
/// either moves, and returns what it sends.
pub fn swap(patch: &mut Patch, one: &[ParamId], other: &[ParamId]) -> (sent: Vec<(ParamId, u8)>)
    ensures
        (final(patch)@, edits_view(sent@)) == edit_run(
            old(patch)@,
            swap_edits(old(patch)@, offsets(one@), offsets(other@)),
        ),
{
    let pairs: usize = if one.len() < other.len() { one.len() } else { other.len() };
    let mut edits: Vec<(ParamId, u8)> = Vec::new();
    let known = patch.is_known();
    if known {
        let mut i: usize = 0;
        while i < pairs
            invariant
                i <= pairs,
                pairs <= one@.len(),
                pairs <= other@.len(),
                pairs == (if one@.len() < other@.len() { one@.len() } else { other@.len() }),
                patch@.program is Some,
                edits_view(edits@) == swap_edits(patch@, offsets(one@), offsets(other@)).take(2 * i),
            decreases pairs - i,
        {
            let was = patch.value(one[i]).unwrap();
            let is = patch.value(other[i]).unwrap();
            let ghost before = edits@;
            edits.push((one[i], is));
            edits.push((other[i], was));
            i = i + 1;
            proof {
                let whole = swap_edits(patch@, offsets(one@), offsets(other@));
                assert(whole[2 * i - 2] == (one@[i - 1]@, is));
                assert(whole[2 * i - 1] == (other@[i - 1]@, was));
                assert(edits_view(before) == whole.take(2 * i - 2));
                assert(edits@ == before.push((one@[i - 1], is)).push((other@[i - 1], was)));
                assert(edits_view(edits@) =~= edits_view(before).push(whole[2 * i - 2]).push(whole[2 * i - 1]));
                assert(whole.take(2 * i) =~= whole.take(2 * i - 2).push(whole[2 * i - 2]).push(whole[2 * i - 1]));
                assert(edits_view(edits@) =~= whole.take(2 * i));
            }
        }
        proof {
            let whole = swap_edits(patch@, offsets(one@), offsets(other@));
            assert(whole.take(2 * pairs) =~= whole);
        }
    } else {
        proof {
            assert(edits_view(edits@) =~= Seq::<(u8, u8)>::empty());
        }
    }
    apply(patch, &edits)
}

/// A routing pointed at a control and dragged: where it goes, and how much
/// of it arrives, as two edits in that order.
pub fn reach(patch: &mut Patch, destination: ParamId, at: u8, depth: ParamId, by: u8) -> (sent: Vec<(ParamId, u8)>)
    ensures
        (final(patch)@, edits_view(sent@)) == edit_run(old(patch)@, seq![(destination@, at), (depth@, by)]),
{
    let mut edits: Vec<(ParamId, u8)> = Vec::new();
    edits.push((destination, at));
    edits.push((depth, by));
    proof {
        assert(edits_view(edits@) =~= seq![(destination@, at), (depth@, by)]);
    }
    apply(patch, &edits)
}

/// `values` with each edit of `edits` written in, in order.
pub open spec fn written_in(values: Seq<u8>, edits: Seq<(u8, u8)>) -> Seq<u8>
    decreases edits.len(),
{
    if edits.len() == 0 {
        values
    } else {
        written_in(values, edits.drop_last()).update(edits.last().0 as int, edits.last().1)
    }
}

/// Whether every edit of a run is one its parameter accepts.
pub open spec fn all_accepted(edits: Seq<(u8, u8)>) -> bool {
    forall|j: int| 0 <= j < edits.len() ==> crate::program::accepts(#[trigger] edits[j].0, edits[j].1 as u16)
}

/// Whether no two edits of a run write the same parameter.
pub open spec fn apart(edits: Seq<(u8, u8)>) -> bool {
    forall|i: int, j: int| 0 <= i < j < edits.len() ==> edits[i].0 != edits[j].0
}

/// Edits every parameter accepts, on a sound that has been read, leave the
/// sound holding exactly what they write.
proof fn lemma_run_writes(view: PatchView, edits: Seq<(u8, u8)>)
    requires
        view.program is Some,
        view.program.unwrap().len() >= crate::program::PARAMETER_COUNT,
        all_accepted(edits),
        forall|j: int| 0 <= j < edits.len() ==> (#[trigger] edits[j].0 as int) < crate::program::PARAMETER_COUNT,
    ensures
        edit_run(view, edits).0.program == Some(written_in(view.program.unwrap(), edits)),
        written_in(view.program.unwrap(), edits).len() == view.program.unwrap().len(),
    decreases edits.len(),
{
    if edits.len() > 0 {
        let rest = edits.drop_last();
        assert forall|j: int| 0 <= j < rest.len() implies crate::program::accepts(#[trigger] rest[j].0, rest[j].1 as u16) by {
            assert(rest[j] == edits[j]);
        }
        assert forall|j: int| 0 <= j < rest.len() implies (#[trigger] rest[j].0 as int) < crate::program::PARAMETER_COUNT by {
            assert(rest[j] == edits[j]);
        }
        lemma_run_writes(view, rest);
        let before = edit_run(view, rest).0;
        let last = edits.last();
        assert(crate::program::accepts(edits[edits.len() - 1].0, edits[edits.len() - 1].1 as u16));
        if !edit_moves(before, last.0, last.1) {
            let values = before.program.unwrap();
            assert(values.update(last.0 as int, last.1) =~= values);
        }
    }
}

/// Written in one after another, edits to different parameters leave each
/// parameter holding what its edit wrote and every other as it was.
proof fn lemma_written_in(values: Seq<u8>, edits: Seq<(u8, u8)>, p: int)
    requires
        apart(edits),
        0 <= p < values.len(),
        forall|j: int| 0 <= j < edits.len() ==> 0 <= (#[trigger] edits[j].0 as int) < values.len(),
    ensures
        forall|j: int| 0 <= j < edits.len() && edits[j].0 == p ==> written_in(values, edits)[p] == edits[j].1,
        (forall|j: int| 0 <= j < edits.len() ==> edits[j].0 != p) ==> written_in(values, edits)[p] == values[p],
        written_in(values, edits).len() == values.len(),
    decreases edits.len(),
{
    if edits.len() > 0 {
        let rest = edits.drop_last();
        assert forall|j: int| 0 <= j < rest.len() implies 0 <= (#[trigger] rest[j].0 as int) < values.len() by {
            assert(rest[j] == edits[j]);
        }
        lemma_written_in(values, rest, p);
        assert forall|j: int| 0 <= j < edits.len() && edits[j].0 == p implies written_in(values, edits)[p] == edits[j].1 by {
            if j < edits.len() - 1 {
                assert(rest[j] == edits[j]);
                assert(edits[j].0 != edits[edits.len() - 1].0);
            }
        }
        if forall|j: int| 0 <= j < edits.len() ==> edits[j].0 != p {
            assert forall|j: int| 0 <= j < rest.len() implies rest[j].0 != p by {
                assert(rest[j] == edits[j]);
            }
            assert(edits[edits.len() - 1].0 != p);
        }
    }
}

/// A swap of two runs of parameters, on a sound that has been read, where all
/// the parameters are different and each accepts its partner's value, trades
/// the runs pair by pair and leaves every other parameter where it was.
pub proof fn lemma_swap_trades(view: PatchView, one: Seq<u8>, other: Seq<u8>)
    requires
        view.program is Some,
        view.program.unwrap().len() >= crate::program::PARAMETER_COUNT,
        one.len() == other.len(),
        forall|i: int| 0 <= i < one.len() ==> (#[trigger] one[i] as int) < crate::program::PARAMETER_COUNT
            && (other[i] as int) < crate::program::PARAMETER_COUNT,
        forall|i: int, j: int| 0 <= i < one.len() && 0 <= j < one.len() ==> #[trigger] one[i] != #[trigger] other[j],
        forall|i: int, j: int| 0 <= i < j < one.len() ==> one[i] != one[j] && other[i] != other[j],
        forall|i: int| 0 <= i < one.len() ==> crate::program::accepts(#[trigger] one[i], view.program.unwrap()[other[i] as int] as u16)
            && crate::program::accepts(other[i], view.program.unwrap()[one[i] as int] as u16),
    ensures
        ({
            let after = edit_run(view, swap_edits(view, one, other)).0.program.unwrap();
            let values = view.program.unwrap();
            &&& forall|i: int| 0 <= i < one.len() ==> after[#[trigger] one[i] as int] == values[other[i] as int]
            &&& forall|i: int| 0 <= i < one.len() ==> after[#[trigger] other[i] as int] == values[one[i] as int]
            &&& forall|p: int| 0 <= p < values.len() && !one.contains(p as u8) && !other.contains(p as u8) ==> after[p] == values[p]
        }),
{
    let values = view.program.unwrap();
    let edits = swap_edits(view, one, other);
    assert(edits.len() == 2 * one.len());
    assert forall|k: int| 0 <= k < edits.len() implies (#[trigger] edits[k].0 as int) < crate::program::PARAMETER_COUNT by {
        assert(k / 2 < one.len());
    }
    assert(all_accepted(edits)) by {
        assert forall|k: int| 0 <= k < edits.len() implies crate::program::accepts(#[trigger] edits[k].0, edits[k].1 as u16) by {
            assert(k / 2 < one.len());
        }
    }
    assert(apart(edits)) by {
        assert forall|a: int, b: int| 0 <= a < b < edits.len() implies edits[a].0 != edits[b].0 by {
            assert(a / 2 < one.len() && b / 2 < one.len());
            if a / 2 == b / 2 {
                assert(a % 2 == 0 && b % 2 == 1);
            }
        }
    }
    lemma_run_writes(view, edits);
    assert forall|i: int| 0 <= i < one.len() implies edit_run(view, edits).0.program.unwrap()[#[trigger] one[i] as int] == values[other[i] as int] by {
        lemma_written_in(values, edits, one[i] as int);
        assert(edits[2 * i].0 == one[i]);
    }
    assert forall|i: int| 0 <= i < one.len() implies edit_run(view, edits).0.program.unwrap()[#[trigger] other[i] as int] == values[one[i] as int] by {
        lemma_written_in(values, edits, other[i] as int);
        assert(edits[2 * i + 1].0 == other[i]);
    }
    assert forall|p: int| 0 <= p < values.len() && !one.contains(p as u8) && !other.contains(p as u8) implies edit_run(view, edits).0.program.unwrap()[p] == values[p] by {
        lemma_written_in(values, edits, p);
        assert forall|j: int| 0 <= j < edits.len() implies edits[j].0 != p by {
            let i = j / 2;
            if j % 2 == 0 {
                assert(edits[j].0 == one[i]);
                if one[i] == p as u8 {
                    assert(one.contains(p as u8));
                }
            } else {
                assert(edits[j].0 == other[i]);
                if other[i] == p as u8 {
                    assert(other.contains(p as u8));
                }
            }
        }
    }
}

/// What reading `name` from the start leaves of its slug: the slug so far,
/// and whether it ends in a hyphen that stands for a run of what is not a
/// letter or a digit.
pub open spec fn slug_state(name: Seq<char>) -> (Seq<char>, bool)
    decreases name.len(),
{
    if name.len() == 0 {
        (Seq::empty(), false)
    } else {
        let (slug, hyphen) = slug_state(name.drop_last());
        let letter = name.last();
        if is_alphanumeric(letter) {
            (slug.push(lowered(letter)), false)
        } else if !hyphen && slug.len() > 0 {
            (slug.push('-'), true)
        } else {
            (slug, hyphen)
        }
    }
}

/// `text` with the hyphens at its end taken off.
pub open spec fn without_trailing_hyphens(text: Seq<char>) -> Seq<char>
    decreases text.len(),
{
    if text.len() > 0 && text.last() == '-' {
        without_trailing_hyphens(text.drop_last())
    } else {
        text
    }
}

/// A name lowered and hyphenated: its letters and digits in lowercase, each
/// run of anything else one hyphen, and none at either end.
pub open spec fn slug_of(name: Seq<char>) -> Seq<char> {
    without_trailing_hyphens(slug_state(name).0)
}

/// Returns a name lowered and hyphenated.
pub fn slug_text(name: &str) -> (slug: String)
    ensures
        slug@ == slug_of(name@),
{
    let text = chars_of(name);
    let mut slug: Vec<char> = Vec::new();
    let mut hyphen = false;
    let mut i: usize = 0;
    while i < text.len()
        invariant
            i <= text@.len(),
            text@ == name@,
            (slug@, hyphen) == slug_state(text@.take(i as int)),
        decreases text@.len() - i,
    {
        let letter = text[i];
        proof {
            assert(text@.take(i + 1).drop_last() =~= text@.take(i as int));
            assert(text@.take(i + 1).last() == letter);
        }
        if alphanumeric(letter) {
            slug.push(lower(letter));
            hyphen = false;
        } else if !hyphen && slug.len() > 0 {
            slug.push('-');
            hyphen = true;
        }
        i = i + 1;
    }
    proof {
        assert(text@.take(text@.len() as int) =~= text@);
    }
    let mut end: usize = slug.len();
    proof {
        assert(slug@.take(end as int) =~= slug@);
    }
    while end > 0 && slug[end - 1] == '-'
        invariant
            end <= slug@.len(),
            without_trailing_hyphens(slug@) == without_trailing_hyphens(slug@.take(end as int)),
        decreases end,
    {
        proof {
            assert(slug@.take(end as int).drop_last() =~= slug@.take(end - 1));
        }
        end = end - 1;
    }
    proof {
        assert(slug@.take(slug@.len() as int) =~= slug@);
        assert(without_trailing_hyphens(slug@.take(end as int)) == slug@.take(end as int));
    }
    string_of(&crate::text::slice_of(&slug, 0, end))
}

/// One picture of the window: the surface it is put on, and the section open
/// over it where the picture is of a sheet.
#[derive(Debug, Clone, Copy, PartialEq, Eq, Structural)]
pub struct Page {
    /// The surface the window is put on.
    pub view: Shown,
    /// The section open over it.
    pub section: Option<Group>,
}

/// What a page is called before it is lowered and hyphenated: the section's
/// own name where there is one, and the surface's otherwise.
pub open spec fn page_name(page: Page) -> Seq<char> {
    match page.section {
        Some(group) => group_name(group.index),
        None => match page.view {
            Shown::Library => "library"@,
            Shown::Panel => "front-panel"@,
            Shown::Section(group) => group_name(group.index),
        },
    }
}

/// Whether every section a page names is one the table has.
pub open spec fn page_sections_known(page: Page) -> bool {
    &&& page.section matches Some(g) ==> g.index < GROUP_COUNT
    &&& page.view matches Shown::Section(g) ==> g.index < GROUP_COUNT
}

impl Page {
    /// Returns the file this page is written to, without its suffix: the
    /// section's own name, lowered and hyphenated.
    pub fn slug(self) -> (slug: String)
        requires
            page_sections_known(self),
        ensures
            slug@ == slug_of(page_name(self)),
    {
        let name: &'static str = match self.section {
            Some(group) => group.name(),
            None => match self.view {
                Shown::Library => "library",
                Shown::Panel => "front-panel",
                Shown::Section(group) => group.name(),
            },
        };
        slug_text(name)
    }
}

/// Something the device thread said.
#[derive(Debug)]
pub enum Happened {
    /// The port is open.
    Opened,
    /// A unit answered the inquiry: its firmware as it prints it, and the
    /// channel it listens on, counted from one.
    Identified { firmware: String, channel: u8 },
    /// Nothing answered the inquiry.
    Silent,
    /// The synthesizer reported one parameter; `confirmed` where the report
    /// carried the whole value.
    Parameter { parameter: ParamId, value: u16, confirmed: bool },
    /// The edit buffer, dumped.
    EditBuffer(Program),
    /// A stored program, dumped, and the slot it is stored in.
    Stored { slot: Slot, program: Program },
    /// How far a bank read has got.
    Progress { received: u16, expected: u16 },
    /// A bank read ended: which bank, how much of it arrived, and how it
    /// ended, as the device thread says it.
    Finished { bank: Bank, received: u16, expected: u16, outcome: String },
    /// The synthesizer refused a command, as the device thread words both.
    Refused { command: String, reason: String },
    /// The port failed, as the device thread says why.
    Failed(String),
    /// The port closed.
    Closed,
    /// Anything this window has nothing to do with.
    Other,
}

/// Something to tell the device thread.
#[derive(Debug)]
pub enum Ask {
    /// Read the edit buffer.
    ReadEditBuffer,
    /// Read every program of a bank.
    ReadBank(Bank),
    /// Make the synthesizer sound like this program.
    LoadProgram(Program),
    /// Move one parameter.
    SetParameter(ParamId, u8),
    /// Put the port down.
    Close,
}

/// The window's hold on the instrument: the sound on the screen, the shelf,
/// the last thing worth saying, who answered, and whether a port is open.
pub struct Desk {
    /// The sound on the screen.
    pub patch: Patch,
    /// The programs a file or a bank read put in front of somebody.
    pub shelf: Shelf,
    /// The last thing worth saying.
    pub status: String,
    /// Who answered: the firmware it runs and the channel it listens on.
    pub identity: Option<(String, u8)>,
    /// Whether a port is open.
    pub linked: bool,
    /// The shared patch being tried, by its id, where one is.
    pub trying: Option<String>,
}

/// Whether `after` is `before` with its bank read ended.
pub open spec fn shelf_finished(before: Shelf, after: Shelf) -> bool {
    &&& after.source_of() == before.source_of()
    &&& after.held_of() == before.held_of()
    &&& after.skipped_of() == before.skipped_of()
    &&& after.loaded_of() == before.loaded_of()
    &&& after.transfer_of() is None
}

/// Whether `after` is `before` with one stored program taken in slot order.
pub open spec fn shelf_arrived(before: Shelf, after: Shelf, slot: Slot, program: Program) -> bool {
    &&& after.source_of() == before.source_of()
    &&& after.skipped_of() == before.skipped_of()
    &&& after.loaded_of() == before.loaded_of()
    &&& after.transfer_of() == before.transfer_of()
    &&& ({
        let held = before.held_of();
        let at = place_for(held, slot);
        let one = Held { slot: Some(slot), program };
        if at < held.len() && held[at].slot == Some(slot) {
            after.held_of() == held.update(at, one)
        } else {
            after.held_of() == held.insert(at, one)
        }
    })
}

/// Whether `after` is `before` with a bank read's count moved on.
pub open spec fn shelf_advanced(before: Shelf, after: Shelf, received: u16, expected: u16) -> bool {
    &&& after.source_of() == before.source_of()
    &&& after.held_of() == before.held_of()
    &&& after.skipped_of() == before.skipped_of()
    &&& after.loaded_of() == before.loaded_of()
    &&& (before.transfer_of() matches Some(t) ==> after.transfer_of() == Some(Transfer { bank: t.bank, received, expected }))
    &&& (before.transfer_of() is None ==> after.transfer_of() is None)
}

/// What is said when a unit answers.
pub open spec fn answered(firmware: Seq<char>, channel: u8) -> Seq<char> {
    "A DeepMind answered: firmware "@ + firmware + ", channel "@ + crate::text::digits(channel as nat)
        + ". Reading the sound\u{2026}"@
}

/// What is said when a bank read ends.
pub open spec fn bank_ended(bank: Bank, received: u16, expected: u16, outcome: Seq<char>) -> Seq<char> {
    "Bank "@ + seq![((65 + bank.index) as u32) as char] + ": "@ + crate::text::digits(received as nat) + " of "@
        + crate::text::digits(expected as nat) + ", "@ + outcome + "."@
}

/// Whether `after` is `before` with its port put down for the reason `why`:
/// nobody answering, the sound forgotten, the shelf's bank read ended, and
/// the port closed where one was open.
pub open spec fn put_down(before: Desk, after: Desk, why: Seq<char>, asks: Seq<Ask>) -> bool {
    &&& after.patch@ == crate::patch::unread()
    &&& shelf_finished(before.shelf, after.shelf)
    &&& after.status@ == why
    &&& after.identity is None
    &&& !after.linked
    &&& asks.len() == (if before.linked { 1int } else { 0int })
    &&& before.linked ==> asks[0] is Close
}

/// Whether `after` is `before` with nothing changed but what it says.
pub open spec fn only_said(before: Desk, after: Desk, said: Seq<char>) -> bool {
    &&& after.patch == before.patch
    &&& after.shelf == before.shelf
    &&& after.identity == before.identity
    &&& after.linked == before.linked
    &&& after.status@ == said
}

impl Desk {
    /// A window that has not looked at the machine yet.
    pub fn new() -> (desk: Desk)
        ensures
            desk.patch@ == crate::patch::unread(),
            desk.shelf.held_of().len() == 0,
            desk.shelf.source_of() is None,
            desk.status@ == "Choose a port."@,
            desk.identity is None,
            !desk.linked,
            desk.trying is None,
    {
        Desk {
            patch: Patch::new(),
            shelf: Shelf::new(),
            status: "Choose a port.".to_owned(),
            identity: None,
            linked: false,
            trying: None,
        }
    }

    /// Puts the port down and forgets the sound that was on it, saying why.
    pub fn disconnect(&mut self, why: &str) -> (asks: Vec<Ask>)
        ensures
            put_down(*old(self), *final(self), why@, asks@),
    {
        let mut asks: Vec<Ask> = Vec::new();
        if self.linked {
            asks.push(Ask::Close);
        }
        self.linked = false;
        self.identity = None;
        self.patch.forget();
        self.shelf.finish();
        self.status = why.to_owned();
        asks
    }

    /// Takes a port the device thread has opened, and says so.
    pub fn connected(&mut self, port: &str)
        ensures
            final(self).linked,
            final(self).patch == old(self).patch,
            final(self).shelf == old(self).shelf,
            final(self).identity == old(self).identity,
            final(self).status@ == "Opening "@ + port@ + "\u{2026}"@,
    {
        let mut said = chars_of("Opening ");
        crate::text::extend(&mut said, &chars_of(port));
        crate::text::extend(&mut said, &chars_of("\u{2026}"));
        self.status = string_of(&said);
        self.linked = true;
    }

    /// Asks for something, where a port is open to ask it of; says that
    /// nothing is open where none is.
    pub fn ask(&mut self, ask: Ask) -> (asks: Vec<Ask>)
        ensures
            old(self).linked ==> asks@.len() == 1 && asks@[0] == ask && final(self).status == old(self).status,
            !old(self).linked ==> asks@.len() == 0 && final(self).status@ == "Nothing is open."@,
            final(self).patch == old(self).patch,
            final(self).shelf == old(self).shelf,
            final(self).identity == old(self).identity,
            final(self).linked == old(self).linked,
    {
        let mut asks: Vec<Ask> = Vec::new();
        if self.linked {
            asks.push(ask);
        } else {
            self.status = "Nothing is open.".to_owned();
        }
        asks
    }

    /// Reads a bank onto a cleared shelf, where a port is open to read it
    /// from.
    pub fn read_bank(&mut self, bank: Bank) -> (asks: Vec<Ask>)
        requires
            bank.index < BANK_COUNT,
        ensures
            final(self).patch == old(self).patch,
            final(self).identity == old(self).identity,
            final(self).linked == old(self).linked,
            !old(self).linked ==> final(self).shelf == old(self).shelf && asks@.len() == 0
                && final(self).status@ == "Nothing is open to read a bank from."@,
            old(self).linked ==> {
                &&& final(self).shelf.source_of() == Some(Source::Bank(bank))
                &&& final(self).shelf.held_of().len() == 0
                &&& final(self).shelf.transfer_of() == Some(Transfer { bank, received: 0, expected: PROGRAMS_PER_BANK as u16 })
                &&& asks@.len() == 1 && (asks@[0] matches Ask::ReadBank(b) && b == bank)
                &&& final(self).status@ == "Reading bank "@ + seq![((65 + bank.index) as u32) as char] + "\u{2026}"@
            },
    {
        if !self.linked {
            self.status = "Nothing is open to read a bank from.".to_owned();
            return Vec::new();
        }
        self.shelf.begin(bank, PROGRAMS_PER_BANK as u16);
        let mut said = chars_of("Reading bank ");
        said.push(bank.letter());
        crate::text::extend(&mut said, &chars_of("\u{2026}"));
        proof {
            assert(said@ =~= "Reading bank "@ + seq![((65 + bank.index) as u32) as char] + "\u{2026}"@);
        }
        self.status = string_of(&said);
        let mut asks: Vec<Ask> = Vec::new();
        asks.push(Ask::ReadBank(bank));
        asks
    }

    /// Makes the synthesizer sound like one of the programs on the shelf:
    /// the sound on the screen becomes that program, assumed throughout
    /// because nothing has confirmed it, and it is sent where a port is open.
    pub fn load(&mut self, index: usize) -> (asks: Vec<Ask>)
        ensures
            final(self).identity == old(self).identity,
            final(self).linked == old(self).linked,
            final(self).shelf.held_of() == old(self).shelf.held_of(),
            index >= old(self).shelf.held_of().len() ==> final(self).patch == old(self).patch
                && final(self).status == old(self).status && asks@.len() == 0
                && final(self).shelf.loaded_of() == old(self).shelf.loaded_of()
                && final(self).trying == old(self).trying,
            index < old(self).shelf.held_of().len() ==> {
                let program = old(self).shelf.held_of()[index as int].program;
                let name = held_name(program@);
                &&& final(self).shelf.loaded_of() == Some(index)
                &&& final(self).trying is None
                &&& final(self).patch.held_version() == Some(program.version_of())
                &&& final(self).patch@ == (crate::patch::PatchView {
                    program: Some(program@),
                    whole: crate::patch::Confidence::Assumed,
                    claims: crate::patch::throughout(crate::patch::Confidence::Assumed),
                })
                &&& old(self).linked ==> asks@.len() == 1 && (asks@[0] matches Ask::LoadProgram(p) && p@ == program@)
                    && final(self).status@ == "Sending "@ + name + " to the edit buffer\u{2026}"@
                &&& !old(self).linked ==> asks@.len() == 0
                    && final(self).status@ == name + " is on the screen. Nothing is open to send it to."@
            },
    {
        let program = match self.shelf.load(index) {
            Some(program) => program,
            None => return Vec::new(),
        };
        let called = program.name();
        let letters = called.to_chars();
        proof {
            assert(letters@ =~= crate::app::name_text(called@));
        }
        let name = crate::text::trim(&letters);
        self.trying = None;
        self.patch.presume(program.copied());
        let mut asks: Vec<Ask> = Vec::new();
        if self.linked {
            let mut said = chars_of("Sending ");
            crate::text::extend(&mut said, &name);
            crate::text::extend(&mut said, &chars_of(" to the edit buffer\u{2026}"));
            self.status = string_of(&said);
            asks.push(Ask::LoadProgram(program));
        } else {
            let mut said = crate::text::slice_of(&name, 0, name.len());
            crate::text::extend(&mut said, &chars_of(" is on the screen. Nothing is open to send it to."));
            proof {
                assert(said@ =~= name@ + " is on the screen. Nothing is open to send it to."@);
            }
            self.status = string_of(&said);
        }
        asks
    }

    /// Plays one shared patch without keeping it anywhere: the sound on the
    /// screen becomes the patch, assumed throughout, and goes to the edit
    /// buffer where a port is open. The shelf is untouched, and so is what
    /// it last loaded: what is sounding did not come off it.
    pub fn audition(&mut self, id: &str, program: Program, maker: &str) -> (asks: Vec<Ask>)
        ensures
            final(self).trying matches Some(t) && t@ == id@,
            final(self).patch.held_version() == Some(program.version_of()),
            final(self).patch@ == (crate::patch::PatchView {
                program: Some(program@),
                whole: crate::patch::Confidence::Assumed,
                claims: crate::patch::throughout(crate::patch::Confidence::Assumed),
            }),
            final(self).shelf == old(self).shelf,
            final(self).identity == old(self).identity,
            final(self).linked == old(self).linked,
            old(self).linked ==> asks@.len() == 1 && (asks@[0] matches Ask::LoadProgram(p) && p@ == program@)
                && final(self).status@ == "Trying "@ + held_name(program@) + " by "@ + maker@ + ". Nothing is kept."@,
            !old(self).linked ==> asks@.len() == 0 && final(self).status@ == held_name(program@) + " by "@ + maker@
                + " is on the screen. Nothing is open to send it to."@,
    {
        let called = program.name();
        let letters = called.to_chars();
        proof {
            assert(letters@ =~= crate::app::name_text(called@));
        }
        let name = crate::text::trim(&letters);
        self.trying = Some(id.to_owned());
        self.patch.presume(program.copied());
        let mut asks: Vec<Ask> = Vec::new();
        if self.linked {
            let mut said = chars_of("Trying ");
            crate::text::extend(&mut said, &name);
            crate::text::extend(&mut said, &chars_of(" by "));
            crate::text::extend(&mut said, &chars_of(maker));
            crate::text::extend(&mut said, &chars_of(". Nothing is kept."));
            self.status = string_of(&said);
            asks.push(Ask::LoadProgram(program));
        } else {
            let mut said = crate::text::slice_of(&name, 0, name.len());
            crate::text::extend(&mut said, &chars_of(" by "));
            crate::text::extend(&mut said, &chars_of(maker));
            crate::text::extend(&mut said, &chars_of(" is on the screen. Nothing is open to send it to."));
            proof {
                assert(said@ =~= name@ + " by "@ + maker@ + " is on the screen. Nothing is open to send it to."@);
            }
            self.status = string_of(&said);
        }
        asks
    }

    /// Puts a file's programs on the shelf under `name`, and says how many
    /// there were.
    pub fn shelve(&mut self, name: &str, bytes: &[u8])
        ensures
            final(self).shelf.source_of() matches Some(Source::File(n)) && n@ == name@,
            final(self).shelf.held_of().map_values(|h: Held| crate::shelf::held_view(h))
                == crate::shelf::readable(crate::shelf::file_dumps(bytes@)),
            final(self).shelf.skipped_of() == crate::shelf::unreadable(crate::shelf::file_dumps(bytes@)),
            final(self).status@ == crate::app::shelved_spec(
                name@,
                final(self).shelf.held_of().len(),
                final(self).shelf.skipped_of(),
            ),
            final(self).patch == old(self).patch,
            final(self).identity == old(self).identity,
            final(self).linked == old(self).linked,
            final(self).trying == old(self).trying,
    {
        self.shelf.open(name.to_owned(), bytes);
        let held = self.shelf.held().len();
        let skipped = self.shelf.skipped();
        self.status = crate::app::shelved(name, held, skipped);
    }

    /// Puts one shared patch on the shelf, as the edit buffer dump of its
    /// program under the patch's name and its maker's.
    pub fn shelve_patch(&mut self, name: &str, author: &str, program: &Program)
        ensures
            final(self).patch == old(self).patch,
            final(self).identity == old(self).identity,
            final(self).linked == old(self).linked,
            final(self).trying == old(self).trying,
            ({
                let called = name@ + " - "@ + author@;
                match crate::shelf::edit_buffer_frame(crate::shelf::wire(program.version_of()), program@) {
                    Some(bytes) => {
                        &&& final(self).shelf.source_of() matches Some(Source::File(n)) && n@ == called
                        &&& final(self).shelf.held_of().map_values(|h: Held| crate::shelf::held_view(h))
                            == crate::shelf::readable(crate::shelf::file_dumps(bytes))
                        &&& final(self).shelf.skipped_of() == crate::shelf::unreadable(crate::shelf::file_dumps(bytes))
                        &&& final(self).status@ == crate::app::shelved_spec(
                            called,
                            final(self).shelf.held_of().len(),
                            final(self).shelf.skipped_of(),
                        )
                    },
                    None => {
                        &&& final(self).shelf == old(self).shelf
                        &&& final(self).status@ == called + " would not be written: the sound would not pack into a dump."@
                    },
                }
            }),
    {
        let mut called = chars_of(name);
        crate::text::extend(&mut called, &chars_of(" - "));
        crate::text::extend(&mut called, &chars_of(author));
        let called = string_of(&called);
        match crate::shelf::patch_to_syx(program) {
            Ok(bytes) => self.shelve(called.as_str(), bytes.as_slice()),
            Err(_) => {
                let mut said = chars_of(called.as_str());
                crate::text::extend(&mut said, &chars_of(" would not be written: the sound would not pack into a dump."));
                self.status = string_of(&said);
            },
        }
    }

    /// Says that a shared patch's file would not open, and why; nothing else
    /// changes.
    pub fn would_not_open(&mut self, name: &str, trouble: &str)
        ensures
            final(self).status@ == name@ + " would not open: "@ + trouble@,
            final(self).patch == old(self).patch,
            final(self).shelf == old(self).shelf,
            final(self).identity == old(self).identity,
            final(self).linked == old(self).linked,
            final(self).trying == old(self).trying,
    {
        let mut said = chars_of(name);
        crate::text::extend(&mut said, &chars_of(" would not open: "));
        crate::text::extend(&mut said, &chars_of(trouble));
        self.status = string_of(&said);
    }

    /// Tells the synthesizer about edits this window made, each once, where
    /// a port is open; says that nothing is open where none is.
    fn send(&mut self, edits: Vec<(ParamId, u8)>) -> (asks: Vec<Ask>)
        ensures
            final(self).patch == old(self).patch,
            final(self).shelf == old(self).shelf,
            final(self).identity == old(self).identity,
            final(self).linked == old(self).linked,
            sent_as(edits@, asks@, old(self).linked),
            (edits@.len() == 0 || old(self).linked) ==> final(self).status == old(self).status,
            (edits@.len() > 0 && !old(self).linked) ==> final(self).status@ == "Nothing is open."@,
    {
        let mut asks: Vec<Ask> = Vec::new();
        let mut i: usize = 0;
        while i < edits.len()
            invariant
                i <= edits@.len(),
                self.patch == old(self).patch,
                self.shelf == old(self).shelf,
                self.identity == old(self).identity,
                self.linked == old(self).linked,
                old(self).linked ==> asks@.len() == i && forall|k: int| 0 <= k < i ==> (#[trigger] asks@[k] matches Ask::SetParameter(p, v) && p == edits@[k].0 && v == edits@[k].1),
                !old(self).linked ==> asks@.len() == 0,
                (i == 0 || old(self).linked) ==> self.status == old(self).status,
                (i > 0 && !old(self).linked) ==> self.status@ == "Nothing is open."@,
            decreases edits@.len() - i,
        {
            let (parameter, value) = edits[i];
            let mut more = self.ask(Ask::SetParameter(parameter, value));
            asks.append(&mut more);
            i = i + 1;
        }
        asks
    }

    /// Moves a parameter because somebody in this window moved it, and tells
    /// the synthesizer once, where it moved anything.
    pub fn edit(&mut self, parameter: ParamId, value: u8) -> (asks: Vec<Ask>)
        ensures
            final(self).patch@ == edit_step(old(self).patch@, (parameter@, value)).0,
            final(self).shelf == old(self).shelf,
            final(self).identity == old(self).identity,
            final(self).linked == old(self).linked,
            sent_as(edits_of(edit_step(old(self).patch@, (parameter@, value)).1, parameter), asks@, old(self).linked),
    {
        let mut edits: Vec<(ParamId, u8)> = Vec::new();
        match moved(&mut self.patch, parameter, value) {
            Some(edit) => {
                edits.push(edit);
            },
            None => {},
        }
        proof {
            assert(edits@ =~= edits_of(edit_step(old(self).patch@, (parameter@, value)).1, parameter));
        }
        self.send(edits)
    }

    /// Names the program, and tells the synthesizer about the characters
    /// that moved, each once, where a port is open.
    pub fn rename(&mut self, name: ProgramName) -> (asks: Vec<Ask>)
        ensures
            final(self).shelf == old(self).shelf,
            final(self).identity == old(self).identity,
            final(self).linked == old(self).linked,
            old(self).patch@.program is None ==> final(self).patch@ == old(self).patch@ && asks@.len() == 0,
            old(self).patch@.program matches Some(values) ==> {
                let moves = crate::patch::accepted_moves(values, crate::program::with_name(values, name@), 0);
                &&& final(self).patch@ == crate::patch::made(old(self).patch@, moves)
                &&& sent_offsets(moves, asks@, old(self).linked)
            },
    {
        let moved = self.patch.rename(name);
        let ghost moves = crate::patch::offsets_of(moved@);
        let asks = self.send(moved);
        proof {
            if self.linked {
                assert forall|k: int| 0 <= k < moves.len() implies (#[trigger] asks@[k] matches Ask::SetParameter(p, v) && (p@, v) == moves[k]) by {
                    assert(moves[k] == (moved@[k].0@, moved@[k].1));
                }
            }
        }
        asks
    }

    /// Trades two runs of parameters pair by pair, and tells the synthesizer
    /// about each edit that moved anything, where a port is open.
    pub fn swap(&mut self, one: &[ParamId], other: &[ParamId]) -> (asks: Vec<Ask>)
        ensures
            final(self).shelf == old(self).shelf,
            final(self).identity == old(self).identity,
            final(self).linked == old(self).linked,
            ({
                let run = edit_run(old(self).patch@, swap_edits(old(self).patch@, offsets(one@), offsets(other@)));
                &&& final(self).patch@ == run.0
                &&& sent_offsets(run.1, asks@, old(self).linked)
            }),
    {
        let sent = swap(&mut self.patch, one, other);
        let ghost moves = edits_view(sent@);
        let asks = self.send(sent);
        proof {
            if self.linked {
                assert forall|k: int| 0 <= k < moves.len() implies (#[trigger] asks@[k] matches Ask::SetParameter(p, v) && (p@, v) == moves[k]) by {
                    assert(moves[k] == (sent@[k].0@, sent@[k].1));
                }
            }
        }
        asks
    }

    /// Takes one thing the device thread said, and returns what to tell it.
    pub fn absorb(&mut self, happened: Happened) -> (asks: Vec<Ask>)
        requires
            happened matches Happened::Finished { bank, .. } ==> bank.index < BANK_COUNT,
        ensures
            match happened {
                Happened::Opened => only_said(*old(self), *final(self), "Port open. Asking who is there\u{2026}"@)
                    && asks@.len() == 0,
                Happened::Identified { firmware, channel } => {
                    &&& final(self).patch == old(self).patch
                    &&& final(self).shelf == old(self).shelf
                    &&& final(self).linked == old(self).linked
                    &&& final(self).identity == Some((firmware, channel))
                    &&& old(self).linked ==> final(self).status@ == answered(firmware@, channel)
                        && asks@.len() == 1 && asks@[0] is ReadEditBuffer
                    &&& !old(self).linked ==> final(self).status@ == "Nothing is open."@ && asks@.len() == 0
                },
                Happened::Silent => only_said(
                    *old(self),
                    *final(self),
                    "Nothing answered the inquiry. Switch the synthesizer on and ask again."@,
                ) && asks@.len() == 0,
                Happened::Parameter { parameter, value, confirmed } => {
                    &&& final(self).shelf == old(self).shelf
                    &&& final(self).status == old(self).status
                    &&& final(self).identity == old(self).identity
                    &&& final(self).linked == old(self).linked
                    &&& asks@.len() == 0
                    &&& (value <= 255 && old(self).patch@.program is Some && accepts(parameter@, value)) ==> final(self).patch@
                        == crate::patch::reported(old(self).patch@, parameter@, value as u8, confirmed)
                    &&& !(value <= 255 && old(self).patch@.program is Some && accepts(parameter@, value)) ==> final(self).patch@
                        == old(self).patch@
                },
                Happened::EditBuffer(program) => {
                    &&& final(self).shelf == old(self).shelf
                    &&& final(self).identity == old(self).identity
                    &&& final(self).linked == old(self).linked
                    &&& final(self).patch@ == (crate::patch::PatchView {
                        program: Some(program@),
                        whole: crate::patch::Confidence::Confirmed,
                        claims: crate::patch::throughout(crate::patch::Confidence::Confirmed),
                    })
                    &&& final(self).patch.held_version() == Some(program.version_of())
                    &&& final(self).status@ == "Read "@ + crate::app::name_text(
                        crate::program::decoded(crate::program::name_field(program@)),
                    ) + "."@
                    &&& asks@.len() == 0
                },
                Happened::Stored { slot, program } => {
                    &&& final(self).patch == old(self).patch
                    &&& final(self).status == old(self).status
                    &&& final(self).identity == old(self).identity
                    &&& final(self).linked == old(self).linked
                    &&& shelf_arrived(old(self).shelf, final(self).shelf, slot, program)
                    &&& asks@.len() == 0
                },
                Happened::Progress { received, expected } => {
                    &&& final(self).patch == old(self).patch
                    &&& final(self).status == old(self).status
                    &&& final(self).identity == old(self).identity
                    &&& final(self).linked == old(self).linked
                    &&& shelf_advanced(old(self).shelf, final(self).shelf, received, expected)
                    &&& asks@.len() == 0
                },
                Happened::Finished { bank, received, expected, outcome } => {
                    &&& final(self).patch == old(self).patch
                    &&& final(self).identity == old(self).identity
                    &&& final(self).linked == old(self).linked
                    &&& shelf_finished(old(self).shelf, final(self).shelf)
                    &&& final(self).status@ == bank_ended(bank, received, expected, outcome@)
                    &&& asks@.len() == 0
                },
                Happened::Refused { command, reason } => only_said(
                    *old(self),
                    *final(self),
                    command@ + " refused: "@ + reason@,
                ) && asks@.len() == 0,
                Happened::Failed(error) => put_down(*old(self), *final(self), "The port failed: "@ + error@, asks@),
                Happened::Closed => put_down(*old(self), *final(self), "The port is closed."@, asks@),
                Happened::Other => only_said(*old(self), *final(self), old(self).status@) && asks@.len() == 0,
            },
    {
        match happened {
            Happened::Opened => {
                self.status = "Port open. Asking who is there\u{2026}".to_owned();
                Vec::new()
            },
            Happened::Identified { firmware, channel } => {
                let mut said = chars_of("A DeepMind answered: firmware ");
                crate::text::extend(&mut said, &chars_of(firmware.as_str()));
                crate::text::extend(&mut said, &chars_of(", channel "));
                crate::text::extend(&mut said, &crate::text::decimal(channel as u64));
                crate::text::extend(&mut said, &chars_of(". Reading the sound\u{2026}"));
                proof {
                    assert(said@ =~= answered(firmware@, channel));
                }
                self.identity = Some((firmware, channel));
                self.status = string_of(&said);
                self.ask(Ask::ReadEditBuffer)
            },
            Happened::Silent => {
                self.status = "Nothing answered the inquiry. Switch the synthesizer on and ask again.".to_owned();
                Vec::new()
            },
            Happened::Parameter { parameter, value, confirmed } => {
                if value <= 255 {
                    self.patch.report(parameter, value as u8, confirmed);
                }
                Vec::new()
            },
            Happened::EditBuffer(program) => {
                let called: ProgramName = program.name();
                let mut said = chars_of("Read ");
                let letters = called.to_chars();
                crate::text::extend(&mut said, &letters);
                crate::text::extend(&mut said, &chars_of("."));
                proof {
                    assert(letters@ =~= crate::app::name_text(called@));
                    assert(said@ =~= "Read "@ + crate::app::name_text(called@) + "."@);
                }
                self.status = string_of(&said);
                self.patch.confirm(program);
                Vec::new()
            },
            Happened::Stored { slot, program } => {
                self.shelf.arrived(slot, program);
                Vec::new()
            },
            Happened::Progress { received, expected } => {
                self.shelf.advance(received, expected);
                Vec::new()
            },
            Happened::Finished { bank, received, expected, outcome } => {
                self.shelf.finish();
                let mut said = chars_of("Bank ");
                said.push(bank.letter());
                crate::text::extend(&mut said, &chars_of(": "));
                crate::text::extend(&mut said, &crate::text::decimal(received as u64));
                crate::text::extend(&mut said, &chars_of(" of "));
                crate::text::extend(&mut said, &crate::text::decimal(expected as u64));
                crate::text::extend(&mut said, &chars_of(", "));
                crate::text::extend(&mut said, &chars_of(outcome.as_str()));
                crate::text::extend(&mut said, &chars_of("."));
                proof {
                    assert(said@ =~= bank_ended(bank, received, expected, outcome@));
                }
                self.status = string_of(&said);
                Vec::new()
            },
            Happened::Refused { command, reason } => {
                let mut said = chars_of(command.as_str());
                crate::text::extend(&mut said, &chars_of(" refused: "));
                crate::text::extend(&mut said, &chars_of(reason.as_str()));
                self.status = string_of(&said);
                Vec::new()
            },
            Happened::Failed(error) => {
                let mut why = chars_of("The port failed: ");
                crate::text::extend(&mut why, &chars_of(error.as_str()));
                let why = string_of(&why);
                self.disconnect(why.as_str())
            },
            Happened::Closed => self.disconnect("The port is closed."),
            Happened::Other => Vec::new(),
        }
    }
}

/// Edits as what is asked of the synthesizer: every one of them in order
/// where a port is open, and nothing where none is.
pub open spec fn sent_as(edits: Seq<(ParamId, u8)>, asks: Seq<Ask>, linked: bool) -> bool {
    &&& linked ==> asks.len() == edits.len() && forall|k: int| 0 <= k < edits.len() ==> (#[trigger] asks[k] matches Ask::SetParameter(p, v) && p == edits[k].0 && v == edits[k].1)
    &&& !linked ==> asks.len() == 0
}

/// The edit one step sends, with its parameter, where it sends one.
pub open spec fn edits_of(sent: Seq<(u8, u8)>, parameter: ParamId) -> Seq<(ParamId, u8)> {
    if sent.len() == 0 { Seq::empty() } else { seq![(parameter, sent[0].1)] }
}

/// Edits, by offset, as what is asked of the synthesizer: every one of them
/// in order where a port is open, and nothing where none is.
pub open spec fn sent_offsets(moves: Seq<(u8, u8)>, asks: Seq<Ask>, linked: bool) -> bool {
    &&& linked ==> asks.len() == moves.len() && forall|k: int| 0 <= k < moves.len() ==> (#[trigger] asks[k] matches Ask::SetParameter(p, v) && (p@, v) == moves[k])
    &&& !linked ==> asks.len() == 0
}

} // verus!
