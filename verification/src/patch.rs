//! The interface's copy of the sound, and what backs each of its values.
//!
//! The device thread holds the truth; this is the copy built out of what it
//! reports. What it adds to a [`Program`] is a claim per parameter: one
//! dragged knob leaves the other parameters exactly as confirmed as they were.
//! Nothing here sends anything.

use vstd::prelude::*;

use crate::program::{
    NAME_LEN, NAME_OFFSET, is_changes, accepts, decoded, name_field, with_name, Program, ParamId, ProgramName, PARAMETER_COUNT,
};

verus! {

/// What backs a value.
#[derive(Debug, Clone, Copy, PartialEq, Eq, Structural)]
pub enum Confidence {
    /// Nothing has said what it is.
    Unknown,
    /// This window put it there, and the synthesizer has not said otherwise.
    Assumed,
    /// The synthesizer said so.
    Confirmed,
}

impl Default for Confidence {
    fn default() -> (unknown: Confidence)
        ensures
            unknown == Confidence::Unknown,
    {
        Confidence::Unknown
    }
}

/// One of the instrument's sections, by its place in the parameter table's
/// own list of them.
#[derive(Debug, Clone, Copy, PartialEq, Eq, Structural)]
pub struct Group {
    /// Where the section stands in `deepmind_midi::param::Group::ALL`.
    pub index: u8,
}

/// How many sections the parameter table has.
pub const GROUP_COUNT: u8 = 14;

/// The offsets of the parameters one section holds, as the parameter table
/// lists them.
pub uninterp spec fn group_members(index: u8) -> Seq<u8>;

/// What the parameter table calls the section at `index` of its own list.
pub open spec fn group_name(index: u8) -> Seq<char> {
    if index == 0 { "Arpeggiator"@ }
    else if index == 1 { "Control Sequencer"@ }
    else if index == 2 { "Effects"@ }
    else if index == 3 { "LFO 1"@ }
    else if index == 4 { "LFO 2"@ }
    else if index == 5 { "Mod Envelope"@ }
    else if index == 6 { "Mod Matrix"@ }
    else if index == 7 { "Oscillators"@ }
    else if index == 8 { "Program"@ }
    else if index == 9 { "VCA"@ }
    else if index == 10 { "VCA Envelope"@ }
    else if index == 11 { "VCF"@ }
    else if index == 12 { "VCF Envelope"@ }
    else { "Voicing"@ }
}

/// `deepmind_midi::param::Group::name`, for the section at `index` in
/// `Group::ALL`.
///
/// Trusted to return the name the library's `name` match gives that section,
/// which [`group_name`] writes out.
#[verifier::external_body]
fn name_of(index: u8) -> (name: &'static str)
    requires
        index < GROUP_COUNT,
    ensures
        name@ == group_name(index),
{
    match deepmind_midi::param::Group::ALL.get(usize::from(index)) {
        Some(group) => group.name(),
        None => "",
    }
}

/// `deepmind_midi::param::Group::parameters`, for the section at `index` in
/// `Group::ALL`, each parameter taken by its offset.
///
/// Trusted to return the parameter table's own list for that section, named
/// [`group_members`]; nothing more is claimed of it.
#[verifier::external_body]
fn members_of(index: u8) -> (offsets: Vec<u8>)
    requires
        index < GROUP_COUNT,
    ensures
        offsets@ == group_members(index),
{
    match deepmind_midi::param::Group::ALL.get(usize::from(index)) {
        Some(group) => group.parameters().map(|parameter| parameter.offset()).collect(),
        None => Vec::new(),
    }
}

/// Which section stands `place`th in the order the instrument lays them out,
/// by its place in the parameter table's own list.
pub uninterp spec fn group_order(place: u8) -> u8;

/// `deepmind_midi::param::Group::ORDER`, at `place`, taken by where that
/// section stands in `Group::ALL`.
///
/// Trusted to return the section the library lays out `place`th, named
/// [`group_order`], and that it is one of the sections and no other place's:
/// `ORDER` lists the same fourteen as `ALL`, each once, in another order.
#[verifier::external_body]
pub(crate) fn order_at(place: u8) -> (index: u8)
    requires
        place < GROUP_COUNT,
    ensures
        index == group_order(place),
        index < GROUP_COUNT,
        forall|other: u8| other < GROUP_COUNT && other != place ==> #[trigger] group_order(other) != index,
{
    deepmind_midi::param::Group::ORDER
        .get(usize::from(place))
        .and_then(|group| deepmind_midi::param::Group::ALL.iter().position(|one| one == group))
        .map_or(0, |at| at as u8)
}

/// Returns every section, in the order the instrument lays them out: the
/// library's own order, not the alphabetical one, each section once.
pub fn sections() -> (sections: Vec<Group>)
    ensures
        sections@.len() == GROUP_COUNT,
        forall|k: int| 0 <= k < GROUP_COUNT ==> (#[trigger] sections@[k]).index == group_order(k as u8),
        forall|k: int| 0 <= k < GROUP_COUNT ==> (#[trigger] sections@[k]).index < GROUP_COUNT,
        forall|a: int, b: int| 0 <= a < b < GROUP_COUNT ==> (#[trigger] sections@[a]) != (#[trigger] sections@[b]),
{
    let mut sections: Vec<Group> = Vec::new();
    let mut place: u8 = 0;
    while place < GROUP_COUNT
        invariant
            place <= GROUP_COUNT,
            sections@.len() == place,
            forall|k: int| 0 <= k < place ==> (#[trigger] sections@[k]).index == group_order(k as u8),
            forall|k: int| 0 <= k < place ==> (#[trigger] sections@[k]).index < GROUP_COUNT,
            forall|a: int, b: int| 0 <= a < b < place ==> (#[trigger] sections@[a]) != (#[trigger] sections@[b]),
        decreases GROUP_COUNT - place,
    {
        let index = order_at(place);
        let ghost before = sections@;
        sections.push(Group { index });
        proof {
            assert forall|a: int, b: int| 0 <= a < b < place + 1 implies (#[trigger] sections@[a]) != (#[trigger] sections@[b]) by {
                if b == place {
                    assert(sections@[a] == before[a]);
                    assert(group_order(a as u8) != index);
                } else {
                    assert(sections@[a] == before[a] && sections@[b] == before[b]);
                }
            }
        }
        place = place + 1;
    }
    sections
}

impl Group {
    /// Returns the section at `index`, or nothing past the last one.
    pub fn from_index(index: u8) -> (group: Option<Group>)
        ensures
            group is Some <==> index < GROUP_COUNT,
            group matches Some(g) ==> g.index == index,
    {
        if index < GROUP_COUNT {
            Some(Group { index })
        } else {
            None
        }
    }

    /// Returns what the parameter table calls the section.
    pub fn name(self) -> (name: &'static str)
        requires
            self.index < GROUP_COUNT,
        ensures
            name@ == group_name(self.index),
    {
        name_of(self.index)
    }

    /// Returns the parameters the section holds, in the table's order.
    pub fn parameters(self) -> (members: Vec<ParamId>)
        requires
            self.index < GROUP_COUNT,
        ensures
            members@.map_values(|p: ParamId| p@) == group_members(self.index).filter(
                |o: u8| (o as usize) < PARAMETER_COUNT,
            ),
    {
        let offsets = members_of(self.index);
        let mut members: Vec<ParamId> = Vec::new();
        let mut i: usize = 0;
        while i < offsets.len()
            invariant
                i <= offsets@.len(),
                offsets@ == group_members(self.index),
                members@.map_values(|p: ParamId| p@) == offsets@.subrange(0, i as int).filter(
                    |o: u8| (o as usize) < PARAMETER_COUNT,
                ),
            decreases offsets@.len() - i,
        {
            let ghost before = members@;
            let offset = offsets[i];
            match ParamId::from_offset(offset) {
                Some(parameter) => members.push(parameter),
                None => {},
            }
            proof {
                let keep = |o: u8| (o as usize) < PARAMETER_COUNT;
                let prefix = offsets@.subrange(0, i as int);
                let next = offsets@.subrange(0, i + 1);
                assert(next.drop_last() =~= prefix);
                reveal(Seq::filter);
                assert(next.filter(keep) == (if keep(offset) {
                    prefix.filter(keep).push(offset)
                } else {
                    prefix.filter(keep)
                }));
                assert(members@.map_values(|p: ParamId| p@) =~= next.filter(keep));
            }
            i = i + 1;
        }
        proof {
            assert(offsets@.subrange(0, offsets@.len() as int) =~= offsets@);
        }
        members
    }
}

/// What a [`Patch`] holds, as mathematics: the values once anything has said
/// what they are, what backs the sound as a whole, and what backs each value
/// by parameter offset.
pub struct PatchView {
    pub program: Option<Seq<u8>>,
    pub whole: Confidence,
    pub claims: Seq<Confidence>,
}

/// A sound nobody has read: no values, and nothing backing any of them.
pub open spec fn unread() -> PatchView {
    PatchView {
        program: None,
        whole: Confidence::Unknown,
        claims: Seq::new(PARAMETER_COUNT as nat, |i: int| Confidence::Unknown),
    }
}

/// Every claim the same.
pub open spec fn throughout(claim: Confidence) -> Seq<Confidence> {
    Seq::new(PARAMETER_COUNT as nat, |i: int| claim)
}

/// The weakest claim the parameters at `offsets` make, for a sound that is
/// known; a sound nobody has read is unknown throughout.
pub open spec fn weakest(view: PatchView, offsets: Seq<u8>) -> Confidence {
    if view.program is None {
        Confidence::Unknown
    } else if exists|i: int|
        0 <= i < offsets.len() && view.claims[#[trigger] offsets[i] as int]
            == Confidence::Unknown {
        Confidence::Unknown
    } else if exists|i: int|
        0 <= i < offsets.len() && view.claims[#[trigger] offsets[i] as int]
            == Confidence::Assumed {
        Confidence::Assumed
    } else {
        Confidence::Confirmed
    }
}

/// Whether an edit to `offset` holding `value` moves anything.
pub open spec fn edit_moves(view: PatchView, offset: u8, value: u8) -> bool {
    &&& view.program matches Some(values)
    &&& values[offset as int] != value
    &&& accepts(offset, value as u16)
}

/// The patch after this window moved one parameter.
pub open spec fn edited(view: PatchView, offset: u8, value: u8) -> PatchView {
    PatchView {
        program: Some(view.program.unwrap().update(offset as int, value)),
        whole: Confidence::Assumed,
        claims: view.claims.update(offset as int, Confidence::Assumed),
    }
}

/// Whether a patch's view is as large as the program: a claim for every
/// parameter, and values for every parameter once there are values.
pub open spec fn well_sized(view: PatchView) -> bool {
    &&& view.claims.len() == PARAMETER_COUNT
    &&& view.program matches Some(values) ==> values.len() >= PARAMETER_COUNT
}

/// How strong a claim is: nothing, then an assumption, then the
/// synthesizer's word.
pub open spec fn strength(claim: Confidence) -> int {
    match claim {
        Confidence::Unknown => 0,
        Confidence::Assumed => 1,
        Confidence::Confirmed => 2,
    }
}

/// Whether what backs a patch hangs together: a sound nobody has read is
/// unknown as a whole and in every value; a sound that has been read has
/// something behind every value; and a sound the synthesizer vouches for as
/// a whole is vouched for in every value.
pub open spec fn coherent(view: PatchView) -> bool {
    &&& view.program is None <==> view.whole == Confidence::Unknown
    &&& view.program is None ==> forall|i: int| 0 <= i < view.claims.len() ==> view.claims[i] == Confidence::Unknown
    &&& view.program is Some ==> forall|i: int| 0 <= i < view.claims.len() ==> view.claims[i] != Confidence::Unknown
    &&& view.whole == Confidence::Confirmed ==> forall|i: int|
        0 <= i < view.claims.len() ==> view.claims[i] == Confidence::Confirmed
}

/// A report from the synthesizer keeps what backs the sound coherent, never
/// makes the sound as a whole better backed than it was, and touches no
/// parameter but the one it names.
pub proof fn lemma_report_keeps(view: PatchView, offset: u8, value: u8, confirmed: bool, other: int)
    requires
        coherent(view),
        well_sized(view),
        view.program is Some,
        (offset as usize) < PARAMETER_COUNT,
    ensures
        coherent(reported(view, offset, value, confirmed)),
        well_sized(reported(view, offset, value, confirmed)),
        strength(reported(view, offset, value, confirmed).whole) <= strength(view.whole),
        0 <= other < PARAMETER_COUNT && other != offset ==> {
            &&& reported(view, offset, value, confirmed).program.unwrap()[other] == view.program.unwrap()[other]
            &&& reported(view, offset, value, confirmed).claims[other] == view.claims[other]
        },
{
}

/// The patch after the synthesizer reported one value.
pub open spec fn reported(view: PatchView, offset: u8, value: u8, confirmed: bool) -> PatchView {
    PatchView {
        program: Some(view.program.unwrap().update(offset as int, value)),
        whole: if confirmed {
            view.whole
        } else {
            Confidence::Assumed
        },
        claims: view.claims.update(
            offset as int,
            if confirmed {
                Confidence::Confirmed
            } else {
                Confidence::Assumed
            },
        ),
    }
}

/// The edits that turn `from` into `to` and that each parameter accepts, in
/// offset order, from offset `o` on.
pub open spec fn accepted_moves(from: Seq<u8>, to: Seq<u8>, o: int) -> Seq<(u8, u8)>
    decreases PARAMETER_COUNT - o,
{
    if o >= PARAMETER_COUNT {
        Seq::empty()
    } else {
        let here = if from[o] != to[o] && accepts(o as u8, to[o] as u16) {
            seq![(o as u8, to[o])]
        } else {
            Seq::<(u8, u8)>::empty()
        };
        here + accepted_moves(from, to, o + 1)
    }
}

/// Every difference between `from` and `to`, in offset order, from `o` on.
pub open spec fn differences(from: Seq<u8>, to: Seq<u8>, o: int) -> Seq<(u8, u8)>
    decreases PARAMETER_COUNT - o,
{
    if o >= PARAMETER_COUNT {
        Seq::empty()
    } else {
        let here = if from[o] != to[o] {
            seq![(o as u8, to[o])]
        } else {
            Seq::<(u8, u8)>::empty()
        };
        here + differences(from, to, o + 1)
    }
}

/// The edits in `moves` that the parameters accept.
pub open spec fn taken(moves: Seq<(u8, u8)>) -> Seq<(u8, u8)>
    decreases moves.len(),
{
    if moves.len() == 0 {
        Seq::empty()
    } else {
        let rest = taken(moves.drop_last());
        if accepts(moves.last().0, moves.last().1 as u16) {
            rest.push(moves.last())
        } else {
            rest
        }
    }
}

/// Whether `moves` names the parameter at `o`.
pub open spec fn names(moves: Seq<(u8, u8)>, o: int) -> bool {
    exists|i: int| 0 <= i < moves.len() && (#[trigger] moves[i]).0 == o
}

/// The sound once the edits in `moves`, which name each parameter at most
/// once, have been made.
pub open spec fn made(view: PatchView, moves: Seq<(u8, u8)>) -> PatchView {
    PatchView {
        program: Some(
            Seq::new(
                view.program.unwrap().len(),
                |o: int|
                    if names(moves, o) {
                        moves[choose|i: int| 0 <= i < moves.len() && (#[trigger] moves[i]).0 == o].1
                    } else {
                        view.program.unwrap()[o]
                    },
            ),
        ),
        whole: if moves.len() == 0 {
            view.whole
        } else {
            Confidence::Assumed
        },
        claims: Seq::new(
            view.claims.len(),
            |o: int|
                if names(moves, o) {
                    Confidence::Assumed
                } else {
                    view.claims[o]
                },
        ),
    }
}

/// The edits of a move list, each parameter taken by its offset.
pub open spec fn offsets_of(moves: Seq<(ParamId, u8)>) -> Seq<(u8, u8)> {
    moves.map_values(|m: (ParamId, u8)| (m.0@, m.1))
}

proof fn lemma_changes_unique(c: Seq<(u8, u8)>, from: Seq<u8>, to: Seq<u8>, k: int, o: int)
    requires
        is_changes(c, from, to),
        0 <= k <= c.len(),
        0 <= o <= PARAMETER_COUNT,
        k == c.len() || c[k].0 >= o,
        k == 0 || c[k - 1].0 < o,
    ensures
        c.subrange(k, c.len() as int) == differences(from, to, o),
    decreases PARAMETER_COUNT - o,
{
    if o >= PARAMETER_COUNT {
        if k < c.len() {
            assert(c[k].0 < PARAMETER_COUNT);
        }
        assert(c.subrange(k, c.len() as int) =~= Seq::<(u8, u8)>::empty());
    } else if from[o] != to[o] {
        let i = choose|i: int| 0 <= i < c.len() && (#[trigger] c[i]).0 == o;
        if i < k {
            assert(c[i].0 <= c[k - 1].0);
        }
        if i > k {
            assert(c[k].0 < c[i].0);
        }
        assert(i == k);
        lemma_changes_unique(c, from, to, k + 1, o + 1);
        assert(c[k] == (o as u8, to[o]));
        assert(c.subrange(k, c.len() as int) =~= seq![(o as u8, to[o])] + c.subrange(
            k + 1,
            c.len() as int,
        ));
    } else {
        if k < c.len() {
            assert(from[c[k].0 as int] != to[c[k].0 as int]);
            assert(c[k].0 != o);
        }
        lemma_changes_unique(c, from, to, k, o + 1);
        assert(differences(from, to, o) =~= differences(from, to, o + 1));
    }
}

proof fn lemma_taken_append(a: Seq<(u8, u8)>, b: Seq<(u8, u8)>)
    ensures
        taken(a + b) == taken(a) + taken(b),
    decreases b.len(),
{
    if b.len() == 0 {
        assert(a + b =~= a);
        assert(taken(a) + taken(b) =~= taken(a));
    } else {
        lemma_taken_append(a, b.drop_last());
        assert((a + b).drop_last() =~= a + b.drop_last());
        assert((a + b).last() == b.last());
        if accepts(b.last().0, b.last().1 as u16) {
            assert(taken(a) + taken(b) =~= (taken(a) + taken(b.drop_last())).push(b.last()));
        } else {
            assert(taken(a) + taken(b) =~= taken(a) + taken(b.drop_last()));
        }
    }
}

proof fn lemma_taken_differences(from: Seq<u8>, to: Seq<u8>, o: int)
    requires
        0 <= o <= PARAMETER_COUNT,
    ensures
        taken(differences(from, to, o)) == accepted_moves(from, to, o),
    decreases PARAMETER_COUNT - o,
{
    if o < PARAMETER_COUNT {
        lemma_taken_differences(from, to, o + 1);
        let here = if from[o] != to[o] {
            seq![(o as u8, to[o])]
        } else {
            Seq::<(u8, u8)>::empty()
        };
        lemma_taken_append(here, differences(from, to, o + 1));
        if from[o] != to[o] {
            assert(here.drop_last() =~= Seq::<(u8, u8)>::empty());
            assert(taken(Seq::<(u8, u8)>::empty()) == Seq::<(u8, u8)>::empty());
            assert(taken(here) == taken(here.drop_last()).push(here.last()) || taken(here) == taken(
                here.drop_last(),
            ));
        } else {
            assert(taken(here) == Seq::<(u8, u8)>::empty());
        }
        if from[o] != to[o] && accepts(o as u8, to[o] as u16) {
            assert(taken(here) =~= seq![(o as u8, to[o])]);
        } else {
            assert(taken(here) =~= Seq::<(u8, u8)>::empty());
        }
    }
}

proof fn lemma_accepted_moves_shape(from: Seq<u8>, to: Seq<u8>, o: int)
    requires
        0 <= o <= PARAMETER_COUNT,
    ensures
        forall|i: int|
            0 <= i < accepted_moves(from, to, o).len() ==> {
                let m = #[trigger] accepted_moves(from, to, o)[i];
                &&& o <= m.0 < PARAMETER_COUNT
                &&& from[m.0 as int] != to[m.0 as int]
                &&& accepts(m.0, m.1 as u16)
                &&& m.1 == to[m.0 as int]
            },
        forall|p: int|
            o <= p < PARAMETER_COUNT && from[p] != to[p] && accepts(p as u8, to[p] as u16)
                ==> names(accepted_moves(from, to, o), p),
    decreases PARAMETER_COUNT - o,
{
    if o < PARAMETER_COUNT {
        lemma_accepted_moves_shape(from, to, o + 1);
        let rest = accepted_moves(from, to, o + 1);
        let all = accepted_moves(from, to, o);
        let here = if from[o] != to[o] && accepts(o as u8, to[o] as u16) {
            seq![(o as u8, to[o])]
        } else {
            Seq::<(u8, u8)>::empty()
        };
        assert(all == here + rest);
        assert forall|p: int|
            o <= p < PARAMETER_COUNT && from[p] != to[p] && accepts(p as u8, to[p] as u16)
                implies names(all, p) by {
            if p == o {
                assert(all[0].0 == p);
            } else {
                let i = choose|i: int| 0 <= i < rest.len() && (#[trigger] rest[i]).0 == p;
                assert(all[i + here.len()] == rest[i]);
            }
        }
        assert forall|i: int| 0 <= i < all.len() implies {
            let m = #[trigger] all[i];
            &&& o <= m.0 < PARAMETER_COUNT
            &&& from[m.0 as int] != to[m.0 as int]
            &&& accepts(m.0, m.1 as u16)
            &&& m.1 == to[m.0 as int]
        } by {
            if i >= here.len() {
                assert(all[i] == rest[i - here.len()]);
            }
        }
    }
}

proof fn lemma_nothing_to_move(from: Seq<u8>, to: Seq<u8>, o: int)
    requires
        0 <= o <= PARAMETER_COUNT,
        forall|p: int|
            o <= p < PARAMETER_COUNT ==> from[p] == to[p] || !accepts(p as u8, to[p] as u16),
    ensures
        accepted_moves(from, to, o).len() == 0,
    decreases PARAMETER_COUNT - o,
{
    if o < PARAMETER_COUNT {
        lemma_nothing_to_move(from, to, o + 1);
    }
}

/// Renaming a sound to the name it was just given moves nothing: every
/// character that could move already did.
pub proof fn lemma_rename_settles(view: PatchView, name: Seq<u8>)
    requires
        view.program is Some,
        view.program.unwrap().len() >= PARAMETER_COUNT,
    ensures
        ({
            let values = view.program.unwrap();
            let after = made(view, accepted_moves(values, with_name(values, name), 0)).program.unwrap();
            accepted_moves(after, with_name(after, name), 0).len() == 0
        }),
{
    let values = view.program.unwrap();
    let target = with_name(values, name);
    let first = accepted_moves(values, target, 0);
    let after = made(view, first).program.unwrap();
    lemma_accepted_moves_shape(values, target, 0);
    assert forall|p: int| 0 <= p < values.len() && !(NAME_OFFSET <= p < NAME_OFFSET + NAME_LEN) implies after[p] == values[p] by {
        if names(first, p) {
            let i = choose|i: int| 0 <= i < first.len() && (#[trigger] first[i]).0 == p;
            assert(values[p] != target[p]);
        }
    }
    assert(with_name(after, name) =~= target);
    assert forall|p: int| 0 <= p < PARAMETER_COUNT implies after[p] == target[p] || !accepts(p as u8, target[p] as u16) by {
        if names(first, p) {
            let i = choose|i: int| 0 <= i < first.len() && (#[trigger] first[i]).0 == p;
            assert(first[i].1 == target[p]);
        }
    }
    lemma_nothing_to_move(after, target, 0);
}

/// Setting a parameter to where this window just put it moves nothing.
pub proof fn lemma_edit_settles(view: PatchView, offset: u8, value: u8)
    requires
        edit_moves(view, offset, value),
        (offset as int) < view.program.unwrap().len(),
    ensures
        !edit_moves(edited(view, offset, value), offset, value),
{
}

/// An edit touches the one parameter it names: every other value, and what
/// backs it, is as it was.
pub proof fn lemma_edit_is_local(view: PatchView, offset: u8, value: u8, other: int)
    requires
        edit_moves(view, offset, value),
        (offset as int) < view.program.unwrap().len(),
        (offset as int) < view.claims.len(),
        0 <= other < view.program.unwrap().len(),
        other < view.claims.len(),
        other != offset,
    ensures
        edited(view, offset, value).program.unwrap()[other] == view.program.unwrap()[other],
        edited(view, offset, value).claims[other] == view.claims[other],
{
}

/// What the interface believes the synthesizer is making, and why.
#[derive(Debug)]
pub struct Patch {
    /// The values, once anything has told us what they are.
    program: Option<Program>,
    /// What backs the sound as a whole.
    whole: Confidence,
    /// What backs each value, by parameter offset.
    claims: Vec<Confidence>,
}

impl View for Patch {
    type V = PatchView;

    closed spec fn view(&self) -> PatchView {
        PatchView {
            program: match self.program {
                Some(p) => Some(p@),
                None => None,
            },
            whole: self.whole,
            claims: self.claims@,
        }
    }
}

fn all(claim: Confidence) -> (claims: Vec<Confidence>)
    ensures
        claims@ == throughout(claim),
{
    let mut claims: Vec<Confidence> = Vec::new();
    let mut i: usize = 0;
    while i < PARAMETER_COUNT
        invariant
            i <= PARAMETER_COUNT,
            claims@ == Seq::new(i as nat, |j: int| claim),
        decreases PARAMETER_COUNT - i,
    {
        claims.push(claim);
        i = i + 1;
        proof {
            assert(claims@ =~= Seq::new(i as nat, |j: int| claim));
        }
    }
    claims
}

impl Default for Patch {
    fn default() -> (patch: Patch)
        ensures
            patch@ == unread(),
    {
        Patch::new()
    }
}

impl Patch {
    #[verifier::type_invariant]
    spec fn claim_per_parameter(self) -> bool {
        &&& self.claims@.len() == PARAMETER_COUNT
        &&& self.program matches Some(p) ==> p@.len() >= PARAMETER_COUNT
    }

    /// The protocol version the held program is written in, where there is
    /// one.
    pub closed spec fn held_version(&self) -> Option<crate::program::ProtocolVersion> {
        match self.program {
            Some(p) => Some(p.version_of()),
            None => None,
        }
    }

    /// A sound nobody has read: no values, and no claims about any.
    pub fn new() -> (patch: Patch)
        ensures
            patch@ == unread(),
            patch.held_version() is None,
    {
        let patch = Patch { program: None, whole: Confidence::Unknown, claims: all(Confidence::Unknown) };
        proof {
            assert(patch@.claims =~= unread().claims);
        }
        patch
    }

    /// Returns the program, once one is known.
    pub fn program(&self) -> (program: Option<&Program>)
        ensures
            program is Some <==> self@.program is Some,
            program matches Some(p) ==> self@.program == Some(p@) && self.held_version() == Some(p.version_of()),
            well_sized(self@),
    {
        proof {
            use_type_invariant(self);
        }
        match &self.program {
            Some(p) => Some(p),
            None => None,
        }
    }

    /// Returns whether anything is known about the sound at all.
    pub fn is_known(&self) -> (known: bool)
        ensures
            known == self@.program is Some,
            well_sized(self@),
    {
        proof {
            use_type_invariant(self);
        }
        self.program.is_some()
    }

    /// Returns what backs the sound as a whole.
    pub fn confidence(&self) -> (whole: Confidence)
        ensures
            whole == self@.whole,
    {
        self.whole
    }

    /// Returns what backs one parameter's value.
    pub fn claim(&self, parameter: ParamId) -> (claim: Confidence)
        ensures
            claim == self@.claims[parameter@ as int],
    {
        proof {
            use_type_invariant(self);
        }
        self.claims[parameter.offset() as usize]
    }

    /// Returns what backs a handful of values taken together: the weakest
    /// claim any of them makes.
    pub fn claim_across(&self, parameters: &[ParamId]) -> (claim: Confidence)
        ensures
            claim == weakest(self@, parameters@.map_values(|p: ParamId| p@)),
    {
        proof {
            use_type_invariant(self);
        }
        let ghost offsets = parameters@.map_values(|p: ParamId| p@);
        if self.program.is_none() {
            return Confidence::Unknown;
        }
        let mut claim = Confidence::Confirmed;
        let mut i: usize = 0;
        while i < parameters.len()
            invariant
                i <= parameters@.len(),
                offsets == parameters@.map_values(|p: ParamId| p@),
                self.claims@.len() == PARAMETER_COUNT,
                forall|j: int|
                    0 <= j < i ==> self.claims@[#[trigger] offsets[j] as int]
                        != Confidence::Unknown,
                claim == Confidence::Assumed <==> exists|j: int|
                    0 <= j < i && self.claims@[#[trigger] offsets[j] as int]
                        == Confidence::Assumed,
                claim != Confidence::Unknown,
            decreases parameters@.len() - i,
        {
            let parameter = parameters[i];
            let here = self.claim(parameter);
            proof {
                assert(offsets[i as int] == parameter@);
            }
            match here {
                Confidence::Unknown => {
                    return Confidence::Unknown;
                },
                Confidence::Assumed => {
                    claim = Confidence::Assumed;
                },
                Confidence::Confirmed => {},
            }
            i = i + 1;
        }
        claim
    }

    /// Returns what backs a whole section's worth of values.
    pub fn claim_of(&self, group: Group) -> (claim: Confidence)
        requires
            group.index < GROUP_COUNT,
        ensures
            claim == weakest(
                self@,
                group_members(group.index).filter(|o: u8| (o as usize) < PARAMETER_COUNT),
            ),
    {
        let members = group.parameters();
        self.claim_across(members.as_slice())
    }

    /// Returns one parameter's value, once one is known.
    pub fn value(&self, parameter: ParamId) -> (value: Option<u8>)
        ensures
            value is Some <==> self@.program is Some,
            value matches Some(v) ==> v == self@.program.unwrap()[parameter@ as int],
    {
        match &self.program {
            Some(program) => Some(program.get(parameter)),
            None => None,
        }
    }

    /// Returns the program's name, once one is known.
    pub fn name(&self) -> (name: Option<ProgramName>)
        ensures
            name is Some <==> self@.program is Some,
            name matches Some(n) ==> n@ == decoded(name_field(self@.program.unwrap())),
    {
        match &self.program {
            Some(program) => Some(program.name()),
            None => None,
        }
    }

    /// Takes a dump the synthesizer sent: every value and every claim is now
    /// the synthesizer's.
    pub fn confirm(&mut self, program: Program)
        ensures
            final(self).held_version() == Some(program.version_of()),
            final(self)@ == (PatchView {
                program: Some(program@),
                whole: Confidence::Confirmed,
                claims: throughout(Confidence::Confirmed),
            }),
    {
        let _ = program.version();
        *self = Patch { program: Some(program), whole: Confidence::Confirmed, claims: all(Confidence::Confirmed) };
    }

    /// Takes a program from somewhere that is not the synthesizer: nothing in
    /// it is confirmed.
    pub fn presume(&mut self, program: Program)
        ensures
            final(self).held_version() == Some(program.version_of()),
            final(self)@ == (PatchView {
                program: Some(program@),
                whole: Confidence::Assumed,
                claims: throughout(Confidence::Assumed),
            }),
    {
        let _ = program.version();
        *self = Patch { program: Some(program), whole: Confidence::Assumed, claims: all(Confidence::Assumed) };
    }

    /// Moves a parameter because somebody in this window moved it, and says
    /// whether that changed anything.
    pub fn edit(&mut self, parameter: ParamId, value: u8) -> (changed: bool)
        ensures
            final(self).held_version() == old(self).held_version(),
            changed == edit_moves(old(self)@, parameter@, value),
            changed ==> final(self)@ == edited(old(self)@, parameter@, value),
            !changed ==> final(self)@ == old(self)@,
    {
        proof {
            use_type_invariant(&*self);
        }
        let mut program = match &self.program {
            Some(program) => program.copied(),
            None => {
                return false;
            },
        };
        if program.get(parameter) == value {
            return false;
        }
        if program.set(parameter, value).is_err() {
            return false;
        }
        let mut claims = self.claims.clone();
        proof {
            assert(claims@ =~= self.claims@);
        }
        claims.set(parameter.offset() as usize, Confidence::Assumed);
        *self = Patch { program: Some(program), whole: Confidence::Assumed, claims };
        true
    }

    /// Takes a value the synthesizer reported; a report about a sound nobody
    /// has read, or of a value the parameter does not accept, changes nothing.
    pub fn report(&mut self, parameter: ParamId, value: u8, confirmed: bool)
        ensures
            final(self).held_version() == old(self).held_version(),
            old(self)@.program is Some && accepts(parameter@, value as u16) ==> final(self)@
                == reported(old(self)@, parameter@, value, confirmed),
            !(old(self)@.program is Some && accepts(parameter@, value as u16)) ==> final(self)@
                == old(self)@,
    {
        proof {
            use_type_invariant(&*self);
        }
        let mut program = match &self.program {
            Some(program) => program.copied(),
            None => {
                return ;
            },
        };
        if program.set(parameter, value).is_err() {
            return ;
        }
        let claim = if confirmed {
            Confidence::Confirmed
        } else {
            Confidence::Assumed
        };
        let mut claims = self.claims.clone();
        proof {
            assert(claims@ =~= self.claims@);
        }
        claims.set(parameter.offset() as usize, claim);
        let whole = if confirmed {
            self.whole
        } else {
            Confidence::Assumed
        };
        *self = Patch { program: Some(program), whole, claims };
    }

    /// Names the program, and returns the parameters that moved and what
    /// they moved to: one edit for each character that is not already what it
    /// should be and that its parameter accepts. Nothing moves for a sound
    /// nobody has read.
    #[verifier::rlimit(80)]
    #[verifier::spinoff_prover]
    pub fn rename(&mut self, name: ProgramName) -> (moved: Vec<(ParamId, u8)>)
        ensures
            final(self).held_version() == old(self).held_version(),
            old(self)@.program is None ==> moved@.len() == 0 && final(self)@ == old(self)@,
            old(self)@.program matches Some(values) ==> {
                &&& offsets_of(moved@) == accepted_moves(values, with_name(values, name@), 0)
                &&& final(self)@ == made(old(self)@, offsets_of(moved@))
            },
    {
        proof {
            use_type_invariant(&*self);
        }
        let named = match &self.program {
            Some(program) => {
                let mut named = program.copied();
                named.set_name(&name);
                named
            },
            None => {
                return Vec::new();
            },
        };
        let changes = match &self.program {
            Some(program) => program.changes(&named),
            None => {
                return Vec::new();
            },
        };
        let ghost values = old(self)@.program.unwrap();
        let ghost target = with_name(values, name@);
        let ghost c = offsets_of(changes@);
        proof {
            assert(named@ == target);
            assert(is_changes(c, values, target));
        }
        let mut moved: Vec<(ParamId, u8)> = Vec::new();
        let mut i: usize = 0;
        while i < changes.len()
            invariant
                i <= changes@.len(),
                c == offsets_of(changes@),
                is_changes(c, values, target),
                values.len() >= PARAMETER_COUNT,
                self@.program is Some,
                self.held_version() == old(self).held_version(),
                self@.program.unwrap().len() == values.len(),
                self@.claims.len() == old(self)@.claims.len(),
                old(self)@.claims.len() == PARAMETER_COUNT,
                offsets_of(moved@) == taken(c.subrange(0, i as int)),
                forall|j: int| 0 <= j < moved@.len() ==> (i > 0 && (#[trigger] offsets_of(moved@)[j]).0 <= c[i - 1].0),
                forall|j: int, l: int| 0 <= j < l < moved@.len() ==> offsets_of(moved@)[j].0 < offsets_of(moved@)[l].0,
                forall|j: int| 0 <= j < moved@.len() ==> (#[trigger] offsets_of(moved@)[j]).1 == target[offsets_of(moved@)[j].0 as int],
                forall|o: int|
                    0 <= o < values.len() ==> if names(offsets_of(moved@), o) {
                        #[trigger] self@.program.unwrap()[o] == target[o]
                    } else {
                        self@.program.unwrap()[o] == values[o]
                    },
                forall|o: int|
                    0 <= o < old(self)@.claims.len() ==> if names(offsets_of(moved@), o) {
                        #[trigger] self@.claims[o] == Confidence::Assumed
                    } else {
                        self@.claims[o] == old(self)@.claims[o]
                    },
                self@.whole == (if moved@.len() == 0 {
                    old(self)@.whole
                } else {
                    Confidence::Assumed
                }),
            decreases changes@.len() - i,
        {
            let (parameter, value) = changes[i];
            let ghost before = *self;
            let ghost was = offsets_of(moved@);
            proof {
                assert(c[i as int] == (parameter@, value));
                assert(parameter@ < PARAMETER_COUNT);
                if names(was, parameter@ as int) {
                    let j = choose|j: int| 0 <= j < was.len() && (#[trigger] was[j]).0 == parameter@;
                    assert(c[i - 1].0 < c[i as int].0);
                }
                assert(self@.program.unwrap()[parameter@ as int] == values[parameter@ as int]);
            }
            let changed = self.edit(parameter, value);
            if changed {
                moved.push((parameter, value));
            }
            proof {
                let now = offsets_of(moved@);
                let prefix = c.subrange(0, i as int);
                let next = c.subrange(0, i + 1);
                assert(next.drop_last() =~= prefix);
                assert(next.last() == (parameter@, value));
                assert(changed == accepts(parameter@, value as u16));
                if changed {
                    assert(now =~= was.push((parameter@, value)));
                } else {
                    assert(now =~= was);
                }
                assert(now == taken(next));
                assert forall|o: int|
                    0 <= o < values.len() implies if names(now, o) {
                        #[trigger] self@.program.unwrap()[o] == target[o]
                    } else {
                        self@.program.unwrap()[o] == values[o]
                    } by {
                    if changed && o == parameter@ {
                        assert(now[now.len() - 1].0 == o);
                    } else if names(now, o) {
                        let j = choose|j: int| 0 <= j < now.len() && (#[trigger] now[j]).0 == o;
                        assert(was[j].0 == o);
                    } else {
                        if names(was, o) {
                            let j = choose|j: int| 0 <= j < was.len() && (#[trigger] was[j]).0 == o;
                            assert(now[j].0 == o);
                        }
                    }
                }
                assert forall|o: int|
                    0 <= o < old(self)@.claims.len() implies if names(now, o) {
                        #[trigger] self@.claims[o] == Confidence::Assumed
                    } else {
                        self@.claims[o] == old(self)@.claims[o]
                    } by {
                    if changed && o == parameter@ {
                        assert(now[now.len() - 1].0 == o);
                    } else if names(now, o) {
                        let j = choose|j: int| 0 <= j < now.len() && (#[trigger] now[j]).0 == o;
                        assert(was[j].0 == o);
                    } else {
                        if names(was, o) {
                            let j = choose|j: int| 0 <= j < was.len() && (#[trigger] was[j]).0 == o;
                            assert(now[j].0 == o);
                        }
                    }
                }
            }
            i = i + 1;
        }
        proof {
            let mv = offsets_of(moved@);
            assert(c.subrange(0, c.len() as int) =~= c);
            lemma_changes_unique(c, values, target, 0, 0);
            assert(c.subrange(0, c.len() as int) =~= c);
            lemma_taken_differences(values, target, 0);
            assert(mv == accepted_moves(values, target, 0));
            let expected = made(old(self)@, mv);
            assert forall|o: int| 0 <= o < values.len() implies self@.program.unwrap()[o] == expected.program.unwrap()[o] by {
                if names(mv, o) {
                    let j = choose|j: int| 0 <= j < mv.len() && (#[trigger] mv[j]).0 == o;
                    assert(mv[j].1 == target[o]);
                }
            }
            assert(self@.program.unwrap() =~= expected.program.unwrap());
            assert(self@.claims =~= expected.claims);
        }
        moved
    }

    /// Forgets everything, because the port is not there any more.
    pub fn forget(&mut self)
        ensures
            final(self).held_version() is None,
            final(self)@ == unread(),
    {
        *self = Patch::new();
    }
}

} // verus!
