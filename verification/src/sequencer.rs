//! The control sequencer, drawn as one strip of steps.

use vstd::prelude::*;
use crate::text::{digits, decimal, string_of, chars_of};
use crate::patch::{Group, Patch, group_members, GROUP_COUNT};
use crate::program::{ParamId, PARAMETER_COUNT, parameter_name, parameter_bound, parameter_min};

verus! {

/// The number printed under the step at `index`, which counts from one as the
/// panel does: the first step and every fourth one, and nothing under the
/// rest, because a sequencer is counted in fours.
pub open spec fn number_spec(index: nat) -> Seq<char> {
    let step = index + 1;
    if step == 1 || step % 4 == 0 {
        digits(step)
    } else {
        Seq::empty()
    }
}

/// Returns the number printed under the step at `index`.
pub fn number(index: usize) -> (said: String)
    requires
        index < usize::MAX,
    ensures
        said@ == number_spec(index as nat),
{
    let step: usize = index + 1;
    if step == 1 || step % 4 == 0 {
        string_of(&decimal(step as u64))
    } else {
        String::new()
    }
}

/// What the library calls a step, before its number.
pub open spec fn step_prefix() -> Seq<char> {
    "Seq Step Value "@
}

/// Whether the parameter at `offset` is a step: its name begins with what
/// the library calls one.
pub open spec fn is_step(offset: u8) -> bool {
    let name = parameter_name(offset);
    name.len() >= step_prefix().len() && name.subrange(0, step_prefix().len() as int) == step_prefix()
}

/// The parameters a section holds, by offset.
pub open spec fn section_offsets(group: Group) -> Seq<u8> {
    group_members(group.index).filter(|o: u8| (o as usize) < PARAMETER_COUNT)
}

/// Whether offsets run upwards.
pub open spec fn ascending(offsets: Seq<u8>) -> bool {
    forall|i: int, j: int| 0 <= i < j < offsets.len() ==> offsets[i] <= offsets[j]
}

/// A run of parameters, by offset.
pub open spec fn offsets_of(parameters: Seq<ParamId>) -> Seq<u8> {
    parameters.map_values(|p: ParamId| p@)
}

/// Returns whether `name` begins with what the library calls a step.
fn named_step(name: &str) -> (yes: bool)
    ensures
        yes == (name@.len() >= step_prefix().len() && name@.subrange(0, step_prefix().len() as int) == step_prefix()),
{
    let text = chars_of(name);
    let prefix = chars_of("Seq Step Value ");
    if text.len() < prefix.len() {
        return false;
    }
    let mut i: usize = 0;
    while i < prefix.len()
        invariant
            i <= prefix@.len(),
            prefix@ == step_prefix(),
            text@ == name@,
            text@.len() >= prefix@.len(),
            forall|k: int| 0 <= k < i ==> text@[k] == prefix@[k],
        decreases prefix@.len() - i,
    {
        if text[i] != prefix[i] {
            proof {
                assert(name@.subrange(0, step_prefix().len() as int)[i as int] != step_prefix()[i as int]);
            }
            return false;
        }
        i = i + 1;
    }
    proof {
        assert(name@.subrange(0, step_prefix().len() as int) =~= step_prefix());
    }
    true
}

/// Returns `parameters` in offset order.
fn in_offset_order(parameters: Vec<ParamId>) -> (sorted: Vec<ParamId>)
    ensures
        ascending(offsets_of(sorted@)),
        offsets_of(sorted@).to_multiset() == offsets_of(parameters@).to_multiset(),
{
    let mut sorted: Vec<ParamId> = Vec::new();
    let mut i: usize = 0;
    proof {
        assert(offsets_of(sorted@) =~= offsets_of(parameters@.take(0)));
    }
    while i < parameters.len()
        invariant
            i <= parameters@.len(),
            ascending(offsets_of(sorted@)),
            offsets_of(sorted@).to_multiset() == offsets_of(parameters@.take(i as int)).to_multiset(),
        decreases parameters@.len() - i,
    {
        let one = parameters[i];
        let mut at: usize = 0;
        while at < sorted.len() && sorted[at].offset() <= one.offset()
            invariant
                at <= sorted@.len(),
                forall|k: int| 0 <= k < at ==> #[trigger] offsets_of(sorted@)[k] <= one@,
            decreases sorted@.len() - at,
        {
            at = at + 1;
        }
        let ghost before = sorted@;
        sorted.insert(at, one);
        proof {
            assert(offsets_of(sorted@) =~= offsets_of(before).insert(at as int, one@));
            assert(offsets_of(parameters@.take(i + 1)) =~= offsets_of(parameters@.take(i as int)).push(one@));
            vstd::seq_lib::to_multiset_insert(offsets_of(before), at as int, one@);
            vstd::seq_lib::to_multiset_build(offsets_of(parameters@.take(i as int)), one@);
            assert forall|a: int, b: int| 0 <= a < b < offsets_of(sorted@).len() implies offsets_of(sorted@)[a] <= offsets_of(sorted@)[b] by {
                let o = offsets_of(before);
                if at < o.len() {
                    assert(o[at as int] > one@);
                }
                if b < at {
                } else if b == at {
                    assert(offsets_of(sorted@)[a] == o[a]);
                } else if a == at {
                    assert(offsets_of(sorted@)[b] == o[b - 1]);
                    assert(o[at as int] <= o[b - 1]);
                } else if a < at {
                    assert(offsets_of(sorted@)[b] == o[b - 1]);
                } else {
                    assert(offsets_of(sorted@)[a] == o[a - 1]);
                    assert(offsets_of(sorted@)[b] == o[b - 1]);
                }
            }
        }
        i = i + 1;
    }
    proof {
        assert(parameters@.take(parameters@.len() as int) =~= parameters@);
    }
    sorted
}

/// The steps of a section, by offset, in the order the table lists them.
pub open spec fn found_steps(group: Group) -> Seq<u8> {
    section_offsets(group).filter(|o: u8| is_step(o))
}

/// Returns the steps of `group`, in the order the instrument plays them:
/// every parameter of it the library calls a step, in offset order, or
/// nothing for a section with no steps.
pub fn steps(group: Group) -> (steps: Option<Vec<ParamId>>)
    requires
        group.index < GROUP_COUNT,
    ensures
        steps is None <==> found_steps(group).len() == 0,
        steps matches Some(s) ==> ascending(offsets_of(s@))
            && offsets_of(s@).to_multiset() == found_steps(group).to_multiset(),
{
    let members = group.parameters();
    let ghost all = offsets_of(members@);
    let mut found: Vec<ParamId> = Vec::new();
    let mut i: usize = 0;
    while i < members.len()
        invariant
            i <= members@.len(),
            all == offsets_of(members@),
            all == section_offsets(group),
            offsets_of(found@) == all.take(i as int).filter(|o: u8| is_step(o)),
        decreases members@.len() - i,
    {
        let one = members[i];
        let ghost before = found@;
        proof {
            assert(all.take(i + 1) =~= all.take(i as int).push(one@));
            all.take(i as int).lemma_filter_push(one@, |o: u8| is_step(o));
        }
        if named_step(one.name()) {
            found.push(one);
            proof {
                assert(offsets_of(found@) =~= offsets_of(before).push(one@));
            }
        }
        i = i + 1;
    }
    proof {
        assert(all.take(members@.len() as int) =~= all);
    }
    if found.len() == 0 {
        return None;
    }
    Some(in_offset_order(found))
}

/// Returns the parameters the strip draws, which the rack then leaves alone:
/// nothing for a section that is not a sequencer.
pub fn stepped(group: Group) -> (steps: Vec<ParamId>)
    requires
        group.index < GROUP_COUNT,
    ensures
        found_steps(group).len() == 0 ==> steps@.len() == 0,
        found_steps(group).len() != 0 ==> ascending(offsets_of(steps@))
            && offsets_of(steps@).to_multiset() == found_steps(group).to_multiset(),
{
    match steps(group) {
        Some(found) => found,
        None => Vec::new(),
    }
}

/// How many of a run of steps are played: the bound's value counted from its
/// own floor and from one, and never more than the run, or nothing where
/// nothing bounds the run or its value has not been read.
pub open spec fn played_spec(values: Option<Seq<u8>>, steps: Seq<u8>) -> Option<int> {
    if steps.len() == 0 {
        None
    } else {
        match parameter_bound(steps[0]) {
            None => None,
            Some(bound) => {
                if !((bound as usize) < PARAMETER_COUNT) {
                    None
                } else {
                    match values {
                        None => None,
                        Some(v) => {
                            let floor: int = if parameter_min(bound) <= 255 { parameter_min(bound) as int } else { 0 };
                            let value: int = v[bound as int] as int;
                            let counted = (if value > floor { value - floor } else { 0 }) + 1;
                            Some(if counted < steps.len() { counted } else { steps.len() as int })
                        },
                    }
                }
            },
        }
    }
}

/// Returns how many of the run are played, when the library says what
/// bounds it and its value has been read.
pub fn played(patch: &Patch, steps: &[ParamId]) -> (count: Option<usize>)
    ensures
        count matches Some(c) ==> played_spec(patch@.program, offsets_of(steps@)) == Some(c as int),
        count is None ==> played_spec(patch@.program, offsets_of(steps@)) is None,
{
    if steps.len() == 0 {
        return None;
    }
    proof {
        assert(offsets_of(steps@)[0] == steps@[0]@);
    }
    let bound = match steps[0].bounded_by() {
        Some(bound) => bound,
        None => return None,
    };
    let value = match patch.value(bound) {
        Some(value) => value,
        None => return None,
    };
    let least = bound.min();
    let floor: usize = if least <= 255 { least as usize } else { 0 };
    let counted: usize = (if value as usize > floor { value as usize - floor } else { 0 }) + 1;
    Some(if counted < steps.len() { counted } else { steps.len() })
}

} // verus!
