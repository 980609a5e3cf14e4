//! The panels a section is drawn as: what a value of a named set is stored
//! as, and what a reading under a control says.

use vstd::prelude::*;
use crate::program::{ParamId, PARAMETER_COUNT, parameter_inactive, parameter_centre};
use crate::text::{digits, decimal, string_of};
use crate::program::NAME_OFFSET;
use crate::patch::{Group, GROUP_COUNT, group_members};
use crate::matrix::{flattened, routings_spec, offsets_of_params};
use crate::sequencer::{section_offsets, found_steps};
use crate::name::name_offsets;

verus! {

/// One value of a named set, as a list shows it.
#[derive(Debug, Clone, Copy)]
pub struct Choice {
    /// The value the table gives it.
    pub value: u16,
    /// What the table calls it.
    pub name: &'static str,
}

/// The program byte a value is stored as: itself where it fits in one, and
/// the largest byte where it does not.
pub open spec fn byte_of(value: u16) -> u8 {
    if value <= 255 { value as u8 } else { 255 }
}

impl Choice {
    /// Returns the value as the program byte it is stored as.
    pub fn byte(self) -> (byte: u8)
        ensures
            byte == byte_of(self.value),
    {
        if self.value <= 255 {
            self.value as u8
        } else {
            255
        }
    }
}

/// A firmware version as a unit reports it, which decides what some of the
/// instrument's value tables say.
#[derive(Debug, Clone, Copy, PartialEq, Eq, Structural)]
pub struct Firmware {
    /// Major version.
    pub major: u8,
    /// Minor version.
    pub minor: u8,
}

/// The named values a parameter takes on a firmware, as the instrument's
/// tables list them, each value with what the display calls it; nothing for
/// a parameter that is not one of a named set, or whose table does not name
/// every value it accepts.
pub uninterp spec fn value_names(offset: u8, major: u8, minor: u8) -> Option<Seq<(u16, Seq<char>)>>;

/// A choice as plain values.
pub open spec fn choice_view(choice: Choice) -> (u16, Seq<char>) {
    (choice.value, choice.name@)
}

/// A list of choices as plain values.
pub open spec fn choices_view(options: Seq<Choice>) -> Seq<(u16, Seq<char>)> {
    options.map_values(|c: Choice| choice_view(c))
}

/// `deepmind_midi::param::ParamId::choices_for`, for the parameter at
/// `offset` on this firmware.
///
/// Trusted to return the table's entries for the values the parameter
/// accepts, in the table's order, each as its value and name, named
/// [`value_names`]; `None` where the library gives none.
#[verifier::external_body]
fn choices_for(offset: u8, firmware: Firmware) -> (entries: Option<Vec<Choice>>)
    requires
        (offset as usize) < PARAMETER_COUNT,
    ensures
        match entries {
            Some(e) => value_names(offset, firmware.major, firmware.minor) == Some(choices_view(e@)),
            None => value_names(offset, firmware.major, firmware.minor) is None,
        },
{
    let parameter = deepmind_midi::param::ParamId::from_offset(offset).ok()?;
    let entries = parameter.choices_for(
        deepmind_midi::sysex::inquiry::Version { major: firmware.major, minor: firmware.minor },
    )?;
    Some(entries.iter().map(|entry| Choice { value: entry.value, name: entry.name }).collect())
}

/// Whether a list of choices has one for `value`.
pub open spec fn lists_value(names: Seq<(u16, Seq<char>)>, value: u16) -> bool {
    exists|i: int| 0 <= i < names.len() && (#[trigger] names[i]).0 == value
}

/// The list a control of a named set offers: the table's names, where the
/// value it holds, if it holds one, is among them.
pub open spec fn choices_spec(offset: u8, firmware: Firmware, value: Option<u8>) -> Option<Seq<(u16, Seq<char>)>> {
    match value_names(offset, firmware.major, firmware.minor) {
        None => None,
        Some(names) => match value {
            Some(v) => if lists_value(names, v as u16) {
                Some(names)
            } else {
                None
            },
            None => Some(names),
        },
    }
}

/// Returns the list a control of a named set offers on this firmware.
///
/// `None` for a parameter the tables do not list, and for a value the list
/// has no entry for: a list that cannot show what is selected is not drawn
/// as a list.
pub fn choices(parameter: ParamId, firmware: Firmware, value: Option<u8>) -> (options: Option<Vec<Choice>>)
    ensures
        match options {
            Some(o) => choices_spec(parameter@, firmware, value) == Some(choices_view(o@)),
            None => choices_spec(parameter@, firmware, value) is None,
        },
{
    let options = match choices_for(parameter.offset(), firmware) {
        Some(options) => options,
        None => return None,
    };
    let ghost names = choices_view(options@);
    match value {
        None => Some(options),
        Some(v) => {
            let mut i: usize = 0;
            while i < options.len()
                invariant
                    i <= options@.len(),
                    names == choices_view(options@),
                    value_names(parameter@, firmware.major, firmware.minor) == Some(names),
                    value == Some(v),
                    forall|k: int| 0 <= k < i ==> (#[trigger] names[k]).0 != v as u16,
                decreases options@.len() - i,
            {
                if options[i].value == v as u16 {
                    proof {
                        assert(names[i as int].0 == v as u16);
                        assert(lists_value(names, v as u16));
                    }
                    return Some(options);
                }
                i = i + 1;
            }
            proof {
                assert(!lists_value(names, v as u16));
            }
            None
        },
    }
}

/// A reading with its sign always written, the zero included.
pub open spec fn signed_text(n: int) -> Seq<char> {
    if n >= 0 {
        seq!['+'] + digits(n as nat)
    } else {
        seq!['-'] + digits((-n) as nat)
    }
}

/// What a control set to `value` reads: `skip` at the value that switches it
/// off, the distance from the centre with its sign for a bipolar one, and the
/// byte itself otherwise.
pub open spec fn sits_at_spec(offset: u8, value: u8) -> Seq<char> {
    if parameter_inactive(offset) == Some(value as u16) {
        "skip"@
    } else {
        match parameter_centre(offset) {
            Some(centre) => signed_text(value - centre),
            None => digits(value as nat),
        }
    }
}

/// Returns what a control set to `value` reads.
pub fn sits_at(parameter: ParamId, value: u8) -> (said: String)
    ensures
        said@ == sits_at_spec(parameter@, value),
{
    if parameter.inactive() == Some(value as u16) {
        return "skip".to_owned();
    }
    match parameter.centre() {
        Some(centre) => {
            let mut text: Vec<char> = Vec::new();
            if value as u16 >= centre {
                text.push('+');
                crate::text::extend(&mut text, &decimal((value as u16 - centre) as u64));
            } else {
                text.push('-');
                crate::text::extend(&mut text, &decimal((centre - value as u16) as u64));
            }
            proof {
                assert(text@ =~= signed_text(value - centre));
            }
            string_of(&text)
        },
        None => string_of(&decimal(value as u64)),
    }
}

/// One place in a section's rack: the name field, drawn where the first of
/// its characters sits, or one parameter's own slot.
#[derive(Debug, Clone, Copy)]
pub enum Place {
    /// The seventeen characters of the name, as one field.
    Name,
    /// One parameter's slot.
    Slot(ParamId),
}

/// The offset a place in the rack stands at.
pub open spec fn place_offset(place: Place) -> u8 {
    match place {
        Place::Name => NAME_OFFSET as u8,
        Place::Slot(parameter) => parameter@,
    }
}

/// Whether a parameter of `group` is drawn somewhere other than the rack: in
/// the matrix's table, in the sequencer's strip, or among the parameters
/// `claimed` by the panels that draw the effect engines.
pub open spec fn drawn_elsewhere(group: Group, claimed: Seq<u8>, offset: u8) -> bool {
    ||| flattened(routings_spec(section_offsets(group), section_offsets(group).len() as int)).contains(offset)
    ||| found_steps(group).contains(offset)
    ||| claimed.contains(offset)
}

/// Whether a parameter of `group` has a place in its rack: it is not drawn
/// elsewhere, and it is not one of the name's later characters.
pub open spec fn in_rack(group: Group, claimed: Seq<u8>, offset: u8) -> bool {
    &&& !drawn_elsewhere(group, claimed, offset)
    &&& (offset == NAME_OFFSET || !name_offsets().contains(offset))
}

/// The offsets a section's rack stands at, in the section's own order.
pub open spec fn rack_spec(group: Group, claimed: Seq<u8>) -> Seq<u8> {
    group_members(group.index).filter(|o: u8| (o as usize) < PARAMETER_COUNT).filter(
        |o: u8| in_rack(group, claimed, o),
    )
}

/// Returns whether a parameter is among `parameters`.
fn among(parameters: &[ParamId], parameter: ParamId) -> (yes: bool)
    ensures
        yes == offsets_of_params(parameters@).contains(parameter@),
{
    let ghost offsets = offsets_of_params(parameters@);
    let mut i: usize = 0;
    while i < parameters.len()
        invariant
            i <= parameters@.len(),
            offsets == offsets_of_params(parameters@),
            forall|k: int| 0 <= k < i ==> offsets[k] != parameter@,
        decreases parameters@.len() - i,
    {
        if parameters[i].offset() == parameter.offset() {
            proof {
                assert(offsets[i as int] == parameter@);
            }
            return true;
        }
        i = i + 1;
    }
    false
}

/// Lays out a section's rack: its parameters in the section's own order,
/// less those a table draws (the matrix's routings, the sequencer's steps,
/// and the parameters `claimed` by the effect engines' own panels), with the
/// name's seventeen characters as one field where the first of them sits.
/// A parameter no table knows about keeps its slot rather than being lost.
pub fn rack(group: Group, claimed: &[ParamId]) -> (places: Vec<Place>)
    requires
        group.index < GROUP_COUNT,
    ensures
        places@.map_values(|p: Place| place_offset(p)) == rack_spec(group, offsets_of_params(claimed@)),
        forall|i: int| 0 <= i < places@.len() ==> ((#[trigger] places@[i] is Name) <==> place_offset(places@[i])
            == NAME_OFFSET),
{
    let routed = crate::matrix::routed(group);
    let stepped = crate::sequencer::stepped(group);
    let members = group.parameters();
    let ghost taken = offsets_of_params(claimed@);
    let ghost all = group_members(group.index).filter(|o: u8| (o as usize) < PARAMETER_COUNT);
    let ghost keep = |o: u8| in_rack(group, taken, o);
    proof {
        broadcast use vstd::seq_lib::group_to_multiset_ensures;
        assert(offsets_of_params(stepped@) =~= crate::sequencer::offsets_of(stepped@));
        assert forall|o: u8| offsets_of_params(stepped@).contains(o) <==> found_steps(group).contains(o) by {
            if found_steps(group).len() == 0 {
                assert(stepped@.len() == 0);
            } else {
                assert(offsets_of_params(stepped@).to_multiset().count(o) == found_steps(group).to_multiset().count(o));
            }
        }
        assert(members@.map_values(|p: ParamId| p@) == all);
    }
    let mut places: Vec<Place> = Vec::new();
    let mut i: usize = 0;
    while i < members.len()
        invariant
            i <= members@.len(),
            members@.map_values(|p: ParamId| p@) == all,
            keep == (|o: u8| in_rack(group, taken, o)),
            taken == offsets_of_params(claimed@),
            offsets_of_params(routed@) == flattened(
                routings_spec(section_offsets(group), section_offsets(group).len() as int),
            ),
            forall|o: u8| offsets_of_params(stepped@).contains(o) <==> found_steps(group).contains(o),
            places@.map_values(|p: Place| place_offset(p)) == all.subrange(0, i as int).filter(keep),
            forall|k: int| 0 <= k < places@.len() ==> ((#[trigger] places@[k] is Name) <==> place_offset(places@[k])
                == NAME_OFFSET),
        decreases members@.len() - i,
    {
        let parameter = members[i];
        proof {
            assert(all[i as int] == parameter@);
        }
        let elsewhere = among(routed.as_slice(), parameter) || among(stepped.as_slice(), parameter)
            || among(claimed, parameter);
        let ghost before = places@;
        if !elsewhere {
            if crate::name::holds(parameter) {
                if crate::name::begins(parameter) {
                    places.push(Place::Name);
                }
            } else {
                places.push(Place::Slot(parameter));
            }
        }
        proof {
            let prefix = all.subrange(0, i as int);
            let next = all.subrange(0, i + 1);
            assert(next.drop_last() =~= prefix);
            reveal(Seq::filter);
            assert(next.filter(keep) == (if keep(parameter@) {
                prefix.filter(keep).push(parameter@)
            } else {
                prefix.filter(keep)
            }));
            if keep(parameter@) && parameter@ == NAME_OFFSET {
                assert(name_offsets()[0] == NAME_OFFSET);
            }
            assert(places@.map_values(|p: Place| place_offset(p)) =~= next.filter(keep));
        }
        i = i + 1;
    }
    proof {
        assert(all.subrange(0, all.len() as int) =~= all);
    }
    places
}

} // verus!
