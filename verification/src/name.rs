//! The program's name, as the parameters that hold it a character each.

use vstd::prelude::*;
use crate::program::{ParamId, ProgramName, NAME_OFFSET, NAME_LEN, MAX_CHARS};
use crate::text::{digits, decimal, string_of, extend};

verus! {

/// The offsets of the parameters that hold the name: the field's seventeen
/// bytes, in the order they print.
pub open spec fn name_offsets() -> Seq<u8> {
    Seq::new(NAME_LEN as nat, |i: int| (NAME_OFFSET + i) as u8)
}

/// `deepmind_midi::program::NAME_PARAMETERS`, by offset.
///
/// Trusted to list the offsets of the seventeen parameters from the name's
/// offset on, one byte each and in order, which is what the crate's own table
/// lists and its own test holds it to.
#[verifier::external_body]
fn name_parameter_offsets() -> (offsets: Vec<u8>)
    ensures
        offsets@ == name_offsets(),
{
    deepmind_midi::program::NAME_PARAMETERS.iter().map(|parameter| parameter.offset()).collect()
}

/// Returns the parameters the name is stored in, in the order they print.
pub fn characters() -> (characters: Vec<ParamId>)
    ensures
        characters@.map_values(|p: ParamId| p@) == name_offsets(),
{
    let offsets = name_parameter_offsets();
    let mut characters: Vec<ParamId> = Vec::new();
    let mut i: usize = 0;
    while i < offsets.len()
        invariant
            i <= offsets@.len(),
            offsets@ == name_offsets(),
            characters@.map_values(|p: ParamId| p@) == offsets@.take(i as int),
        decreases offsets@.len() - i,
    {
        let parameter = ParamId::from_offset(offsets[i]).unwrap();
        let ghost before = characters@;
        characters.push(parameter);
        i = i + 1;
        proof {
            assert(characters@ == before.push(parameter));
            assert(before.map_values(|p: ParamId| p@) =~= offsets@.take(i - 1));
            assert(characters@.map_values(|p: ParamId| p@)[i - 1] == parameter@);
            assert(characters@.map_values(|p: ParamId| p@) =~= offsets@.take(i as int));
        }
    }
    proof {
        assert(offsets@.take(offsets@.len() as int) =~= offsets@);
    }
    characters
}

/// Returns whether a parameter is one of the characters of the name.
pub fn holds(parameter: ParamId) -> (yes: bool)
    ensures
        yes == name_offsets().contains(parameter@),
{
    let characters = characters();
    let ghost offsets = characters@.map_values(|p: ParamId| p@);
    let mut i: usize = 0;
    while i < characters.len()
        invariant
            i <= characters@.len(),
            offsets == characters@.map_values(|p: ParamId| p@),
            offsets == name_offsets(),
            forall|k: int| 0 <= k < i ==> offsets[k] != parameter@,
        decreases characters@.len() - i,
    {
        if characters[i].offset() == parameter.offset() {
            proof {
                assert(offsets[i as int] == parameter@);
            }
            return true;
        }
        i = i + 1;
    }
    false
}

/// Returns whether a parameter is the first character of the name.
pub fn begins(parameter: ParamId) -> (yes: bool)
    ensures
        yes == (parameter@ == NAME_OFFSET),
{
    let characters = characters();
    let ghost offsets = characters@.map_values(|p: ParamId| p@);
    proof {
        assert(offsets.len() == name_offsets().len());
        assert(characters@.len() == NAME_LEN);
        assert(offsets[0] == characters@[0]@);
        assert(offsets[0] == name_offsets()[0]);
    }
    characters.len() > 0 && characters[0].offset() == parameter.offset()
}

/// Where the name lives, as the heading prints it: the offset of its first
/// character and of its last, with an en dash between.
pub open spec fn addresses_spec() -> Seq<char> {
    digits(NAME_OFFSET as nat) + seq!['\u{2013}'] + digits((NAME_OFFSET + NAME_LEN - 1) as nat)
}

/// Returns where the name lives: the run of addresses its characters take.
pub fn addresses() -> (said: String)
    ensures
        said@ == addresses_spec(),
{
    let characters = characters();
    let ghost offsets = characters@.map_values(|p: ParamId| p@);
    proof {
        assert(offsets.len() == name_offsets().len());
        assert(characters@.len() == NAME_LEN);
        assert(offsets[0] == characters@[0]@);
        assert(offsets[NAME_LEN - 1] == characters@[NAME_LEN - 1]@);
    }
    let first: u8 = characters[0].offset();
    let last: u8 = characters[characters.len() - 1].offset();
    let mut text = decimal(first as u64);
    text.push('\u{2013}');
    extend(&mut text, &decimal(last as u64));
    proof {
        assert(text@ =~= addresses_spec());
    }
    string_of(&text)
}


/// The reading under the name field: how many of the characters a name can
/// hold are used, or a dash before the name has been read.
pub open spec fn reading_spec(used: nat, known: bool) -> Seq<char> {
    if known {
        digits(used) + "/"@ + digits(MAX_CHARS as nat)
    } else {
        seq!['\u{2014}']
    }
}

/// Returns the reading under the name field: how much of the name is used,
/// the thing the field itself cannot show.
pub fn reading(name: &ProgramName, known: bool) -> (said: String)
    ensures
        said@ == reading_spec(name@.len(), known),
{
    if known {
        let mut text = decimal(name.len() as u64);
        text.push('/');
        extend(&mut text, &decimal(MAX_CHARS as u64));
        proof {
            reveal_strlit("/");
            assert(text@ =~= reading_spec(name@.len(), known));
        }
        string_of(&text)
    } else {
        let mut text: Vec<char> = Vec::new();
        text.push('\u{2014}');
        proof {
            assert(text@ =~= reading_spec(name@.len(), known));
        }
        string_of(&text)
    }
}

} // verus!
