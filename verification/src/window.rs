//! The window's own display: a status broken into the lines its glass holds.

use vstd::prelude::*;
use crate::matrix::quotient;
use crate::text::{is_space, chars_of, string_of, space, trim, trimmed, extend};
use crate::patch::{Patch, PatchView};
use crate::program::{decoded, name_field};
use crate::app::name_text;

verus! {

/// How many dots across one character of the display's small face is.
pub const SMALL_WIDTH: i32 = 5;

/// How many lines of a status the display shows: a fourth would be over the
/// program's name.
pub const STATUS_LINES: usize = 3;

/// What reading `text` from the start leaves: the words finished so far, and
/// the one still being read.
pub open spec fn scan(text: Seq<char>) -> (Seq<Seq<char>>, Seq<char>)
    decreases text.len(),
{
    if text.len() == 0 {
        (Seq::empty(), Seq::empty())
    } else {
        let (done, current) = scan(text.drop_last());
        let c = text.last();
        if is_space(c) {
            if current.len() > 0 { (done.push(current), Seq::empty()) } else { (done, Seq::empty()) }
        } else {
            (done, current.push(c))
        }
    }
}

/// The words of `text`: its runs of characters that are not white space, in
/// order, which is `str::split_whitespace`.
pub open spec fn words_of(text: Seq<char>) -> Seq<Seq<char>> {
    let (done, current) = scan(text);
    if current.len() > 0 { done.push(current) } else { done }
}

/// How many characters a line of a screen `columns` dots wide holds: never
/// fewer than one.
pub open spec fn each_of(columns: int) -> int {
    let fits = quotient(columns - 4, SMALL_WIDTH + 1);
    if fits < 1 { 1 } else { fits }
}

/// `word` added to `lines`: onto the last line, after a space, where it fits
/// there, and otherwise as a new line cut to the width.
pub open spec fn place(lines: Seq<Seq<char>>, word: Seq<char>, each: int) -> Seq<Seq<char>> {
    if lines.len() > 0 && lines.last().len() + 1 + word.len() <= each {
        lines.update(lines.len() - 1, lines.last() + seq![' '] + word)
    } else {
        lines.push(word.take(if word.len() < each { word.len() as int } else { each }))
    }
}

/// The lines `words` make, each placed in turn.
pub open spec fn lay(words: Seq<Seq<char>>, each: int) -> Seq<Seq<char>>
    decreases words.len(),
{
    if words.len() == 0 {
        Seq::empty()
    } else {
        place(lay(words.drop_last(), each), words.last(), each)
    }
}

/// A status broken into the lines a screen `columns` dots wide holds: between
/// words, a word too long for a line cut rather than hyphenated, and never
/// more than three lines.
pub open spec fn fold_spec(words: Seq<char>, columns: int) -> Seq<Seq<char>> {
    let lines = lay(words_of(words), each_of(columns));
    lines.take(if lines.len() < STATUS_LINES { lines.len() as int } else { STATUS_LINES as int })
}

/// A list of strings as text.
pub open spec fn lines_text(lines: Seq<String>) -> Seq<Seq<char>> {
    lines.map_values(|line: String| line@)
}

/// Returns the words of `text`.
fn split_words(text: &Vec<char>) -> (words: Vec<Vec<char>>)
    ensures
        words@.map_values(|w: Vec<char>| w@) == words_of(text@),
{
    let mut done: Vec<Vec<char>> = Vec::new();
    let mut current: Vec<char> = Vec::new();
    let mut i: usize = 0;
    while i < text.len()
        invariant
            i <= text@.len(),
            scan(text@.take(i as int)) == (done@.map_values(|w: Vec<char>| w@), current@),
        decreases text@.len() - i,
    {
        let c = text[i];
        proof {
            assert(text@.take(i + 1).drop_last() =~= text@.take(i as int));
            assert(text@.take(i + 1).last() == c);
        }
        if space(c) {
            if current.len() > 0 {
                let ghost before = done@;
                done.push(current);
                proof {
                    assert(done@.map_values(|w: Vec<char>| w@) =~= before.map_values(|w: Vec<char>| w@).push(
                        done@[done@.len() - 1]@,
                    ));
                }
            }
            current = Vec::new();
        } else {
            current.push(c);
        }
        i = i + 1;
    }
    proof {
        assert(text@.take(text@.len() as int) =~= text@);
    }
    if current.len() > 0 {
        let ghost before = done@;
        done.push(current);
        proof {
            assert(done@.map_values(|w: Vec<char>| w@) =~= before.map_values(|w: Vec<char>| w@).push(
                done@[done@.len() - 1]@,
            ));
        }
    }
    done
}

/// Breaks `words` into the lines a screen `columns` dots wide can hold.
pub fn fold(words: &str, columns: i32) -> (lines: Vec<String>)
    requires
        columns >= i32::MIN + 4,
    ensures
        lines_text(lines@) == fold_spec(words@, columns as int),
{
    let fits: i32 = (columns - 4) / (SMALL_WIDTH + 1);
    let each: usize = if fits < 1 { 1 } else { fits as usize };
    let text = chars_of(words);
    let split = split_words(&text);
    let ghost spelled = split@.map_values(|w: Vec<char>| w@);
    let mut laid: Vec<Vec<char>> = Vec::new();
    let mut k: usize = 0;
    while k < split.len()
        invariant
            k <= split@.len(),
            spelled == split@.map_values(|w: Vec<char>| w@),
            spelled == words_of(words@),
            each == each_of(columns as int),
            each >= 1,
            laid@.map_values(|w: Vec<char>| w@) == lay(spelled.take(k as int), each as int),
        decreases split@.len() - k,
    {
        let word = &split[k];
        proof {
            assert(spelled.take(k + 1).drop_last() =~= spelled.take(k as int));
            assert(spelled.take(k + 1).last() == word@);
        }
        let ghost before = laid@.map_values(|w: Vec<char>| w@);
        let n = laid.len();
        if n > 0 && laid[n - 1].len() < usize::MAX - word.len() && laid[n - 1].len() + 1 + word.len() <= each {
            let mut line = crate::text::slice_of(&laid[n - 1], 0, laid[n - 1].len());
            proof {
                assert(line@ =~= before.last());
            }
            line.push(' ');
            crate::text::extend(&mut line, word);
            proof {
                assert(line@ =~= before.last() + seq![' '] + word@);
            }
            laid.set(n - 1, line);
            proof {
                assert(laid@.map_values(|w: Vec<char>| w@) =~= before.update(
                    before.len() - 1,
                    before.last() + seq![' '] + word@,
                ));
            }
        } else {
            proof {
                if n > 0 {
                    assert(before.last().len() + 1 + word@.len() > each);
                }
            }
            let cut: usize = if word.len() < each { word.len() } else { each };
            let line = crate::text::slice_of(word, 0, cut);
            laid.push(line);
            proof {
                assert(word@.subrange(0, cut as int) =~= word@.take(cut as int));
                assert(laid@.map_values(|w: Vec<char>| w@) =~= before.push(word@.take(cut as int)));
            }
        }
        k = k + 1;
    }
    proof {
        assert(spelled.take(split@.len() as int) =~= spelled);
    }
    let shown: usize = if laid.len() < STATUS_LINES { laid.len() } else { STATUS_LINES };
    let mut lines: Vec<String> = Vec::new();
    let mut j: usize = 0;
    while j < shown
        invariant
            j <= shown,
            shown <= laid@.len(),
            lines@.len() == j,
            forall|m: int| 0 <= m < j ==> lines@[m]@ == laid@[m]@,
        decreases shown - j,
    {
        lines.push(string_of(&laid[j]));
        j = j + 1;
    }
    proof {
        assert(lines_text(lines@) =~= laid@.map_values(|w: Vec<char>| w@).take(shown as int));
    }
    lines
}

/// Every line `lay` makes holds at most `each` characters.
proof fn lemma_lay_fits(words: Seq<Seq<char>>, each: int)
    requires
        each >= 1,
    ensures
        forall|i: int| 0 <= i < lay(words, each).len() ==> #[trigger] lay(words, each)[i].len() <= each,
    decreases words.len(),
{
    if words.len() > 0 {
        lemma_lay_fits(words.drop_last(), each);
        let lines = lay(words.drop_last(), each);
        let word = words.last();
        if lines.len() > 0 && lines.last().len() + 1 + word.len() <= each {
            let after = lines.update(lines.len() - 1, lines.last() + seq![' '] + word);
            assert forall|i: int| 0 <= i < after.len() implies #[trigger] after[i].len() <= each by {
                if i < lines.len() - 1 {
                    assert(after[i] == lines[i]);
                }
            }
        } else {
            let after = lines.push(word.take(if word.len() < each { word.len() as int } else { each }));
            assert forall|i: int| 0 <= i < after.len() implies #[trigger] after[i].len() <= each by {
                if i < lines.len() {
                    assert(after[i] == lines[i]);
                }
            }
        }
    }
}

/// A status on the display is never more than three lines, and no line is
/// wider than the glass holds.
pub proof fn lemma_fold_fits(words: Seq<char>, columns: int)
    ensures
        fold_spec(words, columns).len() <= STATUS_LINES,
        forall|i: int| 0 <= i < fold_spec(words, columns).len() ==> #[trigger] fold_spec(words, columns)[i].len() <= each_of(columns),
{
    lemma_lay_fits(words_of(words), each_of(columns));
    let lines = lay(words_of(words), each_of(columns));
    assert forall|i: int| 0 <= i < fold_spec(words, columns).len() implies #[trigger] fold_spec(words, columns)[i].len() <= each_of(columns) by {
        assert(fold_spec(words, columns)[i] == lines[i]);
    }
}


/// What the title bar says: the program's name, with the padding the
/// instrument stores taken off, before the application's; the application's
/// alone before a sound has been read.
pub open spec fn title_spec(view: PatchView) -> Seq<char> {
    match view.program {
        Some(data) => trimmed(name_text(decoded(name_field(data)))) + " \u{2014} deepmind control"@,
        None => "deepmind control"@,
    }
}

/// Returns what the title bar says.
pub fn title(patch: &Patch) -> (said: String)
    ensures
        said@ == title_spec(patch@),
{
    match patch.name() {
        Some(name) => {
            let letters = name.to_chars();
            proof {
                assert(letters@ =~= name_text(name@));
            }
            let mut text = trim(&letters);
            extend(&mut text, &chars_of(" \u{2014} deepmind control"));
            string_of(&text)
        },
        None => "deepmind control".to_owned(),
    }
}

} // verus!
