//! Sharing a sound: where the pair of files a pull request is made of goes,
//! what they hold, and the note written beside them.

use vstd::prelude::*;
use crate::app::Publishing;
use crate::catalogue::{category_name, category_name_of, is_category, joined, path_join, texts};
use crate::program::{Program, ProgramName};
use crate::shelf::{patch_to_syx, edit_buffer_frame, wire};
use crate::text::{chars_of, string_of, extend, trim, trimmed};

verus! {

/// What `deepmind_patches::slug::slug` makes of a text.
pub uninterp spec fn slugged(text: Seq<char>) -> Seq<char>;

/// What `deepmind_patches::slug::stem` makes of a name and a maker: the slug
/// of the name and the maker with a spaced hyphen between them.
pub open spec fn stemmed(name: Seq<char>, author: Seq<char>) -> Seq<char> {
    slugged(name + " - "@ + author)
}

/// `deepmind_patches::slug::slug`: a text made safe as part of a file name.
///
/// Trusted to give the crate's slug of `text`, which is a function of the
/// text alone; nothing more is claimed of it.
#[verifier::external_body]
fn slug(text: &str) -> (safe: String)
    ensures
        safe@ == slugged(text@),
{
    deepmind_patches::slug::slug(text)
}

/// `deepmind_patches::slug::stem`: the repository's own rule for a patch's
/// file name.
///
/// Trusted to give the crate's stem for `name` and `author`, which its
/// source makes as the slug of `{name} - {author}`: [`stemmed`].
#[verifier::external_body]
fn stem(name: &str, author: &str) -> (stem: String)
    ensures
        stem@ == stemmed(name@, author@),
{
    deepmind_patches::slug::stem(name, author)
}

/// The collection a sound is shared under, as a folder name.
pub open spec fn collection_of(said: Publishing) -> Seq<char> {
    slugged(trimmed(said.collection@))
}

/// Where in the laid-out tree a patch of the category stored as `category`
/// belongs: `presets/<Category>/`, and one folder deeper when it names a
/// collection.
pub open spec fn folder_spec(root: Seq<char>, category: u8, collection: Seq<char>) -> Seq<char> {
    let folder = path_join(path_join(root, "presets"@), category_name_of(category));
    if collection.len() == 0 {
        folder
    } else {
        path_join(folder, collection)
    }
}

/// Returns the trimmed text of `s`.
fn trimmed_text(s: &str) -> (inner: String)
    ensures
        inner@ == trimmed(s@),
{
    string_of(&trim(&chars_of(s)))
}

/// Returns where in the laid-out tree this patch belongs.
pub fn folder_for(root: &str, category: u8, said: &Publishing) -> (folder: String)
    requires
        is_category(category),
    ensures
        folder@ == folder_spec(root@, category, collection_of(*said)),
{
    let presets = joined(root, "presets");
    let folder = joined(presets.as_str(), category_name(category));
    let collection = slug(trimmed_text(said.collection.as_str()).as_str());
    if collection.unicode_len() == 0 {
        folder
    } else {
        joined(folder.as_str(), collection.as_str())
    }
}

/// Where the pair goes, as the note names it.
pub open spec fn where_to_spec(category: u8, collection: Seq<char>) -> Seq<char> {
    if collection.len() == 0 {
        "presets/"@ + category_name_of(category)
    } else {
        "presets/"@ + category_name_of(category) + "/"@ + collection
    }
}

/// Where a demo of it goes, under `demos/`.
pub open spec fn where_demo_spec(category: u8, collection: Seq<char>) -> Seq<char> {
    if collection.len() == 0 {
        category_name_of(category)
    } else {
        category_name_of(category) + "/"@ + collection
    }
}

/// The four steps, written beside the files: what the two files are, how to
/// send them, and where a demo goes.
pub open spec fn note_spec(stem: Seq<char>, where_to: Seq<char>, where_demo: Seq<char>) -> Seq<char> {
    "# Sharing `"@
        + stem
        + "`\n\nTwo files are beside this note, under `"@
        + where_to
        + "/`:\n\n- `"@
        + stem
        + ".syx` \u{2014} the sound, saved as bank A program 1, which is what the\n  repository stores every patch as. The slot means nothing; a librarian asks\n  where to put it.\n- `"@
        + stem
        + ".toml` \u{2014} what you said about it. Everything else the library needs is\n  worked out from the program bytes when the index is built, so there is\n  nothing else to fill in.\n\n## What to do with them\n\n1. Fork and clone <"@
        + "https://github.com/MysteriousWolf/deepmind-patches"@
        + ">.\n2. Copy the `presets/` folder beside this note over the clone's own. It is laid\n   out the way the repository is, so nothing has to be moved.\n3. Commit, push, and open a pull request.\n4. CI checks the pair and tells you what to fix. The usual ones: the folder has\n   to match the category stored in the file, the filename has to be the one\n   computed from the name and the maker, and every vocabulary term has to be in\n   `taxonomy.toml`.\n\n## If you want a demo to go with it\n\nRecord up to twenty seconds of the sound alone \u{2014} no drums, no bed, no\nmastering \u{2014} as an MP3 at 128 kbps in stereo, and put it at\n`demos/"@
        + where_demo
        + "/"@
        + stem
        + ".mp3` in the clone. It has to be under 250 KB.\n\n## Sharing a family of them\n\nGive every sound in the family the same collection name in this window before\nwriting it out, and they land in one folder together. A family that spans\ncategories uses that same folder name under each category it touches; the\nlibrary groups them by name.\n"@
}

/// Returns the four steps, written beside the files.
pub fn instructions(stem: &str, category: u8, said: &Publishing) -> (note: String)
    requires
        is_category(category),
    ensures
        note@ == note_spec(
            stem@,
            where_to_spec(category, collection_of(*said)),
            where_demo_spec(category, collection_of(*said)),
        ),
{
    let collection = chars_of(slug(trimmed_text(said.collection.as_str()).as_str()).as_str());
    let mut where_demo = chars_of(category_name(category));
    if collection.len() != 0 {
        extend(&mut where_demo, &chars_of("/"));
        extend(&mut where_demo, &collection);
    }
    let mut where_to = chars_of("presets/");
    extend(&mut where_to, &where_demo);
    proof {
        assert(where_to@ =~= where_to_spec(category, collection_of(*said)));
        assert(where_demo@ =~= where_demo_spec(category, collection_of(*said)));
    }
    let stem_text = chars_of(stem);
    let mut text: Vec<char> = Vec::new();
    extend(&mut text, &chars_of("# Sharing `"));
    extend(&mut text, &stem_text);
    extend(&mut text, &chars_of("`\n\nTwo files are beside this note, under `"));
    extend(&mut text, &where_to);
    extend(&mut text, &chars_of("/`:\n\n- `"));
    extend(&mut text, &stem_text);
    extend(&mut text, &chars_of(".syx` \u{2014} the sound, saved as bank A program 1, which is what the\n  repository stores every patch as. The slot means nothing; a librarian asks\n  where to put it.\n- `"));
    extend(&mut text, &stem_text);
    extend(&mut text, &chars_of(".toml` \u{2014} what you said about it. Everything else the library needs is\n  worked out from the program bytes when the index is built, so there is\n  nothing else to fill in.\n\n## What to do with them\n\n1. Fork and clone <"));
    extend(&mut text, &chars_of("https://github.com/MysteriousWolf/deepmind-patches"));
    extend(&mut text, &chars_of(">.\n2. Copy the `presets/` folder beside this note over the clone's own. It is laid\n   out the way the repository is, so nothing has to be moved.\n3. Commit, push, and open a pull request.\n4. CI checks the pair and tells you what to fix. The usual ones: the folder has\n   to match the category stored in the file, the filename has to be the one\n   computed from the name and the maker, and every vocabulary term has to be in\n   `taxonomy.toml`.\n\n## If you want a demo to go with it\n\nRecord up to twenty seconds of the sound alone \u{2014} no drums, no bed, no\nmastering \u{2014} as an MP3 at 128 kbps in stereo, and put it at\n`demos/"));
    extend(&mut text, &where_demo);
    extend(&mut text, &chars_of("/"));
    extend(&mut text, &stem_text);
    extend(&mut text, &chars_of(".mp3` in the clone. It has to be under 250 KB.\n\n## Sharing a family of them\n\nGive every sound in the family the same collection name in this window before\nwriting it out, and they land in one folder together. A family that spans\ncategories uses that same folder name under each category it touches; the\nlibrary groups them by name.\n"));
    proof {
        assert(text@ =~= note_spec(stem@, where_to@, where_demo@));
    }
    string_of(&text)
}

/// The terms of one axis, in the order they were chosen.
pub open spec fn picked(terms: Seq<(Seq<char>, Seq<char>)>, axis: Seq<char>) -> Seq<Seq<char>>
    decreases terms.len(),
{
    if terms.len() == 0 {
        Seq::empty()
    } else if terms.last().0 == axis {
        picked(terms.drop_last(), axis).push(terms.last().1)
    } else {
        picked(terms.drop_last(), axis)
    }
}

/// Returns the terms chosen on the axis called `axis`, in the order chosen.
fn terms_on_axis(said: &Publishing, axis: &str) -> (terms: Vec<String>)
    ensures
        texts(terms@) == picked(crate::app::terms_view(said.terms@), axis@),
{
    let ghost all = crate::app::terms_view(said.terms@);
    let wanted = axis.to_owned();
    let mut terms: Vec<String> = Vec::new();
    let mut i: usize = 0;
    while i < said.terms.len()
        invariant
            i <= said.terms@.len(),
            all == crate::app::terms_view(said.terms@),
            wanted@ == axis@,
            texts(terms@) == picked(all.take(i as int), axis@),
        decreases said.terms@.len() - i,
    {
        proof {
            assert(all.take(i + 1).drop_last() =~= all.take(i as int));
            assert(all.take(i + 1).last() == all[i as int]);
        }
        if said.terms[i].0 == wanted {
            let ghost before = terms@;
            terms.push(said.terms[i].1.clone());
            proof {
                assert(texts(terms@) =~= texts(before).push(said.terms@[i as int].1@));
            }
        }
        i = i + 1;
    }
    proof {
        assert(all.take(said.terms@.len() as int) =~= all);
    }
    terms
}

/// Whether nothing of an icon is drawn.
pub open spec fn blank(icon: [u8; 7]) -> bool {
    forall|row: int| 0 <= row < 7 ==> icon[row] == 0
}

/// What `toml::to_string_pretty` writes for the repository's `PatchMeta`
/// holding these fields, every other field left out; nothing where it
/// refuses.
pub uninterp spec fn toml_written(
    name: Seq<char>,
    author: Seq<char>,
    version: u32,
    about: Seq<char>,
    licence: Seq<char>,
    genre: Seq<Seq<char>>,
    mood: Seq<Seq<char>>,
    timbre: Seq<Seq<char>>,
    role: Seq<Seq<char>>,
    icon: Option<[u8; 7]>,
) -> Option<Seq<char>>;

/// `toml::to_string_pretty` of a `deepmind_patches::PatchMeta` holding these
/// fields, with no date, model, firmware, source, tags or demos.
///
/// Trusted to return the text the serialiser writes, named [`toml_written`],
/// which is a function of the fields alone; where it refuses, the error's own
/// words, which nothing here states.
#[verifier::external_body]
fn written_toml(
    name: String,
    author: String,
    version: u32,
    about: String,
    licence: String,
    genre: Vec<String>,
    mood: Vec<String>,
    timbre: Vec<String>,
    role: Vec<String>,
    rows: Option<[u8; 7]>,
) -> (text: Result<String, String>)
    ensures
        match text {
            Ok(t) => toml_written(name@, author@, version, about@, licence@, texts(genre@), texts(mood@), texts(timbre@), texts(role@), rows) == Some(t@),
            Err(_) => toml_written(name@, author@, version, about@, licence@, texts(genre@), texts(mood@), texts(timbre@), texts(role@), rows) is None,
        },
{
    let icon = match rows { Some(rows) => Some(deepmind_patches::Icon::from_rows(rows)), None => None };
    let meta = deepmind_patches::PatchMeta { name, author, version, about, licence, genre, mood, timbre, role, icon,
        created: None, model: None, firmware: None, source: None, tags: Vec::new(), demos: Vec::new(),
        unknown: toml::Table::default() };
    toml::to_string_pretty(&meta).map_err(|error| error.to_string())
}

/// The version a newly shared sound starts at.
pub const FIRST_VERSION: u32 = 1;

/// The `.toml` a sound called `name` is shared with: what was said about it,
/// trimmed, its terms sorted onto their four axes, and its icon where one is
/// drawn.
pub open spec fn meta_spec(name: Seq<char>, said: Publishing) -> Option<Seq<char>> {
    let terms = crate::app::terms_view(said.terms@);
    toml_written(
        name,
        trimmed(said.author@),
        FIRST_VERSION,
        trimmed(said.about@),
        trimmed(said.licence@),
        picked(terms, "genre"@),
        picked(terms, "mood"@),
        picked(terms, "timbre"@),
        picked(terms, "role"@),
        if blank(said.icon) { None } else { Some(said.icon) },
    )
}

/// Returns the `.toml`, as the repository reads it.
pub fn meta_toml(name: &str, said: &Publishing) -> (text: Result<String, String>)
    ensures
        match text {
            Ok(t) => meta_spec(name@, *said) == Some(t@),
            Err(_) => meta_spec(name@, *said) is None,
        },
        match text {
            Ok(t) => toml_written(
                name@,
                trimmed(said.author@),
                1,
                trimmed(said.about@),
                trimmed(said.licence@),
                chosen_on(crate::app::terms_view(said.terms@), "genre"@),
                chosen_on(crate::app::terms_view(said.terms@), "mood"@),
                chosen_on(crate::app::terms_view(said.terms@), "timbre"@),
                chosen_on(crate::app::terms_view(said.terms@), "role"@),
                if exists|row: int| 0 <= row < 7 && said.icon[row] != 0 { Some(said.icon) } else { None },
            ) == Some(t@),
            Err(_) => true,
        },
{
    proof {
        lemma_terms_go_under_their_axis(name@, *said);
    }
    let mut drawn = false;
    let mut row: usize = 0;
    while row < 7
        invariant
            row <= 7,
            drawn == exists|r: int| 0 <= r < row && said.icon[r] != 0,
        decreases 7 - row,
    {
        if said.icon[row] != 0 {
            drawn = true;
        }
        row = row + 1;
    }
    let rows = if drawn { Some(said.icon) } else { None };
    written_toml(
        name.to_owned(),
        trimmed_text(said.author.as_str()),
        FIRST_VERSION,
        trimmed_text(said.about.as_str()),
        trimmed_text(said.licence.as_str()),
        terms_on_axis(said, "genre"),
        terms_on_axis(said, "mood"),
        terms_on_axis(said, "timbre"),
        terms_on_axis(said, "role"),
        rows,
    )
}

/// The terms chosen on `axis`, in the order they were chosen: every pair
/// whose axis is `axis`, and nothing else.
pub open spec fn chosen_on(terms: Seq<(Seq<char>, Seq<char>)>, axis: Seq<char>) -> Seq<Seq<char>> {
    terms.filter(|pair: (Seq<char>, Seq<char>)| pair.0 == axis).map_values(
        |pair: (Seq<char>, Seq<char>)| pair.1,
    )
}

/// The terms of one axis are exactly the pairs chosen on it.
proof fn lemma_picked_is_chosen_on(terms: Seq<(Seq<char>, Seq<char>)>, axis: Seq<char>)
    ensures
        picked(terms, axis) == chosen_on(terms, axis),
    decreases terms.len(),
{
    let on = |pair: (Seq<char>, Seq<char>)| pair.0 == axis;
    let term = |pair: (Seq<char>, Seq<char>)| pair.1;
    reveal(Seq::filter);
    if terms.len() == 0 {
        assert(chosen_on(terms, axis) =~= Seq::<Seq<char>>::empty());
    } else {
        lemma_picked_is_chosen_on(terms.drop_last(), axis);
        let before = terms.drop_last().filter(on);
        if on(terms.last()) {
            assert(terms.filter(on) == before.push(terms.last()));
            assert(before.push(terms.last()).map_values(term) =~= before.map_values(term).push(terms.last().1));
        } else {
            assert(terms.filter(on) == before);
        }
    }
}

/// What the `.toml` of a shared sound holds: the name it is shared under;
/// the maker, the sentence and the licence as they were said, trimmed; the
/// first version; each term under the axis it was chosen on (its genre list
/// every term chosen on `genre`, its mood list every term chosen on `mood`,
/// its timbre list every term chosen on `timbre`, its role list every term
/// chosen on `role`, each in the order chosen); and the icon where one is
/// drawn.
pub proof fn lemma_terms_go_under_their_axis(name: Seq<char>, said: Publishing)
    ensures
        meta_spec(name, said) == toml_written(
            name,
            trimmed(said.author@),
            1,
            trimmed(said.about@),
            trimmed(said.licence@),
            chosen_on(crate::app::terms_view(said.terms@), "genre"@),
            chosen_on(crate::app::terms_view(said.terms@), "mood"@),
            chosen_on(crate::app::terms_view(said.terms@), "timbre"@),
            chosen_on(crate::app::terms_view(said.terms@), "role"@),
            if exists|row: int| 0 <= row < 7 && said.icon[row] != 0 { Some(said.icon) } else { None },
        ),
{
    let terms = crate::app::terms_view(said.terms@);
    lemma_picked_is_chosen_on(terms, "genre"@);
    lemma_picked_is_chosen_on(terms, "mood"@);
    lemma_picked_is_chosen_on(terms, "timbre"@);
    lemma_picked_is_chosen_on(terms, "role"@);
}

/// The files sharing a sound writes, and where: the folder they go in, the
/// `.syx` and the `.toml` inside it, and the note beside the tree.
#[derive(Debug, Clone)]
pub struct Sharing {
    /// The folder the pair goes in.
    pub folder: String,
    /// Where the `.syx` goes.
    pub syx_path: String,
    /// The sound, as an edit buffer dump.
    pub syx: Vec<u8>,
    /// Where the `.toml` goes.
    pub toml_path: String,
    /// What was said about it.
    pub toml: String,
    /// Where the note goes.
    pub note_path: String,
    /// The four steps.
    pub note: String,
}

/// What a sound with no name is refused with.
pub open spec fn unnamed_sentence() -> Seq<char> {
    "the sound has no name: give it one on the instrument"@
}

/// What a sound that will not pack into a dump is refused with.
pub open spec fn unpacked_sentence() -> Seq<char> {
    "the sound would not pack into a dump"@
}

/// Why a sound cannot be shared.
pub enum Refused {
    /// It has no name.
    Unnamed,
    /// The protocol library would not pack it into a dump.
    Unpacked,
    /// The serialiser would not write what was said about it.
    Unwritten,
}

/// What a refusal says, where this library words it.
pub open spec fn refusal_text(why: Refused) -> Seq<char> {
    match why {
        Refused::Unnamed => unnamed_sentence(),
        Refused::Unpacked => unpacked_sentence(),
        Refused::Unwritten => Seq::empty(),
    }
}

/// The files sharing writes, as text: the folder, the `.syx` path and
/// bytes, the `.toml` path and text, and the note's path and text.
pub type Written = (Seq<char>, Seq<char>, Seq<u8>, Seq<char>, Seq<char>, Seq<char>, Seq<char>);

/// What sharing a sound under `root` writes, or why it cannot be.
pub open spec fn sharing_spec(root: Seq<char>, name: Seq<char>, data: Seq<u8>, version: u8, category: u8, said: Publishing) -> Result<Written, Refused> {
    let stem = stemmed(name, trimmed(said.author@));
    let folder = folder_spec(root, category, collection_of(said));
    if name.len() == 0 {
        Err(Refused::Unnamed)
    } else if edit_buffer_frame(version, data) is None {
        Err(Refused::Unpacked)
    } else if meta_spec(name, said) is None {
        Err(Refused::Unwritten)
    } else {
        Ok((
            folder,
            path_join(folder, stem + ".syx"@),
            edit_buffer_frame(version, data).unwrap(),
            path_join(folder, stem + ".toml"@),
            meta_spec(name, said).unwrap(),
            path_join(root, "HOW TO SHARE THIS.md"@),
            note_spec(stem, where_to_spec(category, collection_of(said)), where_demo_spec(category, collection_of(said))),
        ))
    }
}

/// The text of a program's name.
pub open spec fn name_text(program: Seq<u8>) -> Seq<char> {
    crate::app::name_text(crate::program::decoded(crate::program::name_field(program)))
}

/// Works out everything sharing a sound writes under `root`: the pair of
/// files, where each goes, and the note. The name is the program's own,
/// trimmed, and a sound without one is refused.
pub fn prepare(root: &str, program: &Program, category: u8, said: &Publishing) -> (sharing: Result<Sharing, String>)
    requires
        is_category(category),
    ensures
        match sharing {
            Ok(s) => sharing_spec(root@, trimmed(name_text(program@)), program@, wire(program.version_of()), category, *said)
                matches Ok(w) && w == (s.folder@, s.syx_path@, s.syx@, s.toml_path@, s.toml@, s.note_path@, s.note@),
            Err(e) => sharing_spec(root@, trimmed(name_text(program@)), program@, wire(program.version_of()), category, *said)
                matches Err(why) && (why != Refused::Unwritten ==> e@ == refusal_text(why)),
        },
{
    let called: ProgramName = program.name();
    let letters = called.to_chars();
    proof {
        assert(letters@ =~= crate::app::name_text(called@));
    }
    let name = string_of(&trim(&letters));
    if name.unicode_len() == 0 {
        return Err("the sound has no name: give it one on the instrument".to_owned());
    }
    let author = trimmed_text(said.author.as_str());
    let stem = stem(name.as_str(), author.as_str());
    let folder = folder_for(root, category, said);
    let syx = match patch_to_syx(program) {
        Ok(bytes) => bytes,
        Err(_) => return Err("the sound would not pack into a dump".to_owned()),
    };
    let toml = match meta_toml(name.as_str(), said) {
        Ok(text) => text,
        Err(trouble) => return Err(trouble),
    };
    let mut syx_name = chars_of(stem.as_str());
    extend(&mut syx_name, &chars_of(".syx"));
    let mut toml_name = chars_of(stem.as_str());
    extend(&mut toml_name, &chars_of(".toml"));
    let syx_path = joined(folder.as_str(), string_of(&syx_name).as_str());
    let toml_path = joined(folder.as_str(), string_of(&toml_name).as_str());
    let note_path = joined(root, "HOW TO SHARE THIS.md");
    let note = instructions(stem.as_str(), category, said);
    Ok(Sharing { folder, syx_path, syx, toml_path, toml, note_path, note })
}

} // verus!
