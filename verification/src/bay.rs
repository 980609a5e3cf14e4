//! The patch bay beside the matrix: which sources are wired to which
//! destinations, laid out on the glass.
//!
//! A name is drawn once, and what leaves it is a list: one cell for each
//! source and one for each destination, however many routings touch them, in
//! the order the routings first use them; and down each source's cell, one
//! line for each routing that leaves it, its number and its depth. The layout
//! is everything but the inking: where each cell stands, what is written in
//! it, and the five runs of every wire.

use vstd::prelude::*;
use crate::matrix::{
    End, Wire, cell_view, first_of_each, lemma_first_of_each_once, cell_deep, cell_deep_spec,
    reading_at, reading_at_spec, counted, spread, spread_fits, top_at, small, bend, bend_spec,
    bend_fits, MARGIN, LINE, APART,
};
use crate::catalogue::texts;
use crate::text::{chars_of, decimal, digits, extend, string_of, trim, trimmed};

verus! {

/// How far down the glass the cells start: under the heading.
pub const HEAD: i32 = 13;

/// One end of a wire as plain values: its name and its picture.
pub open spec fn end_view(end: End) -> (Seq<char>, Option<Seq<u8>>) {
    (end.name@, cell_view(end.cell))
}

/// Ends as plain values.
pub open spec fn ends_view(ends: Seq<End>) -> Seq<(Seq<char>, Option<Seq<u8>>)> {
    ends.map_values(|e: End| end_view(e))
}

/// Where each wire comes from, in the order the matrix reads them.
pub open spec fn froms(wires: Seq<Wire>) -> Seq<(Seq<char>, Option<Seq<u8>>)> {
    wires.map_values(|w: Wire| end_view(w.from))
}

/// Where each wire goes, in the order the matrix reads them.
pub open spec fn tos(wires: Seq<Wire>) -> Seq<(Seq<char>, Option<Seq<u8>>)> {
    wires.map_values(|w: Wire| end_view(w.to))
}

/// The sources, each once, in the order the routings first use them.
pub open spec fn sources_of(wires: Seq<Wire>) -> Seq<(Seq<char>, Option<Seq<u8>>)> {
    first_of_each(froms(wires))
}

/// The destinations, each once, in the order the routings first use them.
pub open spec fn destinations_of(wires: Seq<Wire>) -> Seq<(Seq<char>, Option<Seq<u8>>)> {
    first_of_each(tos(wires))
}

/// What a wire carries, as its source's cell writes it: its number and its
/// depth, trimmed.
pub open spec fn carried(wire: Wire) -> Seq<char> {
    trimmed(wire.number@ + " "@ + wire.depth@)
}

/// What leaves `end` among the first `upto` wires, one line each.
pub open spec fn leaving(wires: Seq<Wire>, end: (Seq<char>, Option<Seq<u8>>), upto: int) -> Seq<Seq<char>>
    decreases upto,
{
    if upto <= 0 || upto > wires.len() {
        Seq::empty()
    } else {
        let before = leaving(wires, end, upto - 1);
        if end_view(wires[upto - 1].from) == end {
            before.push(carried(wires[upto - 1]))
        } else {
            before
        }
    }
}

/// How deep each source's cell is: a line for each wire leaving it.
pub open spec fn source_depths(wires: Seq<Wire>) -> Seq<i32> {
    Seq::new(
        sources_of(wires).len(),
        |i: int| cell_deep_spec(leaving(wires, sources_of(wires)[i], wires.len() as int).len() as int) as i32,
    )
}

/// How deep each destination's cell is: one line, its name.
pub open spec fn destination_depths(wires: Seq<Wire>) -> Seq<i32> {
    Seq::new(destinations_of(wires).len(), |i: int| cell_deep_spec(0) as i32)
}

/// Where `end` first stands in `list`, from `from` on; the length where it
/// does not.
pub open spec fn first_at(list: Seq<(Seq<char>, Option<Seq<u8>>)>, end: (Seq<char>, Option<Seq<u8>>), from: int) -> int
    decreases list.len() - from,
{
    if from < 0 || from >= list.len() {
        list.len() as int
    } else if list[from] == end {
        from
    } else {
        first_at(list, end, from + 1)
    }
}

/// The first wire, from `from` on, leaving the same source as wire `k` under
/// the same number.
pub open spec fn first_same(wires: Seq<Wire>, k: int, from: int) -> int
    decreases wires.len() - from,
{
    if from < 0 || from >= wires.len() {
        wires.len() as int
    } else if end_view(wires[from].from) == end_view(wires[k].from) && wires[from].number@ == wires[k].number@ {
        from
    } else {
        first_same(wires, k, from + 1)
    }
}

/// How many of the first `upto` wires leave `end`.
pub open spec fn count_from(wires: Seq<Wire>, end: (Seq<char>, Option<Seq<u8>>), upto: int) -> int
    decreases upto,
{
    if upto <= 0 || upto > wires.len() {
        0
    } else {
        count_from(wires, end, upto - 1) + if end_view(wires[upto - 1].from) == end { 1int } else { 0int }
    }
}

/// Which of its source's lines wire `k` leaves beside: the place, among the
/// wires leaving that source, of the first one under its number.
pub open spec fn line_of(wires: Seq<Wire>, k: int) -> int {
    count_from(wires, end_view(wires[k].from), first_same(wires, k, 0))
}

/// Where the cell of the source of wire `k` stands.
pub open spec fn source_top(wires: Seq<Wire>, deep: i32, k: int) -> int {
    top_at(HEAD as int, deep as int, source_depths(wires), first_at(sources_of(wires), end_view(wires[k].from), 0))
}

/// Where the cell of the destination of wire `k` stands.
pub open spec fn destination_top(wires: Seq<Wire>, deep: i32, k: int) -> int {
    top_at(HEAD as int, deep as int, destination_depths(wires), first_at(destinations_of(wires), end_view(wires[k].to), 0))
}

/// The knot wire `k` leaves from: the right-hand edge of its source's cell,
/// level with its own line.
pub open spec fn knot_of(wires: Seq<Wire>, deep: i32, across: i32, k: int) -> (i32, i32) {
    (
        (MARGIN + across - 1) as i32,
        (reading_at_spec(source_top(wires, deep, k), line_of(wires, k)) + LINE / 2) as i32,
    )
}

/// The knot wire `k` arrives at: the middle of the left-hand edge of its
/// destination's cell.
pub open spec fn end_of(wires: Seq<Wire>, deep: i32, across: i32, bay: i32, k: int) -> (i32, i32) {
    ((bay - MARGIN - across) as i32, (destination_top(wires, deep, k) + cell_deep_spec(0) / 2) as i32)
}

/// Whether laying the bay out stays within `i32` at every step it takes.
pub open spec fn bay_fits(wires: Seq<Wire>, deep: i32, across: i32, bay: i32) -> bool {
    &&& wires.len() <= i32::MAX
    &&& forall|i: int|
        0 <= i < sources_of(wires).len() ==> cell_deep_spec(
            leaving(wires, #[trigger] sources_of(wires)[i], wires.len() as int).len() as int,
        ) <= i32::MAX
    &&& spread_fits(HEAD as int, deep as int, source_depths(wires))
    &&& spread_fits(HEAD as int, deep as int, destination_depths(wires))
    &&& small(MARGIN + across) && small(MARGIN + across - 1)
    &&& small(bay - MARGIN) && small(bay - MARGIN - across)
    &&& forall|k: int| 0 <= k < wires.len() ==> {
        &&& small(#[trigger] source_top(wires, deep, k) + 2 + LINE + APART)
        &&& counted(line_of(wires, k)) * (APART + LINE) <= i32::MAX
        &&& small(reading_at_spec(source_top(wires, deep, k), line_of(wires, k)))
        &&& small(reading_at_spec(source_top(wires, deep, k), line_of(wires, k)) + LINE / 2)
        &&& small(destination_top(wires, deep, k) + cell_deep_spec(0) / 2)
        &&& bend_fits(knot_of(wires, deep, across, k), end_of(wires, deep, across, bay, k), k as i32)
    }
}

/// The patch bay laid out: the heading, each source with what leaves it and
/// where its cell stands, each destination and where its cell stands, and
/// the five runs of every wire.
#[derive(Debug, Clone)]
pub struct BayLayout {
    /// How many of the routings are wired, out of how many.
    pub heading: String,
    /// The sources, each once.
    pub sources: Vec<End>,
    /// What leaves each source, a line for each routing.
    pub lines: Vec<Vec<String>>,
    /// Where each source's cell stands.
    pub source_tops: Vec<i32>,
    /// The destinations, each once.
    pub destinations: Vec<End>,
    /// Where each destination's cell stands.
    pub destination_tops: Vec<i32>,
    /// Every wire's five runs, in the order the matrix reads the wires.
    pub runs: Vec<Vec<((i32, i32), (i32, i32))>>,
}

/// Returns whether two ends are the same end: the same name and the same
/// picture.
fn same_end(one: &End, other: &End) -> (same: bool)
    ensures
        same == (end_view(*one) == end_view(*other)),
{
    if !crate::text::same_chars(&chars_of(one.name), &chars_of(other.name)) {
        return false;
    }
    match (one.cell, other.cell) {
        (None, None) => true,
        (Some(a), Some(b)) => {
            let mut i: usize = 0;
            while i < 7
                invariant
                    i <= 7,
                    one.cell == Some(a),
                    other.cell == Some(b),
                    one.name@ == other.name@,
                    a@.len() == 7,
                    b@.len() == 7,
                    forall|m: int| 0 <= m < i ==> a@[m] == b@[m],
                decreases 7 - i,
            {
                if a[i] != b[i] {
                    proof {
                        assert(a@[i as int] != b@[i as int]);
                        assert(a@ != b@);
                    }
                    return false;
                }
                i = i + 1;
            }
            proof {
                assert(a@ =~= b@);
            }
            true
        },
        _ => false,
    }
}

/// Returns where `end` first stands in `list`.
fn position(list: &Vec<End>, end: &End) -> (at: usize)
    ensures
        at == first_at(ends_view(list@), end_view(*end), 0),
{
    let ghost all = ends_view(list@);
    let mut i: usize = 0;
    while i < list.len()
        invariant
            i <= list@.len(),
            all == ends_view(list@),
            first_at(all, end_view(*end), 0) == first_at(all, end_view(*end), i as int),
        decreases list@.len() - i,
    {
        if same_end(&list[i], end) {
            return i;
        }
        i = i + 1;
    }
    i
}

/// Returns each distinct end of a run, in the order of first use; `from`
/// picks the source ends, and otherwise the destinations.
fn distinct_ends(wires: &[Wire], from: bool) -> (ends: Vec<End>)
    ensures
        ends_view(ends@) == if from { sources_of(wires@) } else { destinations_of(wires@) },
{
    let ghost all = if from { froms(wires@) } else { tos(wires@) };
    let mut ends: Vec<End> = Vec::new();
    let mut k: usize = 0;
    while k < wires.len()
        invariant
            k <= wires@.len(),
            all == if from { froms(wires@) } else { tos(wires@) },
            all.len() == wires@.len(),
            ends_view(ends@) == first_of_each(all.take(k as int)),
        decreases wires@.len() - k,
    {
        let end = if from { wires[k].from } else { wires[k].to };
        proof {
            assert(all[k as int] == end_view(end));
        }
        let at = position(&ends, &end);
        let ghost before = ends@;
        proof {
            lemma_first_at(ends_view(ends@), end_view(end));
            assert(all.take(k + 1).drop_last() =~= all.take(k as int));
        }
        if at == ends.len() {
            ends.push(end);
            proof {
                assert(ends_view(ends@) =~= ends_view(before).push(end_view(end)));
            }
        }
        k = k + 1;
    }
    proof {
        assert(all.take(wires@.len() as int) =~= all);
    }
    ends
}

/// Where `end` first stands is a place holding it exactly where the list
/// holds it at all.
proof fn lemma_first_at(list: Seq<(Seq<char>, Option<Seq<u8>>)>, end: (Seq<char>, Option<Seq<u8>>))
    ensures
        0 <= first_at(list, end, 0) <= list.len(),
        first_at(list, end, 0) < list.len() <==> list.contains(end),
        first_at(list, end, 0) < list.len() ==> list[first_at(list, end, 0)] == end,
{
    lemma_first_at_from(list, end, 0);
}

proof fn lemma_first_at_from(list: Seq<(Seq<char>, Option<Seq<u8>>)>, end: (Seq<char>, Option<Seq<u8>>), from: int)
    requires
        0 <= from <= list.len(),
    ensures
        from <= first_at(list, end, from) <= list.len(),
        first_at(list, end, from) < list.len() <==> exists|i: int| from <= i < list.len() && list[i] == end,
        first_at(list, end, from) < list.len() ==> list[first_at(list, end, from)] == end,
    decreases list.len() - from,
{
    if from < list.len() && list[from] != end {
        lemma_first_at_from(list, end, from + 1);
        if exists|i: int| from <= i < list.len() && list[i] == end {
            let i = choose|i: int| from <= i < list.len() && list[i] == end;
            assert(from + 1 <= i);
        }
    }
}

/// Returns the line a wire is written as down its source's cell.
fn carried_of(wire: &Wire) -> (said: String)
    ensures
        said@ == carried(*wire),
{
    let mut text = chars_of(wire.number.as_str());
    text.push(' ');
    extend(&mut text, &chars_of(wire.depth.as_str()));
    proof {
        reveal_strlit(" ");
        assert(text@ =~= wire.number@ + " "@ + wire.depth@);
    }
    string_of(&trim(&text))
}

/// Returns what leaves `end`, one line for each wire.
fn leaving_of(wires: &[Wire], end: &End) -> (lines: Vec<String>)
    ensures
        texts(lines@) == leaving(wires@, end_view(*end), wires@.len() as int),
{
    let mut lines: Vec<String> = Vec::new();
    let mut k: usize = 0;
    while k < wires.len()
        invariant
            k <= wires@.len(),
            texts(lines@) == leaving(wires@, end_view(*end), k as int),
        decreases wires@.len() - k,
    {
        let ghost before = lines@;
        if same_end(&wires[k].from, end) {
            lines.push(carried_of(&wires[k]));
            proof {
                assert(texts(lines@) =~= texts(before).push(carried(wires@[k as int])));
            }
        }
        k = k + 1;
    }
    lines
}

/// Returns which of its source's lines wire `k` leaves beside.
fn line_for(wires: &[Wire], k: usize) -> (line: usize)
    requires
        k < wires@.len(),
    ensures
        line == line_of(wires@, k as int),
{
    let number = chars_of(wires[k].number.as_str());
    let mut first: usize = 0;
    while first < wires.len()
        invariant
            first <= wires@.len(),
            k < wires@.len(),
            number@ == wires@[k as int].number@,
            first_same(wires@, k as int, 0) == first_same(wires@, k as int, first as int),
        ensures
            first <= wires@.len(),
            first_same(wires@, k as int, 0) == first as int,
        decreases wires@.len() - first,
    {
        if same_end(&wires[first].from, &wires[k].from) && crate::text::same_chars(&chars_of(wires[first].number.as_str()), &number) {
            break;
        }
        first = first + 1;
    }
    let ghost end = end_view(wires@[k as int].from);
    let mut count: usize = 0;
    let mut j: usize = 0;
    while j < first
        invariant
            j <= first <= wires@.len(),
            k < wires@.len(),
            end == end_view(wires@[k as int].from),
            count == count_from(wires@, end, j as int),
            count <= j,
        decreases first - j,
    {
        if same_end(&wires[j].from, &wires[k].from) {
            count = count + 1;
        }
        j = j + 1;
    }
    count
}

/// Returns the heading: how many routings are wired, out of how many.
fn heading(wired: usize, of: usize) -> (said: String)
    ensures
        said@ == digits(wired as nat) + " OF "@ + digits(of as nat),
{
    let mut text = decimal(wired as u64);
    extend(&mut text, &chars_of(" OF "));
    extend(&mut text, &decimal(of as u64));
    string_of(&text)
}

/// Lays the patch bay out on glass `deep` dots tall, with cells `across`
/// dots wide on glass `bay` dots wide, for the wires of a matrix of `of`
/// routings.
///
/// One cell per distinct source and per distinct destination, in the order
/// the routings first use them; what leaves each source written down its
/// cell, a line per wire; the cells spread down the glass under the heading;
/// and every wire drawn from beside its own line on its source to the middle
/// of its destination, down the track its place in the matrix gives it.
pub fn bay_layout(wires: &[Wire], deep: i32, across: i32, bay: i32, of: usize) -> (layout: BayLayout)
    requires
        bay_fits(wires@, deep, across, bay),
    ensures
        layout.heading@ == digits(wires@.len() as nat) + " OF "@ + digits(of as nat),
        ends_view(layout.sources@) == sources_of(wires@),
        ends_view(layout.destinations@) == destinations_of(wires@),
        forall|i: int, j: int|
            0 <= i < j < layout.sources@.len() ==> end_view(#[trigger] layout.sources@[i]) != end_view(#[trigger] layout.sources@[j]),
        forall|i: int, j: int|
            0 <= i < j < layout.destinations@.len() ==> end_view(#[trigger] layout.destinations@[i]) != end_view(
                #[trigger] layout.destinations@[j],
            ),
        forall|k: int|
            0 <= k < wires@.len() ==> sources_of(wires@).contains(end_view((#[trigger] wires@[k]).from))
                && destinations_of(wires@).contains(end_view(wires@[k].to)),
        layout.lines@.len() == layout.sources@.len(),
        forall|i: int|
            0 <= i < layout.lines@.len() ==> texts((#[trigger] layout.lines@[i])@) == leaving(
                wires@,
                sources_of(wires@)[i],
                wires@.len() as int,
            ),
        layout.source_tops@.len() == layout.sources@.len(),
        forall|i: int|
            0 <= i < layout.source_tops@.len() ==> #[trigger] layout.source_tops@[i] == top_at(
                HEAD as int,
                deep as int,
                source_depths(wires@),
                i,
            ),
        layout.destination_tops@.len() == layout.destinations@.len(),
        forall|i: int|
            0 <= i < layout.destination_tops@.len() ==> #[trigger] layout.destination_tops@[i] == top_at(
                HEAD as int,
                deep as int,
                destination_depths(wires@),
                i,
            ),
        layout.runs@.len() == wires@.len(),
        forall|k: int|
            0 <= k < wires@.len() ==> (#[trigger] layout.runs@[k])@.len() == 5 && forall|r: int|
                0 <= r < 5 ==> (
                    (layout.runs@[k]@[r].0.0 as int, layout.runs@[k]@[r].0.1 as int),
                    (layout.runs@[k]@[r].1.0 as int, layout.runs@[k]@[r].1.1 as int),
                ) == #[trigger] bend_spec(knot_of(wires@, deep, across, k), end_of(wires@, deep, across, bay, k), k as i32)[r],
{
    let sources = distinct_ends(wires, true);
    let destinations = distinct_ends(wires, false);
    let ghost srcs = sources_of(wires@);
    let mut lines: Vec<Vec<String>> = Vec::new();
    let mut depths: Vec<i32> = Vec::new();
    let mut i: usize = 0;
    while i < sources.len()
        invariant
            i <= sources@.len(),
            ends_view(sources@) == srcs,
            srcs == sources_of(wires@),
            bay_fits(wires@, deep, across, bay),
            lines@.len() == i,
            depths@.len() == i,
            forall|m: int| 0 <= m < i ==> texts((#[trigger] lines@[m])@) == leaving(wires@, srcs[m], wires@.len() as int),
            forall|m: int| 0 <= m < i ==> #[trigger] depths@[m] == source_depths(wires@)[m],
        decreases sources@.len() - i,
    {
        let said = leaving_of(wires, &sources[i]);
        proof {
            assert(srcs[i as int] == end_view(sources@[i as int]));
            assert(cell_deep_spec(leaving(wires@, srcs[i as int], wires@.len() as int).len() as int) <= i32::MAX);
        }
        let depth = cell_deep(said.len());
        depths.push(depth);
        lines.push(said);
        i = i + 1;
    }
    proof {
        assert(depths@ =~= source_depths(wires@));
    }
    let source_tops = spread(HEAD, deep, depths.as_slice());
    let mut flat: Vec<i32> = Vec::new();
    let mut d: usize = 0;
    while d < destinations.len()
        invariant
            d <= destinations@.len(),
            ends_view(destinations@) == destinations_of(wires@),
            flat@.len() == d,
            forall|m: int| 0 <= m < d ==> #[trigger] flat@[m] == destination_depths(wires@)[m],
        decreases destinations@.len() - d,
    {
        flat.push(cell_deep(0));
        d = d + 1;
    }
    proof {
        assert(flat@ =~= destination_depths(wires@));
    }
    let destination_tops = spread(HEAD, deep, flat.as_slice());
    let mut runs: Vec<Vec<((i32, i32), (i32, i32))>> = Vec::new();
    let mut k: usize = 0;
    while k < wires.len()
        invariant
            k <= wires@.len(),
            bay_fits(wires@, deep, across, bay),
            ends_view(sources@) == sources_of(wires@),
            ends_view(destinations@) == destinations_of(wires@),
            source_tops@.len() == sources@.len(),
            forall|m: int| 0 <= m < source_tops@.len() ==> #[trigger] source_tops@[m] == top_at(HEAD as int, deep as int, source_depths(wires@), m),
            destination_tops@.len() == destinations@.len(),
            forall|m: int| 0 <= m < destination_tops@.len() ==> #[trigger] destination_tops@[m] == top_at(HEAD as int, deep as int, destination_depths(wires@), m),
            runs@.len() == k,
            forall|w: int|
                0 <= w < k ==> (#[trigger] runs@[w])@.len() == 5 && forall|r: int|
                    0 <= r < 5 ==> (
                        (runs@[w]@[r].0.0 as int, runs@[w]@[r].0.1 as int),
                        (runs@[w]@[r].1.0 as int, runs@[w]@[r].1.1 as int),
                    ) == #[trigger] bend_spec(knot_of(wires@, deep, across, w), end_of(wires@, deep, across, bay, w), w as i32)[r],
        decreases wires@.len() - k,
    {
        let wire = &wires[k];
        let source = position(&sources, &wire.from);
        let destination = position(&destinations, &wire.to);
        proof {
            lemma_first_of_each_once(froms(wires@));
            lemma_first_of_each_once(tos(wires@));
            assert(froms(wires@)[k as int] == end_view(wire.from));
            assert(tos(wires@)[k as int] == end_view(wire.to));
            assert(froms(wires@).contains(end_view(wire.from)));
            assert(tos(wires@).contains(end_view(wire.to)));
            lemma_first_at(sources_of(wires@), end_view(wire.from));
            lemma_first_at(destinations_of(wires@), end_view(wire.to));
            assert(source_top(wires@, deep, k as int) == source_tops@[source as int]);
            assert(destination_top(wires@, deep, k as int) == destination_tops@[destination as int]);
        }
        let line = line_for(wires, k);
        let top = source_tops[source];
        let y = reading_at(top, line) + LINE / 2;
        let arrives = destination_tops[destination] + cell_deep(0) / 2;
        let from: (i32, i32) = (MARGIN + across - 1, y);
        let to: (i32, i32) = (bay - MARGIN - across, arrives);
        proof {
            assert(from == knot_of(wires@, deep, across, k as int));
            assert(to == end_of(wires@, deep, across, bay, k as int));
        }
        let one = bend(from, to, k as i32);
        runs.push(one);
        k = k + 1;
    }
    proof {
        lemma_first_of_each_once(froms(wires@));
        lemma_first_of_each_once(tos(wires@));
        assert forall|i: int, j: int|
            0 <= i < j < sources@.len() implies end_view(#[trigger] sources@[i]) != end_view(#[trigger] sources@[j]) by {
            assert(ends_view(sources@)[i] == end_view(sources@[i]));
            assert(ends_view(sources@)[j] == end_view(sources@[j]));
        }
        assert forall|i: int, j: int|
            0 <= i < j < destinations@.len() implies end_view(#[trigger] destinations@[i]) != end_view(
                #[trigger] destinations@[j],
            ) by {
            assert(ends_view(destinations@)[i] == end_view(destinations@[i]));
            assert(ends_view(destinations@)[j] == end_view(destinations@[j]));
        }
        assert forall|k: int| 0 <= k < wires@.len() implies sources_of(wires@).contains(end_view((#[trigger] wires@[k]).from))
            && destinations_of(wires@).contains(end_view(wires@[k].to)) by {
            assert(froms(wires@)[k] == end_view(wires@[k].from));
            assert(tos(wires@)[k] == end_view(wires@[k].to));
            assert(froms(wires@).contains(end_view(wires@[k].from)));
            assert(tos(wires@).contains(end_view(wires@[k].to)));
        }
    }
    BayLayout {
        heading: heading(wires.len(), of),
        sources,
        lines,
        source_tops,
        destinations,
        destination_tops,
        runs,
    }
}

} // verus!
