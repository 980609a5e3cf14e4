//! The modulation matrix: its routings, and how the patch bay beside the table
//! is laid out on the glass, in dots.

use vstd::prelude::*;
use crate::program::{ParamId, PARAMETER_COUNT, parameter_name};
use crate::patch::{Confidence, Group, GROUP_COUNT, Patch, PatchView, group_order, order_at, weakest};
use crate::panel::{Firmware, byte_of, choices, choices_spec, choices_view, sits_at, sits_at_spec};
use crate::sequencer::section_offsets;
use crate::text::{is_digit, digits, decimal, chars_of, string_of, extend};

verus! {

/// How tall one line of writing is on the glass.
pub const LINE: i32 = 7;

/// How much glass there is between two lines written in a cell.
pub const APART: i32 = 3;

/// The most glass there is between two cells in a column.
pub const PITCH: i32 = 21;

/// How much glass there is around the drawing.
pub const MARGIN: i32 = 3;

/// How far into the gap the first wire turns.
pub const TURN: i32 = 6;

/// How far apart two wires' tracks are.
pub const LANE: i32 = 2;

/// How much of each corner is taken off.
pub const CHAMFER: i32 = 3;

/// A count as `i32::try_from` reads it: itself where it fits, and nothing
/// where it does not.
pub open spec fn counted(n: int) -> int {
    if n <= i32::MAX { n } else { 0 }
}

/// How deep a cell with `lines` readings written down it is: the name, a line
/// for each reading, and the glass above and below.
pub open spec fn cell_deep_spec(lines: int) -> int {
    2 + LINE + counted(lines) * (APART + LINE) + 2
}

/// Returns how deep a cell with `lines` readings written down it is.
pub fn cell_deep(lines: usize) -> (deep: i32)
    requires
        cell_deep_spec(lines as int) <= i32::MAX,
    ensures
        deep == cell_deep_spec(lines as int),
{
    let lines: i32 = if lines <= 2147483647usize { lines as i32 } else { 0 };
    2 + LINE + lines * (APART + LINE) + 2
}

/// Where the `line`th reading in a cell standing at `top` is written.
pub open spec fn reading_at_spec(top: int, line: int) -> int {
    top + 2 + LINE + APART + counted(line) * (APART + LINE)
}

/// Returns where the `line`th reading in a cell standing at `top` is written.
pub fn reading_at(top: i32, line: usize) -> (at: i32)
    requires
        i32::MIN <= reading_at_spec(top as int, line as int) <= i32::MAX,
        counted(line as int) * (APART + LINE) <= i32::MAX,
        i32::MIN <= top + 2 + LINE + APART <= i32::MAX,
    ensures
        at == reading_at_spec(top as int, line as int),
{
    let line: i32 = if line <= 2147483647usize { line as i32 } else { 0 };
    top + 2 + LINE + APART + line * (APART + LINE)
}

/// Integer division as Rust does it on signed values: towards zero.
pub open spec fn quotient(a: int, b: int) -> int {
    if a >= 0 { a / b } else { -((-a) / b) }
}

/// The sum of the first `n` depths.
pub open spec fn prefix(depths: Seq<i32>, n: int) -> int
    decreases n,
{
    if n <= 0 {
        0
    } else {
        prefix(depths, n - 1) + depths[n - 1]
    }
}

/// The room a column of cells leaves on a glass `deep` dots deep below
/// `under`.
pub open spec fn room_of(under: int, deep: int, depths: Seq<i32>) -> int {
    deep - under - MARGIN - prefix(depths, depths.len() as int)
}

/// How much glass goes between two cells of a column: the room shared out
/// among the gaps, never less than nothing and never more than a pitch.
pub open spec fn apart_of(under: int, deep: int, depths: Seq<i32>) -> int {
    let count = counted(depths.len() as int);
    if count > 1 {
        let even = quotient(room_of(under, deep, depths), count - 1);
        if even < 0 { 0 } else if even > PITCH { PITCH as int } else { even }
    } else {
        0
    }
}

/// Where the first cell of a column stands: the column centred in its room.
pub open spec fn first_top(under: int, deep: int, depths: Seq<i32>) -> int {
    let count = counted(depths.len() as int);
    let gaps = if count - 1 > 0 { count - 1 } else { 0 };
    under + quotient(room_of(under, deep, depths) - apart_of(under, deep, depths) * gaps, 2)
}

/// Where the `i`th cell of a column stands: after every cell above it and
/// the glass between them.
pub open spec fn top_at(under: int, deep: int, depths: Seq<i32>, i: int) -> int {
    first_top(under, deep, depths) + prefix(depths, i) + i * apart_of(under, deep, depths)
}

/// Whether `v` is an `i32`.
pub open spec fn small(v: int) -> bool {
    i32::MIN <= v <= i32::MAX
}

/// Whether laying a column out stays within `i32` at every step it takes.
pub open spec fn spread_fits(under: int, deep: int, depths: Seq<i32>) -> bool {
    let count = counted(depths.len() as int);
    let gaps = if count - 1 > 0 { count - 1 } else { 0 };
    let room = room_of(under, deep, depths);
    let apart = apart_of(under, deep, depths);
    &&& forall|n: int| 0 <= n <= depths.len() ==> small(#[trigger] prefix(depths, n))
    &&& small(deep - under)
    &&& small(deep - under - MARGIN)
    &&& small(room)
    &&& small(apart * gaps)
    &&& small(room - apart * gaps)
    &&& small(first_top(under, deep, depths))
    &&& forall|i: int| 0 <= i < depths.len() ==> small(depths[i] + apart) && small(
        #[trigger] top_at(under, deep, depths, i) + depths[i] + apart,
    )
}

/// `prefix` one step further.
proof fn lemma_prefix_step(depths: Seq<i32>, n: int)
    requires
        0 <= n,
    ensures
        prefix(depths, n + 1) == prefix(depths, n) + depths[n],
{
}

/// Returns where a column of cells `depths` deep stands, spread down the
/// glass between `under` and `deep`: capped and centred.
pub fn spread(under: i32, deep: i32, depths: &[i32]) -> (tops: Vec<i32>)
    requires
        spread_fits(under as int, deep as int, depths@),
    ensures
        tops@.len() == depths@.len(),
        forall|i: int| 0 <= i < tops@.len() ==> tops@[i] == top_at(under as int, deep as int, depths@, i),
{
    let ghost d = depths@;
    let mut total: i32 = 0;
    let mut k: usize = 0;
    while k < depths.len()
        invariant
            d == depths@,
            k <= d.len(),
            total == prefix(d, k as int),
            forall|n: int| 0 <= n <= d.len() ==> small(#[trigger] prefix(d, n)),
        decreases d.len() - k,
    {
        proof {
            lemma_prefix_step(d, k as int);
            assert(small(prefix(d, k + 1)));
        }
        total = total + depths[k];
        k = k + 1;
    }
    let count: i32 = if depths.len() <= 2147483647usize { depths.len() as i32 } else { 0 };
    let room: i32 = deep - under - MARGIN - total;
    let apart: i32 = if count > 1 {
        let even: i32 = room / (count - 1);
        if even < 0 { 0 } else if even > PITCH { PITCH } else { even }
    } else {
        0
    };
    let gaps: i32 = if count - 1 > 0 { count - 1 } else { 0 };
    let mut top: i32 = under + (room - apart * gaps) / 2;
    let mut tops: Vec<i32> = Vec::new();
    let mut i: usize = 0;
    while i < depths.len()
        invariant
            d == depths@,
            i <= d.len(),
            apart == apart_of(under as int, deep as int, d),
            top == top_at(under as int, deep as int, d, i as int),
            tops@.len() == i,
            forall|j: int| 0 <= j < i ==> tops@[j] == top_at(under as int, deep as int, d, j),
            spread_fits(under as int, deep as int, d),
        decreases d.len() - i,
    {
        tops.push(top);
        proof {
            lemma_prefix_step(d, i as int);
            assert(small(top_at(under as int, deep as int, d, i as int) + d[i as int] + apart));
            assert(top_at(under as int, deep as int, d, i + 1) == top_at(under as int, deep as int, d, i as int) + d[i as int] + apart) by (nonlinear_arith)
                requires
                    prefix(d, i + 1) == prefix(d, i as int) + d[i as int],
                    top_at(under as int, deep as int, d, i + 1) == first_top(under as int, deep as int, d) + prefix(d, i + 1) + (i + 1) * apart_of(under as int, deep as int, d),
                    top_at(under as int, deep as int, d, i as int) == first_top(under as int, deep as int, d) + prefix(d, i as int) + i * apart_of(under as int, deep as int, d),
                    apart == apart_of(under as int, deep as int, d);
        }
        top = top + (depths[i] + apart);
        i = i + 1;
    }
    tops
}

/// The five straight runs of one wire: flat out of the source, a corner
/// down its own track, down the track, a corner out of it, and flat into the
/// destination. The corners are taken off only where the two ends are far
/// enough apart for two of them.
pub open spec fn bend_spec(from: (i32, i32), to: (i32, i32), lane: i32) -> Seq<((int, int), (int, int))> {
    let (x, y) = (from.0 as int, from.1 as int);
    let (across, down) = (to.0 as int, to.1 as int);
    let track = x + TURN + lane * LANE;
    let rise = if down - y >= 0 { down - y } else { y - down };
    let corner = if rise >= CHAMFER * 2 { CHAMFER as int } else { 0int };
    let step = if down > y { corner } else { -corner };
    seq![
        ((x, y), (track - corner, y)),
        ((track - corner, y), (track, y + step)),
        ((track, y + step), (track, down - step)),
        ((track, down - step), (track + corner, down)),
        ((track + corner, down), (across, down)),
    ]
}

/// Whether drawing a wire stays within `i32` at every step.
pub open spec fn bend_fits(from: (i32, i32), to: (i32, i32), lane: i32) -> bool {
    let (x, y) = (from.0 as int, from.1 as int);
    let down = to.1 as int;
    &&& small(lane * LANE)
    &&& small(x + TURN)
    &&& small(x + TURN + lane * LANE)
    &&& small(down - y)
    &&& down - y != i32::MIN
    &&& small(x + TURN + lane * LANE - CHAMFER)
    &&& small(x + TURN + lane * LANE + CHAMFER)
    &&& small(y + CHAMFER) && small(y - CHAMFER)
    &&& small(down + CHAMFER) && small(down - CHAMFER)
}

/// Returns the five straight runs that draw one wire between two knots, down
/// the `lane`th track of the gap, as pairs of ends.
pub fn bend(from: (i32, i32), to: (i32, i32), lane: i32) -> (runs: Vec<((i32, i32), (i32, i32))>)
    requires
        bend_fits(from, to, lane),
    ensures
        runs@.len() == 5,
        forall|i: int| 0 <= i < 5 ==> (
            (runs@[i].0.0 as int, runs@[i].0.1 as int),
            (runs@[i].1.0 as int, runs@[i].1.1 as int),
        ) == #[trigger] bend_spec(from, to, lane)[i],
{
    let (x, y) = from;
    let (across, down) = to;
    let track: i32 = x + TURN + lane * LANE;
    let rise: i32 = down - y;
    let distance: i32 = if rise >= 0 { rise } else { -rise };
    let corner: i32 = if distance >= CHAMFER * 2 { CHAMFER } else { 0 };
    let step: i32 = if down > y { corner } else { -corner };
    let mut runs: Vec<((i32, i32), (i32, i32))> = Vec::new();
    runs.push(((x, y), (track - corner, y)));
    runs.push(((track - corner, y), (track, y + step)));
    runs.push(((track, y + step), (track, down - step)));
    runs.push(((track, down - step), (track + corner, down)));
    runs.push(((track + corner, down), (across, down)));
    proof {
        let spec = bend_spec(from, to, lane);
        assert(spec.len() == 5);
    }
    runs
}

/// The text after the last space of `label`, or all of it where it has none.
pub open spec fn last_word(label: Seq<char>) -> Seq<char>
    decreases label.len(),
{
    if label.len() == 0 {
        label
    } else if label.last() == ' ' {
        Seq::empty()
    } else {
        last_word(label.drop_last()).push(label.last())
    }
}

/// Which of the group's routings `label` names, as its row prints it: the
/// digits off the end of the label, or the whole label where what follows
/// its last space is not all digits.
pub open spec fn number_of(label: Seq<char>) -> Seq<char> {
    let last = last_word(label);
    if forall|i: int| 0 <= i < last.len() ==> is_digit(#[trigger] last[i]) {
        last
    } else {
        label
    }
}

/// One routing: where a modulation comes from, where it goes, and how much.
#[derive(Debug, Clone, Copy)]
pub struct Routing {
    /// What the library calls this routing: `Mod 1`.
    pub label: &'static str,
    /// The parameter that says where it comes from.
    pub source: ParamId,
    /// The parameter that says where it goes.
    pub destination: ParamId,
    /// The parameter that says how much.
    pub depth: ParamId,
}

/// The offsets a run of routings covers, three to a routing in the order the
/// row reads them.
pub open spec fn offsets_of(routings: Seq<Routing>) -> Seq<u8> {
    Seq::new(routings.len() * 3, |k: int| {
        let routing = routings[k / 3];
        if k % 3 == 0 { routing.source@ } else if k % 3 == 1 { routing.destination@ } else { routing.depth@ }
    })
}

/// The run of addresses a group's routings cover, as the heading prints it:
/// the least and the greatest offset with a hyphen between them, or nothing
/// where there are no routings.
pub open spec fn run_spec(routings: Seq<Routing>) -> Seq<char> {
    let offsets = offsets_of(routings);
    if offsets.len() == 0 {
        Seq::empty()
    } else {
        let first = choose|o: u8| offsets.contains(o) && forall|p: int| 0 <= p < offsets.len() ==> o <= offsets[p];
        let last = choose|o: u8| offsets.contains(o) && forall|p: int| 0 <= p < offsets.len() ==> o >= offsets[p];
        digits(first as nat) + seq!['-'] + digits(last as nat)
    }
}

impl Routing {
    /// Which of the group's routings this is, counting from one: the digits
    /// off the end of what the library calls it.
    pub fn number(self) -> (said: String)
        ensures
            said@ == number_of(self.label@),
    {
        let label = chars_of(self.label);
        let mut start: usize = label.len();
        proof {
            assert(label@.subrange(0, label@.len() as int) =~= label@);
            assert(label@.subrange(label@.len() as int, label@.len() as int) =~= Seq::<char>::empty());
            assert(last_word(label@) =~= last_word(label@) + Seq::<char>::empty());
        }
        while start > 0 && label[start - 1] != ' '
            invariant
                start <= label@.len(),
                last_word(label@) == last_word(label@.subrange(0, start as int)) + label@.subrange(start as int, label@.len() as int),
                forall|m: int| start <= m < label@.len() ==> label@[m] != ' ',
            decreases start,
        {
            proof {
                let before = label@.subrange(0, start as int);
                assert(before.drop_last() =~= label@.subrange(0, start - 1));
                assert(label@.subrange(start - 1, label@.len() as int) =~= seq![label@[start - 1]] + label@.subrange(start as int, label@.len() as int));
                assert(last_word(before) == last_word(before.drop_last()).push(before.last()));
                assert(last_word(label@.subrange(0, start - 1)).push(label@[start - 1]) + label@.subrange(start as int, label@.len() as int)
                    =~= last_word(label@.subrange(0, start - 1)) + label@.subrange(start - 1, label@.len() as int));
            }
            start = start - 1;
        }
        proof {
            if start > 0 {
                assert(last_word(label@.subrange(0, start as int)) =~= Seq::<char>::empty());
            } else {
                assert(label@.subrange(0, 0) =~= Seq::<char>::empty());
            }
            assert(last_word(label@) =~= label@.subrange(start as int, label@.len() as int));
        }
        let mut i: usize = start;
        while i < label.len()
            invariant
                start <= i <= label@.len(),
                label@ == self.label@,
                last_word(label@) == label@.subrange(start as int, label@.len() as int),
                forall|m: int| start <= m < i ==> is_digit(#[trigger] label@[m]),
            decreases label@.len() - i,
        {
            if !(48 <= label[i] as u32 && label[i] as u32 <= 57) {
                proof {
                    let last = last_word(label@);
                    assert(last[i - start] == label@[i as int]);
                    assert(!is_digit(last[i - start]));
                }
                return self.label.to_owned();
            }
            i = i + 1;
        }
        proof {
            let last = last_word(label@);
            assert forall|k: int| 0 <= k < last.len() implies is_digit(#[trigger] last[k]) by {
                assert(last[k] == label@[k + start]);
            }
        }
        let tail = crate::text::slice_of(&label, start, label.len());
        string_of(&tail)
    }

    /// The three parameters, in the order the row reads them.
    pub fn parameters(self) -> (parameters: [ParamId; 3])
        ensures
            parameters[0] == self.source,
            parameters[1] == self.destination,
            parameters[2] == self.depth,
    {
        [self.source, self.destination, self.depth]
    }

    /// Where the whole group lives, as the run of addresses its routings
    /// cover: the least offset and the greatest, with a hyphen between.
    pub fn run(routings: &[Routing]) -> (said: String)
        requires
            routings@.len() * 3 <= usize::MAX,
        ensures
            said@ == run_spec(routings@),
    {
        let ghost offsets = offsets_of(routings@);
        if routings.len() == 0 {
            proof {
                assert(offsets.len() == 0);
            }
            return String::new();
        }
        let mut least: u8 = routings[0].source.offset();
        let mut most: u8 = least;
        let mut k: usize = 0;
        let n = routings.len() * 3;
        proof {
            assert(offsets[0] == routings@[0].source@);
        }
        while k < n
            invariant
                n == offsets.len(),
                offsets == offsets_of(routings@),
                n == routings@.len() * 3,
                k <= n,
                offsets.contains(least),
                offsets.contains(most),
                forall|p: int| 0 <= p < k ==> least <= offsets[p] && offsets[p] <= most,
            decreases n - k,
        {
            let routing = routings[k / 3];
            let offset: u8 = if k % 3 == 0 {
                routing.source.offset()
            } else if k % 3 == 1 {
                routing.destination.offset()
            } else {
                routing.depth.offset()
            };
            proof {
                assert(offsets[k as int] == offset);
            }
            if offset < least {
                least = offset;
            }
            if offset > most {
                most = offset;
            }
            k = k + 1;
        }
        proof {
            let first = choose|o: u8| offsets.contains(o) && forall|p: int| 0 <= p < offsets.len() ==> o <= offsets[p];
            let last = choose|o: u8| offsets.contains(o) && forall|p: int| 0 <= p < offsets.len() ==> o >= offsets[p];
            assert(offsets.contains(least) && forall|p: int| 0 <= p < offsets.len() ==> least <= offsets[p]);
            assert(offsets.contains(most) && forall|p: int| 0 <= p < offsets.len() ==> most >= offsets[p]);
            let i = choose|i: int| 0 <= i < offsets.len() && offsets[i] == first;
            let j = choose|j: int| 0 <= j < offsets.len() && offsets[j] == least;
            assert(first <= offsets[j] && least <= offsets[i]);
            let i2 = choose|i: int| 0 <= i < offsets.len() && offsets[i] == last;
            let j2 = choose|j: int| 0 <= j < offsets.len() && offsets[j] == most;
            assert(last >= offsets[j2] && most >= offsets[i2]);
        }
        let mut said = decimal(least as u64);
        said.push('-');
        extend(&mut said, &decimal(most as u64));
        proof {
            assert(said@ =~= digits(least as nat) + seq!['-'] + digits(most as nat));
        }
        string_of(&said)
    }
}

/// Cells laid out down a column never overlap: each stands at least as far
/// below the one above it as that one is deep.
pub proof fn lemma_spread_apart(under: int, deep: int, depths: Seq<i32>, i: int)
    requires
        0 <= i,
        i + 1 < depths.len(),
    ensures
        top_at(under, deep, depths, i + 1) >= top_at(under, deep, depths, i) + depths[i],
        top_at(under, deep, depths, i + 1) <= top_at(under, deep, depths, i) + depths[i] + PITCH,
{
    let apart = apart_of(under, deep, depths);
    assert(0 <= apart <= PITCH);
    assert(prefix(depths, i + 1) == prefix(depths, i) + depths[i]);
    assert((i + 1) * apart == i * apart + apart) by (nonlinear_arith);
}

/// Whether `name` ends with `suffix`.
pub open spec fn ends_with(name: Seq<char>, suffix: Seq<char>) -> bool {
    name.len() >= suffix.len() && name.subrange(name.len() - suffix.len(), name.len() as int) == suffix
}

/// `name` with `suffix` taken off its end, where it ends with it.
pub open spec fn stripped(name: Seq<char>, suffix: Seq<char>) -> Option<Seq<char>> {
    if ends_with(name, suffix) {
        Some(name.subrange(0, name.len() - suffix.len()))
    } else {
        None
    }
}

/// Returns `name` with `suffix` taken off its end, where it ends with it.
pub fn strip_suffix<'a>(name: &'a str, suffix: &str) -> (stem: Option<&'a str>)
    ensures
        stem is Some <==> stripped(name@, suffix@) is Some,
        stem matches Some(s) ==> s@ == stripped(name@, suffix@).unwrap(),
{
    let text = chars_of(name);
    let tail = chars_of(suffix);
    if tail.len() > text.len() {
        return None;
    }
    let start = text.len() - tail.len();
    let mut i: usize = 0;
    while i < tail.len()
        invariant
            i <= tail@.len(),
            start == text@.len() - tail@.len(),
            tail@.len() <= text@.len(),
            text@.len() <= usize::MAX,
            text@ == name@,
            tail@ == suffix@,
            forall|k: int| 0 <= k < i ==> text@[start + k] == tail@[k],
        decreases tail@.len() - i,
    {
        if text[start + i] != tail[i] {
            proof {
                assert(name@.subrange(start as int, name@.len() as int)[i as int] != suffix@[i as int]);
            }
            return None;
        }
        i = i + 1;
    }
    proof {
        assert(name@.subrange(start as int, name@.len() as int) =~= suffix@);
    }
    Some(name.substring_char(0, start))
}

/// The first of `offsets`, from `from` on, that the library calls `prefix`
/// followed by `suffix`.
pub open spec fn first_named(offsets: Seq<u8>, prefix: Seq<char>, suffix: Seq<char>, from: int) -> Option<u8>
    decreases offsets.len() - from,
{
    if from < 0 || from >= offsets.len() {
        None
    } else if stripped(parameter_name(offsets[from]), suffix) == Some(prefix) {
        Some(offsets[from])
    } else {
        first_named(offsets, prefix, suffix, from + 1)
    }
}

/// The routings the first `upto` of a section's parameters start: one for
/// each parameter called a `Source` whose prefix also names a `Destination`
/// and a `Depth` in the section, as its label and the three offsets.
pub open spec fn routings_spec(offsets: Seq<u8>, upto: int) -> Seq<(Seq<char>, u8, u8, u8)>
    decreases upto,
{
    if upto <= 0 || upto > offsets.len() {
        Seq::empty()
    } else {
        let before = routings_spec(offsets, upto - 1);
        let source = offsets[upto - 1];
        match stripped(parameter_name(source), " Source"@) {
            None => before,
            Some(prefix) => match (
                first_named(offsets, prefix, " Destination"@, 0),
                first_named(offsets, prefix, " Depth"@, 0),
            ) {
                (Some(destination), Some(depth)) => before.push((prefix, source, destination, depth)),
                _ => before,
            },
        }
    }
}

/// A routing as its label and its three offsets.
pub open spec fn routing_view(routing: Routing) -> (Seq<char>, u8, u8, u8) {
    (routing.label@, routing.source@, routing.destination@, routing.depth@)
}

/// Returns the first parameter of `members` the library calls `prefix`
/// followed by `suffix`.
fn matching(members: &Vec<ParamId>, prefix: &str, suffix: &str) -> (found: Option<ParamId>)
    ensures
        found is Some <==> first_named(offsets_of_params(members@), prefix@, suffix@, 0) is Some,
        found matches Some(p) ==> first_named(offsets_of_params(members@), prefix@, suffix@, 0) == Some(p@),
{
    let ghost all = offsets_of_params(members@);
    let mut i: usize = 0;
    while i < members.len()
        invariant
            i <= members@.len(),
            all == offsets_of_params(members@),
            first_named(all, prefix@, suffix@, 0) == first_named(all, prefix@, suffix@, i as int),
        decreases members@.len() - i,
    {
        let one = members[i];
        proof {
            assert(all[i as int] == one@);
        }
        match strip_suffix(one.name(), suffix) {
            Some(stem) => {
                let same = chars_of(stem);
                let wanted = chars_of(prefix);
                if same.len() == wanted.len() {
                    let mut k: usize = 0;
                    let mut equal = true;
                    while k < same.len()
                        invariant
                            k <= same@.len(),
                            same@.len() == wanted@.len(),
                            equal == (forall|m: int| 0 <= m < k ==> same@[m] == wanted@[m]),
                        decreases same@.len() - k,
                    {
                        if same[k] != wanted[k] {
                            equal = false;
                        }
                        k = k + 1;
                    }
                    if equal {
                        proof {
                            assert(same@ =~= wanted@);
                        }
                        return Some(one);
                    }
                    proof {
                        assert(same@ != wanted@);
                    }
                }
            },
            None => {},
        }
        i = i + 1;
    }
    None
}

/// Offsets of a run of parameters.
pub open spec fn offsets_of_params(parameters: Seq<ParamId>) -> Seq<u8> {
    parameters.map_values(|p: ParamId| p@)
}

/// Returns the routings `group` is made of, when it is a matrix: found by
/// what the library calls them, a `Source` with a `Destination` and a
/// `Depth` sharing its prefix, in the order the sources stand; nothing for a
/// section with no such triple.
pub fn of(group: Group) -> (routings: Option<Vec<Routing>>)
    requires
        group.index < GROUP_COUNT,
    ensures
        routings is None <==> routings_spec(section_offsets(group), section_offsets(group).len() as int).len() == 0,
        routings matches Some(r) ==> r@.map_values(|one: Routing| routing_view(one))
            == routings_spec(section_offsets(group), section_offsets(group).len() as int),
{
    let members = group.parameters();
    let ghost all = offsets_of_params(members@);
    let mut found: Vec<Routing> = Vec::new();
    let mut i: usize = 0;
    while i < members.len()
        invariant
            i <= members@.len(),
            all == offsets_of_params(members@),
            all == section_offsets(group),
            found@.map_values(|one: Routing| routing_view(one)) == routings_spec(all, i as int),
        decreases members@.len() - i,
    {
        let source = members[i];
        let ghost before = found@;
        proof {
            assert(all[i as int] == source@);
        }
        match strip_suffix(source.name(), " Source") {
            Some(prefix) => {
                match (matching(&members, prefix, " Destination"), matching(&members, prefix, " Depth")) {
                    (Some(destination), Some(depth)) => {
                        found.push(Routing { label: prefix, source, destination, depth });
                        proof {
                            assert(found@.map_values(|one: Routing| routing_view(one)) =~= before.map_values(
                                |one: Routing| routing_view(one),
                            ).push((prefix@, source@, destination@, depth@)));
                        }
                    },
                    _ => {},
                }
            },
            None => {},
        }
        i = i + 1;
    }
    if found.len() == 0 {
        None
    } else {
        Some(found)
    }
}

/// The parameters a run of routings holds, three to a routing.
pub open spec fn flattened(routings: Seq<(Seq<char>, u8, u8, u8)>) -> Seq<u8> {
    Seq::new(routings.len() * 3, |k: int| {
        let one = routings[k / 3];
        if k % 3 == 0 { one.1 } else if k % 3 == 1 { one.2 } else { one.3 }
    })
}

/// Returns the parameters `group` draws as routings rather than as slots:
/// every routing's source, destination and depth, in that order.
pub fn routed(group: Group) -> (parameters: Vec<ParamId>)
    requires
        group.index < GROUP_COUNT,
    ensures
        offsets_of_params(parameters@) == flattened(
            routings_spec(section_offsets(group), section_offsets(group).len() as int),
        ),
{
    let ghost spec = routings_spec(section_offsets(group), section_offsets(group).len() as int);
    let routings = match of(group) {
        Some(found) => found,
        None => Vec::new(),
    };
    proof {
        assert(routings@.map_values(|one: Routing| routing_view(one)) =~= spec);
    }
    let mut parameters: Vec<ParamId> = Vec::new();
    let mut i: usize = 0;
    while i < routings.len()
        invariant
            i <= routings@.len(),
            routings@.map_values(|one: Routing| routing_view(one)) == spec,
            offsets_of_params(parameters@) == flattened(spec).take(3 * i),
            flattened(spec).len() == 3 * routings@.len(),
        decreases routings@.len() - i,
    {
        let one = routings[i];
        let ghost before = parameters@;
        parameters.push(one.source);
        parameters.push(one.destination);
        parameters.push(one.depth);
        i = i + 1;
        proof {
            let whole = flattened(spec);
            assert(spec[i - 1] == routing_view(one));
            assert(whole[3 * i - 3] == one.source@);
            assert(whole[3 * i - 2] == one.destination@);
            assert(whole[3 * i - 1] == one.depth@);
            assert(parameters@ == before.push(one.source).push(one.destination).push(one.depth));
            assert(offsets_of_params(before) == whole.take(3 * i - 3));
            assert(whole.take(3 * i) =~= whole.take(3 * i - 3).push(whole[3 * i - 3]).push(whole[3 * i - 2]).push(whole[3 * i - 1]));
            assert(offsets_of_params(parameters@) =~= offsets_of_params(before).push(one.source@).push(one.destination@).push(one.depth@));
            assert(offsets_of_params(parameters@) =~= whole.take(3 * i));
        }
    }
    proof {
        assert(flattened(spec).take(3 * routings@.len() as int) =~= flattened(spec));
    }
    parameters
}


/// The parameters a value of a named set moves, on a firmware: the offsets
/// the instrument's table lists for that value; nothing for a parameter that
/// is not one of a named set.
pub uninterp spec fn moved_by(offset: u8, value: u16, major: u8, minor: u8) -> Option<Seq<u8>>;

/// The library's picture of a value of a named set, on a firmware, as its
/// seven rows; nothing where the library draws none.
pub uninterp spec fn value_picture(offset: u8, value: u16, major: u8, minor: u8) -> Option<Seq<u8>>;

/// The library's picture of what a parameter does, as its seven rows;
/// nothing for a parameter it draws none for.
pub uninterp spec fn glyph_picture(offset: u8) -> Option<Seq<u8>>;

/// `ValueTable::parameters_of`, on the table of the parameter at `offset`
/// for this firmware, each parameter taken by its offset.
///
/// Trusted to return the program parameters the table says `value` moves,
/// named [`moved_by`], every one of them a parameter of the program; `None`
/// where the parameter is not one of a named set.
#[verifier::external_body]
fn parameters_moved(offset: u8, value: u16, firmware: Firmware) -> (moved: Option<Vec<u8>>)
    requires
        (offset as usize) < PARAMETER_COUNT,
    ensures
        match moved {
            Some(m) => moved_by(offset, value, firmware.major, firmware.minor) == Some(m@),
            None => moved_by(offset, value, firmware.major, firmware.minor) is None,
        },
        moved matches Some(m) ==> forall|i: int| 0 <= i < m@.len() ==> ((#[trigger] m@[i]) as usize) < PARAMETER_COUNT,
{
    let parameter = deepmind_midi::param::ParamId::from_offset(offset).ok()?;
    let version = deepmind_midi::sysex::inquiry::Version { major: firmware.major, minor: firmware.minor };
    match parameter.kind() {
        deepmind_midi::param::Kind::Enumerated(table) => Some(
            table.table_for(version).parameters_of(value).iter().map(|one| one.offset()).collect(),
        ),
        _ => None,
    }
}

/// `ValueTable::cell_of`, on the table of the parameter at `offset` for this
/// firmware, the picture taken as its rows.
///
/// Trusted to return the library's picture of `value`, named
/// [`value_picture`]; `None` where it has none or the parameter is not one
/// of a named set.
#[verifier::external_body]
fn value_cell(offset: u8, value: u16, firmware: Firmware) -> (cell: Option<[u8; 7]>)
    requires
        (offset as usize) < PARAMETER_COUNT,
    ensures
        cell_view(cell) == value_picture(offset, value, firmware.major, firmware.minor),
{
    let parameter = deepmind_midi::param::ParamId::from_offset(offset).ok()?;
    let version = deepmind_midi::sysex::inquiry::Version { major: firmware.major, minor: firmware.minor };
    match parameter.kind() {
        deepmind_midi::param::Kind::Enumerated(table) => table.table_for(version).cell_of(value).map(|cell| *cell.rows()),
        _ => None,
    }
}

/// `ParamId::glyph`, drawn: the picture of what the parameter at `offset`
/// does, taken as its rows.
///
/// Trusted to return the library's glyph for the parameter, named
/// [`glyph_picture`]; `None` where it has none.
#[verifier::external_body]
fn glyph_cell(offset: u8) -> (cell: Option<[u8; 7]>)
    requires
        (offset as usize) < PARAMETER_COUNT,
    ensures
        cell_view(cell) == glyph_picture(offset),
{
    let parameter = deepmind_midi::param::ParamId::from_offset(offset).ok()?;
    parameter.glyph().map(|glyph| *glyph.pixels().rows())
}

/// A picture as its rows.
pub open spec fn cell_view(cell: Option<[u8; 7]>) -> Option<Seq<u8>> {
    match cell {
        Some(rows) => Some(rows@),
        None => None,
    }
}

/// Whether a name is `off` in any mix of cases: the instrument saying an end
/// is not wired.
pub open spec fn says_off(name: Seq<char>) -> bool {
    &&& name.len() == 3
    &&& (name[0] == 'o' || name[0] == 'O')
    &&& (name[1] == 'f' || name[1] == 'F')
    &&& (name[2] == 'f' || name[2] == 'F')
}

/// The name of the first of `names`, from `from` on, stored as `value`.
pub open spec fn first_stored(names: Seq<(u16, Seq<char>)>, value: u8, from: int) -> Option<Seq<char>>
    decreases names.len() - from,
{
    if from < 0 || from >= names.len() {
        None
    } else if byte_of(names[from].0) == value {
        Some(names[from].1)
    } else {
        first_stored(names, value, from + 1)
    }
}

/// What one end of a routing is called, where it is wired: the name the
/// instrument's table gives the value it holds, unless that name says it is
/// off; nothing where the value has not been read or the table has no name
/// for it.
pub open spec fn end_name(view: PatchView, offset: u8, firmware: Firmware) -> Option<Seq<char>> {
    match view.program {
        None => None,
        Some(data) => match choices_spec(offset, firmware, Some(data[offset as int])) {
            None => None,
            Some(names) => match first_stored(names, data[offset as int], 0) {
                Some(name) => if says_off(name) {
                    None
                } else {
                    Some(name)
                },
                None => None,
            },
        },
    }
}

/// The picture of the source a routing's `value` names: the library's own
/// drawing of it, where it has one.
pub open spec fn cell_from_spec(offset: u8, value: u8, firmware: Firmware) -> Option<Seq<u8>> {
    value_picture(offset, value as u16, firmware.major, firmware.minor)
}

/// The picture of the destination a routing's `value` names: the glyph of
/// the one parameter it moves, where it moves exactly one.
pub open spec fn cell_to_spec(offset: u8, value: u8, firmware: Firmware) -> Option<Seq<u8>> {
    match moved_by(offset, value as u16, firmware.major, firmware.minor) {
        Some(moved) => if moved.len() == 1 {
            glyph_picture(moved[0])
        } else {
            None
        },
        None => None,
    }
}

/// The picture beside where a routing comes from, for the value the patch
/// holds there.
pub open spec fn from_cell(view: PatchView, offset: u8, firmware: Firmware) -> Option<Seq<u8>> {
    match view.program {
        None => None,
        Some(data) => cell_from_spec(offset, data[offset as int], firmware),
    }
}

/// The picture beside where a routing goes, for the value the patch holds
/// there.
pub open spec fn to_cell(view: PatchView, offset: u8, firmware: Firmware) -> Option<Seq<u8>> {
    match view.program {
        None => None,
        Some(data) => cell_to_spec(offset, data[offset as int], firmware),
    }
}

/// How much of a routing arrives, as the instrument's display prints it;
/// nothing where the depth has not been read.
pub open spec fn depth_text(view: PatchView, offset: u8) -> Seq<char> {
    match view.program {
        None => Seq::empty(),
        Some(data) => sits_at_spec(offset, data[offset as int]),
    }
}

/// One end of a routing: the name the display prints, and the picture beside
/// it.
#[derive(Debug, Clone, Copy)]
pub struct End {
    /// What the instrument's own display calls it.
    pub name: &'static str,
    /// The library's picture of it, as seven rows of dots, where there is one.
    pub cell: Option<[u8; 7]>,
}

/// One routing as the instrument's own display would name it.
#[derive(Debug, Clone)]
pub struct Wire {
    /// Which of the group's routings this is: `3`.
    pub number: String,
    /// How much of it arrives, as the display would print it.
    pub depth: String,
    /// Where it comes from.
    pub from: End,
    /// Where it goes.
    pub to: End,
    /// The weaker of the two ends' claims: a line drawn between a fact and a
    /// guess is a guess.
    pub claim: Confidence,
}

/// A wire as plain values.
pub open spec fn wire_view(wire: Wire) -> (Seq<char>, Seq<char>, (Seq<char>, Option<Seq<u8>>), (Seq<char>, Option<Seq<u8>>), Confidence) {
    (wire.number@, wire.depth@, (wire.from.name@, cell_view(wire.from.cell)), (wire.to.name@, cell_view(wire.to.cell)), wire.claim)
}

/// Wires as plain values.
pub open spec fn wires_view(wires: Seq<Wire>) -> Seq<(Seq<char>, Seq<char>, (Seq<char>, Option<Seq<u8>>), (Seq<char>, Option<Seq<u8>>), Confidence)> {
    wires.map_values(|w: Wire| wire_view(w))
}

/// The wire one routing makes, where both of its ends are wired.
pub open spec fn wire_spec(view: PatchView, routing: (Seq<char>, u8, u8, u8), firmware: Firmware) -> Option<
    (Seq<char>, Seq<char>, (Seq<char>, Option<Seq<u8>>), (Seq<char>, Option<Seq<u8>>), Confidence),
> {
    match (end_name(view, routing.1, firmware), end_name(view, routing.2, firmware)) {
        (Some(from), Some(to)) => Some(
            (
                number_of(routing.0),
                depth_text(view, routing.3),
                (from, from_cell(view, routing.1, firmware)),
                (to, to_cell(view, routing.2, firmware)),
                weakest(view, seq![routing.1, routing.2]),
            ),
        ),
        _ => None,
    }
}

/// The wires the first `upto` of a run of routings make.
pub open spec fn wires_of(view: PatchView, firmware: Firmware, routings: Seq<(Seq<char>, u8, u8, u8)>, upto: int) -> Seq<
    (Seq<char>, Seq<char>, (Seq<char>, Option<Seq<u8>>), (Seq<char>, Option<Seq<u8>>), Confidence),
>
    decreases upto,
{
    if upto <= 0 || upto > routings.len() {
        Seq::empty()
    } else {
        let before = wires_of(view, firmware, routings, upto - 1);
        match wire_spec(view, routings[upto - 1], firmware) {
            Some(wire) => before.push(wire),
            None => before,
        }
    }
}

/// The routings of the section laid out `place`th.
pub open spec fn routings_at(place: u8) -> Seq<(Seq<char>, u8, u8, u8)> {
    let offsets = section_offsets(Group { index: group_order(place) });
    routings_spec(offsets, offsets.len() as int)
}

/// The wires of the first `upto` sections, in the order the instrument lays
/// them out.
pub open spec fn wiring_upto(view: PatchView, firmware: Firmware, upto: int) -> Seq<
    (Seq<char>, Seq<char>, (Seq<char>, Option<Seq<u8>>), (Seq<char>, Option<Seq<u8>>), Confidence),
>
    decreases upto,
{
    if upto <= 0 {
        Seq::empty()
    } else {
        let routings = routings_at((upto - 1) as u8);
        wiring_upto(view, firmware, upto - 1) + wires_of(view, firmware, routings, routings.len() as int)
    }
}

/// Returns what one end of a routing is called, where it is wired.
fn end_name_of(patch: &Patch, parameter: ParamId, firmware: Firmware) -> (name: Option<&'static str>)
    ensures
        match name {
            Some(n) => end_name(patch@, parameter@, firmware) == Some(n@),
            None => end_name(patch@, parameter@, firmware) is None,
        },
{
    let value = match patch.value(parameter) {
        Some(value) => value,
        None => return None,
    };
    let options = match choices(parameter, firmware, Some(value)) {
        Some(options) => options,
        None => return None,
    };
    let ghost names = choices_view(options@);
    let mut i: usize = 0;
    while i < options.len()
        invariant
            i <= options@.len(),
            names == choices_view(options@),
            choices_spec(parameter@, firmware, Some(value)) == Some(names),
            patch@.program matches Some(data) && data[parameter@ as int] == value,
            first_stored(names, value, 0) == first_stored(names, value, i as int),
        decreases options@.len() - i,
    {
        let one = options[i];
        proof {
            assert(names[i as int] == (one.value, one.name@));
        }
        if one.byte() == value {
            let name = one.name;
            let said = chars_of(name);
            let off = said.len() == 3 && (said[0] == 'o' || said[0] == 'O') && (said[1] == 'f' || said[1] == 'F')
                && (said[2] == 'f' || said[2] == 'F');
            if off {
                return None;
            }
            return Some(name);
        }
        i = i + 1;
    }
    None
}

/// Returns the picture of the source `value` names at `parameter`, where the
/// library has one.
pub fn cell_from(parameter: ParamId, value: u8, firmware: Firmware) -> (cell: Option<[u8; 7]>)
    ensures
        cell_view(cell) == cell_from_spec(parameter@, value, firmware),
{
    value_cell(parameter.offset(), value as u16, firmware)
}

/// Returns the picture of the destination `value` names at `parameter`: the
/// glyph of the narrowest parameter it moves, where it moves exactly one.
pub fn cell_to(parameter: ParamId, value: u8, firmware: Firmware) -> (cell: Option<[u8; 7]>)
    ensures
        cell_view(cell) == cell_to_spec(parameter@, value, firmware),
{
    match parameters_moved(parameter.offset(), value as u16, firmware) {
        Some(moved) => if moved.len() == 1 {
            glyph_cell(moved[0])
        } else {
            None
        },
        None => None,
    }
}

/// Returns the picture beside where a routing comes from.
fn from_cell_of(patch: &Patch, parameter: ParamId, firmware: Firmware) -> (cell: Option<[u8; 7]>)
    ensures
        cell_view(cell) == from_cell(patch@, parameter@, firmware),
{
    match patch.value(parameter) {
        Some(value) => cell_from(parameter, value, firmware),
        None => None,
    }
}

/// Returns the picture beside where a routing goes.
fn to_cell_of(patch: &Patch, parameter: ParamId, firmware: Firmware) -> (cell: Option<[u8; 7]>)
    ensures
        cell_view(cell) == to_cell(patch@, parameter@, firmware),
{
    match patch.value(parameter) {
        Some(value) => cell_to(parameter, value, firmware),
        None => None,
    }
}

/// Returns the wire one routing makes, where both of its ends are wired.
fn wire(patch: &Patch, routing: Routing, firmware: Firmware) -> (wire: Option<Wire>)
    ensures
        match wire {
            Some(w) => wire_spec(patch@, routing_view(routing), firmware) == Some(wire_view(w)),
            None => wire_spec(patch@, routing_view(routing), firmware) is None,
        },
{
    let from = match end_name_of(patch, routing.source, firmware) {
        Some(name) => End { name, cell: from_cell_of(patch, routing.source, firmware) },
        None => return None,
    };
    let to = match end_name_of(patch, routing.destination, firmware) {
        Some(name) => End { name, cell: to_cell_of(patch, routing.destination, firmware) },
        None => return None,
    };
    let depth = match patch.value(routing.depth) {
        Some(value) => sits_at(routing.depth, value),
        None => String::new(),
    };
    let ends = [routing.source, routing.destination];
    let claim = patch.claim_across(&ends);
    proof {
        assert(ends@.map_values(|p: ParamId| p@) =~= seq![routing.source@, routing.destination@]);
    }
    Some(Wire { number: routing.number(), depth, from, to, claim })
}

/// Whether the values a routing's three parameters hold are ones somebody
/// has read or assumed: a routing nobody has read cannot be moved.
pub open spec fn routing_known(patch: PatchView, routing: Routing) -> bool {
    weakest(patch, seq![routing.source@, routing.destination@, routing.depth@]) != Confidence::Unknown
}

/// The neighbour a press beside routing `index` trades with: the one above
/// for the upward press, the one below for the downward, where there is one.
pub open spec fn neighbour(count: int, index: int, upwards: bool) -> Option<int> {
    if upwards {
        if 0 < index { Some(index - 1) } else { None }
    } else {
        if index + 1 < count { Some(index + 1) } else { None }
    }
}

/// What the press beside routing `index` trades, where it is live: the
/// routing and its neighbour, both there and both known.
pub open spec fn shift_spec(patch: PatchView, routings: Seq<Routing>, index: int, upwards: bool) -> Option<
    (Routing, Routing),
> {
    match neighbour(routings.len() as int, index, upwards) {
        Some(at) => if 0 <= index < routings.len() && 0 <= at < routings.len()
            && routing_known(patch, routings[index]) && routing_known(patch, routings[at]) {
            Some((routings[index], routings[at]))
        } else {
            None
        },
        None => None,
    }
}

/// Returns whether a routing's values are known, taken together.
fn known(patch: &Patch, routing: Routing) -> (yes: bool)
    ensures
        yes == routing_known(patch@, routing),
{
    let parameters = routing.parameters();
    let claim = patch.claim_across(&parameters);
    proof {
        assert(parameters@.map_values(|p: ParamId| p@) =~= seq![
            routing.source@,
            routing.destination@,
            routing.depth@,
        ]);
    }
    claim != Confidence::Unknown
}

/// Decides what one of the two presses beside a routing in the table moves:
/// the routing at `index` and the one above it (`upwards`) or below it,
/// where both are there and the values of both are known. The top row cannot
/// go up, the bottom cannot go down, and a routing whose bytes nobody has
/// read cannot be moved anywhere: such a press is dead, and gives nothing.
pub fn shift(patch: &Patch, routings: &[Routing], index: usize, upwards: bool) -> (live: Option<(Routing, Routing)>)
    ensures
        live == shift_spec(patch@, routings@, index as int, upwards),
{
    if index >= routings.len() {
        return None;
    }
    let at: usize = if upwards {
        if index == 0 {
            return None;
        }
        index - 1
    } else {
        if index + 1 >= routings.len() {
            return None;
        }
        index + 1
    };
    let one = routings[index];
    let other = routings[at];
    if known(patch, one) && known(patch, other) {
        Some((one, other))
    } else {
        None
    }
}

/// Returns the routings the patch has actually wired, in the order the
/// instrument lays its sections out and each section reads them: a routing
/// with nothing at one end is not a wire.
pub fn wiring(patch: &Patch, firmware: Firmware) -> (wires: Vec<Wire>)
    ensures
        wires_view(wires@) == wiring_upto(patch@, firmware, GROUP_COUNT as int),
{
    let mut wires: Vec<Wire> = Vec::new();
    let mut place: u8 = 0;
    while place < GROUP_COUNT
        invariant
            place <= GROUP_COUNT,
            wires_view(wires@) == wiring_upto(patch@, firmware, place as int),
        decreases GROUP_COUNT - place,
    {
        let group = Group { index: order_at(place) };
        let ghost spec = routings_at(place);
        let ghost base = wires_view(wires@);
        match of(group) {
            Some(routings) => {
                let mut i: usize = 0;
                while i < routings.len()
                    invariant
                        i <= routings@.len(),
                        routings@.map_values(|one: Routing| routing_view(one)) == spec,
                        wires_view(wires@) == base + wires_of(patch@, firmware, spec, i as int),
                    decreases routings@.len() - i,
                {
                    let ghost before = wires@;
                    proof {
                        assert(spec[i as int] == routing_view(routings@[i as int]));
                    }
                    match wire(patch, routings[i], firmware) {
                        Some(w) => {
                            wires.push(w);
                            proof {
                                assert(wires_view(wires@) =~= wires_view(before).push(wire_view(w)));
                            }
                        },
                        None => {},
                    }
                    i = i + 1;
                }
                proof {
                    assert(spec.len() == routings@.len());
                }
            },
            None => {
                proof {
                    assert(wires_of(patch@, firmware, spec, spec.len() as int) =~= Seq::empty());
                    assert(base + Seq::empty() =~= base);
                }
            },
        }
        place = place + 1;
    }
    wires
}


/// The parameters the destinations of the first `upto` of a run of routings
/// move, in order and with repeats, leaving out a destination not yet read.
pub open spec fn reached(view: PatchView, firmware: Firmware, routings: Seq<(Seq<char>, u8, u8, u8)>, upto: int) -> Seq<u8>
    decreases upto,
{
    if upto <= 0 || upto > routings.len() {
        Seq::empty()
    } else {
        let destination = routings[upto - 1].2;
        let more = match view.program {
            None => Seq::empty(),
            Some(data) => match moved_by(destination, data[destination as int] as u16, firmware.major, firmware.minor) {
                Some(moved) => moved,
                None => Seq::empty(),
            },
        };
        reached(view, firmware, routings, upto - 1) + more
    }
}

/// What the destinations of the first `upto` sections move, in the order the
/// instrument lays them out.
pub open spec fn reached_upto(view: PatchView, firmware: Firmware, upto: int) -> Seq<u8>
    decreases upto,
{
    if upto <= 0 {
        Seq::empty()
    } else {
        let routings = routings_at((upto - 1) as u8);
        reached_upto(view, firmware, upto - 1) + reached(view, firmware, routings, routings.len() as int)
    }
}

/// The first appearance of each of `all`, in order.
pub open spec fn first_of_each<A>(all: Seq<A>) -> Seq<A>
    decreases all.len(),
{
    if all.len() == 0 {
        all
    } else {
        let before = first_of_each(all.drop_last());
        if before.contains(all.last()) {
            before
        } else {
            before.push(all.last())
        }
    }
}

/// Returns every parameter the matrix is currently mapped onto, in the
/// firmware's tables: what each destination the patch holds moves, once
/// each, in the order the routings are read. A destination nobody has read
/// moves nothing.
pub fn moved(patch: &Patch, firmware: Firmware) -> (parameters: Vec<ParamId>)
    ensures
        offsets_of_params(parameters@) == first_of_each(reached_upto(patch@, firmware, GROUP_COUNT as int)),
        forall|i: int, j: int|
            0 <= i < j < parameters@.len() ==> (#[trigger] parameters@[i])@ != (#[trigger] parameters@[j])@,
{
    let mut parameters: Vec<ParamId> = Vec::new();
    let ghost mut seen: Seq<u8> = Seq::empty();
    let mut place: u8 = 0;
    while place < GROUP_COUNT
        invariant
            place <= GROUP_COUNT,
            seen == reached_upto(patch@, firmware, place as int),
            offsets_of_params(parameters@) == first_of_each(seen),
        decreases GROUP_COUNT - place,
    {
        let group = Group { index: order_at(place) };
        let ghost spec = routings_at(place);
        let ghost base = seen;
        match of(group) {
            Some(routings) => {
                let mut i: usize = 0;
                while i < routings.len()
                    invariant
                        i <= routings@.len(),
                        routings@.map_values(|one: Routing| routing_view(one)) == spec,
                        seen == base + reached(patch@, firmware, spec, i as int),
                        offsets_of_params(parameters@) == first_of_each(seen),
                    decreases routings@.len() - i,
                {
                    let destination = routings[i].destination;
                    proof {
                        assert(spec[i as int] == routing_view(routings@[i as int]));
                    }
                    let ghost start = seen;
                    let more: Vec<u8> = match patch.value(destination) {
                        Some(value) => match parameters_moved(destination.offset(), value as u16, firmware) {
                            Some(moved) => moved,
                            None => Vec::new(),
                        },
                        None => Vec::new(),
                    };
                    proof {
                        assert(reached(patch@, firmware, spec, i + 1) =~= reached(patch@, firmware, spec, i as int) + more@);
                    }
                    let mut j: usize = 0;
                    while j < more.len()
                        invariant
                            j <= more@.len(),
                            seen == start + more@.take(j as int),
                            offsets_of_params(parameters@) == first_of_each(seen),
                            forall|k: int| 0 <= k < more@.len() ==> ((#[trigger] more@[k]) as usize) < PARAMETER_COUNT,
                        decreases more@.len() - j,
                    {
                        let offset = more[j];
                        let ghost prior = seen;
                        let mut already = false;
                        let mut k: usize = 0;
                        while k < parameters.len()
                            invariant
                                k <= parameters@.len(),
                                already == offsets_of_params(parameters@).take(k as int).contains(offset),
                            decreases parameters@.len() - k,
                        {
                            let ghost t = offsets_of_params(parameters@).take(k as int);
                            let ghost t1 = offsets_of_params(parameters@).take(k + 1);
                            proof {
                                assert(t1 =~= t.push(parameters@[k as int]@));
                            }
                            let here = parameters[k].offset();
                            if here == offset {
                                already = true;
                            }
                            proof {
                                if here == offset {
                                    assert(t1[k as int] == offset);
                                } else {
                                    if t1.contains(offset) {
                                        let m = choose|m: int| 0 <= m < t1.len() && t1[m] == offset;
                                        assert(m < k);
                                        assert(t[m] == offset);
                                    }
                                    if t.contains(offset) {
                                        let m = choose|m: int| 0 <= m < t.len() && t[m] == offset;
                                        assert(t1[m] == offset);
                                    }
                                }
                            }
                            k = k + 1;
                        }
                        proof {
                            assert(offsets_of_params(parameters@).take(parameters@.len() as int) =~= offsets_of_params(parameters@));
                            seen = seen.push(offset);
                            assert(seen.drop_last() =~= prior);
                            assert(more@.take(j + 1) =~= more@.take(j as int).push(offset));
                            assert(seen =~= start + more@.take(j + 1));
                        }
                        if !already {
                            let ghost earlier = parameters@;
                            match ParamId::from_offset(offset) {
                                Some(parameter) => {
                                    parameters.push(parameter);
                                    proof {
                                        assert(offsets_of_params(parameters@) =~= offsets_of_params(earlier).push(offset));
                                    }
                                },
                                None => {
                                    proof {
                                        assert(false);
                                    }
                                },
                            }
                        }
                        j = j + 1;
                    }
                    proof {
                        assert(more@.take(more@.len() as int) =~= more@);
                        assert(seen =~= base + reached(patch@, firmware, spec, i + 1));
                    }
                    i = i + 1;
                }
                proof {
                    assert(spec.len() == routings@.len());
                }
            },
            None => {
                proof {
                    assert(reached(patch@, firmware, spec, spec.len() as int) =~= Seq::empty());
                    assert(base + Seq::empty() =~= base);
                }
            },
        }
        place = place + 1;
    }
    proof {
        lemma_first_of_each_once(seen);
        assert forall|i: int, j: int|
            0 <= i < j < parameters@.len() implies (#[trigger] parameters@[i])@ != (#[trigger] parameters@[j])@ by {
            assert(offsets_of_params(parameters@)[i] == parameters@[i]@);
            assert(offsets_of_params(parameters@)[j] == parameters@[j]@);
        }
    }
    parameters
}

/// Keeping the first appearance of each keeps nothing twice, and keeps only
/// what was there.
pub proof fn lemma_first_of_each_once<A>(all: Seq<A>)
    ensures
        forall|i: int, j: int|
            0 <= i < j < first_of_each(all).len() ==> first_of_each(all)[i] != first_of_each(all)[j],
        forall|x: A| first_of_each(all).contains(x) <==> all.contains(x),
    decreases all.len(),
{
    if all.len() > 0 {
        let rest = all.drop_last();
        lemma_first_of_each_once(rest);
        let before = first_of_each(rest);
        assert forall|x: A| all.contains(x) <==> (rest.contains(x) || x == all.last()) by {
            if all.contains(x) {
                let m = choose|m: int| 0 <= m < all.len() && all[m] == x;
                if m < all.len() - 1 {
                    assert(rest[m] == x);
                }
            }
            if rest.contains(x) {
                let m = choose|m: int| 0 <= m < rest.len() && rest[m] == x;
                assert(all[m] == x);
            }
            if x == all.last() {
                assert(all[all.len() - 1] == x);
            }
        }
        if !before.contains(all.last()) {
            let after = before.push(all.last());
            assert forall|x: A| after.contains(x) <==> (before.contains(x) || x == all.last()) by {
                if after.contains(x) {
                    let m = choose|m: int| 0 <= m < after.len() && after[m] == x;
                    if m < before.len() {
                        assert(before[m] == x);
                    }
                }
                if before.contains(x) {
                    let m = choose|m: int| 0 <= m < before.len() && before[m] == x;
                    assert(after[m] == x);
                }
                if x == all.last() {
                    assert(after[before.len() as int] == x);
                }
            }
            assert forall|i: int, j: int| 0 <= i < j < after.len() implies after[i] != after[j] by {
                if j == before.len() {
                    assert(before[i] == after[i]);
                    assert(before.contains(after[i]));
                }
            }
        }
    }
}


/// Whether some routing of some section comes from the parameter at
/// `offset`.
pub open spec fn sourced_from(offset: u8) -> bool {
    exists|place: int, k: int|
        0 <= place < GROUP_COUNT && 0 <= k < routings_at(place as u8).len() && (#[trigger] routings_at(place as u8)[k]).1 == offset
}

/// Returns whether `parameter` is the end a routing comes from, asked of the
/// routings the library's own tables give rather than of its name.
pub fn is_source(parameter: ParamId) -> (yes: bool)
    ensures
        yes == sourced_from(parameter@),
{
    let mut place: u8 = 0;
    while place < GROUP_COUNT
        invariant
            place <= GROUP_COUNT,
            forall|p: int, k: int|
                0 <= p < place && 0 <= k < routings_at(p as u8).len() ==> (#[trigger] routings_at(p as u8)[k]).1 != parameter@,
        decreases GROUP_COUNT - place,
    {
        let group = Group { index: order_at(place) };
        let ghost spec = routings_at(place);
        match of(group) {
            Some(routings) => {
                let mut i: usize = 0;
                while i < routings.len()
                    invariant
                        i <= routings@.len(),
                        routings@.map_values(|one: Routing| routing_view(one)) == spec,
                        spec == routings_at(place),
                        place < GROUP_COUNT,
                        forall|k: int| 0 <= k < i ==> (#[trigger] spec[k]).1 != parameter@,
                    decreases routings@.len() - i,
                {
                    proof {
                        assert(spec[i as int] == routing_view(routings@[i as int]));
                    }
                    if routings[i].source.offset() == parameter.offset() {
                        proof {
                            assert(routings_at((place as int) as u8)[i as int].1 == parameter@);
                        }
                        return true;
                    }
                    i = i + 1;
                }
                proof {
                    assert(spec.len() == routings@.len());
                }
            },
            None => {},
        }
        place = place + 1;
    }
    false
}

} // verus!
