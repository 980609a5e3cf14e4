use deepmind_midi::param::ParamId as P;
use deepmind_midi::param::{Kind, DEFAULT_FIRMWARE};
use deepmind_midi::pixels::Glyph;
use deepmind_midi::program::ModSource;
use control::matrix::{bend, cell_deep, of, reading_at, routed, spread, Routing, CHAMFER, LANE, LINE, TURN};
use control::patch::Group;
use control::program::ParamId;

fn param(which: deepmind_midi::param::ParamId) -> ParamId {
    ParamId::from_offset(which.offset()).expect("in the table")
}

fn group(which: deepmind_midi::param::Group) -> Group {
    let index = deepmind_midi::param::Group::ALL
        .iter()
        .position(|one| *one == which)
        .expect("every group is listed");
    Group::from_index(u8::try_from(index).expect("fits")).expect("a known group")
}

fn matrix() -> Vec<Routing> {
    of(group(deepmind_midi::param::Group::ModMatrix)).expect("the matrix")
}

fn routings() -> Vec<Routing> {
    let triples = [
        ("Mod 1", P::Mod1Source, P::Mod1Destination, P::Mod1Depth),
        ("Mod 2", P::Mod2Source, P::Mod2Destination, P::Mod2Depth),
        ("Mod 3", P::Mod3Source, P::Mod3Destination, P::Mod3Depth),
        ("Mod 4", P::Mod4Source, P::Mod4Destination, P::Mod4Depth),
        ("Mod 5", P::Mod5Source, P::Mod5Destination, P::Mod5Depth),
        ("Mod 6", P::Mod6Source, P::Mod6Destination, P::Mod6Depth),
        ("Mod 7", P::Mod7Source, P::Mod7Destination, P::Mod7Depth),
        ("Mod 8", P::Mod8Source, P::Mod8Destination, P::Mod8Depth),
    ];
    triples
        .iter()
        .map(|(label, source, destination, depth)| Routing {
            label,
            source: param(*source),
            destination: param(*destination),
            depth: param(*depth),
        })
        .collect()
}

#[test]
fn the_glass_says_where_the_whole_group_lives() {
    let routings = matrix();
    let first = routings.first().copied().expect("a first routing");
    let last = routings.last().copied().expect("a last routing");
    let run = format!("{}-{}", first.source.offset(), last.depth.offset());
    assert_eq!(Routing::run(&routings), run);
    assert_eq!(first.depth.offset(), first.source.offset() + 2);
    assert_eq!(Routing::run(&[]), "");
}

#[test]
fn a_routing_is_numbered_by_what_the_library_calls_it() {
    for (index, routing) in matrix().iter().enumerate() {
        assert_eq!(routing.number(), (index + 1).to_string());
    }
    let odd = Routing { label: "Mod X", ..routings()[0] };
    assert_eq!(odd.number(), "Mod X", "a label without a number is printed whole");
    let bare = Routing { label: "12", ..routings()[0] };
    assert_eq!(bare.number(), "12");
}

#[test]
fn a_routing_reads_source_destination_depth() {
    let first = matrix()[0];
    assert_eq!(first.source.offset(), P::Mod1Source.offset());
    assert_eq!(first.destination.offset(), P::Mod1Destination.offset());
    assert_eq!(first.depth.offset(), P::Mod1Depth.offset());
    assert_eq!(first.label, "Mod 1");
    let routing = routings()[2];
    let [source, destination, depth] = routing.parameters();
    assert_eq!(source.offset(), routing.source.offset());
    assert_eq!(destination.offset(), routing.destination.offset());
    assert_eq!(depth.offset(), routing.depth.offset());
}

#[test]
fn a_cell_is_as_deep_as_what_is_written_down_it() {
    assert_eq!(cell_deep(0), 11);
    assert_eq!(cell_deep(4), 51);
    assert_eq!(reading_at(10, 0), 22);
    assert_eq!(reading_at(10, 2), 42);
}

#[test]
fn a_column_is_spread_and_centred_and_capped() {
    assert_eq!(spread(10, 200, &[11, 11, 11]), vec![66, 98, 130]);
    assert_eq!(spread(0, 100, &[50]), vec![23]);
    assert_eq!(spread(0, 40, &[30, 30]), vec![-11, 19], "no room is no gap");
    assert!(spread(0, 40, &[]).is_empty());
}

#[test]
fn a_wire_leaves_flat_arrives_flat_and_runs_down_a_track_of_its_own() {
    let runs = bend((10, 20), (90, 60), 3);
    let track = 10 + TURN + 3 * LANE;
    assert_eq!(runs.len(), 5);
    assert_eq!(runs[0], ((10, 20), (track - CHAMFER, 20)), "flat out of the source");
    assert_eq!(runs[2], ((track, 20 + CHAMFER), (track, 60 - CHAMFER)), "down its own track");
    assert_eq!(runs[4], ((track + CHAMFER, 60), (90, 60)), "flat into the destination");
    let close = bend((10, 20), (90, 22), 0);
    assert_eq!(close[1], ((10 + TURN, 20), (10 + TURN, 20)), "no corner where two would meet");
    let rising = bend((0, 60), (50, 0), 1);
    assert_eq!(rising[2].0 .1, 60 - CHAMFER, "a wire going up turns up");
    assert_eq!(LINE, 7);
}

#[test]
fn one_group_is_a_matrix_and_the_rest_are_racks() {
    let found: Vec<deepmind_midi::param::Group> = deepmind_midi::param::Group::ALL
        .iter()
        .copied()
        .filter(|one| of(group(*one)).is_some())
        .collect();

    assert_eq!(found, vec![deepmind_midi::param::Group::ModMatrix], "found {found:?}");
}

#[test]
fn the_matrix_is_eight_routings_of_three_parameters() {
    let routings = matrix();

    assert_eq!(routings.len(), 8);
    for routing in &routings {
        for parameter in routing.parameters() {
            assert!(parameter.name().starts_with(routing.label), "{} is not part of {}", parameter.name(), routing.label);
            let library = P::from_offset(parameter.offset()).expect("in the table");
            assert_eq!(library.group(), deepmind_midi::param::Group::ModMatrix);
        }
    }
}

#[test]
fn the_rows_are_in_the_order_the_instrument_stores_them() {
    let offsets: Vec<u8> = matrix()
        .iter()
        .flat_map(|routing| routing.parameters())
        .map(|parameter| parameter.offset())
        .collect();
    let mut sorted = offsets.clone();
    sorted.sort_unstable();

    assert_eq!(offsets, sorted, "the table is not in the table's own order");
}

#[test]
fn every_parameter_of_the_matrix_is_on_a_row() {
    let matrix_group = group(deepmind_midi::param::Group::ModMatrix);
    let on_a_row: Vec<u8> = routed(matrix_group).iter().map(|parameter| parameter.offset()).collect();
    let members = matrix_group.parameters();

    assert_eq!(on_a_row.len(), members.len());
    for parameter in members {
        assert!(on_a_row.contains(&parameter.offset()), "{} is not on a row", parameter.name());
    }
}

#[test]
fn a_group_that_is_not_a_matrix_leaves_the_rack_alone() {
    assert!(routed(group(deepmind_midi::param::Group::Oscillators)).is_empty());
    assert!(routed(group(deepmind_midi::param::Group::Vcf)).is_empty());
}

#[test]
fn the_rows_are_named_after_what_the_library_calls_them() {
    let labels: Vec<&str> = matrix().iter().map(|routing| routing.label).collect();
    assert_eq!(labels, vec!["Mod 1", "Mod 2", "Mod 3", "Mod 4", "Mod 5", "Mod 6", "Mod 7", "Mod 8"]);
}

#[test]
fn the_matrix_found_is_the_one_the_library_names() {
    let found = matrix();
    let named = routings();
    for (one, other) in found.iter().zip(named.iter()) {
        assert_eq!(one.label, other.label);
        assert_eq!(one.source.offset(), other.source.offset());
        assert_eq!(one.destination.offset(), other.destination.offset());
        assert_eq!(one.depth.offset(), other.depth.offset());
    }
}

fn firmware() -> control::panel::Firmware {
    control::panel::Firmware { major: 1, minor: 1 }
}

fn theirs(parameter: ParamId) -> Vec<(u16, &'static str)> {
    P::from_offset(parameter.offset())
        .expect("a parameter")
        .choices_for(deepmind_midi::sysex::inquiry::Version { major: 1, minor: 1 })
        .expect("a named set")
        .iter()
        .map(|entry| (entry.value, entry.name))
        .collect()
}

fn wired() -> (control::patch::Patch, Routing, &'static str, &'static str, u8) {
    let first = matrix()[0];
    let sources = control::panel::choices(first.source, firmware(), None).expect("sources");
    let source = sources.iter().find(|one| !one.name.eq_ignore_ascii_case("off")).expect("a source");
    let destinations = control::panel::choices(first.destination, firmware(), None).expect("destinations");
    let destination = destinations
        .iter()
        .find(|one| !one.name.eq_ignore_ascii_case("off") && one.value > 1)
        .expect("a destination");
    let mut program = control::program::Program::new(control::program::ProtocolVersion::V7);
    program.set(first.source, source.byte()).expect("in range");
    program.set(first.destination, destination.byte()).expect("in range");
    program.set(first.depth, 200).expect("in range");
    let mut patch = control::patch::Patch::new();
    patch.presume(program);
    (patch, first, source.name, destination.name, destination.byte())
}

#[test]
fn a_list_of_choices_is_the_table_the_library_keeps() {
    let first = matrix()[0];
    let ours: Vec<(u16, &'static str)> = control::panel::choices(first.source, firmware(), None)
        .expect("sources")
        .iter()
        .map(|one| (one.value, one.name))
        .collect();
    assert_eq!(ours, theirs(first.source));
    assert!(control::panel::choices(first.source, firmware(), Some(0)).is_some());
    assert!(control::panel::choices(first.depth, firmware(), None).is_none(), "a depth is a sweep, not a list");
}

#[test]
fn an_unwired_matrix_draws_no_wires_and_moves_nothing() {
    let mut patch = control::patch::Patch::new();
    assert!(control::matrix::wiring(&patch, firmware()).is_empty());
    assert!(control::matrix::moved(&patch, firmware()).is_empty());
    patch.presume(control::program::Program::new(control::program::ProtocolVersion::V7));
    let wires = control::matrix::wiring(&patch, firmware());
    assert!(wires.is_empty(), "a matrix left off is not wires: {wires:?}");
}

#[test]
fn a_routing_with_both_ends_wired_is_one_wire() {
    let (patch, first, source, destination, value) = wired();
    let wires = control::matrix::wiring(&patch, firmware());
    assert_eq!(wires.len(), 1);
    let wire = &wires[0];
    assert_eq!(wire.number, "1");
    assert_eq!(wire.from.name, source);
    assert_eq!(wire.to.name, destination);
    assert_eq!(wire.depth, control::panel::sits_at(first.depth, 200));
    assert_eq!(wire.claim, control::patch::Confidence::Assumed);

    let table = P::from_offset(first.destination.offset()).expect("a parameter");
    let moves: Vec<u8> = match table.kind() {
        deepmind_midi::param::Kind::Enumerated(id) => id
            .table_for(deepmind_midi::sysex::inquiry::Version { major: 1, minor: 1 })
            .parameters_of(u16::from(value))
            .iter()
            .map(|one| one.offset())
            .collect(),
        _ => panic!("a destination is a named set"),
    };
    let ours: Vec<u8> = control::matrix::moved(&patch, firmware()).iter().map(|one| one.offset()).collect();
    let mut once = Vec::new();
    for offset in moves {
        if !once.contains(&offset) {
            once.push(offset);
        }
    }
    assert_eq!(ours, once);
}

#[test]
fn only_the_end_a_routing_comes_from_is_a_source() {
    for routing in matrix() {
        assert!(control::matrix::is_source(routing.source));
        assert!(!control::matrix::is_source(routing.destination));
        assert!(!control::matrix::is_source(routing.depth));
    }
    assert!(!control::matrix::is_source(param(P::from_offset(0).expect("a parameter"))));
}

#[test]
fn both_ends_of_a_routing_carry_the_librarys_own_picture() {
    let lfo = control::matrix::cell_from(param(P::Mod1Source), ModSource::Lfo1.raw(), firmware())
        .expect("the library draws LFO 1");
    assert!(lfo.iter().any(|row| *row != 0), "a blank cell");

    assert!(control::matrix::cell_from(param(P::Mod1Source), ModSource::Off.raw(), firmware()).is_none());

    let Kind::Enumerated(table) = P::Mod1Destination.kind() else {
        unreachable!("a destination is chosen from a table")
    };
    let narrowest = table
        .table_for(DEFAULT_FIRMWARE)
        .values_naming(P::VcfFrequency)
        .next()
        .expect("the matrix reaches the filter");
    let byte = u8::try_from(narrowest).expect("a byte");
    let corner = control::matrix::cell_to(param(P::Mod1Destination), byte, firmware())
        .expect("a filter corner is drawn");
    assert_eq!(
        Some(corner),
        P::VcfFrequency.glyph().map(|glyph| *Glyph::pixels(glyph).rows()),
        "the destination drew something other than its parameter"
    );
}

#[test]
fn a_destination_names_the_parameter_it_moves() {
    let mut patch = control::patch::Patch::new();
    assert!(control::matrix::moved(&patch, firmware()).is_empty());

    patch.confirm(control::program::Program::new(control::program::ProtocolVersion::V7));
    let routings = matrix();
    let destination = routings.first().expect("eight of them").destination;
    let Kind::Enumerated(table) = P::from_offset(destination.offset()).expect("a parameter").kind() else {
        unreachable!("a destination is chosen from a table")
    };
    let entry = table
        .table_for(DEFAULT_FIRMWARE)
        .entries
        .iter()
        .find(|entry| !table.table_for(DEFAULT_FIRMWARE).parameters_of(entry.value).is_empty())
        .expect("some destination moves a parameter");
    let expected: Vec<u8> = table
        .table_for(DEFAULT_FIRMWARE)
        .parameters_of(entry.value)
        .iter()
        .map(|one| one.offset())
        .collect();
    patch.edit(destination, u8::try_from(entry.value).expect("a destination is a byte"));

    let answered: Vec<u8> = control::matrix::moved(&patch, firmware()).iter().map(|one| one.offset()).collect();
    for parameter in expected {
        assert!(answered.contains(&parameter), "{parameter:?} is moved by the routing pointed at it");
    }
}

#[test]
fn the_list_holds_every_parameter() {
    let sections = control::patch::sections();
    for index in 0..deepmind_midi::param::Group::ALL.len() {
        let group = Group::from_index(u8::try_from(index).expect("fits")).expect("a known group");
        assert!(
            sections.contains(&group),
            "{} is not in the list, so its parameters cannot be reached",
            deepmind_midi::param::Group::ALL[index]
        );
    }
    assert_eq!(sections.len(), deepmind_midi::param::Group::ALL.len(), "a section appears in the list twice");
}

#[test]
fn the_list_is_in_the_instrument_s_own_order() {
    let starts: Vec<u8> = control::patch::sections()
        .iter()
        .map(|group| {
            group
                .parameters()
                .first()
                .expect("a group the table produced has a parameter in it")
                .offset()
        })
        .collect();
    let mut sorted = starts.clone();
    sorted.sort_unstable();
    assert_eq!(starts, sorted, "the list is not in the order the instrument lays its parameters out");
}

fn wire_between(number: &str, from: &'static str, to: &'static str) -> control::matrix::Wire {
    control::matrix::Wire {
        number: number.to_owned(),
        depth: "+10".to_owned(),
        from: control::matrix::End { name: from, cell: None },
        to: control::matrix::End { name: to, cell: None },
        claim: control::patch::Confidence::Confirmed,
    }
}

const GLASS_DEEP: i32 = 200;
const CELL_WIDE: i32 = 60;
const GLASS_WIDE: i32 = 150;

#[test]
fn nothing_is_drawn_for_a_matrix_nobody_has_wired() {
    let layout = control::bay::bay_layout(&[], GLASS_DEEP, CELL_WIDE, GLASS_WIDE, 8);
    assert_eq!(layout.heading, "0 OF 8", "the heading still says nothing is wired");
    assert!(layout.sources.is_empty());
    assert!(layout.destinations.is_empty());
    assert!(layout.runs.is_empty());
}

#[test]
fn a_source_with_three_destinations_is_one_cell_and_three_wires() {
    let wires = vec![
        wire_between("1", "LFO 1", "VCF Freq"),
        wire_between("2", "LFO 1", "VCA Level"),
        wire_between("3", "LFO 1", "Pitch"),
    ];
    let layout = control::bay::bay_layout(&wires, GLASS_DEEP, CELL_WIDE, GLASS_WIDE, 8);
    assert_eq!(layout.heading, "3 OF 8");
    assert_eq!(layout.sources.len(), 1, "one source is one cell");
    assert_eq!(layout.sources[0].name, "LFO 1");
    assert_eq!(layout.lines[0], vec!["1 +10", "2 +10", "3 +10"]);
    let top = spread(control::bay::HEAD, GLASS_DEEP, &[cell_deep(3)])[0];
    assert_eq!(layout.source_tops, vec![top]);

    let names: Vec<&str> = layout.destinations.iter().map(|end| end.name).collect();
    assert_eq!(names, vec!["VCF Freq", "VCA Level", "Pitch"], "three destinations are three cells");
    let arriving = spread(control::bay::HEAD, GLASS_DEEP, &[cell_deep(0); 3]);
    assert_eq!(layout.destination_tops, arriving);

    assert_eq!(layout.runs.len(), 3);
    for (line, runs) in layout.runs.iter().enumerate() {
        let knot = (control::matrix::MARGIN + CELL_WIDE - 1, reading_at(top, line) + LINE / 2);
        let end = (GLASS_WIDE - control::matrix::MARGIN - CELL_WIDE, arriving[line] + cell_deep(0) / 2);
        assert_eq!(runs, &bend(knot, end, i32::try_from(line).expect("a lane")));
        assert_eq!(runs[0].0, knot, "the wire leaves beside its own line");
        assert_eq!(runs[4].1, end, "and arrives at the middle of its destination");
    }
}

#[test]
fn a_name_is_drawn_once_and_what_leaves_it_is_a_list() {
    let wires = vec![
        wire_between("1", "LFO 1", "Pitch"),
        wire_between("2", "Mod Wheel", "Pitch"),
        wire_between("3", "LFO 1", "VCF Freq"),
    ];
    let layout = control::bay::bay_layout(&wires, GLASS_DEEP, CELL_WIDE, GLASS_WIDE, 8);
    let sources: Vec<&str> = layout.sources.iter().map(|end| end.name).collect();
    assert_eq!(sources, vec!["LFO 1", "Mod Wheel"]);
    let destinations: Vec<&str> = layout.destinations.iter().map(|end| end.name).collect();
    assert_eq!(destinations, vec!["Pitch", "VCF Freq"]);
    assert_eq!(layout.lines, vec![vec!["1 +10".to_owned(), "3 +10".to_owned()], vec!["2 +10".to_owned()]]);
    let top = layout.source_tops[0];
    assert_eq!(layout.runs[2][0].0 .1, reading_at(top, 1) + LINE / 2, "the third wire leaves beside LFO 1's second line");
}

fn labels(live: Option<(Routing, Routing)>) -> Option<(&'static str, &'static str)> {
    live.map(|(one, other)| (one.label, other.label))
}

#[test]
fn a_press_trades_a_routing_with_its_neighbour_once_both_are_known() {
    let routings = matrix();
    let mut patch = control::patch::Patch::new();
    assert_eq!(labels(control::matrix::shift(&patch, &routings, 0, false)), None, "nobody has read these");
    patch.presume(control::program::Program::new(control::program::ProtocolVersion::V7));
    assert_eq!(labels(control::matrix::shift(&patch, &routings, 0, true)), None, "the top row cannot go up");
    assert_eq!(labels(control::matrix::shift(&patch, &routings, 0, false)), Some(("Mod 1", "Mod 2")));
    assert_eq!(labels(control::matrix::shift(&patch, &routings, 3, true)), Some(("Mod 4", "Mod 3")));
    assert_eq!(labels(control::matrix::shift(&patch, &routings, 7, false)), None, "the bottom row cannot go down");
    assert_eq!(labels(control::matrix::shift(&patch, &routings, 7, true)), Some(("Mod 8", "Mod 7")));
    assert_eq!(labels(control::matrix::shift(&patch, &routings, 8, true)), None);
}
