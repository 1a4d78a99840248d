//! Strict v15 reader/writer for Turing Complete circuit containers.
//!
//! Wire format: a version byte (15) followed by a Snappy-compressed body of
//! typed records (see `format` for the record layouts).
use vstd::prelude::*;
use crate::binary::{Fault, Reader, SResult, Writer, bool_bytes, bytes_to_vec, fault_text, i16_bytes, i64_bytes, point_bytes, reports, u16_bytes, u32_bytes, u64_bytes};
use crate::format::{CircuitHead, sp_custom_tail, sp_body_v15, ComponentMid, EResult, body_head_bytes, component_item, component_mid_bytes, component_tail_bytes, component_w, design_ok, i64_item, i64_w, lemma_many_start, lemma_many_step, lemma_se_many_err, lemma_se_many_push, len16, linked_item, linked_w, pair_item, pair_w, prepend, program_item, program_w, se_body, se_body_records, se_body_strings, se_component, se_component_rest, se_linked, se_many, se_program, se_segment, se_wire, segment_w, sp_circuit_head, sp_component, sp_component_head, sp_component_mid, sp_counted, sp_design, sp_head_tail, sp_linked, sp_list16, sp_many, sp_pair, sp_program, sp_segments, sp_wire, spec_decode_v15, u64_item, u64_w, wire_item, wire_w};
use crate::snappy::{MAX_DECOMPRESSED_SIZE, compress, decompress, snappy_decode, snappy_encoded, snappy_input_limit, snappy_too_big_text};
use crate::roundtrip::{circuit_fits, lemma_body_round_trip};
use crate::equality::circuit_eq;
use crate::legacy::{decode_v13, decode_v14, decode_v7, spec_decode_v13_or_v14, spec_decode_v7};
use crate::text::{chars_to_string, push_str, push_u64};
use vstd::seq_lib::lemma_concat_associative;
use crate::model::{linked_views, program_views, component_views, wire_views, Circuit, CircuitV, ComponentV, WireV, Component, LinkedComponent, LinkedV, Point, ProgramV, SelectedProgram, Wire, linked_view, program_view};

verus! {

/// The version byte emitted by `encode_v15` and required by `decode_v15`.
pub const FORMAT_VERSION: u8 = 15;

/// Component kind that triggers the custom-component tail block.
pub const CUSTOM_COMPONENT_KIND: u16 = 78;

/// Width of the `design` field for custom components.
pub const CUSTOM_DESIGN_BYTES: usize = 512;

#[verifier::loop_isolation(false)]
pub(crate) fn read_u64s(reader: &mut Reader, n: usize) -> (res: Result<Vec<u64>, String>)
    ensures
        final(reader).bytes() == old(reader).bytes(),
        match sp_many(old(reader).bytes(), old(reader).pos(), n as nat, u64_item()) {
            Ok((v, p)) => res matches Ok(x) && x@ == v && final(reader).pos() == p,
            Err(f) => res matches Err(e) && reports(e@, f),
        },
{
    let ghost d = reader.bytes();
    let ghost o0 = reader.pos();
    let mut out: Vec<u64> = Vec::new();
    proof { lemma_many_start(d, o0, n as nat, u64_item()); }
    let mut i: usize = 0;
    while i < n
        invariant
            reader.bytes() == d,
            i <= n,
            sp_many(d, o0, n as nat, u64_item()) == prepend(
                out@,
                sp_many(d, reader.pos(), (n - i) as nat, u64_item()),
            ),
        decreases n - i,
    {
        proof { lemma_many_step(d, o0, n as nat, u64_item(), out@, reader.pos(), i as nat); }
        let v = reader.u64()?;
        out.push(v);
        i = i + 1;
    }
    assert(out@ + Seq::<u64>::empty() =~= out@);
    Ok(out)
}

#[verifier::loop_isolation(false)]
pub(crate) fn read_i64s(reader: &mut Reader, n: usize) -> (res: Result<Vec<i64>, String>)
    ensures
        final(reader).bytes() == old(reader).bytes(),
        match sp_many(old(reader).bytes(), old(reader).pos(), n as nat, i64_item()) {
            Ok((v, p)) => res matches Ok(x) && x@ == v && final(reader).pos() == p,
            Err(f) => res matches Err(e) && reports(e@, f),
        },
{
    let ghost d = reader.bytes();
    let ghost o0 = reader.pos();
    let mut out: Vec<i64> = Vec::new();
    proof { lemma_many_start(d, o0, n as nat, i64_item()); }
    let mut i: usize = 0;
    while i < n
        invariant
            reader.bytes() == d,
            i <= n,
            sp_many(d, o0, n as nat, i64_item()) == prepend(
                out@,
                sp_many(d, reader.pos(), (n - i) as nat, i64_item()),
            ),
        decreases n - i,
    {
        proof { lemma_many_step(d, o0, n as nat, i64_item(), out@, reader.pos(), i as nat); }
        let v = reader.i64()?;
        out.push(v);
        i = i + 1;
    }
    assert(out@ + Seq::<i64>::empty() =~= out@);
    Ok(out)
}

/// `u16` count followed by that many `u64` settings.
pub(crate) fn read_settings(reader: &mut Reader) -> (res: Result<Vec<u64>, String>)
    ensures
        final(reader).bytes() == old(reader).bytes(),
        match sp_list16(old(reader).bytes(), old(reader).pos(), u64_item()) {
            Ok((v, p)) => res matches Ok(x) && x@ == v && final(reader).pos() == p,
            Err(f) => res matches Err(e) && reports(e@, f),
        },
{
    let n = reader.u16()? as usize;
    read_u64s(reader, n)
}

fn read_pair(reader: &mut Reader) -> (res: Result<(i64, i64), String>)
    ensures
        final(reader).bytes() == old(reader).bytes(),
        match sp_pair(old(reader).bytes(), old(reader).pos()) {
            Ok((v, p)) => res == Ok::<(i64, i64), String>(v) && final(reader).pos() == p,
            Err(f) => res matches Err(e) && reports(e@, f),
        },
{
    let a = reader.i64()?;
    let b = reader.i64()?;
    Ok((a, b))
}

#[verifier::loop_isolation(false)]
pub(crate) fn read_custom_word_sizes(reader: &mut Reader) -> (res: Result<Vec<(i64, i64)>, String>)
    ensures
        final(reader).bytes() == old(reader).bytes(),
        match sp_list16(old(reader).bytes(), old(reader).pos(), pair_item()) {
            Ok((v, p)) => res matches Ok(x) && x@ == v && final(reader).pos() == p,
            Err(f) => res matches Err(e) && reports(e@, f),
        },
{
    let ghost d = reader.bytes();
    let n = reader.u16()? as usize;
    let ghost o0 = reader.pos();
    let mut out: Vec<(i64, i64)> = Vec::new();
    proof { lemma_many_start(d, o0, n as nat, pair_item()); }
    let mut i: usize = 0;
    while i < n
        invariant
            reader.bytes() == d,
            i <= n,
            sp_many(d, o0, n as nat, pair_item()) == prepend(
                out@,
                sp_many(d, reader.pos(), (n - i) as nat, pair_item()),
            ),
        decreases n - i,
    {
        proof { lemma_many_step(d, o0, n as nat, pair_item(), out@, reader.pos(), i as nat); }
        let v = read_pair(reader)?;
        out.push(v);
        i = i + 1;
    }
    assert(out@ + Seq::<(i64, i64)>::empty() =~= out@);
    Ok(out)
}

fn read_linked(reader: &mut Reader) -> (res: Result<LinkedComponent, String>)
    ensures
        final(reader).bytes() == old(reader).bytes(),
        match sp_linked(old(reader).bytes(), old(reader).pos()) {
            Ok((v, p)) => res matches Ok(x) && linked_view(x) == v && final(reader).pos() == p,
            Err(f) => res matches Err(e) && reports(e@, f),
        },
{
    reveal(sp_linked);
    let a = reader.i64()?;
    let b = reader.i64()?;
    let c = reader.string()?;
    let d = reader.i64()?;
    let e = reader.i64()?;
    Ok((a, b, c, d, e))
}

#[verifier::loop_isolation(false)]
pub(crate) fn read_linked_list(reader: &mut Reader) -> (res: Result<Vec<LinkedComponent>, String>)
    ensures
        final(reader).bytes() == old(reader).bytes(),
        match sp_list16(old(reader).bytes(), old(reader).pos(), linked_item()) {
            Ok((v, p)) => res matches Ok(x) && linked_views(x@)
                == v && final(reader).pos() == p,
            Err(f) => res matches Err(e) && reports(e@, f),
        },
{
    let ghost d = reader.bytes();
    let n = reader.u16()? as usize;
    let ghost o0 = reader.pos();
    let mut out: Vec<LinkedComponent> = Vec::new();
    proof { lemma_many_start(d, o0, n as nat, linked_item()); }
    let mut i: usize = 0;
    while i < n
        invariant
            reader.bytes() == d,
            i <= n,
            sp_many(d, o0, n as nat, linked_item()) == prepend(
                linked_views(out@),
                sp_many(d, reader.pos(), (n - i) as nat, linked_item()),
            ),
        decreases n - i,
    {
        proof {
            lemma_many_step(
                d,
                o0,
                n as nat,
                linked_item(),
                linked_views(out@),
                reader.pos(),
                i as nat,
            );
        }
        let ghost before = out@;
        let v = read_linked(reader)?;
        out.push(v);
        assert(linked_views(out@) =~= linked_views(before).push(linked_view(v)));
        i = i + 1;
    }
    assert(linked_views(out@) + Seq::<LinkedV>::empty()
        =~= linked_views(out@));
    Ok(out)
}

fn read_program(reader: &mut Reader) -> (res: Result<SelectedProgram, String>)
    ensures
        final(reader).bytes() == old(reader).bytes(),
        match sp_program(old(reader).bytes(), old(reader).pos()) {
            Ok((v, p)) => res matches Ok(x) && program_view(x) == v && final(reader).pos() == p,
            Err(f) => res matches Err(e) && reports(e@, f),
        },
{
    let level = reader.string()?;
    let program = reader.string()?;
    Ok((level, program))
}

#[verifier::loop_isolation(false)]
pub(crate) fn read_selected_programs(reader: &mut Reader) -> (res: Result<Vec<SelectedProgram>, String>)
    ensures
        final(reader).bytes() == old(reader).bytes(),
        match sp_list16(old(reader).bytes(), old(reader).pos(), program_item()) {
            Ok((v, p)) => res matches Ok(x) && program_views(x@)
                == v && final(reader).pos() == p,
            Err(f) => res matches Err(e) && reports(e@, f),
        },
{
    let ghost d = reader.bytes();
    let n = reader.u16()? as usize;
    let ghost o0 = reader.pos();
    let mut out: Vec<SelectedProgram> = Vec::new();
    proof { lemma_many_start(d, o0, n as nat, program_item()); }
    let mut i: usize = 0;
    while i < n
        invariant
            reader.bytes() == d,
            i <= n,
            sp_many(d, o0, n as nat, program_item()) == prepend(
                program_views(out@),
                sp_many(d, reader.pos(), (n - i) as nat, program_item()),
            ),
        decreases n - i,
    {
        proof {
            lemma_many_step(
                d,
                o0,
                n as nat,
                program_item(),
                program_views(out@),
                reader.pos(),
                i as nat,
            );
        }
        let ghost before = out@;
        let v = read_program(reader)?;
        out.push(v);
        assert(program_views(out@) =~= program_views(before).push(program_view(v)));
        i = i + 1;
    }
    assert(program_views(out@) + Seq::<ProgramV>::empty()
        =~= program_views(out@));
    Ok(out)
}

fn read_component_head(reader: &mut Reader) -> (res: Result<(u16, Point, u8, i64, String, String), String>)
    ensures
        final(reader).bytes() == old(reader).bytes(),
        match sp_component_head(old(reader).bytes(), old(reader).pos()) {
            Ok((v, p)) => res matches Ok(x) && (x.0, x.1, x.2, x.3, x.4@, x.5@) == v && final(reader).pos() == p,
            Err(f) => res matches Err(e) && reports(e@, f),
        },
{
    reveal(sp_component_head);
    let kind = reader.u16()?;
    let position = reader.point()?;
    let rotation = reader.u8()?;
    let permanent_id = reader.i64()?;
    let user_label = reader.string()?;
    let custom_string = reader.string()?;
    Ok((kind, position, rotation, permanent_id, user_label, custom_string))
}

struct MidFields {
    settings: Vec<u64>,
    buffer_size: i64,
    ui_order: i16,
    word_size: i64,
    immutable: bool,
    cost_gate: i64,
    cost_delay: i64,
    little_endian: bool,
    init_data: u8,
}

spec fn mid_view(m: MidFields) -> ComponentMid {
    ComponentMid {
        settings: m.settings@,
        buffer_size: m.buffer_size,
        ui_order: m.ui_order,
        word_size: m.word_size,
        immutable: m.immutable,
        cost_gate: m.cost_gate,
        cost_delay: m.cost_delay,
        little_endian: m.little_endian,
        init_data: m.init_data,
    }
}

fn read_component_mid(reader: &mut Reader) -> (res: Result<MidFields, String>)
    ensures
        final(reader).bytes() == old(reader).bytes(),
        match sp_component_mid(old(reader).bytes(), old(reader).pos()) {
            Ok((v, p)) => res matches Ok(x) && mid_view(x) == v && final(reader).pos() == p,
            Err(f) => res matches Err(e) && reports(e@, f),
        },
{
    reveal(sp_component_mid);
    let settings = read_settings(reader)?;
    let buffer_size = reader.i64()?;
    let ui_order = reader.i16()?;
    let word_size = reader.i64()?;
    let immutable = reader.boolean()?;
    let cost_gate = reader.i64()?;
    let cost_delay = reader.i64()?;
    let little_endian = reader.boolean()?;
    let init_data = reader.u8()?;
    Ok(MidFields {
        settings,
        buffer_size,
        ui_order,
        word_size,
        immutable,
        cost_gate,
        cost_delay,
        little_endian,
        init_data,
    })
}

/// Read one v15 component record.
pub(crate) fn read_component(reader: &mut Reader) -> (res: Result<Component, String>)
    ensures
        final(reader).bytes() == old(reader).bytes(),
        match sp_component(old(reader).bytes(), old(reader).pos()) {
            Ok((v, p)) => res matches Ok(x) && x@ == v && final(reader).pos() == p,
            Err(f) => res matches Err(e) && reports(e@, f),
        },
{
    reveal(sp_component);
    reveal(sp_custom_tail);
    let head = read_component_head(reader)?;
    let mid = read_component_mid(reader)?;
    let linked_components = read_linked_list(reader)?;
    let selected_programs = read_selected_programs(reader)?;
    let mut custom_id: i64 = 0;
    let mut custom_word_sizes: Vec<(i64, i64)> = Vec::new();
    if head.0 == CUSTOM_COMPONENT_KIND {
        custom_id = reader.i64()?;
        custom_word_sizes = read_custom_word_sizes(reader)?;
    }
    let (kind, position, rotation, permanent_id, user_label, custom_string) = head;
    let c = Component {
        kind,
        position,
        rotation,
        permanent_id,
        user_label,
        custom_string,
        settings: mid.settings,
        buffer_size: mid.buffer_size,
        ui_order: mid.ui_order,
        word_size: mid.word_size,
        immutable: mid.immutable,
        cost_gate: mid.cost_gate,
        cost_delay: mid.cost_delay,
        little_endian: mid.little_endian,
        init_data: mid.init_data,
        linked_components,
        selected_programs,
        custom_id,
        custom_word_sizes,
    };
    Ok(c)
}

#[verifier::loop_isolation(false)]
fn read_segments(reader: &mut Reader) -> (res: Result<Vec<(u8, u16)>, String>)
    ensures
        final(reader).bytes() == old(reader).bytes(),
        match sp_segments(old(reader).bytes(), old(reader).pos()) {
            Ok((v, p)) => res matches Ok(x) && x@ == v && final(reader).pos() == p,
            Err(f) => res matches Err(e) && reports(e@, f),
        },
{
    let ghost d = reader.bytes();
    let ghost o0 = reader.pos();
    let mut segments: Vec<(u8, u16)> = Vec::new();
    assert(sp_segments(d, o0) == prepend(segments@, sp_segments(d, o0))) by {
        match sp_segments(d, o0) {
            Ok((vs, o)) => { assert(segments@ + vs =~= vs); },
            Err(_) => {},
        }
    }
    loop
        invariant
            reader.bytes() == d,
            sp_segments(d, o0) == prepend(segments@, sp_segments(d, reader.pos())),
        decreases d.len() - reader.pos(),
    {
        let ghost p = reader.pos();
        let code = reader.u16()?;
        let length = code % 8192;
        if length == 0 {
            assert(segments@ + Seq::<(u8, u16)>::empty() =~= segments@);
            break;
        }
        let direction = (code / 8192) as u8;
        proof {
            match sp_segments(d, reader.pos()) {
                Ok((vs, o2)) => {
                    assert(segments@ + (seq![(direction, length)] + vs) =~= segments@.push((direction, length)) + vs);
                },
                Err(_) => {},
            }
        }
        segments.push((direction, length));
    }
    Ok(segments)
}

/// Read one v15 wire record.
pub(crate) fn read_wire(reader: &mut Reader) -> (res: Result<Wire, String>)
    ensures
        final(reader).bytes() == old(reader).bytes(),
        match sp_wire(old(reader).bytes(), old(reader).pos()) {
            Ok((v, p)) => res matches Ok(x) && x@ == v && final(reader).pos() == p,
            Err(f) => res matches Err(e) && reports(e@, f),
        },
{
    let color = reader.u8()?;
    let comment = reader.string()?;
    let start = reader.point()?;
    let segments = read_segments(reader)?;
    Ok(Wire { color, comment, start, segments, teleport_end: None })
}

/// Exec mirror of the circuit header.
pub(crate) struct HeadFields {
    pub custom_id: i64,
    pub hub_id: u32,
    pub gate: i64,
    pub delay: i64,
    pub menu_visible: bool,
    pub clock_speed: u64,
    pub dependencies: Vec<i64>,
    pub description: String,
    pub sync_state: u8,
    pub score: u16,
    pub player_data: Vec<u8>,
    pub hub_description: String,
}

pub(crate) open spec fn head_view(h: HeadFields) -> CircuitHead {
    CircuitHead {
        custom_id: h.custom_id,
        hub_id: h.hub_id,
        gate: h.gate,
        delay: h.delay,
        menu_visible: h.menu_visible,
        clock_speed: h.clock_speed,
        dependencies: h.dependencies@,
        description: h.description@,
        sync_state: h.sync_state,
        score: h.score,
        player_data: h.player_data@,
        hub_description: h.hub_description@,
    }
}

fn read_head_tail(reader: &mut Reader) -> (res: Result<(u8, u16, Vec<u8>, String), String>)
    ensures
        final(reader).bytes() == old(reader).bytes(),
        match sp_head_tail(old(reader).bytes(), old(reader).pos()) {
            Ok((v, p)) => res matches Ok(x) && (x.0, x.1, x.2@, x.3@) == v && final(reader).pos() == p,
            Err(f) => res matches Err(e) && reports(e@, f),
        },
{
    reveal(sp_head_tail);
    let sync_state = reader.u8()?;
    let score = reader.u16()?;
    let player_data = reader.bytes_u16()?;
    let hub_description = reader.string()?;
    Ok((sync_state, score, player_data, hub_description))
}

/// Read the circuit header; `has_camera` skips the v7 camera point.
pub(crate) fn read_head(reader: &mut Reader, has_camera: bool) -> (res: Result<HeadFields, String>)
    ensures
        final(reader).bytes() == old(reader).bytes(),
        match sp_circuit_head(old(reader).bytes(), old(reader).pos(), has_camera) {
            Ok((v, p)) => res matches Ok(x) && head_view(x) == v && final(reader).pos() == p,
            Err(f) => res matches Err(e) && reports(e@, f),
        },
{
    reveal(sp_circuit_head);
    let custom_id = reader.i64()?;
    let hub_id = reader.u32()?;
    let gate = reader.i64()?;
    let delay = reader.i64()?;
    let menu_visible = reader.boolean()?;
    let clock_speed = reader.u64()?;
    let deps_len = reader.u16()? as usize;
    let dependencies = read_i64s(reader, deps_len)?;
    let description = reader.string()?;
    if has_camera {
        let _camera = reader.point()?;
    }
    let tail = read_head_tail(reader)?;
    let (sync_state, score, player_data, hub_description) = tail;
    Ok(HeadFields {
        custom_id,
        hub_id,
        gate,
        delay,
        menu_visible,
        clock_speed,
        dependencies,
        description,
        sync_state,
        score,
        player_data,
        hub_description,
    })
}

/// Read the design block that a custom circuit carries.
pub(crate) fn read_design(reader: &mut Reader, custom_id: i64) -> (res: Result<Vec<u8>, String>)
    ensures
        final(reader).bytes() == old(reader).bytes(),
        match sp_design(old(reader).bytes(), old(reader).pos(), custom_id) {
            Ok((v, p)) => res matches Ok(x) && x@ == v && final(reader).pos() == p,
            Err(f) => res matches Err(e) && reports(e@, f),
        },
{
    if custom_id != 0 {
        let bytes = reader.take(CUSTOM_DESIGN_BYTES)?;
        Ok(bytes_to_vec(bytes))
    } else {
        Ok(Vec::new())
    }
}

#[verifier::loop_isolation(false)]
fn read_components(reader: &mut Reader) -> (res: Result<Vec<Component>, String>)
    ensures
        final(reader).bytes() == old(reader).bytes(),
        match sp_counted(old(reader).bytes(), old(reader).pos(), "components"@, component_item()) {
            Ok((v, p)) => res matches Ok(x) && component_views(x@) == v && final(reader).pos() == p,
            Err(f) => res matches Err(e) && reports(e@, f),
        },
{
    let ghost d = reader.bytes();
    let n = reader.count_i64("components")?;
    let ghost o0 = reader.pos();
    let mut out: Vec<Component> = Vec::new();
    proof { lemma_many_start(d, o0, n as nat, component_item()); }
    let mut i: usize = 0;
    while i < n
        invariant
            reader.bytes() == d,
            i <= n,
            sp_many(d, o0, n as nat, component_item()) == prepend(
                component_views(out@),
                sp_many(d, reader.pos(), (n - i) as nat, component_item()),
            ),
        decreases n - i,
    {
        proof {
            lemma_many_step(d, o0, n as nat, component_item(), component_views(out@), reader.pos(), i as nat);
        }
        let ghost before = out@;
        let v = read_component(reader)?;
        out.push(v);
        assert(component_views(out@) =~= component_views(before).push(v@));
        i = i + 1;
    }
    assert(component_views(out@) + Seq::<ComponentV>::empty() =~= component_views(out@));
    Ok(out)
}

#[verifier::loop_isolation(false)]
pub(crate) fn read_wires(reader: &mut Reader) -> (res: Result<Vec<Wire>, String>)
    ensures
        final(reader).bytes() == old(reader).bytes(),
        match sp_counted(old(reader).bytes(), old(reader).pos(), "wires"@, wire_item()) {
            Ok((v, p)) => res matches Ok(x) && wire_views(x@) == v && final(reader).pos() == p,
            Err(f) => res matches Err(e) && reports(e@, f),
        },
{
    let ghost d = reader.bytes();
    let n = reader.count_i64("wires")?;
    let ghost o0 = reader.pos();
    let mut out: Vec<Wire> = Vec::new();
    proof { lemma_many_start(d, o0, n as nat, wire_item()); }
    let mut i: usize = 0;
    while i < n
        invariant
            reader.bytes() == d,
            i <= n,
            sp_many(d, o0, n as nat, wire_item()) == prepend(
                wire_views(out@),
                sp_many(d, reader.pos(), (n - i) as nat, wire_item()),
            ),
        decreases n - i,
    {
        proof {
            lemma_many_step(d, o0, n as nat, wire_item(), wire_views(out@), reader.pos(), i as nat);
        }
        let ghost before = out@;
        let v = read_wire(reader)?;
        out.push(v);
        assert(wire_views(out@) =~= wire_views(before).push(v@));
        i = i + 1;
    }
    assert(wire_views(out@) + Seq::<WireV>::empty() =~= wire_views(out@));
    Ok(out)
}

/// The message of a fault raised before the body is read.
pub(crate) fn version_fault_message(expected: u8, got: u8) -> (s: String)
    ensures
        s@ == fault_text(Fault::BadVersion { expected: expected as nat, got: got as nat }),
{
    let mut v: Vec<char> = Vec::new();
    push_str(&mut v, "CIRCUIT_BAD_VERSION|expected ");
    push_u64(&mut v, expected as u64);
    push_str(&mut v, ", got ");
    push_u64(&mut v, got as u64);
    chars_to_string(v.as_slice())
}

/// Decode a v15 payload. Errors out on any truncation, version mismatch, or
/// structural inconsistency.
pub fn decode_v15(payload: &[u8]) -> (res: Result<Circuit, String>)
    ensures
        match spec_decode_v15(payload@) {
            Ok(v) => res matches Ok(c) && c@ == v,
            Err(f) => res matches Err(e) && reports(e@, f),
        },
{
    reveal(sp_body_v15);
    reveal(spec_decode_v15);
    if payload.len() == 0 {
        let mut v: Vec<char> = Vec::new();
        push_str(&mut v, "CIRCUIT_TOO_SHORT|empty input");
        return Err(chars_to_string(v.as_slice()));
    }
    if payload[0] != FORMAT_VERSION {
        return Err(version_fault_message(FORMAT_VERSION, payload[0]));
    }
    let rest = slice_from(payload, 1);
    let body = decompress(rest)?;
    let mut reader = Reader::new(body.as_slice());
    let head = read_head(&mut reader, false)?;
    let design = read_design(&mut reader, head.custom_id)?;
    let components = read_components(&mut reader)?;
    let wires = read_wires(&mut reader)?;
    reader.finish()?;
    Ok(Circuit {
        custom_id: head.custom_id,
        hub_id: head.hub_id,
        gate: head.gate,
        delay: head.delay,
        menu_visible: head.menu_visible,
        clock_speed: head.clock_speed,
        dependencies: head.dependencies,
        description: head.description,
        sync_state: head.sync_state,
        score: head.score,
        player_data: head.player_data,
        hub_description: head.hub_description,
        design,
        components,
        wires,
    })
}

/// What decoding a container of any readable version yields: dispatch on
/// the leading version byte.
pub open spec fn spec_decode_circuit(payload: Seq<u8>) -> Result<CircuitV, Fault> {
    if payload.len() == 0 {
        Err(Fault::TooShort)
    } else if payload[0] == 15 {
        spec_decode_v15(payload)
    } else if payload[0] == 7 {
        spec_decode_v7(payload)
    } else if payload[0] == 13 {
        spec_decode_v13_or_v14(payload, 13)
    } else if payload[0] == 14 {
        spec_decode_v13_or_v14(payload, 14)
    } else {
        Err(Fault::Unsupported { version: payload[0] as nat })
    }
}

/// Decoding dispatches on the version byte: an empty payload is too short,
/// versions 15, 7, 13 and 14 decode as those versions do (result and message
/// alike), and any other version is unsupported.
pub proof fn lemma_decode_dispatch(payload: Seq<u8>)
    ensures
        payload.len() == 0 ==> spec_decode_circuit(payload) == Err::<CircuitV, Fault>(Fault::TooShort)
            && "CIRCUIT_TOO_SHORT|"@.is_prefix_of(fault_text(Fault::TooShort)),
        payload.len() > 0 && payload[0] == 15 ==> spec_decode_circuit(payload) == spec_decode_v15(payload),
        payload.len() > 0 && payload[0] == 7 ==> spec_decode_circuit(payload) == spec_decode_v7(payload),
        payload.len() > 0 && payload[0] == 13 ==> spec_decode_circuit(payload) == spec_decode_v13_or_v14(payload, 13),
        payload.len() > 0 && payload[0] == 14 ==> spec_decode_circuit(payload) == spec_decode_v13_or_v14(payload, 14),
        payload.len() > 0 && payload[0] != 15 && payload[0] != 7 && payload[0] != 13 && payload[0] != 14
            ==> (spec_decode_circuit(payload) matches Err(f) && "CIRCUIT_UNSUPPORTED|"@.is_prefix_of(fault_text(f))),
{
    reveal_strlit("CIRCUIT_TOO_SHORT|");
    reveal_strlit("CIRCUIT_TOO_SHORT|empty input");
    reveal_strlit("CIRCUIT_UNSUPPORTED|");
    reveal_strlit("CIRCUIT_UNSUPPORTED|version ");
    assert("CIRCUIT_TOO_SHORT|"@.is_prefix_of("CIRCUIT_TOO_SHORT|empty input"@));
    if payload.len() > 0 {
        let f = Fault::Unsupported { version: payload[0] as nat };
        assert("CIRCUIT_UNSUPPORTED|"@.is_prefix_of(fault_text(f))) by {
            assert(fault_text(f).subrange(0, 20) =~= "CIRCUIT_UNSUPPORTED|version "@.subrange(0, 20));
        }
    }
}

fn unsupported_message(version: u8) -> (s: String)
    ensures
        s@ == fault_text(Fault::Unsupported { version: version as nat }),
{
    let mut v: Vec<char> = Vec::new();
    push_str(&mut v, "CIRCUIT_UNSUPPORTED|version ");
    push_u64(&mut v, version as u64);
    push_str(&mut v, " not readable");
    chars_to_string(v.as_slice())
}

/// Dispatch by leading version byte. Returns `CIRCUIT_UNSUPPORTED` for unknown
/// versions. v15 has a writer; older versions are decoded by the read-only
/// legacy decoders.
pub fn decode_circuit(payload: &[u8]) -> (res: Result<Circuit, String>)
    ensures
        match spec_decode_circuit(payload@) {
            Ok(v) => res matches Ok(c) && c@ == v,
            Err(f) => res matches Err(e) && reports(e@, f),
        },
{
    if payload.len() == 0 {
        let mut v: Vec<char> = Vec::new();
        push_str(&mut v, "CIRCUIT_TOO_SHORT|empty input");
        return Err(chars_to_string(v.as_slice()));
    }
    let version = payload[0];
    if version == 15 {
        decode_v15(payload)
    } else if version == 7 {
        decode_v7(payload)
    } else if version == 13 {
        decode_v13(payload)
    } else if version == 14 {
        decode_v14(payload)
    } else {
        Err(unsupported_message(version))
    }
}

/// `&s[start..]`.
pub(crate) fn slice_from(s: &[u8], start: usize) -> (r: &[u8])
    requires
        start <= s@.len(),
    ensures
        r@ == s@.skip(start as int),
{
    let r = &s[start..s.len()];
    assert(r@ =~= s@.skip(start as int));
    r
}

// ───────────────────────── writing ─────────────────────────

/// The standard postcondition shape of a record writer.
pub open spec fn wrote(spec: EResult, before: Seq<u8>, after: Seq<u8>, ok: bool, err: Seq<char>) -> bool {
    match spec {
        Ok(b) => ok && after == before + b,
        Err(t) => !ok && err == t && before.is_prefix_of(after),
    }
}

fn write_u64s(writer: &mut Writer, items: &[u64])
    ensures
        se_many(items@, u64_w()) is Ok,
        final(writer).data@ == old(writer).data@ + se_many(items@, u64_w())->Ok_0,
{
    let ghost start = writer.data@;
    let ghost mut acc: Seq<u8> = Seq::empty();
    let mut i: usize = 0;
    assert(items@.take(0) =~= Seq::<u64>::empty());
    while i < items.len()
        invariant
            i <= items@.len(),
            writer.data@ == start + acc,
            se_many(items@.take(i as int), u64_w()) == Ok::<Seq<u8>, Seq<char>>(acc),
        decreases items@.len() - i,
    {
        proof { lemma_se_many_push(items@, i as int, u64_w()); }
        let _ = writer.u64(items[i]);
        proof { acc = acc + u64_bytes(items@[i as int] as int); }
        assert(writer.data@ =~= start + acc);
        i = i + 1;
    }
    assert(items@.take(items@.len() as int) =~= items@);
}

fn write_i64s(writer: &mut Writer, items: &[i64])
    ensures
        se_many(items@, i64_w()) is Ok,
        final(writer).data@ == old(writer).data@ + se_many(items@, i64_w())->Ok_0,
{
    let ghost start = writer.data@;
    let ghost mut acc: Seq<u8> = Seq::empty();
    let mut i: usize = 0;
    assert(items@.take(0) =~= Seq::<i64>::empty());
    while i < items.len()
        invariant
            i <= items@.len(),
            writer.data@ == start + acc,
            se_many(items@.take(i as int), i64_w()) == Ok::<Seq<u8>, Seq<char>>(acc),
        decreases items@.len() - i,
    {
        proof { lemma_se_many_push(items@, i as int, i64_w()); }
        let _ = writer.i64(items[i]);
        proof { acc = acc + i64_bytes(items@[i as int] as int); }
        assert(writer.data@ =~= start + acc);
        i = i + 1;
    }
    assert(items@.take(items@.len() as int) =~= items@);
}

fn write_pairs(writer: &mut Writer, items: &[(i64, i64)])
    ensures
        se_many(items@, pair_w()) is Ok,
        final(writer).data@ == old(writer).data@ + se_many(items@, pair_w())->Ok_0,
{
    let ghost start = writer.data@;
    let ghost mut acc: Seq<u8> = Seq::empty();
    let mut i: usize = 0;
    assert(items@.take(0) =~= Seq::<(i64, i64)>::empty());
    while i < items.len()
        invariant
            i <= items@.len(),
            writer.data@ == start + acc,
            se_many(items@.take(i as int), pair_w()) == Ok::<Seq<u8>, Seq<char>>(acc),
        decreases items@.len() - i,
    {
        proof { lemma_se_many_push(items@, i as int, pair_w()); }
        let (a, b) = items[i];
        let _ = writer.i64(a);
        let _ = writer.i64(b);
        proof { acc = acc + (i64_bytes(a as int) + i64_bytes(b as int)); }
        assert(writer.data@ =~= start + acc);
        i = i + 1;
    }
    assert(items@.take(items@.len() as int) =~= items@);
}

fn write_linked(writer: &mut Writer, l: &LinkedComponent) -> (res: Result<(), String>)
    ensures
        wrote(se_linked(linked_view(*l)), old(writer).data@, final(writer).data@, res is Ok, res->Err_0@),
{
    let ghost start = writer.data@;
    let _ = writer.i64(l.0);
    let _ = writer.i64(l.1);
    writer.string(l.2.as_str())?;
    let _ = writer.i64(l.3);
    let _ = writer.i64(l.4);
    assert(writer.data@ =~= start + se_linked(linked_view(*l))->Ok_0);
    Ok(())
}

#[verifier::loop_isolation(false)]
fn write_linked_list(writer: &mut Writer, items: &Vec<LinkedComponent>) -> (res: Result<(), String>)
    ensures
        wrote(
            se_many(linked_views(items@), linked_w()),
            old(writer).data@,
            final(writer).data@,
            res is Ok,
            res->Err_0@,
        ),
{
    let ghost start = writer.data@;
    let ghost vs = linked_views(items@);
    let ghost mut acc: Seq<u8> = Seq::empty();
    let mut i: usize = 0;
    assert(vs.take(0) =~= Seq::<LinkedV>::empty());
    while i < items.len()
        invariant
            i <= items@.len(),
            writer.data@ == start + acc,
            se_many(vs.take(i as int), linked_w()) == Ok::<Seq<u8>, Seq<char>>(acc),
        decreases items@.len() - i,
    {
        proof { lemma_se_many_push(vs, i as int, linked_w()); }
        assert(vs[i as int] == linked_view(items@[i as int]));
        let ghost before = writer.data@;
        let r = write_linked(writer, &items[i]);
        match r {
            Ok(()) => {},
            Err(e) => {
                proof {
                    lemma_se_many_err(vs, i + 1, linked_w());
                    assert(before.is_prefix_of(writer.data@));
                    assert(start.is_prefix_of(before));
                    assert(start.is_prefix_of(writer.data@));
                }
                return Err(e);
            },
        }
        proof { acc = acc + se_linked(vs[i as int])->Ok_0; }
        assert(writer.data@ =~= start + acc);
        i = i + 1;
    }
    assert(vs.take(items@.len() as int) =~= vs);
    Ok(())
}

fn write_program(writer: &mut Writer, p: &SelectedProgram) -> (res: Result<(), String>)
    ensures
        wrote(se_program(program_view(*p)), old(writer).data@, final(writer).data@, res is Ok, res->Err_0@),
{
    let ghost start = writer.data@;
    writer.string(p.0.as_str())?;
    let r = writer.string(p.1.as_str());
    match r {
        Ok(()) => {},
        Err(e) => {
            assert(start.is_prefix_of(writer.data@));
            return Err(e);
        },
    }
    assert(writer.data@ =~= start + se_program(program_view(*p))->Ok_0);
    Ok(())
}

#[verifier::loop_isolation(false)]
fn write_program_list(writer: &mut Writer, items: &Vec<SelectedProgram>) -> (res: Result<(), String>)
    ensures
        wrote(
            se_many(program_views(items@), program_w()),
            old(writer).data@,
            final(writer).data@,
            res is Ok,
            res->Err_0@,
        ),
{
    let ghost start = writer.data@;
    let ghost vs = program_views(items@);
    let ghost mut acc: Seq<u8> = Seq::empty();
    let mut i: usize = 0;
    assert(vs.take(0) =~= Seq::<ProgramV>::empty());
    while i < items.len()
        invariant
            i <= items@.len(),
            writer.data@ == start + acc,
            se_many(vs.take(i as int), program_w()) == Ok::<Seq<u8>, Seq<char>>(acc),
        decreases items@.len() - i,
    {
        proof { lemma_se_many_push(vs, i as int, program_w()); }
        assert(vs[i as int] == program_view(items@[i as int]));
        let ghost before = writer.data@;
        let r = write_program(writer, &items[i]);
        match r {
            Ok(()) => {},
            Err(e) => {
                proof {
                    lemma_se_many_err(vs, i + 1, program_w());
                    assert(before.is_prefix_of(writer.data@));
                    assert(start.is_prefix_of(before));
                    assert(start.is_prefix_of(writer.data@));
                }
                return Err(e);
            },
        }
        proof { acc = acc + se_program(vs[i as int])->Ok_0; }
        assert(writer.data@ =~= start + acc);
        i = i + 1;
    }
    assert(vs.take(items@.len() as int) =~= vs);
    Ok(())
}

fn len_u16(n: usize) -> (v: u16)
    ensures
        v == n % 65536,
{
    (n % 65536) as u16
}

fn write_component_mid(writer: &mut Writer, c: &Component)
    ensures
        final(writer).data@ == old(writer).data@ + component_mid_bytes(c@),
{
    reveal(component_mid_bytes);
    let ghost start = writer.data@;
    let _ = writer.u16(len_u16(c.settings.len()));
    write_u64s(writer, c.settings.as_slice());
    let ghost acc = len16(c@.settings.len()) + se_many(c@.settings, u64_w())->Ok_0;
    assert(writer.data@ =~= start + acc);
    let _ = writer.i64(c.buffer_size);
    proof { lemma_concat_associative(start, acc, i64_bytes(c.buffer_size as int)); acc = acc + i64_bytes(c.buffer_size as int); }
    let _ = writer.i16(c.ui_order);
    proof { lemma_concat_associative(start, acc, i16_bytes(c.ui_order as int)); acc = acc + i16_bytes(c.ui_order as int); }
    let _ = writer.i64(c.word_size);
    proof { lemma_concat_associative(start, acc, i64_bytes(c.word_size as int)); acc = acc + i64_bytes(c.word_size as int); }
    writer.boolean(c.immutable);
    proof { lemma_concat_associative(start, acc, bool_bytes(c.immutable)); acc = acc + bool_bytes(c.immutable); }
    let _ = writer.i64(c.cost_gate);
    proof { lemma_concat_associative(start, acc, i64_bytes(c.cost_gate as int)); acc = acc + i64_bytes(c.cost_gate as int); }
    let _ = writer.i64(c.cost_delay);
    proof { lemma_concat_associative(start, acc, i64_bytes(c.cost_delay as int)); acc = acc + i64_bytes(c.cost_delay as int); }
    writer.boolean(c.little_endian);
    proof { lemma_concat_associative(start, acc, bool_bytes(c.little_endian)); acc = acc + bool_bytes(c.little_endian); }
    writer.u8(c.init_data);
    proof { lemma_concat_associative(start, acc, seq![c.init_data]); acc = acc + seq![c.init_data]; }
    assert(writer.data@ =~= start + acc);
    assert(acc == component_mid_bytes(c@));
}

fn write_component_tail(writer: &mut Writer, c: &Component)
    ensures
        final(writer).data@ == old(writer).data@ + component_tail_bytes(c@),
{
    reveal(component_tail_bytes);
    let ghost start = writer.data@;
    if c.kind == CUSTOM_COMPONENT_KIND {
        let _ = writer.i64(c.custom_id);
        let _ = writer.u16(len_u16(c.custom_word_sizes.len()));
        write_pairs(writer, c.custom_word_sizes.as_slice());
    }
    assert(writer.data@ =~= start + component_tail_bytes(c@));
}

proof fn lemma_prefix_extend(s: Seq<u8>, x: Seq<u8>, y: Seq<u8>)
    requires
        (s + x).is_prefix_of(y),
    ensures
        s.is_prefix_of(y),
{
    assert forall|i: int| 0 <= i < s.len() implies s[i] == y[i] by {
        assert((s + x)[i] == s[i]);
    }
    assert(y.subrange(0, s.len() as int) =~= s);
}

#[verifier::spinoff_prover]
#[verifier::rlimit(60)]
fn write_component_rest(writer: &mut Writer, c: &Component) -> (res: Result<(), String>)
    ensures
        wrote(se_component_rest(c@), old(writer).data@, final(writer).data@, res is Ok, res->Err_0@),
{
    reveal(se_component_rest);
    let ghost start = writer.data@;
    let ghost cv = c@;
    write_component_mid(writer, c);
    let _ = writer.u16(len_u16(c.linked_components.len()));
    let ghost a = component_mid_bytes(cv) + len16(cv.linked_components.len());
    assert(writer.data@ =~= start + a);
    let r = write_linked_list(writer, &c.linked_components);
    if let Err(e) = r {
        proof { lemma_prefix_extend(start, a, writer.data@); }
        return Err(e);
    }
    let ghost l = se_many(cv.linked_components, linked_w())->Ok_0;
    let _ = writer.u16(len_u16(c.selected_programs.len()));
    let ghost b = len16(cv.selected_programs.len());
    let ghost p3 = writer.data@;
    assert(p3 =~= start + (a + l + b));
    let r = write_program_list(writer, &c.selected_programs);
    if let Err(e) = r {
        proof { lemma_prefix_extend(start, a + l + b, writer.data@); }
        return Err(e);
    }
    let ghost pp = se_many(cv.selected_programs, program_w())->Ok_0;
    write_component_tail(writer, c);
    let ghost t = component_tail_bytes(cv);
    assert(writer.data@ =~= start + (a + l + b + pp + t));
    assert(a + (l + (b + (pp + t))) =~= a + l + b + pp + t);
    Ok(())
}

#[verifier::spinoff_prover]
#[verifier::rlimit(60)]
fn write_component(writer: &mut Writer, c: &Component) -> (res: Result<(), String>)
    ensures
        wrote(se_component(c@), old(writer).data@, final(writer).data@, res is Ok, res->Err_0@),
{
    reveal(se_component);
    let ghost start = writer.data@;
    let _ = writer.u16(c.kind);
    let _ = writer.point(c.position);
    writer.u8(c.rotation);
    let _ = writer.i64(c.permanent_id);
    assert(writer.data@ =~= start + (u16_bytes(c.kind as int) + point_bytes(c.position) + seq![c.rotation]
        + i64_bytes(c.permanent_id as int)));
    let r = writer.string(c.user_label.as_str());
    if let Err(e) = r {
        assert(start.is_prefix_of(writer.data@));
        return Err(e);
    }
    let r = writer.string(c.custom_string.as_str());
    if let Err(e) = r {
        assert(start.is_prefix_of(writer.data@));
        return Err(e);
    }
    let ghost p3 = writer.data@;
    let r = write_component_rest(writer, c);
    if let Err(e) = r {
        assert(start.is_prefix_of(writer.data@));
        return Err(e);
    }
    assert(writer.data@ =~= start + se_component(c@)->Ok_0);
    Ok(())
}

fn write_segment(writer: &mut Writer, seg: (u8, u16)) -> (res: Result<(), String>)
    ensures
        wrote(se_segment(seg), old(writer).data@, final(writer).data@, res is Ok, res->Err_0@),
{
    let (direction, length) = seg;
    if direction > 7 {
        let mut v: Vec<char> = Vec::new();
        push_str(&mut v, "CIRCUIT_BAD_WIRE_DIRECTION|");
        push_u64(&mut v, direction as u64);
        return Err(chars_to_string(v.as_slice()));
    }
    if !(1 <= length && length <= 0x1FFF) {
        let mut v: Vec<char> = Vec::new();
        push_str(&mut v, "CIRCUIT_BAD_WIRE_LENGTH|");
        push_u64(&mut v, length as u64);
        return Err(chars_to_string(v.as_slice()));
    }
    let code: u16 = (direction as u16) * 8192 + length;
    let _ = writer.u16(code);
    Ok(())
}

#[verifier::loop_isolation(false)]
fn write_segments(writer: &mut Writer, items: &[(u8, u16)]) -> (res: Result<(), String>)
    ensures
        wrote(se_many(items@, segment_w()), old(writer).data@, final(writer).data@, res is Ok, res->Err_0@),
{
    let ghost start = writer.data@;
    let ghost mut acc: Seq<u8> = Seq::empty();
    let mut i: usize = 0;
    assert(items@.take(0) =~= Seq::<(u8, u16)>::empty());
    while i < items.len()
        invariant
            i <= items@.len(),
            writer.data@ == start + acc,
            se_many(items@.take(i as int), segment_w()) == Ok::<Seq<u8>, Seq<char>>(acc),
        decreases items@.len() - i,
    {
        proof { lemma_se_many_push(items@, i as int, segment_w()); }
        let ghost before = writer.data@;
        let r = write_segment(writer, items[i]);
        match r {
            Ok(()) => {},
            Err(e) => {
                proof {
                    lemma_se_many_err(items@, i + 1, segment_w());
                    assert(start.is_prefix_of(writer.data@));
                }
                return Err(e);
            },
        }
        proof { acc = acc + se_segment(items@[i as int])->Ok_0; }
        assert(writer.data@ =~= start + acc);
        i = i + 1;
    }
    assert(items@.take(items@.len() as int) =~= items@);
    Ok(())
}

#[verifier::spinoff_prover]
#[verifier::rlimit(60)]
fn write_wire(writer: &mut Writer, w: &Wire) -> (res: Result<(), String>)
    ensures
        wrote(se_wire(w@), old(writer).data@, final(writer).data@, res is Ok, res->Err_0@),
{
    reveal(se_wire);
    let ghost start = writer.data@;
    if w.teleport_end.is_some() {
        let mut v: Vec<char> = Vec::new();
        push_str(&mut v, "CIRCUIT_V7_TELEPORT|v15 cannot encode a v7 teleport wire");
        return Err(chars_to_string(v.as_slice()));
    }
    writer.u8(w.color);
    let r = writer.string(w.comment.as_str());
    if let Err(e) = r {
        assert(start.is_prefix_of(writer.data@));
        return Err(e);
    }
    let _ = writer.point(w.start);
    let ghost p3 = writer.data@;
    let r = write_segments(writer, w.segments.as_slice());
    if let Err(e) = r {
        assert(start.is_prefix_of(writer.data@));
        return Err(e);
    }
    let _ = writer.u16(0);
    assert(writer.data@ =~= start + se_wire(w@)->Ok_0);
    Ok(())
}

#[verifier::loop_isolation(false)]
#[verifier::spinoff_prover]
#[verifier::rlimit(60)]
fn write_components(writer: &mut Writer, items: &Vec<Component>) -> (res: Result<(), String>)
    ensures
        wrote(
            se_many(component_views(items@), component_w()),
            old(writer).data@,
            final(writer).data@,
            res is Ok,
            res->Err_0@,
        ),
{
    let ghost start = writer.data@;
    let ghost vs = component_views(items@);
    let ghost mut acc: Seq<u8> = Seq::empty();
    let mut i: usize = 0;
    assert(vs.take(0) =~= Seq::<ComponentV>::empty());
    while i < items.len()
        invariant
            i <= items@.len(),
            writer.data@ == start + acc,
            se_many(vs.take(i as int), component_w()) == Ok::<Seq<u8>, Seq<char>>(acc),
        decreases items@.len() - i,
    {
        proof { lemma_se_many_push(vs, i as int, component_w()); }
        assert(vs[i as int] == items@[i as int]@);
        let r = write_component(writer, &items[i]);
        match r {
            Ok(()) => {},
            Err(e) => {
                proof {
                    lemma_se_many_err(vs, i + 1, component_w());
                    assert(start.is_prefix_of(writer.data@));
                }
                return Err(e);
            },
        }
        proof { acc = acc + se_component(vs[i as int])->Ok_0; }
        assert(writer.data@ =~= start + acc);
        i = i + 1;
    }
    assert(vs.take(items@.len() as int) =~= vs);
    Ok(())
}

#[verifier::loop_isolation(false)]
#[verifier::spinoff_prover]
#[verifier::rlimit(60)]
fn write_wires(writer: &mut Writer, items: &Vec<Wire>) -> (res: Result<(), String>)
    ensures
        wrote(
            se_many(wire_views(items@), wire_w()),
            old(writer).data@,
            final(writer).data@,
            res is Ok,
            res->Err_0@,
        ),
{
    let ghost start = writer.data@;
    let ghost vs = wire_views(items@);
    let ghost mut acc: Seq<u8> = Seq::empty();
    let mut i: usize = 0;
    assert(vs.take(0) =~= Seq::<WireV>::empty());
    while i < items.len()
        invariant
            i <= items@.len(),
            writer.data@ == start + acc,
            se_many(vs.take(i as int), wire_w()) == Ok::<Seq<u8>, Seq<char>>(acc),
        decreases items@.len() - i,
    {
        proof { lemma_se_many_push(vs, i as int, wire_w()); }
        assert(vs[i as int] == items@[i as int]@);
        let r = write_wire(writer, &items[i]);
        match r {
            Ok(()) => {},
            Err(e) => {
                proof {
                    lemma_se_many_err(vs, i + 1, wire_w());
                    assert(start.is_prefix_of(writer.data@));
                }
                return Err(e);
            },
        }
        proof { acc = acc + se_wire(vs[i as int])->Ok_0; }
        assert(writer.data@ =~= start + acc);
        i = i + 1;
    }
    assert(vs.take(items@.len() as int) =~= vs);
    Ok(())
}

#[verifier::spinoff_prover]
#[verifier::rlimit(60)]
fn write_body_strings(writer: &mut Writer, circuit: &Circuit) -> (res: Result<(), String>)
    ensures
        wrote(se_body_strings(circuit@), old(writer).data@, final(writer).data@, res is Ok, res->Err_0@),
{
    reveal(se_body_strings);
    let ghost start = writer.data@;
    writer.string(circuit.description.as_str())?;
    writer.u8(circuit.sync_state);
    let _ = writer.u16(circuit.score);
    let r = writer.bytes_u16(circuit.player_data.as_slice());
    if let Err(e) = r {
        assert(start.is_prefix_of(writer.data@));
        return Err(e);
    }
    let r = writer.string(circuit.hub_description.as_str());
    if let Err(e) = r {
        assert(start.is_prefix_of(writer.data@));
        return Err(e);
    }
    assert(writer.data@ =~= start + se_body_strings(circuit@)->Ok_0);
    Ok(())
}

#[verifier::spinoff_prover]
#[verifier::rlimit(60)]
fn write_body_records(writer: &mut Writer, circuit: &Circuit) -> (res: Result<(), String>)
    requires
        design_ok(circuit@),
    ensures
        wrote(se_body_records(circuit@), old(writer).data@, final(writer).data@, res is Ok, res->Err_0@),
{
    reveal(se_body_records);
    let ghost start = writer.data@;
    if circuit.custom_id != 0 {
        writer.pack(circuit.design.as_slice());
    }
    let _ = writer.count_i64(circuit.components.len());
    assert(writer.data@ =~= start + (circuit@.design + u64_bytes(circuit@.components.len() as int)));
    let r = write_components(writer, &circuit.components);
    if let Err(e) = r {
        assert(start.is_prefix_of(writer.data@));
        return Err(e);
    }
    let ghost p2 = writer.data@;
    let _ = writer.count_i64(circuit.wires.len());
    let r = write_wires(writer, &circuit.wires);
    if let Err(e) = r {
        assert(start.is_prefix_of(writer.data@));
        return Err(e);
    }
    assert(writer.data@ =~= start + se_body_records(circuit@)->Ok_0);
    Ok(())
}

fn write_body_head(writer: &mut Writer, circuit: &Circuit)
    ensures
        final(writer).data@ == old(writer).data@ + body_head_bytes(circuit@),
{
    reveal(body_head_bytes);
    let ghost start = writer.data@;
    let _ = writer.i64(circuit.custom_id);
    let ghost acc = i64_bytes(circuit.custom_id as int);
    let _ = writer.u32(circuit.hub_id);
    proof { lemma_concat_associative(start, acc, u32_bytes(circuit.hub_id as int)); acc = acc + u32_bytes(circuit.hub_id as int); }
    let _ = writer.i64(circuit.gate);
    proof { lemma_concat_associative(start, acc, i64_bytes(circuit.gate as int)); acc = acc + i64_bytes(circuit.gate as int); }
    let _ = writer.i64(circuit.delay);
    proof { lemma_concat_associative(start, acc, i64_bytes(circuit.delay as int)); acc = acc + i64_bytes(circuit.delay as int); }
    writer.boolean(circuit.menu_visible);
    proof { lemma_concat_associative(start, acc, bool_bytes(circuit.menu_visible)); acc = acc + bool_bytes(circuit.menu_visible); }
    let _ = writer.u64(circuit.clock_speed);
    proof { lemma_concat_associative(start, acc, u64_bytes(circuit.clock_speed as int)); acc = acc + u64_bytes(circuit.clock_speed as int); }
    let _ = writer.u16(len_u16(circuit.dependencies.len()));
    proof { lemma_concat_associative(start, acc, len16(circuit@.dependencies.len())); acc = acc + len16(circuit@.dependencies.len()); }
    write_i64s(writer, circuit.dependencies.as_slice());
    proof { lemma_concat_associative(start, acc, se_many(circuit@.dependencies, i64_w())->Ok_0); acc = acc + se_many(circuit@.dependencies, i64_w())->Ok_0; }
    assert(writer.data@ =~= start + acc);
    assert(acc == body_head_bytes(circuit@));
}

#[verifier::spinoff_prover]
#[verifier::rlimit(60)]
fn write_body(circuit: &Circuit) -> (res: Result<Vec<u8>, String>)
    ensures
        match se_body(circuit@) {
            Ok(b) => res matches Ok(x) && x@ == b,
            Err(t) => res matches Err(e) && e@ == t,
        },
{
    reveal(se_body);
    if circuit.custom_id != 0 && circuit.design.len() != CUSTOM_DESIGN_BYTES {
        let mut v: Vec<char> = Vec::new();
        push_str(&mut v, "CIRCUIT_BAD_DESIGN_SIZE|got ");
        push_u64(&mut v, circuit.design.len() as u64);
        push_str(&mut v, ", expected 512");
        return Err(chars_to_string(v.as_slice()));
    }
    if circuit.custom_id == 0 && circuit.design.len() != 0 {
        let mut v: Vec<char> = Vec::new();
        push_str(&mut v, "CIRCUIT_BAD_DESIGN_SIZE|non-custom circuit cannot contain design bytes");
        return Err(chars_to_string(v.as_slice()));
    }
    let mut writer = Writer::new();
    write_body_head(&mut writer, circuit);
    assert(writer.data@ =~= body_head_bytes(circuit@));
    write_body_strings(&mut writer, circuit)?;
    write_body_records(&mut writer, circuit)?;
    assert(writer.data@ =~= se_body(circuit@)->Ok_0);
    Ok(writer.data)
}

/// The container that `encode_v15` emits for a body: version byte, then the
/// Snappy block.
pub open spec fn container_of(body: Seq<u8>) -> Seq<u8> {
    seq![FORMAT_VERSION] + snappy_encoded(body)
}

/// Why `encode_v15` failed: a message of its own writers, a fault of the
/// re-decode, or a compression error (whose detail is the outside crate's).
pub enum EncodeFailure {
    Text(Seq<char>),
    Decode(Fault),
    Compress(Seq<char>),
}

/// `text` is the message `encode_v15` reports for failure `f`.
pub open spec fn encode_reports(text: Seq<char>, f: EncodeFailure) -> bool {
    match f {
        EncodeFailure::Text(t) => text == t,
        EncodeFailure::Decode(g) => reports(text, g),
        EncodeFailure::Compress(t) => text == "CIRCUIT_SNAPPY_COMPRESS|"@ + t,
    }
}

/// What `encode_v15` yields for a circuit: the container of its body when
/// re-decoding that container gives the circuit back, else the first failure.
pub open spec fn spec_encode_v15(c: CircuitV) -> Result<Seq<u8>, EncodeFailure> {
    match se_body(c) {
        Err(t) => Err(EncodeFailure::Text(t)),
        Ok(body) => if !(32 + body.len() + body.len() / 6 <= snappy_input_limit()) {
            Err(EncodeFailure::Compress(snappy_too_big_text(body.len())))
        } else {
            match spec_decode_v15(container_of(body)) {
                Err(f) => Err(EncodeFailure::Decode(f)),
                Ok(v) => if v == c {
                    Ok(container_of(body))
                } else {
                    Err(EncodeFailure::Text("CIRCUIT_ROUNDTRIP_FAILED|re-decoded circuit differs"@))
                },
            }
        },
    }
}

/// Encode a `Circuit` to a v15 payload. Re-decodes the result to confirm the
/// round trip; if the re-decoded value differs from the input the function
/// returns `CIRCUIT_ROUNDTRIP_FAILED`.
pub fn encode_v15(circuit: &Circuit) -> (res: Result<Vec<u8>, String>)
    ensures
        match spec_encode_v15(circuit@) {
            Ok(out) => res matches Ok(x) && x@ == out,
            Err(f) => res matches Err(e) && encode_reports(e@, f),
        },
        se_body(circuit@) is Ok && circuit_fits(circuit@) && se_body(circuit@)->Ok_0.len()
            <= MAX_DECOMPRESSED_SIZE ==> res is Ok,
        res matches Ok(x) ==> spec_decode_v15(x@) == Ok::<CircuitV, Fault>(circuit@),
{
    let body = write_body(circuit)?;
    let compressed = match compress(body.as_slice()) {
        Ok(c) => c,
        Err(e) => {
            return Err(e);
        },
    };
    let mut out: Vec<u8> = Vec::new();
    out.push(FORMAT_VERSION);
    let mut w = Writer { data: out };
    w.pack(compressed.as_slice());
    let out = w.data;
    assert(out@ =~= container_of(body@));
    proof {
        if circuit_fits(circuit@) && body@.len() <= MAX_DECOMPRESSED_SIZE {
            reveal(spec_decode_v15);
            assert(out@.skip(1) =~= compressed@);
            assert(snappy_decode(compressed@, MAX_DECOMPRESSED_SIZE as usize) == Ok::<Seq<u8>, Seq<char>>(body@));
            lemma_body_round_trip(circuit@);
        }
    }
    let re_decoded = match decode_v15(out.as_slice()) {
        Ok(c) => c,
        Err(e) => {
            return Err(e);
        },
    };
    if !circuit_eq(&re_decoded, circuit) {
        let mut v: Vec<char> = Vec::new();
        push_str(&mut v, "CIRCUIT_ROUNDTRIP_FAILED|re-decoded circuit differs");
        return Err(chars_to_string(v.as_slice()));
    }
    Ok(out)
}

} // verus!
