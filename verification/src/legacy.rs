//! Read-only decoders for campaign circuit formats before v15 (v7, v13, v14).
use vstd::prelude::*;
use crate::binary::{Fault, Reader, SResult, fault_text, reports, sp_i16, sp_i64, sp_point, sp_string, sp_u16, sp_u8};
use crate::codec::{
    CUSTOM_COMPONENT_KIND, HeadFields, head_view, read_custom_word_sizes, read_design, read_head, read_linked_list,
    read_selected_programs, read_settings, read_wires, slice_from, version_fault_message,
};
use crate::format::{
    CircuitHead, assemble_circuit, finished, lemma_many_start, lemma_many_step, pair_item, prepend, program_item,
    sp_circuit_head, sp_counted, sp_custom_tail, sp_design, sp_list16, sp_many, then, u64_item, wire_item,
};
use crate::model::{
    Circuit, CircuitV, Component, ComponentV, LinkedComponent, LinkedV, Point, ProgramV, SelectedProgram, Wire,
    WireV, component_views, linked_view, linked_views, program_views, wire_views,
};
use crate::snappy::{MAX_DECOMPRESSED_SIZE, decompress, snappy_decode};
use crate::text::{chars_to_string, push_str, push_u64};

verus! {

/// Versions this module can decode.
pub const READ_ONLY_FORMAT_VERSIONS: [u8; 3] = [7, 13, 14];

/// Before v15 only one label string was stored. These component kinds used it
/// as `custom_string`; every other kind used it as `user_label`.
pub const OLD_CUSTOM_STRING_COMPONENT_KINDS: [u16; 4] = [46, 87, 94, 101];

/// v7 stored program selections and abbreviated watched-component records
/// only for these component kinds.
pub const V7_LINKED_COMPONENT_KINDS: [u16; 6] = [50, 82, 83, 88, 90, 91];

/// Sentinel byte that begins a v7 teleport wire's second endpoint.
pub const V7_TELEPORT_WIRE: u8 = 0x20;

pub open spec fn is_old_custom_string_kind(kind: u16) -> bool {
    OLD_CUSTOM_STRING_COMPONENT_KINDS@.contains(kind)
}

pub open spec fn is_v7_linked_kind(kind: u16) -> bool {
    V7_LINKED_COMPONENT_KINDS@.contains(kind)
}

// ───────────────────────── spec ─────────────────────────

/// The body of a legacy container of the given version.
pub open spec fn legacy_body(payload: Seq<u8>, version: u8) -> Result<Seq<u8>, Fault> {
    if payload.len() == 0 {
        Err(Fault::TooShortFor { version: version as nat })
    } else if payload[0] != version {
        Err(Fault::BadVersion { expected: version as nat, got: payload[0] as nat })
    } else {
        match snappy_decode(payload.skip(1), MAX_DECOMPRESSED_SIZE as usize) {
            Ok(body) => Ok(body),
            Err(detail) => Err(Fault::Snappy { detail }),
        }
    }
}

/// `(user_label, custom_string)` from the single legacy label.
pub open spec fn split_label(kind: u16, value: Seq<char>) -> (Seq<char>, Seq<char>) {
    if is_old_custom_string_kind(kind) {
        (Seq::empty(), value)
    } else {
        (value, Seq::empty())
    }
}

pub open spec fn sp_legacy_head(d: Seq<u8>, o: nat) -> SResult<(u16, Point, u8, i64, Seq<char>, Seq<char>)> {
    then(
        sp_u16(d, o),
        |kind: u16, o: nat|
            then(
                sp_point(d, o),
                |position: Point, o: nat|
                    then(
                        sp_u8(d, o),
                        |rotation: u8, o: nat|
                            then(
                                sp_i64(d, o),
                                |pid: i64, o: nat|
                                    then(
                                        sp_string(d, o),
                                        |value: Seq<char>, o: nat|
                                            Ok(
                                                (
                                                    (
                                                        kind,
                                                        position,
                                                        rotation,
                                                        pid,
                                                        split_label(kind, value).0,
                                                        split_label(kind, value).1,
                                                    ),
                                                    o,
                                                ),
                                            ),
                                    ),
                            ),
                    ),
            ),
    )
}

/// Settings, buffer size, UI order and word size.
pub open spec fn sp_legacy_sizes(d: Seq<u8>, o: nat) -> SResult<(Seq<u64>, i64, i16, i64)> {
    then(
        sp_list16(d, o, u64_item()),
        |settings: Seq<u64>, o: nat|
            then(
                sp_i64(d, o),
                |buffer_size: i64, o: nat|
                    then(
                        sp_i16(d, o),
                        |ui_order: i16, o: nat|
                            then(
                                sp_i64(d, o),
                                |word_size: i64, o: nat| Ok(((settings, buffer_size, ui_order, word_size), o)),
                            ),
                    ),
            ),
    )
}

/// A v7 abbreviated watched-component record, widened with zero offset and size.
pub open spec fn sp_linked_v7(d: Seq<u8>, o: nat) -> SResult<LinkedV> {
    then(
        sp_i64(d, o),
        |a: i64, o: nat|
            then(
                sp_i64(d, o),
                |b: i64, o: nat| then(sp_string(d, o), |c: Seq<char>, o: nat| Ok(((a, b, c, 0i64, 0i64), o))),
            ),
    )
}

pub open spec fn linked_v7_item() -> spec_fn(Seq<u8>, nat) -> SResult<LinkedV> {
    |d: Seq<u8>, o: nat| sp_linked_v7(d, o)
}

/// `(custom_id, custom_word_sizes, selected_programs, linked_components)` of a v7 component.
pub type V7Tail = (i64, Seq<(i64, i64)>, Seq<ProgramV>, Seq<LinkedV>);

pub open spec fn sp_v7_tail(d: Seq<u8>, o: nat, kind: u16) -> SResult<V7Tail> {
    if kind == 78 {
        then(
            sp_i64(d, o),
            |id: i64, o: nat|
                then(
                    sp_list16(d, o, pair_item()),
                    |ws: Seq<(i64, i64)>, o: nat|
                        then(
                            sp_list16(d, o, pair_item()),
                            |removed: Seq<(i64, i64)>, o: nat|
                                Ok(((id, ws, Seq::<ProgramV>::empty(), Seq::<LinkedV>::empty()), o)),
                        ),
                ),
        )
    } else if is_v7_linked_kind(kind) {
        then(
            sp_list16(d, o, program_item()),
            |programs: Seq<ProgramV>, o: nat|
                then(
                    sp_list16(d, o, linked_v7_item()),
                    |links: Seq<LinkedV>, o: nat| Ok(((0i64, Seq::<(i64, i64)>::empty(), programs, links), o)),
                ),
        )
    } else {
        Ok(((0i64, Seq::empty(), Seq::empty(), Seq::empty()), o))
    }
}

/// A v7 component record.
pub open spec fn sp_component_v7(d: Seq<u8>, o: nat) -> SResult<ComponentV> {
    then(
        sp_legacy_head(d, o),
        |h: (u16, Point, u8, i64, Seq<char>, Seq<char>), o: nat|
            then(
                sp_legacy_sizes(d, o),
                |sz: (Seq<u64>, i64, i16, i64), o: nat|
                    then(
                        sp_i64(d, o),
                        |removed: i64, o: nat|
                            then(
                                sp_v7_tail(d, o, h.0),
                                |t: V7Tail, o: nat|
                                    Ok(
                                        (
                                            ComponentV {
                                                kind: h.0,
                                                position: h.1,
                                                rotation: h.2,
                                                permanent_id: h.3,
                                                user_label: h.4,
                                                custom_string: h.5,
                                                settings: sz.0,
                                                buffer_size: sz.1,
                                                ui_order: sz.2,
                                                word_size: sz.3,
                                                immutable: false,
                                                cost_gate: -1i64,
                                                cost_delay: 0i64,
                                                little_endian: false,
                                                init_data: 0u8,
                                                linked_components: t.3,
                                                selected_programs: t.2,
                                                custom_id: t.0,
                                                custom_word_sizes: t.1,
                                            },
                                            o,
                                        ),
                                    ),
                            ),
                    ),
            ),
    )
}

pub open spec fn component_v7_item() -> spec_fn(Seq<u8>, nat) -> SResult<ComponentV> {
    |d: Seq<u8>, o: nat| sp_component_v7(d, o)
}

/// Immutable flag, cost pair (only when `with_cost`), endianness and init data.
pub open spec fn sp_legacy_flags(d: Seq<u8>, o: nat, with_cost: bool) -> SResult<(bool, i64, i64, bool, u8)> {
    then(
        crate::binary::sp_bool(d, o),
        |immutable: bool, o: nat|
            then(
                if with_cost { sp_i64(d, o) } else { Ok((-1i64, o)) },
                |cost_gate: i64, o: nat|
                    then(
                        if with_cost { sp_i64(d, o) } else { Ok((0i64, o)) },
                        |cost_delay: i64, o: nat|
                            then(
                                crate::binary::sp_bool(d, o),
                                |le: bool, o: nat|
                                    then(
                                        sp_u8(d, o),
                                        |init: u8, o: nat| Ok(((immutable, cost_gate, cost_delay, le, init), o)),
                                    ),
                            ),
                    ),
            ),
    )
}

/// A v13 (`with_cost == false`) or v14 component record.
pub open spec fn sp_component_v13(d: Seq<u8>, o: nat, with_cost: bool) -> SResult<ComponentV> {
    then(
        sp_legacy_head(d, o),
        |h: (u16, Point, u8, i64, Seq<char>, Seq<char>), o: nat|
            then(
                sp_legacy_sizes(d, o),
                |sz: (Seq<u64>, i64, i16, i64), o: nat|
                    then(
                        sp_legacy_flags(d, o, with_cost),
                        |fl: (bool, i64, i64, bool, u8), o: nat|
                            then(
                                sp_list16(d, o, crate::format::linked_item()),
                                |links: Seq<LinkedV>, o: nat|
                                    then(
                                        sp_list16(d, o, program_item()),
                                        |programs: Seq<ProgramV>, o: nat|
                                            then(
                                                if h.0 == 78 {
                                                    sp_custom_tail(d, o)
                                                } else {
                                                    Ok(((0i64, Seq::<(i64, i64)>::empty()), o))
                                                },
                                                |tail: (i64, Seq<(i64, i64)>), o: nat|
                                                    Ok(
                                                        (
                                                            ComponentV {
                                                                kind: h.0,
                                                                position: h.1,
                                                                rotation: h.2,
                                                                permanent_id: h.3,
                                                                user_label: h.4,
                                                                custom_string: h.5,
                                                                settings: sz.0,
                                                                buffer_size: sz.1,
                                                                ui_order: sz.2,
                                                                word_size: sz.3,
                                                                immutable: fl.0,
                                                                cost_gate: fl.1,
                                                                cost_delay: fl.2,
                                                                little_endian: fl.3,
                                                                init_data: fl.4,
                                                                linked_components: links,
                                                                selected_programs: programs,
                                                                custom_id: tail.0,
                                                                custom_word_sizes: tail.1,
                                                            },
                                                            o,
                                                        ),
                                                    ),
                                            ),
                                    ),
                            ),
                    ),
            ),
    )
}

pub open spec fn component_v13_item(with_cost: bool) -> spec_fn(Seq<u8>, nat) -> SResult<ComponentV> {
    |d: Seq<u8>, o: nat| sp_component_v13(d, o, with_cost)
}

/// v7 wire segments: one byte each (direction in the top 3 bits, length in
/// the low 5), starting with `code`, up to a byte whose length is 0.
pub open spec fn sp_segments_v7(d: Seq<u8>, o: nat, code: u8) -> SResult<Seq<(u8, u16)>>
    decreases d.len() - o,
{
    if code % 32 == 0 {
        Ok((Seq::empty(), o))
    } else {
        match sp_u8(d, o) {
            Ok((next, o1)) => match sp_segments_v7(d, o1, next) {
                Ok((segs, o2)) => Ok((seq![(code / 32, (code % 32) as u16)] + segs, o2)),
                Err(f) => Err(f),
            },
            Err(f) => Err(f),
        }
    }
}

/// A v7 wire record: either a segment chain or a teleport wire.
pub open spec fn sp_wire_v7(d: Seq<u8>, o: nat) -> SResult<WireV> {
    then(
        sp_u8(d, o),
        |color: u8, o: nat|
            then(
                sp_string(d, o),
                |comment: Seq<char>, o: nat|
                    then(
                        sp_point(d, o),
                        |start: Point, o: nat|
                            then(
                                sp_u8(d, o),
                                |first: u8, o: nat|
                                    if first == V7_TELEPORT_WIRE {
                                        then(
                                            sp_point(d, o),
                                            |end: Point, o: nat|
                                                Ok(
                                                    (
                                                        WireV {
                                                            color,
                                                            comment,
                                                            start,
                                                            segments: Seq::empty(),
                                                            teleport_end: Some(end),
                                                        },
                                                        o,
                                                    ),
                                                ),
                                        )
                                    } else {
                                        then(
                                            sp_segments_v7(d, o, first),
                                            |segments: Seq<(u8, u16)>, o: nat|
                                                Ok((WireV { color, comment, start, segments, teleport_end: None }, o)),
                                        )
                                    },
                            ),
                    ),
            ),
    )
}

pub open spec fn wire_v7_item() -> spec_fn(Seq<u8>, nat) -> SResult<WireV> {
    |d: Seq<u8>, o: nat| sp_wire_v7(d, o)
}

/// A v7 circuit body.
pub open spec fn sp_body_v7(d: Seq<u8>) -> Result<CircuitV, Fault> {
    finished(
        d,
        then(
            sp_circuit_head(d, 0, true),
            |h: CircuitHead, o: nat|
                then(
                    sp_counted(d, o, "components"@, component_v7_item()),
                    |cs: Seq<ComponentV>, o: nat|
                        then(
                            sp_counted(d, o, "wires"@, wire_v7_item()),
                            |ws: Seq<WireV>, o: nat| Ok((assemble_circuit(h, Seq::empty(), cs, ws), o)),
                        ),
                ),
        ),
    )
}

/// A v13 or v14 circuit body (v14 components carry a cost pair).
pub open spec fn sp_body_v13(d: Seq<u8>, version: u8) -> Result<CircuitV, Fault> {
    finished(
        d,
        then(
            sp_circuit_head(d, 0, false),
            |h: CircuitHead, o: nat|
                then(
                    sp_design(d, o, h.custom_id),
                    |design: Seq<u8>, o: nat|
                        then(
                            sp_counted(d, o, "components"@, component_v13_item(version >= 14)),
                            |cs: Seq<ComponentV>, o: nat|
                                then(
                                    sp_counted(d, o, "wires"@, wire_item()),
                                    |ws: Seq<WireV>, o: nat| Ok((assemble_circuit(h, design, cs, ws), o)),
                                ),
                        ),
                ),
        ),
    )
}

#[verifier::opaque]
pub open spec fn spec_decode_v7(payload: Seq<u8>) -> Result<CircuitV, Fault> {
    match legacy_body(payload, 7) {
        Ok(body) => sp_body_v7(body),
        Err(f) => Err(f),
    }
}

#[verifier::opaque]
pub open spec fn spec_decode_v13_or_v14(payload: Seq<u8>, version: u8) -> Result<CircuitV, Fault> {
    match legacy_body(payload, version) {
        Ok(body) => sp_body_v13(body, version),
        Err(f) => Err(f),
    }
}

// ───────────────────────── reading ─────────────────────────

/// Whether `kind` occurs in `kinds`.
fn kind_listed(kinds: &[u16], kind: u16) -> (b: bool)
    ensures
        b == kinds@.contains(kind),
{
    let mut i: usize = 0;
    while i < kinds.len()
        invariant
            i <= kinds@.len(),
            forall|j: int| 0 <= j < i ==> kinds@[j] != kind,
        decreases kinds@.len() - i,
    {
        if kinds[i] == kind {
            assert(kinds@[i as int] == kind);
            return true;
        }
        i = i + 1;
    }
    false
}

fn empty_input_message(version: u8) -> (s: String)
    ensures
        s@ == fault_text(Fault::TooShortFor { version: version as nat }),
{
    let mut v: Vec<char> = Vec::new();
    push_str(&mut v, "CIRCUIT_TOO_SHORT|empty input for version ");
    push_u64(&mut v, version as u64);
    chars_to_string(v.as_slice())
}

/// Check the version byte and decompress the body of a legacy container.
fn decode_body(payload: &[u8], expected_version: u8) -> (res: Result<Vec<u8>, String>)
    ensures
        match legacy_body(payload@, expected_version) {
            Ok(b) => res matches Ok(v) && v@ == b,
            Err(f) => res matches Err(e) && reports(e@, f),
        },
{
    if payload.len() == 0 {
        return Err(empty_input_message(expected_version));
    }
    if payload[0] != expected_version {
        return Err(version_fault_message(expected_version, payload[0]));
    }
    let rest = slice_from(payload, 1);
    decompress(rest)
}

/// v7/v13/v14 used a single label string per component: returns
/// `(user_label, custom_string)` split by the component kind.
fn read_legacy_label(reader: &mut Reader, kind: u16) -> (res: Result<(String, String), String>)
    ensures
        final(reader).bytes() == old(reader).bytes(),
        match sp_string(old(reader).bytes(), old(reader).pos()) {
            Ok((v, p)) => res matches Ok(x) && (x.0@, x.1@) == split_label(kind, v) && final(reader).pos() == p,
            Err(f) => res matches Err(e) && reports(e@, f),
        },
{
    let value = reader.string()?;
    if kind_listed(&OLD_CUSTOM_STRING_COMPONENT_KINDS, kind) {
        Ok((String::new(), value))
    } else {
        Ok((value, String::new()))
    }
}

fn read_legacy_head(reader: &mut Reader) -> (res: Result<(u16, Point, u8, i64, String, String), String>)
    ensures
        final(reader).bytes() == old(reader).bytes(),
        match sp_legacy_head(old(reader).bytes(), old(reader).pos()) {
            Ok((v, p)) => res matches Ok(x) && (x.0, x.1, x.2, x.3, x.4@, x.5@) == v && final(reader).pos() == p,
            Err(f) => res matches Err(e) && reports(e@, f),
        },
{
    let kind = reader.u16()?;
    let position = reader.point()?;
    let rotation = reader.u8()?;
    let permanent_id = reader.i64()?;
    let (user_label, custom_string) = read_legacy_label(reader, kind)?;
    Ok((kind, position, rotation, permanent_id, user_label, custom_string))
}

fn read_legacy_sizes(reader: &mut Reader) -> (res: Result<(Vec<u64>, i64, i16, i64), String>)
    ensures
        final(reader).bytes() == old(reader).bytes(),
        match sp_legacy_sizes(old(reader).bytes(), old(reader).pos()) {
            Ok((v, p)) => res matches Ok(x) && (x.0@, x.1, x.2, x.3) == v && final(reader).pos() == p,
            Err(f) => res matches Err(e) && reports(e@, f),
        },
{
    let settings = read_settings(reader)?;
    let buffer_size = reader.i64()?;
    let ui_order = reader.i16()?;
    let word_size = reader.i64()?;
    Ok((settings, buffer_size, ui_order, word_size))
}

fn read_linked_v7(reader: &mut Reader) -> (res: Result<LinkedComponent, String>)
    ensures
        final(reader).bytes() == old(reader).bytes(),
        match sp_linked_v7(old(reader).bytes(), old(reader).pos()) {
            Ok((v, p)) => res matches Ok(x) && linked_view(x) == v && final(reader).pos() == p,
            Err(f) => res matches Err(e) && reports(e@, f),
        },
{
    let a = reader.i64()?;
    let b = reader.i64()?;
    let c = reader.string()?;
    Ok((a, b, c, 0, 0))
}

#[verifier::loop_isolation(false)]
fn read_linked_list_v7(reader: &mut Reader) -> (res: Result<Vec<LinkedComponent>, String>)
    ensures
        final(reader).bytes() == old(reader).bytes(),
        match sp_list16(old(reader).bytes(), old(reader).pos(), linked_v7_item()) {
            Ok((v, p)) => res matches Ok(x) && linked_views(x@) == v && final(reader).pos() == p,
            Err(f) => res matches Err(e) && reports(e@, f),
        },
{
    let ghost d = reader.bytes();
    let n = reader.u16()? as usize;
    let ghost o0 = reader.pos();
    let mut out: Vec<LinkedComponent> = Vec::new();
    proof { lemma_many_start(d, o0, n as nat, linked_v7_item()); }
    let mut i: usize = 0;
    while i < n
        invariant
            reader.bytes() == d,
            i <= n,
            sp_many(d, o0, n as nat, linked_v7_item()) == prepend(
                linked_views(out@),
                sp_many(d, reader.pos(), (n - i) as nat, linked_v7_item()),
            ),
        decreases n - i,
    {
        proof {
            lemma_many_step(d, o0, n as nat, linked_v7_item(), linked_views(out@), reader.pos(), i as nat);
        }
        let ghost before = out@;
        let v = read_linked_v7(reader)?;
        out.push(v);
        assert(linked_views(out@) =~= linked_views(before).push(linked_view(v)));
        i = i + 1;
    }
    assert(linked_views(out@) + Seq::<LinkedV>::empty() =~= linked_views(out@));
    Ok(out)
}

/// The kind-dependent tail of a v7 component record.
fn read_v7_tail(reader: &mut Reader, kind: u16) -> (res: Result<
    (i64, Vec<(i64, i64)>, Vec<SelectedProgram>, Vec<LinkedComponent>),
    String,
>)
    ensures
        final(reader).bytes() == old(reader).bytes(),
        match sp_v7_tail(old(reader).bytes(), old(reader).pos(), kind) {
            Ok((v, p)) => res matches Ok(x) && (x.0, x.1@, program_views(x.2@), linked_views(x.3@)) == v
                && final(reader).pos() == p,
            Err(f) => res matches Err(e) && reports(e@, f),
        },
{
    if kind == CUSTOM_COMPONENT_KIND {
        let custom_id = reader.i64()?;
        let custom_word_sizes = read_custom_word_sizes(reader)?;
        // The removed custom-linked word-size map is read and discarded.
        let _removed = read_custom_word_sizes(reader)?;
        let programs: Vec<SelectedProgram> = Vec::new();
        let links: Vec<LinkedComponent> = Vec::new();
        assert(program_views(programs@) =~= Seq::<ProgramV>::empty());
        assert(linked_views(links@) =~= Seq::<LinkedV>::empty());
        Ok((custom_id, custom_word_sizes, programs, links))
    } else if kind_listed(&V7_LINKED_COMPONENT_KINDS, kind) {
        let programs = read_selected_programs(reader)?;
        let links = read_linked_list_v7(reader)?;
        Ok((0, Vec::new(), programs, links))
    } else {
        let programs: Vec<SelectedProgram> = Vec::new();
        let links: Vec<LinkedComponent> = Vec::new();
        assert(program_views(programs@) =~= Seq::<ProgramV>::empty());
        assert(linked_views(links@) =~= Seq::<LinkedV>::empty());
        Ok((0, Vec::new(), programs, links))
    }
}

/// Read one v7 component record.
fn read_component_v7(reader: &mut Reader) -> (res: Result<Component, String>)
    ensures
        final(reader).bytes() == old(reader).bytes(),
        match sp_component_v7(old(reader).bytes(), old(reader).pos()) {
            Ok((v, p)) => res matches Ok(x) && x@ == v && final(reader).pos() == p,
            Err(f) => res matches Err(e) && reports(e@, f),
        },
{
    let (kind, position, rotation, permanent_id, user_label, custom_string) = read_legacy_head(reader)?;
    let (settings, buffer_size, ui_order, word_size) = read_legacy_sizes(reader)?;
    // Removed runtime/static-state identifier: read and discarded.
    let _removed = reader.i64()?;
    let (custom_id, custom_word_sizes, selected_programs, linked_components) = read_v7_tail(reader, kind)?;
    Ok(Component {
        kind,
        position,
        rotation,
        permanent_id,
        user_label,
        custom_string,
        settings,
        buffer_size,
        ui_order,
        word_size,
        immutable: false,
        cost_gate: -1,
        cost_delay: 0,
        little_endian: false,
        init_data: 0,
        linked_components,
        selected_programs,
        custom_id,
        custom_word_sizes,
    })
}

fn read_legacy_flags(reader: &mut Reader, with_cost: bool) -> (res: Result<(bool, i64, i64, bool, u8), String>)
    ensures
        final(reader).bytes() == old(reader).bytes(),
        match sp_legacy_flags(old(reader).bytes(), old(reader).pos(), with_cost) {
            Ok((v, p)) => res == Ok::<(bool, i64, i64, bool, u8), String>(v) && final(reader).pos() == p,
            Err(f) => res matches Err(e) && reports(e@, f),
        },
{
    let immutable = reader.boolean()?;
    let cost_gate = if with_cost { reader.i64()? } else { -1 };
    let cost_delay = if with_cost { reader.i64()? } else { 0 };
    let little_endian = reader.boolean()?;
    let init_data = reader.u8()?;
    Ok((immutable, cost_gate, cost_delay, little_endian, init_data))
}

/// Read one v13 (`with_cost == false`) or v14 component record.
fn read_component_v13_or_v14(reader: &mut Reader, with_cost: bool) -> (res: Result<Component, String>)
    ensures
        final(reader).bytes() == old(reader).bytes(),
        match sp_component_v13(old(reader).bytes(), old(reader).pos(), with_cost) {
            Ok((v, p)) => res matches Ok(x) && x@ == v && final(reader).pos() == p,
            Err(f) => res matches Err(e) && reports(e@, f),
        },
{
    reveal(sp_custom_tail);
    let (kind, position, rotation, permanent_id, user_label, custom_string) = read_legacy_head(reader)?;
    let (settings, buffer_size, ui_order, word_size) = read_legacy_sizes(reader)?;
    let (immutable, cost_gate, cost_delay, little_endian, init_data) = read_legacy_flags(reader, with_cost)?;
    let linked_components = read_linked_list(reader)?;
    let selected_programs = read_selected_programs(reader)?;
    let mut custom_id: i64 = 0;
    let mut custom_word_sizes: Vec<(i64, i64)> = Vec::new();
    if kind == CUSTOM_COMPONENT_KIND {
        custom_id = reader.i64()?;
        custom_word_sizes = read_custom_word_sizes(reader)?;
    }
    Ok(Component {
        kind,
        position,
        rotation,
        permanent_id,
        user_label,
        custom_string,
        settings,
        buffer_size,
        ui_order,
        word_size,
        immutable,
        cost_gate,
        cost_delay,
        little_endian,
        init_data,
        linked_components,
        selected_programs,
        custom_id,
        custom_word_sizes,
    })
}

#[verifier::loop_isolation(false)]
fn read_segments_v7(reader: &mut Reader, first: u8) -> (res: Result<Vec<(u8, u16)>, String>)
    ensures
        final(reader).bytes() == old(reader).bytes(),
        match sp_segments_v7(old(reader).bytes(), old(reader).pos(), first) {
            Ok((v, p)) => res matches Ok(x) && x@ == v && final(reader).pos() == p,
            Err(f) => res matches Err(e) && reports(e@, f),
        },
{
    let ghost d = reader.bytes();
    let ghost o0 = reader.pos();
    let mut segments: Vec<(u8, u16)> = Vec::new();
    let mut code = first;
    assert(sp_segments_v7(d, o0, first) == prepend(segments@, sp_segments_v7(d, o0, first))) by {
        match sp_segments_v7(d, o0, first) {
            Ok((vs, o)) => { assert(segments@ + vs =~= vs); },
            Err(_) => {},
        }
    }
    loop
        invariant
            reader.bytes() == d,
            sp_segments_v7(d, o0, first) == prepend(segments@, sp_segments_v7(d, reader.pos(), code)),
        decreases d.len() - reader.pos(),
    {
        if code % 32 == 0 {
            assert(segments@ + Seq::<(u8, u16)>::empty() =~= segments@);
            break;
        }
        let direction = code / 32;
        let length = (code % 32) as u16;
        let ghost p = reader.pos();
        let ghost before = segments@;
        segments.push((direction, length));
        code = reader.u8()?;
        proof {
            match sp_segments_v7(d, reader.pos(), code) {
                Ok((vs, o2)) => {
                    assert(before + (seq![(direction, length)] + vs) =~= segments@ + vs);
                },
                Err(_) => {},
            }
        }
    }
    Ok(segments)
}

/// Read one v7 wire record.
fn read_wire_v7(reader: &mut Reader) -> (res: Result<Wire, String>)
    ensures
        final(reader).bytes() == old(reader).bytes(),
        match sp_wire_v7(old(reader).bytes(), old(reader).pos()) {
            Ok((v, p)) => res matches Ok(x) && x@ == v && final(reader).pos() == p,
            Err(f) => res matches Err(e) && reports(e@, f),
        },
{
    let color = reader.u8()?;
    let comment = reader.string()?;
    let start = reader.point()?;
    let first = reader.u8()?;
    if first == V7_TELEPORT_WIRE {
        let teleport_end = reader.point()?;
        return Ok(Wire { color, comment, start, segments: Vec::new(), teleport_end: Some(teleport_end) });
    }
    let segments = read_segments_v7(reader, first)?;
    Ok(Wire { color, comment, start, segments, teleport_end: None })
}

#[verifier::loop_isolation(false)]
fn read_components_v7(reader: &mut Reader) -> (res: Result<Vec<Component>, String>)
    ensures
        final(reader).bytes() == old(reader).bytes(),
        match sp_counted(old(reader).bytes(), old(reader).pos(), "components"@, component_v7_item()) {
            Ok((v, p)) => res matches Ok(x) && component_views(x@) == v && final(reader).pos() == p,
            Err(f) => res matches Err(e) && reports(e@, f),
        },
{
    let ghost d = reader.bytes();
    let n = reader.count_i64("components")?;
    let ghost o0 = reader.pos();
    let mut out: Vec<Component> = Vec::new();
    proof { lemma_many_start(d, o0, n as nat, component_v7_item()); }
    let mut i: usize = 0;
    while i < n
        invariant
            reader.bytes() == d,
            i <= n,
            sp_many(d, o0, n as nat, component_v7_item()) == prepend(
                component_views(out@),
                sp_many(d, reader.pos(), (n - i) as nat, component_v7_item()),
            ),
        decreases n - i,
    {
        proof {
            lemma_many_step(d, o0, n as nat, component_v7_item(), component_views(out@), reader.pos(), i as nat);
        }
        let ghost before = out@;
        let v = read_component_v7(reader)?;
        out.push(v);
        assert(component_views(out@) =~= component_views(before).push(v@));
        i = i + 1;
    }
    assert(component_views(out@) + Seq::<ComponentV>::empty() =~= component_views(out@));
    Ok(out)
}

#[verifier::loop_isolation(false)]
fn read_components_v13(reader: &mut Reader, with_cost: bool) -> (res: Result<Vec<Component>, String>)
    ensures
        final(reader).bytes() == old(reader).bytes(),
        match sp_counted(old(reader).bytes(), old(reader).pos(), "components"@, component_v13_item(with_cost)) {
            Ok((v, p)) => res matches Ok(x) && component_views(x@) == v && final(reader).pos() == p,
            Err(f) => res matches Err(e) && reports(e@, f),
        },
{
    let ghost d = reader.bytes();
    let n = reader.count_i64("components")?;
    let ghost o0 = reader.pos();
    let mut out: Vec<Component> = Vec::new();
    proof { lemma_many_start(d, o0, n as nat, component_v13_item(with_cost)); }
    let mut i: usize = 0;
    while i < n
        invariant
            reader.bytes() == d,
            i <= n,
            sp_many(d, o0, n as nat, component_v13_item(with_cost)) == prepend(
                component_views(out@),
                sp_many(d, reader.pos(), (n - i) as nat, component_v13_item(with_cost)),
            ),
        decreases n - i,
    {
        proof {
            lemma_many_step(
                d,
                o0,
                n as nat,
                component_v13_item(with_cost),
                component_views(out@),
                reader.pos(),
                i as nat,
            );
        }
        let ghost before = out@;
        let v = read_component_v13_or_v14(reader, with_cost)?;
        out.push(v);
        assert(component_views(out@) =~= component_views(before).push(v@));
        i = i + 1;
    }
    assert(component_views(out@) + Seq::<ComponentV>::empty() =~= component_views(out@));
    Ok(out)
}

#[verifier::loop_isolation(false)]
fn read_wires_v7(reader: &mut Reader) -> (res: Result<Vec<Wire>, String>)
    ensures
        final(reader).bytes() == old(reader).bytes(),
        match sp_counted(old(reader).bytes(), old(reader).pos(), "wires"@, wire_v7_item()) {
            Ok((v, p)) => res matches Ok(x) && wire_views(x@) == v && final(reader).pos() == p,
            Err(f) => res matches Err(e) && reports(e@, f),
        },
{
    let ghost d = reader.bytes();
    let n = reader.count_i64("wires")?;
    let ghost o0 = reader.pos();
    let mut out: Vec<Wire> = Vec::new();
    proof { lemma_many_start(d, o0, n as nat, wire_v7_item()); }
    let mut i: usize = 0;
    while i < n
        invariant
            reader.bytes() == d,
            i <= n,
            sp_many(d, o0, n as nat, wire_v7_item()) == prepend(
                wire_views(out@),
                sp_many(d, reader.pos(), (n - i) as nat, wire_v7_item()),
            ),
        decreases n - i,
    {
        proof {
            lemma_many_step(d, o0, n as nat, wire_v7_item(), wire_views(out@), reader.pos(), i as nat);
        }
        let ghost before = out@;
        let v = read_wire_v7(reader)?;
        out.push(v);
        assert(wire_views(out@) =~= wire_views(before).push(v@));
        i = i + 1;
    }
    assert(wire_views(out@) + Seq::<WireV>::empty() =~= wire_views(out@));
    Ok(out)
}

/// The circuit made of a legacy header and the records that follow it.
fn assemble_legacy(head: HeadFields, design: Vec<u8>, components: Vec<Component>, wires: Vec<Wire>) -> (c: Circuit)
    ensures
        c@ == assemble_circuit(head_view(head), design@, component_views(components@), wire_views(wires@)),
{
    Circuit {
        custom_id: head.custom_id,
        hub_id: head.hub_id,
        gate: head.gate,
        delay: head.delay,
        menu_visible: head.menu_visible,
        clock_speed: head.clock_speed,
        dependencies: head.dependencies,
        description: head.description,
        sync_state: head.sync_state,
        score: head.score,
        player_data: head.player_data,
        hub_description: head.hub_description,
        design,
        components,
        wires,
    }
}

/// Decode a v7 payload (read-only).
pub fn decode_v7(payload: &[u8]) -> (res: Result<Circuit, String>)
    ensures
        match spec_decode_v7(payload@) {
            Ok(v) => res matches Ok(c) && c@ == v,
            Err(f) => res matches Err(e) && reports(e@, f),
        },
{
    reveal(spec_decode_v7);
    let body = decode_body(payload, 7)?;
    let mut reader = Reader::new(body.as_slice());
    let head = read_head(&mut reader, true)?;
    let components = read_components_v7(&mut reader)?;
    let wires = read_wires_v7(&mut reader)?;
    reader.finish()?;
    Ok(assemble_legacy(head, Vec::new(), components, wires))
}

/// Decode a v13 payload (read-only).
pub fn decode_v13(payload: &[u8]) -> (res: Result<Circuit, String>)
    ensures
        match spec_decode_v13_or_v14(payload@, 13) {
            Ok(v) => res matches Ok(c) && c@ == v,
            Err(f) => res matches Err(e) && reports(e@, f),
        },
{
    decode_v13_or_v14(payload, 13)
}

/// Decode a v14 payload (read-only).
pub fn decode_v14(payload: &[u8]) -> (res: Result<Circuit, String>)
    ensures
        match spec_decode_v13_or_v14(payload@, 14) {
            Ok(v) => res matches Ok(c) && c@ == v,
            Err(f) => res matches Err(e) && reports(e@, f),
        },
{
    decode_v13_or_v14(payload, 14)
}

fn decode_v13_or_v14(payload: &[u8], version: u8) -> (res: Result<Circuit, String>)
    ensures
        match spec_decode_v13_or_v14(payload@, version) {
            Ok(v) => res matches Ok(c) && c@ == v,
            Err(f) => res matches Err(e) && reports(e@, f),
        },
{
    reveal(spec_decode_v13_or_v14);
    let body = decode_body(payload, version)?;
    let mut reader = Reader::new(body.as_slice());
    let head = read_head(&mut reader, false)?;
    let design = read_design(&mut reader, head.custom_id)?;
    let with_cost = version >= 14;
    let components = read_components_v13(&mut reader, with_cost)?;
    let wires = read_wires(&mut reader)?;
    reader.finish()?;
    Ok(assemble_legacy(head, design, components, wires))
}

} // verus!
