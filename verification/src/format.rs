//! Spec-level definition of the circuit container records: how each record is
//! read from bytes (`sp_*`) and how it is written (`se_*`). The exec codecs are
//! proved against these, and the round-trip laws relate the two directions.
use vstd::prelude::*;
use vstd::utf8::*;
use crate::binary::{Fault, MAX_STRING_BYTES, SResult, at, bool_bytes, bytes_too_long_text, bytes_u16_bytes, i16_bytes, i64_bytes, point_bytes, sp_bool, sp_bytes_u16, sp_count, sp_finish, sp_i16, sp_i64, sp_point, sp_string, sp_take, sp_u16, sp_u32, sp_u64, sp_u8, string_bytes, string_too_long_text, u16_bytes, u32_bytes, u64_bytes};
use crate::text::dec_nat;
use crate::model::{CircuitV, ComponentV, LinkedV, Point, ProgramV, WireV};
use crate::snappy::{MAX_DECOMPRESSED_SIZE, snappy_decode};

verus! {

/// Sequencing of spec-level reads: run `k` on the value and offset that `r`
/// produced, or pass the fault on.
pub open spec fn then<A, B>(r: SResult<A>, k: spec_fn(A, nat) -> SResult<B>) -> SResult<B> {
    match r {
        Ok((a, o)) => k(a, o),
        Err(f) => Err(f),
    }
}

/// `n` consecutive items read with `item`, starting at `o`.
pub open spec fn sp_many<T>(
    d: Seq<u8>,
    o: nat,
    n: nat,
    item: spec_fn(Seq<u8>, nat) -> SResult<T>,
) -> SResult<Seq<T>>
    decreases n,
{
    if n == 0 {
        Ok((Seq::empty(), o))
    } else {
        match item(d, o) {
            Ok((v, o1)) => match sp_many(d, o1, (n - 1) as nat, item) {
                Ok((vs, o2)) => Ok((seq![v] + vs, o2)),
                Err(f) => Err(f),
            },
            Err(f) => Err(f),
        }
    }
}

/// `vals` followed by what `r` read.
pub open spec fn prepend<T>(vals: Seq<T>, r: SResult<Seq<T>>) -> SResult<Seq<T>> {
    match r {
        Ok((vs, o)) => Ok((vals + vs, o)),
        Err(f) => Err(f),
    }
}

/// One step of a counted read: what is known after `vals` were read up to `p`
/// is carried over to the next item.
pub proof fn lemma_many_step<T>(
    d: Seq<u8>,
    o0: nat,
    n: nat,
    item: spec_fn(Seq<u8>, nat) -> SResult<T>,
    vals: Seq<T>,
    p: nat,
    i: nat,
)
    requires
        i < n,
        sp_many(d, o0, n, item) == prepend(vals, sp_many(d, p, (n - i) as nat, item)),
    ensures
        match item(d, p) {
            Ok((v, p1)) => sp_many(d, o0, n, item) == prepend(
                vals.push(v),
                sp_many(d, p1, (n - i - 1) as nat, item),
            ),
            Err(f) => sp_many(d, o0, n, item) == Err::<(Seq<T>, nat), Fault>(f),
        },
{
    match item(d, p) {
        Ok((v, p1)) => {
            match sp_many(d, p1, (n - i - 1) as nat, item) {
                Ok((vs, o2)) => {
                    assert(vals + (seq![v] + vs) =~= vals.push(v) + vs);
                },
                Err(_) => {},
            }
        },
        Err(_) => {},
    }
}

/// Before any item is read, the whole read is what remains.
pub proof fn lemma_many_start<T>(
    d: Seq<u8>,
    o0: nat,
    n: nat,
    item: spec_fn(Seq<u8>, nat) -> SResult<T>,
)
    ensures
        sp_many(d, o0, n, item) == prepend(Seq::<T>::empty(), sp_many(d, o0, n, item)),
{
    match sp_many(d, o0, n, item) {
        Ok((vs, o)) => {
            assert(Seq::<T>::empty() + vs =~= vs);
        },
        Err(_) => {},
    }
}

pub open spec fn u64_item() -> spec_fn(Seq<u8>, nat) -> SResult<u64> {
    |d: Seq<u8>, o: nat| sp_u64(d, o)
}

pub open spec fn i64_item() -> spec_fn(Seq<u8>, nat) -> SResult<i64> {
    |d: Seq<u8>, o: nat| sp_i64(d, o)
}

#[verifier::opaque]
pub open spec fn sp_linked(d: Seq<u8>, o: nat) -> SResult<LinkedV> {
    then(
        sp_i64(d, o),
        |a: i64, o: nat|
            then(
                sp_i64(d, o),
                |b: i64, o: nat|
                    then(
                        sp_string(d, o),
                        |c: Seq<char>, o: nat|
                            then(
                                sp_i64(d, o),
                                |e: i64, o: nat|
                                    then(sp_i64(d, o), |f: i64, o: nat| Ok(((a, b, c, e, f), o))),
                            ),
                    ),
            ),
    )
}

pub open spec fn linked_item() -> spec_fn(Seq<u8>, nat) -> SResult<LinkedV> {
    |d: Seq<u8>, o: nat| sp_linked(d, o)
}

pub open spec fn sp_program(d: Seq<u8>, o: nat) -> SResult<ProgramV> {
    then(
        sp_string(d, o),
        |level: Seq<char>, o: nat|
            then(sp_string(d, o), |program: Seq<char>, o: nat| Ok(((level, program), o))),
    )
}

pub open spec fn program_item() -> spec_fn(Seq<u8>, nat) -> SResult<ProgramV> {
    |d: Seq<u8>, o: nat| sp_program(d, o)
}

pub open spec fn sp_pair(d: Seq<u8>, o: nat) -> SResult<(i64, i64)> {
    then(sp_i64(d, o), |a: i64, o: nat| then(sp_i64(d, o), |b: i64, o: nat| Ok(((a, b), o))))
}

pub open spec fn pair_item() -> spec_fn(Seq<u8>, nat) -> SResult<(i64, i64)> {
    |d: Seq<u8>, o: nat| sp_pair(d, o)
}

/// `u16` count followed by that many items.
pub open spec fn sp_list16<T>(
    d: Seq<u8>,
    o: nat,
    item: spec_fn(Seq<u8>, nat) -> SResult<T>,
) -> SResult<Seq<T>> {
    then(sp_u16(d, o), |n: u16, o: nat| sp_many(d, o, n as nat, item))
}

/// Component kind that carries the custom-component tail block.
pub open spec fn is_custom_kind(kind: u16) -> bool {
    kind == 78
}

/// The custom-component tail: `custom_id` and its word sizes.
#[verifier::opaque]
pub open spec fn sp_custom_tail(d: Seq<u8>, o: nat) -> SResult<(i64, Seq<(i64, i64)>)> {
    then(
        sp_i64(d, o),
        |id: i64, o: nat| then(sp_list16(d, o, pair_item()), |ws: Seq<(i64, i64)>, o: nat| Ok(((id, ws), o))),
    )
}

/// The identity part of a v15 component record.
#[verifier::opaque]
pub open spec fn sp_component_head(d: Seq<u8>, o: nat) -> SResult<
    (u16, Point, u8, i64, Seq<char>, Seq<char>),
> {
    then(
        sp_u16(d, o),
        |kind: u16, o: nat|
            then(
                sp_point(d, o),
                |position: Point, o: nat|
                    then(
                        sp_u8(d, o),
                        |rotation: u8, o: nat|
                            then(
                                sp_i64(d, o),
                                |pid: i64, o: nat|
                                    then(
                                        sp_string(d, o),
                                        |label: Seq<char>, o: nat|
                                            then(
                                                sp_string(d, o),
                                                |custom: Seq<char>, o: nat|
                                                    Ok(((kind, position, rotation, pid, label, custom), o)),
                                            ),
                                    ),
                            ),
                    ),
            ),
    )
}

/// The scalar settings part of a v15 component record.
pub struct ComponentMid {
    pub settings: Seq<u64>,
    pub buffer_size: i64,
    pub ui_order: i16,
    pub word_size: i64,
    pub immutable: bool,
    pub cost_gate: i64,
    pub cost_delay: i64,
    pub little_endian: bool,
    pub init_data: u8,
}

#[verifier::opaque]
pub open spec fn sp_component_mid(d: Seq<u8>, o: nat) -> SResult<ComponentMid> {
    then(
        sp_list16(d, o, u64_item()),
        |settings: Seq<u64>, o: nat|
            then(
                sp_i64(d, o),
                |buffer_size: i64, o: nat|
                    then(
                        sp_i16(d, o),
                        |ui_order: i16, o: nat|
                            then(
                                sp_i64(d, o),
                                |word_size: i64, o: nat|
                                    then(
                                        sp_bool(d, o),
                                        |immutable: bool, o: nat|
                                            then(
                                                sp_i64(d, o),
                                                |cost_gate: i64, o: nat|
                                                    then(
                                                        sp_i64(d, o),
                                                        |cost_delay: i64, o: nat|
                                                            then(
                                                                sp_bool(d, o),
                                                                |little_endian: bool, o: nat|
                                                                    then(
                                                                        sp_u8(d, o),
                                                                        |init_data: u8, o: nat|
                                                                            Ok(
                                                                                (
                                                                                    ComponentMid {
                                                                                        settings,
                                                                                        buffer_size,
                                                                                        ui_order,
                                                                                        word_size,
                                                                                        immutable,
                                                                                        cost_gate,
                                                                                        cost_delay,
                                                                                        little_endian,
                                                                                        init_data,
                                                                                    },
                                                                                    o,
                                                                                ),
                                                                            ),
                                                                    ),
                                                            ),
                                                    ),
                                            ),
                                    ),
                            ),
                    ),
            ),
    )
}

pub open spec fn assemble_component(
    head: (u16, Point, u8, i64, Seq<char>, Seq<char>),
    mid: ComponentMid,
    linked: Seq<LinkedV>,
    programs: Seq<ProgramV>,
    tail: (i64, Seq<(i64, i64)>),
) -> ComponentV {
    ComponentV {
        kind: head.0,
        position: head.1,
        rotation: head.2,
        permanent_id: head.3,
        user_label: head.4,
        custom_string: head.5,
        settings: mid.settings,
        buffer_size: mid.buffer_size,
        ui_order: mid.ui_order,
        word_size: mid.word_size,
        immutable: mid.immutable,
        cost_gate: mid.cost_gate,
        cost_delay: mid.cost_delay,
        little_endian: mid.little_endian,
        init_data: mid.init_data,
        linked_components: linked,
        selected_programs: programs,
        custom_id: tail.0,
        custom_word_sizes: tail.1,
    }
}

/// A v15 component record.
#[verifier::opaque]
pub open spec fn sp_component(d: Seq<u8>, o: nat) -> SResult<ComponentV> {
    then(
        sp_component_head(d, o),
        |head: (u16, Point, u8, i64, Seq<char>, Seq<char>), o: nat|
            then(
                sp_component_mid(d, o),
                |mid: ComponentMid, o: nat|
                    then(
                        sp_list16(d, o, linked_item()),
                        |linked: Seq<LinkedV>, o: nat|
                            then(
                                sp_list16(d, o, program_item()),
                                |programs: Seq<ProgramV>, o: nat|
                                    then(
                                        if is_custom_kind(head.0) {
                                            sp_custom_tail(d, o)
                                        } else {
                                            Ok(((0i64, Seq::<(i64, i64)>::empty()), o))
                                        },
                                        |tail: (i64, Seq<(i64, i64)>), o: nat|
                                            Ok((assemble_component(head, mid, linked, programs, tail), o)),
                                    ),
                            ),
                    ),
            ),
    )
}

pub open spec fn component_item() -> spec_fn(Seq<u8>, nat) -> SResult<ComponentV> {
    |d: Seq<u8>, o: nat| sp_component(d, o)
}

/// v15 wire segments: `u16` codes (direction in the top 3 bits, length in
/// the low 13) up to a code whose length is 0.
pub open spec fn sp_segments(d: Seq<u8>, o: nat) -> SResult<Seq<(u8, u16)>>
    decreases d.len() - o,
{
    match sp_u16(d, o) {
        Ok((code, o1)) => if code % 8192 == 0 {
            Ok((Seq::empty(), o1))
        } else {
            match sp_segments(d, o1) {
                Ok((segs, o2)) => Ok((seq![((code / 8192) as u8, (code % 8192) as u16)] + segs, o2)),
                Err(f) => Err(f),
            }
        },
        Err(f) => Err(f),
    }
}

/// A v15 wire record.
pub open spec fn sp_wire(d: Seq<u8>, o: nat) -> SResult<WireV> {
    then(
        sp_u8(d, o),
        |color: u8, o: nat|
            then(
                sp_string(d, o),
                |comment: Seq<char>, o: nat|
                    then(
                        sp_point(d, o),
                        |start: Point, o: nat|
                            then(
                                sp_segments(d, o),
                                |segments: Seq<(u8, u16)>, o: nat|
                                    Ok((WireV { color, comment, start, segments, teleport_end: None }, o)),
                            ),
                    ),
            ),
    )
}

pub open spec fn wire_item() -> spec_fn(Seq<u8>, nat) -> SResult<WireV> {
    |d: Seq<u8>, o: nat| sp_wire(d, o)
}

/// The fixed header of a circuit body (identical in v7..v15, except that v7
/// also stored a camera point after the description).
pub struct CircuitHead {
    pub custom_id: i64,
    pub hub_id: u32,
    pub gate: i64,
    pub delay: i64,
    pub menu_visible: bool,
    pub clock_speed: u64,
    pub dependencies: Seq<i64>,
    pub description: Seq<char>,
    pub sync_state: u8,
    pub score: u16,
    pub player_data: Seq<u8>,
    pub hub_description: Seq<char>,
}

#[verifier::opaque]
pub open spec fn sp_head_tail(d: Seq<u8>, o: nat) -> SResult<(u8, u16, Seq<u8>, Seq<char>)> {
    then(
        sp_u8(d, o),
        |sync_state: u8, o: nat|
            then(
                sp_u16(d, o),
                |score: u16, o: nat|
                    then(
                        sp_bytes_u16(d, o),
                        |player_data: Seq<u8>, o: nat|
                            then(
                                sp_string(d, o),
                                |hub: Seq<char>, o: nat| Ok(((sync_state, score, player_data, hub), o)),
                            ),
                    ),
            ),
    )
}

#[verifier::opaque]
pub open spec fn sp_circuit_head(d: Seq<u8>, o: nat, has_camera: bool) -> SResult<CircuitHead> {
    then(
        sp_i64(d, o),
        |custom_id: i64, o: nat|
            then(
                sp_u32(d, o),
                |hub_id: u32, o: nat|
                    then(
                        sp_i64(d, o),
                        |gate: i64, o: nat|
                            then(
                                sp_i64(d, o),
                                |delay: i64, o: nat|
                                    then(
                                        sp_bool(d, o),
                                        |menu_visible: bool, o: nat|
                                            then(
                                                sp_u64(d, o),
                                                |clock_speed: u64, o: nat|
                                                    then(
                                                        sp_list16(d, o, i64_item()),
                                                        |dependencies: Seq<i64>, o: nat|
                                                            then(
                                                                sp_string(d, o),
                                                                |description: Seq<char>, o: nat|
                                                                    then(
                                                                        if has_camera {
                                                                            then(sp_point(d, o), |p: Point, o: nat| Ok(((), o)))
                                                                        } else {
                                                                            Ok(((), o))
                                                                        },
                                                                        |u: (), o: nat|
                                                                            then(
                                                                                sp_head_tail(d, o),
                                                                                |t: (u8, u16, Seq<u8>, Seq<char>), o: nat|
                                                                                    Ok(
                                                                                        (
                                                                                            CircuitHead {
                                                                                                custom_id,
                                                                                                hub_id,
                                                                                                gate,
                                                                                                delay,
                                                                                                menu_visible,
                                                                                                clock_speed,
                                                                                                dependencies,
                                                                                                description,
                                                                                                sync_state: t.0,
                                                                                                score: t.1,
                                                                                                player_data: t.2,
                                                                                                hub_description: t.3,
                                                                                            },
                                                                                            o,
                                                                                        ),
                                                                                    ),
                                                                            ),
                                                                    ),
                                                            ),
                                                    ),
                                            ),
                                    ),
                            ),
                    ),
            ),
    )
}

/// The 512-byte design block, present when `custom_id != 0`.
pub open spec fn sp_design(d: Seq<u8>, o: nat, custom_id: i64) -> SResult<Seq<u8>> {
    if custom_id != 0 {
        sp_take(d, o, 512)
    } else {
        Ok((Seq::empty(), o))
    }
}

pub open spec fn assemble_circuit(
    h: CircuitHead,
    design: Seq<u8>,
    components: Seq<ComponentV>,
    wires: Seq<WireV>,
) -> CircuitV {
    CircuitV {
        custom_id: h.custom_id,
        hub_id: h.hub_id,
        gate: h.gate,
        delay: h.delay,
        menu_visible: h.menu_visible,
        clock_speed: h.clock_speed,
        dependencies: h.dependencies,
        description: h.description,
        sync_state: h.sync_state,
        score: h.score,
        player_data: h.player_data,
        hub_description: h.hub_description,
        design,
        components,
        wires,
    }
}

/// `i64` count (at most `MAX_SEQUENCE_ITEMS`) followed by that many items.
pub open spec fn sp_counted<T>(
    d: Seq<u8>,
    o: nat,
    label: Seq<char>,
    item: spec_fn(Seq<u8>, nat) -> SResult<T>,
) -> SResult<Seq<T>> {
    then(sp_count(d, o, label), |n: usize, o: nat| sp_many(d, o, n as nat, item))
}

/// A complete read: the value must end exactly at the end of the input.
pub open spec fn finished<T>(d: Seq<u8>, r: SResult<T>) -> Result<T, Fault> {
    match r {
        Ok((v, o)) => match sp_finish(d, o) {
            Ok(_) => Ok(v),
            Err(f) => Err(f),
        },
        Err(f) => Err(f),
    }
}

/// A v15 circuit body.
#[verifier::opaque]
pub open spec fn sp_body_v15(d: Seq<u8>) -> Result<CircuitV, Fault> {
    finished(
        d,
        then(
            sp_circuit_head(d, 0, false),
            |h: CircuitHead, o: nat|
                then(
                    sp_design(d, o, h.custom_id),
                    |design: Seq<u8>, o: nat|
                        then(
                            sp_counted(d, o, "components"@, component_item()),
                            |cs: Seq<ComponentV>, o: nat|
                                then(
                                    sp_counted(d, o, "wires"@, wire_item()),
                                    |ws: Seq<WireV>, o: nat| Ok((assemble_circuit(h, design, cs, ws), o)),
                                ),
                        ),
                ),
        ),
    )
}

/// The body carried by a versioned container: version byte, then Snappy.
pub open spec fn container_body(payload: Seq<u8>, version: u8) -> Result<Seq<u8>, Fault> {
    if payload.len() == 0 {
        Err(Fault::TooShort)
    } else if payload[0] != version {
        Err(Fault::BadVersion { expected: version as nat, got: payload[0] as nat })
    } else {
        match snappy_decode(payload.skip(1), MAX_DECOMPRESSED_SIZE as usize) {
            Ok(body) => Ok(body),
            Err(detail) => Err(Fault::Snappy { detail }),
        }
    }
}

/// What decoding a v15 container yields.
#[verifier::opaque]
pub open spec fn spec_decode_v15(payload: Seq<u8>) -> Result<CircuitV, Fault> {
    match container_body(payload, 15) {
        Ok(body) => sp_body_v15(body),
        Err(f) => Err(f),
    }
}

// ───────────────────────── writing ─────────────────────────

/// Result of a spec-level write: the bytes, or the error message.
pub type EResult = Result<Seq<u8>, Seq<char>>;

/// Concatenation of two writes; the first error wins.
pub open spec fn cat(a: EResult, b: EResult) -> EResult {
    match a {
        Ok(x) => match b {
            Ok(y) => Ok(x + y),
            Err(e) => Err(e),
        },
        Err(e) => Err(e),
    }
}

/// The items written one after another, in order; the first error wins.
pub open spec fn se_many<T>(items: Seq<T>, f: spec_fn(T) -> EResult) -> EResult
    decreases items.len(),
{
    if items.len() == 0 {
        Ok(Seq::empty())
    } else {
        cat(se_many(items.drop_last(), f), f(items.last()))
    }
}

/// Writing one more item extends the write of the items before it.
pub proof fn lemma_se_many_push<T>(items: Seq<T>, i: int, f: spec_fn(T) -> EResult)
    requires
        0 <= i < items.len(),
    ensures
        se_many(items.take(i + 1), f) == cat(se_many(items.take(i), f), f(items[i])),
{
    assert(items.take(i + 1).drop_last() =~= items.take(i));
}

/// Once the write of a prefix fails, so does the write of the whole sequence.
pub proof fn lemma_se_many_err<T>(items: Seq<T>, i: int, f: spec_fn(T) -> EResult)
    requires
        0 <= i <= items.len(),
        se_many(items.take(i), f) is Err,
    ensures
        se_many(items, f) == se_many(items.take(i), f),
    decreases items.len() - i,
{
    if i < items.len() {
        lemma_se_many_push(items, i, f);
        lemma_se_many_err(items, i + 1, f);
    } else {
        assert(items.take(i) =~= items);
    }
}

pub open spec fn se_string(s: Seq<char>) -> EResult {
    if encode_utf8(s).len() <= MAX_STRING_BYTES {
        Ok(string_bytes(s))
    } else {
        Err(string_too_long_text(encode_utf8(s).len()))
    }
}

pub open spec fn se_bytes16(b: Seq<u8>) -> EResult {
    if b.len() <= MAX_STRING_BYTES {
        Ok(bytes_u16_bytes(b))
    } else {
        Err(bytes_too_long_text(b.len()))
    }
}

/// A `u16` count as the writers emit it: the length modulo 2^16.
pub open spec fn len16(n: nat) -> Seq<u8> {
    u16_bytes((n % 65536) as int)
}

pub open spec fn u64_w() -> spec_fn(u64) -> EResult {
    |v: u64| Ok(u64_bytes(v as int))
}

pub open spec fn i64_w() -> spec_fn(i64) -> EResult {
    |v: i64| Ok(i64_bytes(v as int))
}

pub open spec fn pair_w() -> spec_fn((i64, i64)) -> EResult {
    |p: (i64, i64)| Ok(i64_bytes(p.0 as int) + i64_bytes(p.1 as int))
}

pub open spec fn se_linked(l: LinkedV) -> EResult {
    cat(
        Ok(i64_bytes(l.0 as int) + i64_bytes(l.1 as int)),
        cat(se_string(l.2), Ok(i64_bytes(l.3 as int) + i64_bytes(l.4 as int))),
    )
}

pub open spec fn linked_w() -> spec_fn(LinkedV) -> EResult {
    |l: LinkedV| se_linked(l)
}

pub open spec fn se_program(p: ProgramV) -> EResult {
    cat(se_string(p.0), se_string(p.1))
}

pub open spec fn program_w() -> spec_fn(ProgramV) -> EResult {
    |p: ProgramV| se_program(p)
}

#[verifier::opaque]
pub open spec fn component_mid_bytes(c: ComponentV) -> Seq<u8> {
    len16(c.settings.len()) + se_many(c.settings, u64_w())->Ok_0 + i64_bytes(c.buffer_size as int)
        + i16_bytes(c.ui_order as int) + i64_bytes(c.word_size as int) + bool_bytes(c.immutable)
        + i64_bytes(c.cost_gate as int) + i64_bytes(c.cost_delay as int) + bool_bytes(
        c.little_endian,
    ) + seq![c.init_data]
}

#[verifier::opaque]
pub open spec fn component_tail_bytes(c: ComponentV) -> Seq<u8> {
    if is_custom_kind(c.kind) {
        i64_bytes(c.custom_id as int) + len16(c.custom_word_sizes.len()) + se_many(
            c.custom_word_sizes,
            pair_w(),
        )->Ok_0
    } else {
        Seq::empty()
    }
}

/// The part of a component record after its two label strings.
#[verifier::opaque]
pub open spec fn se_component_rest(c: ComponentV) -> EResult {
    cat(
        Ok(component_mid_bytes(c) + len16(c.linked_components.len())),
        cat(
            se_many(c.linked_components, linked_w()),
            cat(
                Ok(len16(c.selected_programs.len())),
                cat(se_many(c.selected_programs, program_w()), Ok(component_tail_bytes(c))),
            ),
        ),
    )
}

/// A v15 component record as `write_component` emits it.
#[verifier::opaque]
pub open spec fn se_component(c: ComponentV) -> EResult {
    cat(
        Ok(u16_bytes(c.kind as int) + point_bytes(c.position) + seq![c.rotation] + i64_bytes(
            c.permanent_id as int,
        )),
        cat(se_string(c.user_label), cat(se_string(c.custom_string), se_component_rest(c))),
    )
}

pub open spec fn component_w() -> spec_fn(ComponentV) -> EResult {
    |c: ComponentV| se_component(c)
}

pub open spec fn se_segment(s: (u8, u16)) -> EResult {
    if s.0 > 7 {
        Err("CIRCUIT_BAD_WIRE_DIRECTION|"@ + dec_nat(s.0 as nat))
    } else if !(1 <= s.1 <= 0x1FFF) {
        Err("CIRCUIT_BAD_WIRE_LENGTH|"@ + dec_nat(s.1 as nat))
    } else {
        Ok(u16_bytes(s.0 * 8192 + s.1))
    }
}

pub open spec fn segment_w() -> spec_fn((u8, u16)) -> EResult {
    |s: (u8, u16)| se_segment(s)
}

/// A v15 wire record as `write_wire` emits it.
#[verifier::opaque]
pub open spec fn se_wire(w: WireV) -> EResult {
    if w.teleport_end is Some {
        Err("CIRCUIT_V7_TELEPORT|v15 cannot encode a v7 teleport wire"@)
    } else {
        cat(
            Ok(seq![w.color]),
            cat(
                se_string(w.comment),
                cat(Ok(point_bytes(w.start)), cat(se_many(w.segments, segment_w()), Ok(u16_bytes(0)))),
            ),
        )
    }
}

pub open spec fn wire_w() -> spec_fn(WireV) -> EResult {
    |w: WireV| se_wire(w)
}

#[verifier::opaque]
pub open spec fn body_head_bytes(c: CircuitV) -> Seq<u8> {
    i64_bytes(c.custom_id as int) + u32_bytes(c.hub_id as int) + i64_bytes(c.gate as int) + i64_bytes(
        c.delay as int,
    ) + bool_bytes(c.menu_visible) + u64_bytes(c.clock_speed as int) + len16(c.dependencies.len())
        + se_many(c.dependencies, i64_w())->Ok_0
}

pub open spec fn design_size_text(c: CircuitV) -> Seq<char> {
    if c.custom_id != 0 {
        "CIRCUIT_BAD_DESIGN_SIZE|got "@ + dec_nat(c.design.len()) + ", expected 512"@
    } else {
        "CIRCUIT_BAD_DESIGN_SIZE|non-custom circuit cannot contain design bytes"@
    }
}

/// The design block agrees with `custom_id`.
pub open spec fn design_ok(c: CircuitV) -> bool {
    if c.custom_id != 0 {
        c.design.len() == 512
    } else {
        c.design.len() == 0
    }
}

/// The part of a body after its fixed header fields.
#[verifier::opaque]
pub open spec fn se_body_strings(c: CircuitV) -> EResult {
    cat(
        se_string(c.description),
        cat(
            Ok(seq![c.sync_state] + u16_bytes(c.score as int)),
            cat(se_bytes16(c.player_data), se_string(c.hub_description)),
        ),
    )
}

/// The design block and the two record lists.
#[verifier::opaque]
pub open spec fn se_body_records(c: CircuitV) -> EResult {
    cat(
        Ok(c.design + u64_bytes(c.components.len() as int)),
        cat(
            se_many(c.components, component_w()),
            cat(Ok(u64_bytes(c.wires.len() as int)), se_many(c.wires, wire_w())),
        ),
    )
}

/// A v15 circuit body as `write_body` emits it.
#[verifier::opaque]
pub open spec fn se_body(c: CircuitV) -> EResult {
    if !design_ok(c) {
        Err(design_size_text(c))
    } else {
        cat(Ok(body_head_bytes(c)), cat(se_body_strings(c), se_body_records(c)))
    }
}

} // verus!
