//! Read-after-write laws of the v15 body format: what `se_body` writes,
//! `sp_body_v15` reads back, for every circuit that the v15 layout can hold.
use vstd::prelude::*;
use vstd::utf8::*;
use crate::binary::{
    Fault, MAX_SEQUENCE_ITEMS, MAX_STRING_BYTES, SResult, at, bool_bytes, bytes_u16_bytes, i16_bytes, i64_bytes,
    lemma_read_bool, lemma_read_bytes_u16, lemma_read_count, lemma_read_i16, lemma_read_i64, lemma_read_point,
    lemma_read_string, lemma_read_u16, lemma_read_u32, lemma_read_u64, point_bytes, sp_bool, sp_bytes_u16,
    sp_count, sp_finish, sp_i16, sp_i64, sp_point, sp_string, sp_take, sp_u16, sp_u32, sp_u64, sp_u8,
    string_bytes, u16_bytes, u32_bytes, u64_bytes,
};
use crate::format::{
    EResult, cat, i64_item, i64_w, len16, linked_item, linked_w, pair_item, pair_w, program_item, program_w,
    se_bytes16, se_linked, se_many, ComponentMid, component_mid_bytes, sp_component_mid, assemble_component,
    component_tail_bytes, is_custom_kind, sp_component, sp_component_head, sp_custom_tail, se_component,
    se_component_rest, CircuitHead, assemble_circuit, component_item, component_w, sp_body_v15,
    sp_circuit_head, sp_counted, sp_design, sp_head_tail, body_head_bytes, design_ok, se_body, se_body_records,
    se_body_strings, se_program, se_segment, se_string, segment_w, sp_linked, sp_list16, sp_many,
    sp_pair, sp_program, sp_segments, sp_wire, u64_item, u64_w, se_wire, wire_item, wire_w,
};
use crate::model::{CircuitV, ComponentV, LinkedV, Point, ProgramV, WireV};

verus! {

// ───────────────────────── byte layout ─────────────────────────

/// What sits at `o` as `a + b` sits there as `a`, followed by `b`.
pub proof fn lemma_at_cat(d: Seq<u8>, o: nat, a: Seq<u8>, b: Seq<u8>)
    requires
        at(d, o, a + b),
    ensures
        at(d, o, a),
        at(d, o + a.len(), b),
{
    reveal(at);
    let whole = d.subrange(o as int, o as int + (a + b).len() as int);
    assert(whole == a + b);
    assert(d.subrange(o as int, o as int + a.len() as int) =~= whole.subrange(0, a.len() as int));
    assert(whole.subrange(0, a.len() as int) =~= a);
    assert(d.subrange((o + a.len()) as int, (o + a.len() + b.len()) as int) =~= whole.subrange(
        a.len() as int,
        (a.len() + b.len()) as int,
    ));
    assert(whole.subrange(a.len() as int, (a.len() + b.len()) as int) =~= b);
}

/// A single byte `b` sits at `o`.
pub proof fn lemma_at_u8(d: Seq<u8>, o: nat, b: u8)
    requires
        at(d, o, seq![b]),
    ensures
        o < d.len(),
        d[o as int] == b,
{
    reveal(at);
    assert(d.subrange(o as int, o as int + 1)[0] == d[o as int]);
}

/// Concatenation of writes is associative.
pub proof fn lemma_cat_assoc(a: EResult, b: EResult, c: EResult)
    ensures
        cat(cat(a, b), c) == cat(a, cat(b, c)),
{
    match a {
        Ok(x) => match b {
            Ok(y) => match c {
                Ok(z) => {
                    assert((x + y) + z =~= x + (y + z));
                },
                Err(_) => {},
            },
            Err(_) => {},
        },
        Err(_) => {},
    }
}

/// A non-empty list is written as its first item, then the rest.
pub proof fn lemma_se_many_front<T>(items: Seq<T>, f: spec_fn(T) -> EResult)
    requires
        items.len() > 0,
    ensures
        se_many(items, f) == cat(f(items[0]), se_many(items.drop_first(), f)),
    decreases items.len(),
{
    if items.len() == 1 {
        assert(items.drop_last() =~= Seq::<T>::empty());
        assert(items.drop_first() =~= Seq::<T>::empty());
        match f(items[0]) {
            Ok(y) => {
                assert(Seq::<u8>::empty() + y =~= y);
                assert(y + Seq::<u8>::empty() =~= y);
            },
            Err(_) => {},
        }
    } else {
        let dl = items.drop_last();
        lemma_se_many_front(dl, f);
        assert(dl.drop_first() =~= items.drop_first().drop_last());
        assert(items.drop_first().last() == items.last());
        lemma_cat_assoc(f(items[0]), se_many(dl.drop_first(), f), f(items.last()));
    }
}

/// A list whose items all write is written.
pub proof fn lemma_se_many_ok<T>(items: Seq<T>, f: spec_fn(T) -> EResult)
    requires
        forall|k: int| 0 <= k < items.len() ==> (#[trigger] f(items[k])) is Ok,
    ensures
        se_many(items, f) is Ok,
    decreases items.len(),
{
    if items.len() > 0 {
        let dl = items.drop_last();
        assert forall|k: int| 0 <= k < dl.len() implies (#[trigger] f(dl[k])) is Ok by {
            assert(dl[k] == items[k]);
        }
        lemma_se_many_ok(dl, f);
        assert(f(items[items.len() - 1]) is Ok);
    }
}

/// Item `x`, written with `w`, is read back by `item` wherever it sits in `d`.
pub open spec fn reads_back<T>(
    item: spec_fn(Seq<u8>, nat) -> SResult<T>,
    w: spec_fn(T) -> EResult,
    x: T,
    d: Seq<u8>,
) -> bool {
    &&& w(x) is Ok
    &&& forall|p: nat|
        #[trigger] at(d, p, w(x)->Ok_0) ==> item(d, p) == Ok::<(T, nat), Fault>((x, p + w(x)->Ok_0.len()))
}

/// A list written item by item is read back item by item.
pub proof fn lemma_read_many<T>(
    d: Seq<u8>,
    o: nat,
    items: Seq<T>,
    item: spec_fn(Seq<u8>, nat) -> SResult<T>,
    w: spec_fn(T) -> EResult,
)
    requires
        se_many(items, w) is Ok,
        at(d, o, se_many(items, w)->Ok_0),
        forall|k: int| 0 <= k < items.len() ==> #[trigger] reads_back(item, w, items[k], d),
    ensures
        sp_many(d, o, items.len(), item) == Ok::<(Seq<T>, nat), Fault>(
            (items, o + se_many(items, w)->Ok_0.len()),
        ),
    decreases items.len(),
{
    if items.len() > 0 {
        lemma_se_many_front(items, w);
        let x = items[0];
        let rest = items.drop_first();
        assert(reads_back(item, w, items[0], d));
        let a = w(x)->Ok_0;
        let b = se_many(rest, w)->Ok_0;
        lemma_at_cat(d, o, a, b);
        assert forall|k: int| 0 <= k < rest.len() implies #[trigger] reads_back(item, w, rest[k], d) by {
            assert(rest[k] == items[k + 1]);
            assert(reads_back(item, w, items[k + 1], d));
        }
        lemma_read_many(d, o + a.len(), rest, item, w);
        assert(item(d, o) == Ok::<(T, nat), Fault>((x, o + a.len())));
        assert(rest.len() == (items.len() - 1) as nat);
        assert(seq![x] + rest =~= items);
    } else {
        assert(items =~= Seq::<T>::empty());
    }
}

/// A `u16`-counted list is read back when it has fewer than 2^16 items.
pub proof fn lemma_read_list16<T>(
    d: Seq<u8>,
    o: nat,
    items: Seq<T>,
    item: spec_fn(Seq<u8>, nat) -> SResult<T>,
    w: spec_fn(T) -> EResult,
)
    requires
        items.len() < 65536,
        se_many(items, w) is Ok,
        at(d, o, len16(items.len()) + se_many(items, w)->Ok_0),
        forall|k: int| 0 <= k < items.len() ==> #[trigger] reads_back(item, w, items[k], d),
    ensures
        sp_list16(d, o, item) == Ok::<(Seq<T>, nat), Fault>(
            (items, o + 2 + se_many(items, w)->Ok_0.len()),
        ),
{
    lemma_at_cat(d, o, len16(items.len()), se_many(items, w)->Ok_0);
    lemma_read_u16(items.len() as u16, d, o);
    lemma_read_many(d, o + 2, items, item, w);
}

// ───────────────────────── small records ─────────────────────────

pub proof fn lemma_reads_back_u64(x: u64, d: Seq<u8>)
    ensures
        reads_back(u64_item(), u64_w(), x, d),
{
    assert forall|p: nat| #[trigger] at(d, p, u64_w()(x)->Ok_0) implies u64_item()(d, p) == Ok::<
        (u64, nat),
        Fault,
    >((x, p + u64_w()(x)->Ok_0.len())) by {
        lemma_read_u64(x, d, p);
    }
}

pub proof fn lemma_reads_back_i64(x: i64, d: Seq<u8>)
    ensures
        reads_back(i64_item(), i64_w(), x, d),
{
    assert forall|p: nat| #[trigger] at(d, p, i64_w()(x)->Ok_0) implies i64_item()(d, p) == Ok::<
        (i64, nat),
        Fault,
    >((x, p + i64_w()(x)->Ok_0.len())) by {
        lemma_read_i64(x, d, p);
    }
}

pub proof fn lemma_reads_back_pair(x: (i64, i64), d: Seq<u8>)
    ensures
        reads_back(pair_item(), pair_w(), x, d),
{
    assert forall|p: nat| #[trigger] at(d, p, pair_w()(x)->Ok_0) implies pair_item()(d, p) == Ok::<
        ((i64, i64), nat),
        Fault,
    >((x, p + pair_w()(x)->Ok_0.len())) by {
        lemma_at_cat(d, p, i64_bytes(x.0 as int), i64_bytes(x.1 as int));
        lemma_read_i64(x.0, d, p);
        lemma_read_i64(x.1, d, p + 8);
    }
}

/// Two `i64`s, a block `s`, two more `i64`s: the layout of a linked-component record.
#[verifier::spinoff_prover]
#[verifier::rlimit(40)]
proof fn lemma_at_linked_layout(d: Seq<u8>, p: nat, x0: i64, x1: i64, s: Seq<u8>, x3: i64, x4: i64)
    requires
        at(d, p, (i64_bytes(x0 as int) + i64_bytes(x1 as int)) + (s + (i64_bytes(x3 as int) + i64_bytes(x4 as int)))),
    ensures
        sp_i64(d, p) == Ok::<(i64, nat), Fault>((x0, p + 8)),
        sp_i64(d, p + 8) == Ok::<(i64, nat), Fault>((x1, p + 16)),
        at(d, p + 16, s),
        sp_i64(d, p + 16 + s.len()) == Ok::<(i64, nat), Fault>((x3, p + 24 + s.len())),
        sp_i64(d, p + 24 + s.len()) == Ok::<(i64, nat), Fault>((x4, p + 32 + s.len())),
{
    let a = i64_bytes(x0 as int) + i64_bytes(x1 as int);
    let c = i64_bytes(x3 as int) + i64_bytes(x4 as int);
    lemma_at_cat(d, p, a, s + c);
    assert(at(d, p, i64_bytes(x0 as int)) && at(d, p + 8, i64_bytes(x1 as int))) by {
        lemma_at_cat(d, p, i64_bytes(x0 as int), i64_bytes(x1 as int));
    }
    assert(at(d, p + 16, s) && at(d, p + 16 + s.len(), c)) by {
        lemma_at_cat(d, p + 16, s, c);
    }
    assert(at(d, p + 16 + s.len(), i64_bytes(x3 as int)) && at(d, p + 24 + s.len(), i64_bytes(x4 as int))) by {
        lemma_at_cat(d, p + 16 + s.len(), i64_bytes(x3 as int), i64_bytes(x4 as int));
    }
    assert(i64_bytes(x0 as int).len() == 8 && i64_bytes(x3 as int).len() == 8);
    assert(sp_i64(d, p) == Ok::<(i64, nat), Fault>((x0, p + 8))) by {
        lemma_read_i64(x0, d, p);
    }
    assert(sp_i64(d, p + 8) == Ok::<(i64, nat), Fault>((x1, p + 16))) by {
        lemma_read_i64(x1, d, p + 8);
    }
    assert(sp_i64(d, p + 16 + s.len()) == Ok::<(i64, nat), Fault>((x3, p + 24 + s.len()))) by {
        lemma_read_i64(x3, d, p + 16 + s.len());
    }
    assert(sp_i64(d, p + 24 + s.len()) == Ok::<(i64, nat), Fault>((x4, p + 32 + s.len()))) by {
        lemma_read_i64(x4, d, p + 24 + s.len());
    }
}

proof fn lemma_eval_linked(d: Seq<u8>, p: nat, x: LinkedV, n: nat)
    requires
        sp_i64(d, p) == Ok::<(i64, nat), Fault>((x.0, p + 8)),
        sp_i64(d, p + 8) == Ok::<(i64, nat), Fault>((x.1, p + 16)),
        sp_string(d, p + 16) == Ok::<(Seq<char>, nat), Fault>((x.2, p + 16 + n)),
        sp_i64(d, p + 16 + n) == Ok::<(i64, nat), Fault>((x.3, p + 24 + n)),
        sp_i64(d, p + 24 + n) == Ok::<(i64, nat), Fault>((x.4, p + 32 + n)),
    ensures
        sp_linked(d, p) == Ok::<(LinkedV, nat), Fault>((x, p + 32 + n)),
{
    reveal(sp_linked);
}

#[verifier::spinoff_prover]
proof fn lemma_read_linked(x: LinkedV, d: Seq<u8>, p: nat)
    requires
        se_linked(x) is Ok,
        at(d, p, se_linked(x)->Ok_0),
    ensures
        sp_linked(d, p) == Ok::<(LinkedV, nat), Fault>((x, p + se_linked(x)->Ok_0.len())),
{
    lemma_at_linked_layout(d, p, x.0, x.1, string_bytes(x.2), x.3, x.4);
    lemma_read_string(x.2, d, p + 16);
    lemma_eval_linked(d, p, x, string_bytes(x.2).len());
}

pub proof fn lemma_reads_back_linked(x: LinkedV, d: Seq<u8>)
    requires
        se_linked(x) is Ok,
    ensures
        reads_back(linked_item(), linked_w(), x, d),
{
    assert forall|p: nat| #[trigger] at(d, p, linked_w()(x)->Ok_0) implies linked_item()(d, p) == Ok::<
        (LinkedV, nat),
        Fault,
    >((x, p + linked_w()(x)->Ok_0.len())) by {
        lemma_read_linked(x, d, p);
    }
}

pub proof fn lemma_reads_back_program(x: ProgramV, d: Seq<u8>)
    requires
        se_program(x) is Ok,
    ensures
        reads_back(program_item(), program_w(), x, d),
{
    let a = string_bytes(x.0);
    let b = string_bytes(x.1);
    assert(program_w()(x)->Ok_0 == a + b);
    assert forall|p: nat| #[trigger] at(d, p, program_w()(x)->Ok_0) implies program_item()(d, p) == Ok::<
        (ProgramV, nat),
        Fault,
    >((x, p + program_w()(x)->Ok_0.len())) by {
        lemma_at_cat(d, p, a, b);
        lemma_read_string(x.0, d, p);
        lemma_read_string(x.1, d, p + a.len());
        assert(sp_program(d, p) == Ok::<(ProgramV, nat), Fault>((x, p + a.len() + b.len())));
    }
}

/// Wire segments, followed by the zero terminator, are read back.
#[verifier::spinoff_prover]
#[verifier::rlimit(40)]
pub proof fn lemma_read_segments(segs: Seq<(u8, u16)>, d: Seq<u8>, p: nat)
    requires
        se_many(segs, segment_w()) is Ok,
        at(d, p, se_many(segs, segment_w())->Ok_0 + u16_bytes(0)),
    ensures
        sp_segments(d, p) == Ok::<(Seq<(u8, u16)>, nat), Fault>(
            (segs, p + se_many(segs, segment_w())->Ok_0.len() + 2),
        ),
    decreases segs.len(),
{
    let b = se_many(segs, segment_w())->Ok_0;
    lemma_at_cat(d, p, b, u16_bytes(0));
    if segs.len() == 0 {
        lemma_read_u16(0, d, p);
        assert(segs =~= Seq::<(u8, u16)>::empty());
    } else {
        lemma_se_many_front(segs, segment_w());
        let s = segs[0];
        let rest = segs.drop_first();
        let code: int = s.0 * 8192 + s.1;
        assert(0 <= code < 65536);
        let a = u16_bytes(code);
        let r = se_many(rest, segment_w())->Ok_0;
        assert(b == a + r);
        assert((a + r) + u16_bytes(0) =~= a + (r + u16_bytes(0)));
        lemma_at_cat(d, p, a, r + u16_bytes(0));
        lemma_read_u16(code as u16, d, p);
        lemma_read_segments(rest, d, p + 2);
        assert(code % 8192 == s.1);
        assert(code / 8192 == s.0);
        assert(seq![s] + rest =~= segs);
    }
}

#[verifier::spinoff_prover]
#[verifier::rlimit(40)]
pub proof fn lemma_reads_back_wire(x: WireV, d: Seq<u8>)
    requires
        se_wire(x) is Ok,
    ensures
        reads_back(wire_item(), wire_w(), x, d),
{
    reveal(se_wire);
    let sb = string_bytes(x.comment);
    let segs = se_many(x.segments, segment_w())->Ok_0;
    let tail = segs + u16_bytes(0);
    assert(wire_w()(x)->Ok_0 == seq![x.color] + (sb + (point_bytes(x.start) + tail)));
    assert forall|p: nat| #[trigger] at(d, p, wire_w()(x)->Ok_0) implies wire_item()(d, p) == Ok::<
        (WireV, nat),
        Fault,
    >((x, p + wire_w()(x)->Ok_0.len())) by {
        lemma_at_cat(d, p, seq![x.color], sb + (point_bytes(x.start) + tail));
        lemma_at_cat(d, p + 1, sb, point_bytes(x.start) + tail);
        lemma_at_cat(d, p + 1 + sb.len(), point_bytes(x.start), tail);
        lemma_at_u8(d, p, x.color);
        lemma_read_string(x.comment, d, p + 1);
        lemma_read_point(x.start, d, p + 1 + sb.len());
        lemma_read_segments(x.segments, d, p + 5 + sb.len());
        assert(sp_wire(d, p) == Ok::<(WireV, nat), Fault>((x, p + 7 + sb.len() + segs.len())));
    }
}

// ───────────────────────── components ─────────────────────────

/// The scalar settings of a component, as its record carries them.
pub open spec fn mid_of(c: ComponentV) -> ComponentMid {
    ComponentMid {
        settings: c.settings,
        buffer_size: c.buffer_size,
        ui_order: c.ui_order,
        word_size: c.word_size,
        immutable: c.immutable,
        cost_gate: c.cost_gate,
        cost_delay: c.cost_delay,
        little_endian: c.little_endian,
        init_data: c.init_data,
    }
}

/// The fixed-size fields that follow the settings list of a component.
#[verifier::spinoff_prover]
#[verifier::rlimit(100)]
proof fn lemma_at_mid_layout(d: Seq<u8>, p: nat, l: Seq<u8>, m: ComponentMid)
    requires
        at(
            d,
            p,
            l + i64_bytes(m.buffer_size as int) + i16_bytes(m.ui_order as int) + i64_bytes(m.word_size as int)
                + bool_bytes(m.immutable) + i64_bytes(m.cost_gate as int) + i64_bytes(m.cost_delay as int)
                + bool_bytes(m.little_endian) + seq![m.init_data],
        ),
    ensures
        at(d, p, l),
        sp_i64(d, p + l.len()) == Ok::<(i64, nat), Fault>((m.buffer_size, p + l.len() + 8)),
        sp_i16(d, p + l.len() + 8) == Ok::<(i16, nat), Fault>((m.ui_order, p + l.len() + 10)),
        sp_i64(d, p + l.len() + 10) == Ok::<(i64, nat), Fault>((m.word_size, p + l.len() + 18)),
        sp_bool(d, p + l.len() + 18) == Ok::<(bool, nat), Fault>((m.immutable, p + l.len() + 19)),
        sp_i64(d, p + l.len() + 19) == Ok::<(i64, nat), Fault>((m.cost_gate, p + l.len() + 27)),
        sp_i64(d, p + l.len() + 27) == Ok::<(i64, nat), Fault>((m.cost_delay, p + l.len() + 35)),
        sp_bool(d, p + l.len() + 35) == Ok::<(bool, nat), Fault>((m.little_endian, p + l.len() + 36)),
        sp_u8(d, p + l.len() + 36) == Ok::<(u8, nat), Fault>((m.init_data, p + l.len() + 37)),
{
    let e1 = l + i64_bytes(m.buffer_size as int);
    let e2 = e1 + i16_bytes(m.ui_order as int);
    let e3 = e2 + i64_bytes(m.word_size as int);
    let e4 = e3 + bool_bytes(m.immutable);
    let e5 = e4 + i64_bytes(m.cost_gate as int);
    let e6 = e5 + i64_bytes(m.cost_delay as int);
    let e7 = e6 + bool_bytes(m.little_endian);
    lemma_at_cat(d, p, e7, seq![m.init_data]);
    lemma_at_cat(d, p, e6, bool_bytes(m.little_endian));
    lemma_at_cat(d, p, e5, i64_bytes(m.cost_delay as int));
    lemma_at_cat(d, p, e4, i64_bytes(m.cost_gate as int));
    lemma_at_cat(d, p, e3, bool_bytes(m.immutable));
    lemma_at_cat(d, p, e2, i64_bytes(m.word_size as int));
    lemma_at_cat(d, p, e1, i16_bytes(m.ui_order as int));
    lemma_at_cat(d, p, l, i64_bytes(m.buffer_size as int));
    lemma_read_i64(m.buffer_size, d, p + l.len());
    lemma_read_i16(m.ui_order, d, p + l.len() + 8);
    lemma_read_i64(m.word_size, d, p + l.len() + 10);
    lemma_read_bool(m.immutable, d, p + l.len() + 18);
    lemma_read_i64(m.cost_gate, d, p + l.len() + 19);
    lemma_read_i64(m.cost_delay, d, p + l.len() + 27);
    lemma_read_bool(m.little_endian, d, p + l.len() + 35);
    lemma_at_u8(d, p + l.len() + 36, m.init_data);
}

proof fn lemma_eval_mid(d: Seq<u8>, p: nat, m: ComponentMid, q: nat)
    requires
        sp_list16(d, p, u64_item()) == Ok::<(Seq<u64>, nat), Fault>((m.settings, q)),
        sp_i64(d, q) == Ok::<(i64, nat), Fault>((m.buffer_size, q + 8)),
        sp_i16(d, q + 8) == Ok::<(i16, nat), Fault>((m.ui_order, q + 10)),
        sp_i64(d, q + 10) == Ok::<(i64, nat), Fault>((m.word_size, q + 18)),
        sp_bool(d, q + 18) == Ok::<(bool, nat), Fault>((m.immutable, q + 19)),
        sp_i64(d, q + 19) == Ok::<(i64, nat), Fault>((m.cost_gate, q + 27)),
        sp_i64(d, q + 27) == Ok::<(i64, nat), Fault>((m.cost_delay, q + 35)),
        sp_bool(d, q + 35) == Ok::<(bool, nat), Fault>((m.little_endian, q + 36)),
        sp_u8(d, q + 36) == Ok::<(u8, nat), Fault>((m.init_data, q + 37)),
    ensures
        sp_component_mid(d, p) == Ok::<(ComponentMid, nat), Fault>((m, q + 37)),
{
    reveal(sp_component_mid);
}

#[verifier::spinoff_prover]
proof fn lemma_read_mid(c: ComponentV, d: Seq<u8>, p: nat)
    requires
        c.settings.len() < 65536,
        at(d, p, component_mid_bytes(c)),
    ensures
        sp_component_mid(d, p) == Ok::<(ComponentMid, nat), Fault>((mid_of(c), p + component_mid_bytes(c).len())),
{
    reveal(component_mid_bytes);
    let m = mid_of(c);
    let l = len16(c.settings.len()) + se_many(c.settings, u64_w())->Ok_0;
    lemma_se_many_ok(c.settings, u64_w());
    lemma_at_mid_layout(d, p, l, m);
    assert forall|k: int| 0 <= k < c.settings.len() implies #[trigger] reads_back(
        u64_item(),
        u64_w(),
        c.settings[k],
        d,
    ) by {
        lemma_reads_back_u64(c.settings[k], d);
    }
    lemma_read_list16(d, p, c.settings, u64_item(), u64_w());
    lemma_eval_mid(d, p, m, p + l.len());
}

/// The identity fields of a component record, then two blocks and whatever follows.
#[verifier::spinoff_prover]
#[verifier::rlimit(40)]
proof fn lemma_at_head_layout(
    d: Seq<u8>,
    p: nat,
    kind: u16,
    position: Point,
    rotation: u8,
    pid: i64,
    s1: Seq<u8>,
    s2: Seq<u8>,
    r: Seq<u8>,
)
    requires
        at(
            d,
            p,
            (u16_bytes(kind as int) + point_bytes(position) + seq![rotation] + i64_bytes(pid as int)) + (s1 + (s2
                + r)),
        ),
    ensures
        sp_u16(d, p) == Ok::<(u16, nat), Fault>((kind, p + 2)),
        sp_point(d, p + 2) == Ok::<(Point, nat), Fault>((position, p + 6)),
        sp_u8(d, p + 6) == Ok::<(u8, nat), Fault>((rotation, p + 7)),
        sp_i64(d, p + 7) == Ok::<(i64, nat), Fault>((pid, p + 15)),
        at(d, p + 15, s1),
        at(d, p + 15 + s1.len(), s2),
        at(d, p + 15 + s1.len() + s2.len(), r),
{
    let e1 = u16_bytes(kind as int) + point_bytes(position);
    let e2 = e1 + seq![rotation];
    let h = e2 + i64_bytes(pid as int);
    lemma_at_cat(d, p, h, s1 + (s2 + r));
    lemma_at_cat(d, p, e2, i64_bytes(pid as int));
    lemma_at_cat(d, p, e1, seq![rotation]);
    lemma_at_cat(d, p, u16_bytes(kind as int), point_bytes(position));
    lemma_at_cat(d, p + 15, s1, s2 + r);
    lemma_at_cat(d, p + 15 + s1.len(), s2, r);
    lemma_read_u16(kind, d, p);
    lemma_read_point(position, d, p + 2);
    lemma_at_u8(d, p + 6, rotation);
    lemma_read_i64(pid, d, p + 7);
}

/// The record after the label strings: settings block, two counted lists and the tail.
proof fn lemma_at_rest_layout(
    d: Seq<u8>,
    q: nat,
    m: Seq<u8>,
    n1: Seq<u8>,
    lb: Seq<u8>,
    n2: Seq<u8>,
    pb: Seq<u8>,
    t: Seq<u8>,
)
    requires
        at(d, q, (m + n1) + (lb + (n2 + (pb + t)))),
    ensures
        at(d, q, m),
        at(d, q + m.len(), n1 + lb),
        at(d, q + m.len() + n1.len() + lb.len(), n2 + pb),
        at(d, q + m.len() + n1.len() + lb.len() + n2.len() + pb.len(), t),
{
    assert((m + n1) + (lb + (n2 + (pb + t))) =~= m + ((n1 + lb) + ((n2 + pb) + t)));
    lemma_at_cat(d, q, m, (n1 + lb) + ((n2 + pb) + t));
    lemma_at_cat(d, q + m.len(), n1 + lb, (n2 + pb) + t);
    lemma_at_cat(d, q + m.len() + n1.len() + lb.len(), n2 + pb, t);
}

/// The custom-component tail is read back.
#[verifier::spinoff_prover]
#[verifier::rlimit(40)]
proof fn lemma_read_custom_tail(c: ComponentV, d: Seq<u8>, o: nat)
    requires
        is_custom_kind(c.kind),
        c.custom_word_sizes.len() < 65536,
        at(d, o, component_tail_bytes(c)),
    ensures
        sp_custom_tail(d, o) == Ok::<((i64, Seq<(i64, i64)>), nat), Fault>(
            ((c.custom_id, c.custom_word_sizes), o + component_tail_bytes(c).len()),
        ),
{
    reveal(sp_custom_tail);
    reveal(component_tail_bytes);
    let l = len16(c.custom_word_sizes.len()) + se_many(c.custom_word_sizes, pair_w())->Ok_0;
    lemma_se_many_ok(c.custom_word_sizes, pair_w());
    assert(component_tail_bytes(c) =~= i64_bytes(c.custom_id as int) + l);
    lemma_at_cat(d, o, i64_bytes(c.custom_id as int), l);
    lemma_read_i64(c.custom_id, d, o);
    assert forall|k: int| 0 <= k < c.custom_word_sizes.len() implies #[trigger] reads_back(
        pair_item(),
        pair_w(),
        c.custom_word_sizes[k],
        d,
    ) by {
        lemma_reads_back_pair(c.custom_word_sizes[k], d);
    }
    lemma_read_list16(d, o + 8, c.custom_word_sizes, pair_item(), pair_w());
}

/// A component record that the v15 layout holds exactly: its `u16`-counted
/// lists are short enough, and a component of another kind than the custom
/// one carries no custom tail.
pub open spec fn component_fits(c: ComponentV) -> bool {
    &&& c.settings.len() < 65536
    &&& c.linked_components.len() < 65536
    &&& c.selected_programs.len() < 65536
    &&& if is_custom_kind(c.kind) {
        c.custom_word_sizes.len() < 65536
    } else {
        c.custom_id == 0 && c.custom_word_sizes.len() == 0
    }
}

/// `sp_component` put together from the reads of its parts.
proof fn lemma_eval_component(
    d: Seq<u8>,
    p: nat,
    head: (u16, Point, u8, i64, Seq<char>, Seq<char>),
    o1: nat,
    mid: ComponentMid,
    o2: nat,
    linked: Seq<LinkedV>,
    o3: nat,
    programs: Seq<ProgramV>,
    o4: nat,
    tail: (i64, Seq<(i64, i64)>),
    o5: nat,
)
    requires
        sp_component_head(d, p) == Ok::<((u16, Point, u8, i64, Seq<char>, Seq<char>), nat), Fault>((head, o1)),
        sp_component_mid(d, o1) == Ok::<(ComponentMid, nat), Fault>((mid, o2)),
        sp_list16(d, o2, linked_item()) == Ok::<(Seq<LinkedV>, nat), Fault>((linked, o3)),
        sp_list16(d, o3, program_item()) == Ok::<(Seq<ProgramV>, nat), Fault>((programs, o4)),
        is_custom_kind(head.0) ==> sp_custom_tail(d, o4) == Ok::<((i64, Seq<(i64, i64)>), nat), Fault>(
            (tail, o5),
        ),
        !is_custom_kind(head.0) ==> tail == (0i64, Seq::<(i64, i64)>::empty()) && o5 == o4,
    ensures
        sp_component(d, p) == Ok::<(ComponentV, nat), Fault>(
            (assemble_component(head, mid, linked, programs, tail), o5),
        ),
{
    reveal(sp_component);
}

/// Every item of a list that writes, writes.
pub proof fn lemma_se_many_items_ok<T>(items: Seq<T>, f: spec_fn(T) -> EResult, k: int)
    requires
        se_many(items, f) is Ok,
        0 <= k < items.len(),
    ensures
        f(items[k]) is Ok,
    decreases items.len(),
{
    let dl = items.drop_last();
    if k < items.len() - 1 {
        lemma_se_many_items_ok(dl, f, k);
        assert(dl[k] == items[k]);
    }
}

proof fn lemma_eval_component_head(
    d: Seq<u8>,
    p: nat,
    h: (u16, Point, u8, i64, Seq<char>, Seq<char>),
    n1: nat,
    n2: nat,
)
    requires
        sp_u16(d, p) == Ok::<(u16, nat), Fault>((h.0, p + 2)),
        sp_point(d, p + 2) == Ok::<(Point, nat), Fault>((h.1, p + 6)),
        sp_u8(d, p + 6) == Ok::<(u8, nat), Fault>((h.2, p + 7)),
        sp_i64(d, p + 7) == Ok::<(i64, nat), Fault>((h.3, p + 15)),
        sp_string(d, p + 15) == Ok::<(Seq<char>, nat), Fault>((h.4, p + 15 + n1)),
        sp_string(d, p + 15 + n1) == Ok::<(Seq<char>, nat), Fault>((h.5, p + 15 + n1 + n2)),
    ensures
        sp_component_head(d, p) == Ok::<((u16, Point, u8, i64, Seq<char>, Seq<char>), nat), Fault>(
            (h, p + 15 + n1 + n2),
        ),
{
    reveal(sp_component_head);
}

#[verifier::spinoff_prover]
proof fn lemma_read_component_head(c: ComponentV, d: Seq<u8>, p: nat, r: Seq<u8>)
    requires
        se_string(c.user_label) is Ok,
        se_string(c.custom_string) is Ok,
        at(
            d,
            p,
            (u16_bytes(c.kind as int) + point_bytes(c.position) + seq![c.rotation] + i64_bytes(
                c.permanent_id as int,
            )) + (string_bytes(c.user_label) + (string_bytes(c.custom_string) + r)),
        ),
    ensures
        sp_component_head(d, p) == Ok::<((u16, Point, u8, i64, Seq<char>, Seq<char>), nat), Fault>(
            (
                (c.kind, c.position, c.rotation, c.permanent_id, c.user_label, c.custom_string),
                p + 15 + string_bytes(c.user_label).len() + string_bytes(c.custom_string).len(),
            ),
        ),
        at(d, p + 15 + string_bytes(c.user_label).len() + string_bytes(c.custom_string).len(), r),
{
    let s1 = string_bytes(c.user_label);
    let s2 = string_bytes(c.custom_string);
    lemma_at_head_layout(d, p, c.kind, c.position, c.rotation, c.permanent_id, s1, s2, r);
    lemma_read_string(c.user_label, d, p + 15);
    lemma_read_string(c.custom_string, d, p + 15 + s1.len());
    lemma_eval_component_head(
        d,
        p,
        (c.kind, c.position, c.rotation, c.permanent_id, c.user_label, c.custom_string),
        s1.len(),
        s2.len(),
    );
}

proof fn lemma_read_links(c: ComponentV, d: Seq<u8>, o: nat)
    requires
        c.linked_components.len() < 65536,
        se_many(c.linked_components, linked_w()) is Ok,
        at(d, o, len16(c.linked_components.len()) + se_many(c.linked_components, linked_w())->Ok_0),
    ensures
        sp_list16(d, o, linked_item()) == Ok::<(Seq<LinkedV>, nat), Fault>(
            (c.linked_components, o + 2 + se_many(c.linked_components, linked_w())->Ok_0.len()),
        ),
{
    assert forall|k: int| 0 <= k < c.linked_components.len() implies #[trigger] reads_back(
        linked_item(),
        linked_w(),
        c.linked_components[k],
        d,
    ) by {
        lemma_se_many_items_ok(c.linked_components, linked_w(), k);
        lemma_reads_back_linked(c.linked_components[k], d);
    }
    lemma_read_list16(d, o, c.linked_components, linked_item(), linked_w());
}

proof fn lemma_read_programs(c: ComponentV, d: Seq<u8>, o: nat)
    requires
        c.selected_programs.len() < 65536,
        se_many(c.selected_programs, program_w()) is Ok,
        at(d, o, len16(c.selected_programs.len()) + se_many(c.selected_programs, program_w())->Ok_0),
    ensures
        sp_list16(d, o, program_item()) == Ok::<(Seq<ProgramV>, nat), Fault>(
            (c.selected_programs, o + 2 + se_many(c.selected_programs, program_w())->Ok_0.len()),
        ),
{
    assert forall|k: int| 0 <= k < c.selected_programs.len() implies #[trigger] reads_back(
        program_item(),
        program_w(),
        c.selected_programs[k],
        d,
    ) by {
        lemma_se_many_items_ok(c.selected_programs, program_w(), k);
        lemma_reads_back_program(c.selected_programs[k], d);
    }
    lemma_read_list16(d, o, c.selected_programs, program_item(), program_w());
}

/// The pieces of a component record that writes.
proof fn lemma_se_component_parts(c: ComponentV)
    requires
        se_component(c) is Ok,
    ensures
        se_string(c.user_label) is Ok,
        se_string(c.custom_string) is Ok,
        se_many(c.linked_components, linked_w()) is Ok,
        se_many(c.selected_programs, program_w()) is Ok,
        se_component(c)->Ok_0 == (u16_bytes(c.kind as int) + point_bytes(c.position) + seq![c.rotation]
            + i64_bytes(c.permanent_id as int)) + (string_bytes(c.user_label) + (string_bytes(c.custom_string) + (
        (component_mid_bytes(c) + len16(c.linked_components.len())) + (se_many(
            c.linked_components,
            linked_w(),
        )->Ok_0 + (len16(c.selected_programs.len()) + (se_many(c.selected_programs, program_w())->Ok_0
            + component_tail_bytes(c))))))),
{
    reveal(se_component);
    reveal(se_component_rest);
}

/// A component record that fits the v15 layout is read back as written.
#[verifier::spinoff_prover]
#[verifier::rlimit(30)]
pub proof fn lemma_read_component(c: ComponentV, d: Seq<u8>, p: nat)
    requires
        se_component(c) is Ok,
        component_fits(c),
        at(d, p, se_component(c)->Ok_0),
    ensures
        sp_component(d, p) == Ok::<(ComponentV, nat), Fault>((c, p + se_component(c)->Ok_0.len())),
{
    lemma_se_component_parts(c);
    let s1 = string_bytes(c.user_label);
    let s2 = string_bytes(c.custom_string);
    let m = component_mid_bytes(c);
    let n1 = len16(c.linked_components.len());
    let lb = se_many(c.linked_components, linked_w())->Ok_0;
    let n2 = len16(c.selected_programs.len());
    let pb = se_many(c.selected_programs, program_w())->Ok_0;
    let t = component_tail_bytes(c);
    let r = (m + n1) + (lb + (n2 + (pb + t)));
    lemma_read_component_head(c, d, p, r);
    let q = p + 15 + s1.len() + s2.len();
    lemma_at_rest_layout(d, q, m, n1, lb, n2, pb, t);
    lemma_read_mid(c, d, q);
    let o2 = q + m.len();
    lemma_read_links(c, d, o2);
    let o3 = o2 + n1.len() + lb.len();
    lemma_read_programs(c, d, o3);
    let o4 = o3 + n2.len() + pb.len();
    if is_custom_kind(c.kind) {
        lemma_read_custom_tail(c, d, o4);
    } else {
        reveal(component_tail_bytes);
        assert(c.custom_word_sizes =~= Seq::<(i64, i64)>::empty());
        assert(t.len() == 0);
    }
    lemma_eval_component(
        d,
        p,
        (c.kind, c.position, c.rotation, c.permanent_id, c.user_label, c.custom_string),
        q,
        mid_of(c),
        o2,
        c.linked_components,
        o3,
        c.selected_programs,
        o4,
        (c.custom_id, c.custom_word_sizes),
        o4 + t.len(),
    );
    assert(assemble_component(
        (c.kind, c.position, c.rotation, c.permanent_id, c.user_label, c.custom_string),
        mid_of(c),
        c.linked_components,
        c.selected_programs,
        (c.custom_id, c.custom_word_sizes),
    ) == c);
}

// ───────────────────────── circuit bodies ─────────────────────────

/// A list of items counted by an `i64` is read back when the count is allowed.
pub proof fn lemma_read_counted<T>(
    d: Seq<u8>,
    o: nat,
    label: Seq<char>,
    items: Seq<T>,
    item: spec_fn(Seq<u8>, nat) -> SResult<T>,
    w: spec_fn(T) -> EResult,
)
    requires
        items.len() <= MAX_SEQUENCE_ITEMS,
        se_many(items, w) is Ok,
        at(d, o, u64_bytes(items.len() as int) + se_many(items, w)->Ok_0),
        forall|k: int| 0 <= k < items.len() ==> #[trigger] reads_back(item, w, items[k], d),
    ensures
        sp_counted(d, o, label, item) == Ok::<(Seq<T>, nat), Fault>(
            (items, o + 8 + se_many(items, w)->Ok_0.len()),
        ),
{
    lemma_at_cat(d, o, u64_bytes(items.len() as int), se_many(items, w)->Ok_0);
    lemma_read_count(items.len() as usize, label, d, o);
    lemma_read_many(d, o + 8, items, item, w);
}

pub proof fn lemma_reads_back_component(c: ComponentV, d: Seq<u8>)
    requires
        se_component(c) is Ok,
        component_fits(c),
    ensures
        reads_back(component_item(), component_w(), c, d),
{
    assert forall|p: nat| #[trigger] at(d, p, component_w()(c)->Ok_0) implies component_item()(d, p) == Ok::<
        (ComponentV, nat),
        Fault,
    >((c, p + component_w()(c)->Ok_0.len())) by {
        lemma_read_component(c, d, p);
    }
}

/// A circuit that the v15 layout holds exactly: its `u16`-counted lists are
/// short enough, its record counts are within the reader's limit, and each
/// component fits.
pub open spec fn circuit_fits(c: CircuitV) -> bool {
    &&& c.dependencies.len() < 65536
    &&& c.components.len() <= MAX_SEQUENCE_ITEMS
    &&& c.wires.len() <= MAX_SEQUENCE_ITEMS
    &&& forall|i: int| 0 <= i < c.components.len() ==> component_fits(#[trigger] c.components[i])
}

/// The header fields of a circuit body.
pub open spec fn head_of(c: CircuitV) -> CircuitHead {
    CircuitHead {
        custom_id: c.custom_id,
        hub_id: c.hub_id,
        gate: c.gate,
        delay: c.delay,
        menu_visible: c.menu_visible,
        clock_speed: c.clock_speed,
        dependencies: c.dependencies,
        description: c.description,
        sync_state: c.sync_state,
        score: c.score,
        player_data: c.player_data,
        hub_description: c.hub_description,
    }
}

/// The fixed-size header fields, the dependency list block `l`, and what follows.
#[verifier::spinoff_prover]
#[verifier::rlimit(40)]
proof fn lemma_at_fixed_layout(d: Seq<u8>, o: nat, c: CircuitV, l: Seq<u8>, r: Seq<u8>)
    requires
        at(
            d,
            o,
            (i64_bytes(c.custom_id as int) + u32_bytes(c.hub_id as int) + i64_bytes(c.gate as int) + i64_bytes(
                c.delay as int,
            ) + bool_bytes(c.menu_visible) + u64_bytes(c.clock_speed as int) + l) + r,
        ),
    ensures
        sp_i64(d, o) == Ok::<(i64, nat), Fault>((c.custom_id, o + 8)),
        sp_u32(d, o + 8) == Ok::<(u32, nat), Fault>((c.hub_id, o + 12)),
        sp_i64(d, o + 12) == Ok::<(i64, nat), Fault>((c.gate, o + 20)),
        sp_i64(d, o + 20) == Ok::<(i64, nat), Fault>((c.delay, o + 28)),
        sp_bool(d, o + 28) == Ok::<(bool, nat), Fault>((c.menu_visible, o + 29)),
        sp_u64(d, o + 29) == Ok::<(u64, nat), Fault>((c.clock_speed, o + 37)),
        at(d, o + 37, l),
        at(d, o + 37 + l.len(), r),
{
    let e1 = i64_bytes(c.custom_id as int) + u32_bytes(c.hub_id as int);
    let e2 = e1 + i64_bytes(c.gate as int);
    let e3 = e2 + i64_bytes(c.delay as int);
    let e4 = e3 + bool_bytes(c.menu_visible);
    let e5 = e4 + u64_bytes(c.clock_speed as int);
    lemma_at_cat(d, o, e5 + l, r);
    lemma_at_cat(d, o, e5, l);
    lemma_at_cat(d, o, e4, u64_bytes(c.clock_speed as int));
    lemma_at_cat(d, o, e3, bool_bytes(c.menu_visible));
    lemma_at_cat(d, o, e2, i64_bytes(c.delay as int));
    lemma_at_cat(d, o, e1, i64_bytes(c.gate as int));
    lemma_at_cat(d, o, i64_bytes(c.custom_id as int), u32_bytes(c.hub_id as int));
    lemma_read_i64(c.custom_id, d, o);
    lemma_read_u32(c.hub_id, d, o + 8);
    lemma_read_i64(c.gate, d, o + 12);
    lemma_read_i64(c.delay, d, o + 20);
    lemma_read_bool(c.menu_visible, d, o + 28);
    lemma_read_u64(c.clock_speed, d, o + 29);
}

/// The string block of a body header, and what follows.
#[verifier::spinoff_prover]
#[verifier::rlimit(40)]
proof fn lemma_at_strings_layout(
    d: Seq<u8>,
    o: nat,
    sd: Seq<u8>,
    sync: u8,
    score: u16,
    pdb: Seq<u8>,
    hb: Seq<u8>,
    r: Seq<u8>,
)
    requires
        at(d, o, (sd + ((seq![sync] + u16_bytes(score as int)) + (pdb + hb))) + r),
    ensures
        at(d, o, sd),
        sp_u8(d, o + sd.len()) == Ok::<(u8, nat), Fault>((sync, o + sd.len() + 1)),
        sp_u16(d, o + sd.len() + 1) == Ok::<(u16, nat), Fault>((score, o + sd.len() + 3)),
        at(d, o + sd.len() + 3, pdb),
        at(d, o + sd.len() + 3 + pdb.len(), hb),
        at(d, o + sd.len() + 3 + pdb.len() + hb.len(), r),
{
    let x = seq![sync] + u16_bytes(score as int);
    assert((sd + (x + (pdb + hb))) + r =~= sd + (x + (pdb + (hb + r))));
    lemma_at_cat(d, o, sd, x + (pdb + (hb + r)));
    lemma_at_cat(d, o + sd.len(), x, pdb + (hb + r));
    lemma_at_cat(d, o + sd.len(), seq![sync], u16_bytes(score as int));
    lemma_at_cat(d, o + sd.len() + 3, pdb, hb + r);
    lemma_at_cat(d, o + sd.len() + 3 + pdb.len(), hb, r);
    lemma_at_u8(d, o + sd.len(), sync);
    lemma_read_u16(score, d, o + sd.len() + 1);
}

/// The design block and the two counted record lists.
proof fn lemma_at_records_layout(d: Seq<u8>, o: nat, design: Seq<u8>, nc: Seq<u8>, cb: Seq<u8>, nw: Seq<u8>, wb: Seq<u8>)
    requires
        at(d, o, (design + nc) + (cb + (nw + wb))),
    ensures
        at(d, o, design),
        at(d, o + design.len(), nc + cb),
        at(d, o + design.len() + nc.len() + cb.len(), nw + wb),
{
    assert((design + nc) + (cb + (nw + wb)) =~= design + ((nc + cb) + (nw + wb)));
    lemma_at_cat(d, o, design, (nc + cb) + (nw + wb));
    lemma_at_cat(d, o + design.len(), nc + cb, nw + wb);
}

proof fn lemma_eval_circuit_head(d: Seq<u8>, h: CircuitHead, o: nat, n1: nat, n2: nat, n3: nat)
    requires
        sp_i64(d, 0) == Ok::<(i64, nat), Fault>((h.custom_id, 8)),
        sp_u32(d, 8) == Ok::<(u32, nat), Fault>((h.hub_id, 12)),
        sp_i64(d, 12) == Ok::<(i64, nat), Fault>((h.gate, 20)),
        sp_i64(d, 20) == Ok::<(i64, nat), Fault>((h.delay, 28)),
        sp_bool(d, 28) == Ok::<(bool, nat), Fault>((h.menu_visible, 29)),
        sp_u64(d, 29) == Ok::<(u64, nat), Fault>((h.clock_speed, 37)),
        sp_list16(d, 37, i64_item()) == Ok::<(Seq<i64>, nat), Fault>((h.dependencies, o)),
        sp_string(d, o) == Ok::<(Seq<char>, nat), Fault>((h.description, o + n1)),
        sp_u8(d, o + n1) == Ok::<(u8, nat), Fault>((h.sync_state, o + n1 + 1)),
        sp_u16(d, o + n1 + 1) == Ok::<(u16, nat), Fault>((h.score, o + n1 + 3)),
        sp_bytes_u16(d, o + n1 + 3) == Ok::<(Seq<u8>, nat), Fault>((h.player_data, o + n1 + 3 + n2)),
        sp_string(d, o + n1 + 3 + n2) == Ok::<(Seq<char>, nat), Fault>(
            (h.hub_description, o + n1 + 3 + n2 + n3),
        ),
    ensures
        sp_circuit_head(d, 0, false) == Ok::<(CircuitHead, nat), Fault>((h, o + n1 + 3 + n2 + n3)),
{
    reveal(sp_circuit_head);
    reveal(sp_head_tail);
}

proof fn lemma_eval_body(
    d: Seq<u8>,
    h: CircuitHead,
    o1: nat,
    design: Seq<u8>,
    o2: nat,
    cs: Seq<ComponentV>,
    o3: nat,
    ws: Seq<WireV>,
)
    requires
        sp_circuit_head(d, 0, false) == Ok::<(CircuitHead, nat), Fault>((h, o1)),
        sp_design(d, o1, h.custom_id) == Ok::<(Seq<u8>, nat), Fault>((design, o2)),
        sp_counted(d, o2, "components"@, component_item()) == Ok::<(Seq<ComponentV>, nat), Fault>((cs, o3)),
        sp_counted(d, o3, "wires"@, wire_item()) == Ok::<(Seq<WireV>, nat), Fault>((ws, d.len())),
    ensures
        sp_body_v15(d) == Ok::<CircuitV, Fault>(assemble_circuit(h, design, cs, ws)),
{
    reveal(sp_body_v15);
}

/// A byte sequence sits at the start of itself.
proof fn lemma_at_whole(d: Seq<u8>)
    ensures
        at(d, 0, d),
{
    reveal(at);
    assert(d.subrange(0, d.len() as int) =~= d);
}

/// The design block is read back.
proof fn lemma_read_design(c: CircuitV, d: Seq<u8>, o: nat)
    requires
        design_ok(c),
        at(d, o, c.design),
    ensures
        sp_design(d, o, c.custom_id) == Ok::<(Seq<u8>, nat), Fault>((c.design, o + c.design.len())),
{
    reveal(at);
    if c.custom_id == 0 {
        assert(c.design =~= Seq::<u8>::empty());
    }
}

/// The pieces of a body that writes.
proof fn lemma_se_body_parts(c: CircuitV)
    requires
        se_body(c) is Ok,
    ensures
        design_ok(c),
        se_string(c.description) is Ok,
        se_bytes16(c.player_data) is Ok,
        se_string(c.hub_description) is Ok,
        se_many(c.components, component_w()) is Ok,
        se_many(c.wires, wire_w()) is Ok,
        se_body(c)->Ok_0 == (i64_bytes(c.custom_id as int) + u32_bytes(c.hub_id as int) + i64_bytes(c.gate as int)
            + i64_bytes(c.delay as int) + bool_bytes(c.menu_visible) + u64_bytes(c.clock_speed as int) + (len16(
            c.dependencies.len(),
        ) + se_many(c.dependencies, i64_w())->Ok_0)) + ((string_bytes(c.description) + ((seq![c.sync_state]
            + u16_bytes(c.score as int)) + (bytes_u16_bytes(c.player_data) + string_bytes(c.hub_description))))
            + ((c.design + u64_bytes(c.components.len() as int)) + (se_many(c.components, component_w())->Ok_0
            + (u64_bytes(c.wires.len() as int) + se_many(c.wires, wire_w())->Ok_0)))),
{
    reveal(se_body);
    reveal(se_body_strings);
    reveal(se_body_records);
    reveal(body_head_bytes);
    lemma_se_many_ok(c.dependencies, i64_w());
    let f = i64_bytes(c.custom_id as int) + u32_bytes(c.hub_id as int) + i64_bytes(c.gate as int) + i64_bytes(
        c.delay as int,
    ) + bool_bytes(c.menu_visible) + u64_bytes(c.clock_speed as int);
    let l1 = len16(c.dependencies.len());
    let l2 = se_many(c.dependencies, i64_w())->Ok_0;
    assert(body_head_bytes(c) =~= f + (l1 + l2));
}

#[verifier::spinoff_prover]
#[verifier::rlimit(40)]
proof fn lemma_read_body_head(c: CircuitV, d: Seq<u8>, r: Seq<u8>)
    requires
        c.dependencies.len() < 65536,
        se_string(c.description) is Ok,
        se_bytes16(c.player_data) is Ok,
        se_string(c.hub_description) is Ok,
        at(
            d,
            0,
            (i64_bytes(c.custom_id as int) + u32_bytes(c.hub_id as int) + i64_bytes(c.gate as int) + i64_bytes(
                c.delay as int,
            ) + bool_bytes(c.menu_visible) + u64_bytes(c.clock_speed as int) + (len16(c.dependencies.len())
                + se_many(c.dependencies, i64_w())->Ok_0)) + ((string_bytes(c.description) + ((
            seq![c.sync_state] + u16_bytes(c.score as int)) + (bytes_u16_bytes(c.player_data) + string_bytes(
                c.hub_description,
            )))) + r),
        ),
    ensures
        sp_circuit_head(d, 0, false) == Ok::<(CircuitHead, nat), Fault>(
            (
                head_of(c),
                37 + 2 + se_many(c.dependencies, i64_w())->Ok_0.len() + string_bytes(c.description).len() + 3
                    + bytes_u16_bytes(c.player_data).len() + string_bytes(c.hub_description).len(),
            ),
        ),
        at(
            d,
            37 + 2 + se_many(c.dependencies, i64_w())->Ok_0.len() + string_bytes(c.description).len() + 3
                + bytes_u16_bytes(c.player_data).len() + string_bytes(c.hub_description).len(),
            r,
        ),
{
    lemma_se_many_ok(c.dependencies, i64_w());
    let l = len16(c.dependencies.len()) + se_many(c.dependencies, i64_w())->Ok_0;
    let sd = string_bytes(c.description);
    let pdb = bytes_u16_bytes(c.player_data);
    let hb = string_bytes(c.hub_description);
    let rest = (sd + ((seq![c.sync_state] + u16_bytes(c.score as int)) + (pdb + hb))) + r;
    lemma_at_fixed_layout(d, 0, c, l, rest);
    assert forall|k: int| 0 <= k < c.dependencies.len() implies #[trigger] reads_back(
        i64_item(),
        i64_w(),
        c.dependencies[k],
        d,
    ) by {
        lemma_reads_back_i64(c.dependencies[k], d);
    }
    lemma_read_list16(d, 37, c.dependencies, i64_item(), i64_w());
    let o = 37 + l.len();
    lemma_at_strings_layout(d, o, sd, c.sync_state, c.score, pdb, hb, r);
    lemma_read_string(c.description, d, o);
    lemma_read_bytes_u16(c.player_data, d, o + sd.len() + 3);
    lemma_read_string(c.hub_description, d, o + sd.len() + 3 + pdb.len());
    lemma_eval_circuit_head(d, head_of(c), o, sd.len(), pdb.len(), hb.len());
}

/// Read-after-write law of the v15 body: every circuit that writes and that
/// the layout holds exactly (see `circuit_fits`) is read back as written.
#[verifier::spinoff_prover]
#[verifier::rlimit(40)]
pub proof fn lemma_body_round_trip(c: CircuitV)
    requires
        se_body(c) is Ok,
        circuit_fits(c),
    ensures
        sp_body_v15(se_body(c)->Ok_0) == Ok::<CircuitV, Fault>(c),
{
    lemma_se_body_parts(c);
    let d = se_body(c)->Ok_0;
    lemma_at_whole(d);
    let cb = se_many(c.components, component_w())->Ok_0;
    let wb = se_many(c.wires, wire_w())->Ok_0;
    let nc = u64_bytes(c.components.len() as int);
    let nw = u64_bytes(c.wires.len() as int);
    let r = (c.design + nc) + (cb + (nw + wb));
    lemma_read_body_head(c, d, r);
    let o1 = 37 + 2 + se_many(c.dependencies, i64_w())->Ok_0.len() + string_bytes(c.description).len() + 3
        + bytes_u16_bytes(c.player_data).len() + string_bytes(c.hub_description).len();
    lemma_at_records_layout(d, o1, c.design, nc, cb, nw, wb);
    lemma_read_design(c, d, o1);
    let o2 = o1 + c.design.len();
    assert forall|k: int| 0 <= k < c.components.len() implies #[trigger] reads_back(
        component_item(),
        component_w(),
        c.components[k],
        d,
    ) by {
        lemma_se_many_items_ok(c.components, component_w(), k);
        lemma_reads_back_component(c.components[k], d);
    }
    lemma_read_counted(d, o2, "components"@, c.components, component_item(), component_w());
    let o3 = o2 + 8 + cb.len();
    assert forall|k: int| 0 <= k < c.wires.len() implies #[trigger] reads_back(wire_item(), wire_w(), c.wires[k], d) by {
        lemma_se_many_items_ok(c.wires, wire_w(), k);
        lemma_reads_back_wire(c.wires[k], d);
    }
    lemma_read_counted(d, o3, "wires"@, c.wires, wire_item(), wire_w());
    assert(o3 + 8 + wb.len() == d.len());
    lemma_eval_body(d, head_of(c), o1, c.design, o2, c.components, o3, c.wires);
    assert(assemble_circuit(head_of(c), c.design, c.components, c.wires) == c);
}

} // verus!
