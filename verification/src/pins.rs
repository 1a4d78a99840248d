//! Auditable pin schemas and endpoint-based logical connectivity.
//!
//! Resolves a circuit's wiring into a directed component graph: wires are
//! unioned into logical networks by shared endpoints; each network's first
//! output pin drives its input pins; Kahn's algorithm yields a component
//! evaluation order (used by the DSL generator).
//!
//! Only component kinds whose geometry has been checked against current
//! circuits are listed; unsupported kinds surface explicitly rather than
//! receiving guessed pins.
use vstd::prelude::*;
use crate::model::{Circuit, CircuitV, Component, ComponentV, Point, Wire, WireV, component_views, wire_views};
use crate::text::{chars_to_string, dec_nat, push_str, push_u64, str_chars};

verus! {

/// Pin signal direction.
#[derive(Debug, Clone, Copy, PartialEq, Eq, Structural)]
pub enum PinDir {
    Input,
    Output,
    OutputTristate,
}

/// A pin's fixed offset relative to its component's position. `width: None`
/// means "use the component's `word_size`".
#[derive(Debug)]
pub struct PinSpec {
    pub name: String,
    pub direction: PinDir,
    pub offset: (i16, i16),
    pub width: Option<i64>,
}

/// The mathematical value of a [`PinSpec`].
pub struct PinSpecV {
    pub name: Seq<char>,
    pub direction: PinDir,
    pub offset: (i16, i16),
    pub width: Option<i64>,
}

impl View for PinSpec {
    type V = PinSpecV;

    open spec fn view(&self) -> PinSpecV {
        PinSpecV { name: self.name@, direction: self.direction, offset: self.offset, width: self.width }
    }
}

pub open spec fn spec_views(v: Seq<PinSpec>) -> Seq<PinSpecV> {
    v.map_values(|p: PinSpec| p@)
}

// ───────────────────────── the schema table ─────────────────────────

pub open spec fn sp(name: Seq<char>, direction: PinDir, x: int, y: int, width: Option<i64>) -> PinSpecV {
    PinSpecV { name, direction, offset: (x as i16, y as i16), width }
}

/// Input pin of the component's word width.
pub open spec fn s_in(name: Seq<char>, x: int, y: int) -> PinSpecV {
    sp(name, PinDir::Input, x, y, None)
}

/// One-bit input pin.
pub open spec fn s_in1(name: Seq<char>, x: int, y: int) -> PinSpecV {
    sp(name, PinDir::Input, x, y, Some(1))
}

/// Output pin of the component's word width.
pub open spec fn s_out(name: Seq<char>, x: int, y: int) -> PinSpecV {
    sp(name, PinDir::Output, x, y, None)
}

/// One-bit output pin.
pub open spec fn s_out1(name: Seq<char>, x: int, y: int) -> PinSpecV {
    sp(name, PinDir::Output, x, y, Some(1))
}

/// `n` pins of width `width` named `prefix0`, `prefix1`, ... stacked
/// vertically at `(x, y0 + i)`.
pub open spec fn s_stacked(prefix: Seq<char>, direction: PinDir, x: int, y0: int, n: nat, width: i64) -> Seq<
    PinSpecV,
> {
    Seq::new(n, |i: int| sp(prefix + dec_nat(i as nat), direction, x, y0 + i, Some(width)))
}

/// Two one-bit inputs and a one-bit output: the two-input gate layout.
pub open spec fn s_gate2() -> Seq<PinSpecV> {
    seq![s_in1("in0"@, -1, -1), s_in1("in1"@, -1, 1), s_out1("out"@, 2, 0)]
}

/// Three one-bit inputs and a one-bit output: the three-input gate layout.
pub open spec fn s_gate3() -> Seq<PinSpecV> {
    seq![s_in1("in0"@, -1, -1), s_in1("in1"@, -1, 0), s_in1("in2"@, -1, 1), s_out1("out"@, 2, 0)]
}

/// The static per-kind pin table.
pub open spec fn schema(kind: u16) -> Option<Seq<PinSpecV>> {
    if kind == 1 || kind == 2 {
        Some(seq![s_out1("out"@, 1, 0)])
    } else if kind == 3 {
        Some(seq![s_in1("in"@, -1, 0), s_out1("out"@, 2, 0)])
    } else if kind == 4 || kind == 6 || kind == 7 || kind == 9 || kind == 10 || kind == 11 {
        Some(s_gate2())
    } else if kind == 5 || kind == 8 {
        Some(s_gate3())
    } else if kind == 12 {
        Some(
            seq![
                s_in1("enable"@, 0, 1),
                s_in1("in"@, -1, 0),
                sp("out"@, PinDir::OutputTristate, 2, 0, Some(1)),
            ],
        )
    } else if kind == 13 {
        Some(seq![s_in1("in"@, -3, 0), s_out1("out"@, 3, 0)])
    } else if kind == 14 {
        Some(seq![s_in1("save"@, -3, -3), s_in1("in"@, -3, 0), s_out1("out"@, 3, 0)])
    } else if kind == 15 {
        Some(
            seq![
                s_in1("carry_in"@, -1, -1),
                s_in1("in0"@, -1, 0),
                s_in1("in1"@, -1, 1),
                s_out1("sum"@, 1, 0),
                s_out1("carry_out"@, 1, 1),
            ],
        )
    } else if kind == 16 {
        Some(s_stacked("in"@, PinDir::Input, -1, -3, 8, 1).push(sp("out"@, PinDir::Output, 1, 0, Some(8))))
    } else if kind == 17 {
        Some(seq![sp("in"@, PinDir::Input, -1, 0, Some(8))] + s_stacked("out"@, PinDir::Output, 1, -3, 8, 1))
    } else if kind == 18 || kind == 29 || kind == 49 {
        Some(seq![s_in("in"@, -1, 0), s_out("out"@, 2, 0)])
    } else if (19 <= kind && kind <= 24) || kind == 32 {
        Some(seq![s_in("in0"@, -1, -1), s_in("in1"@, -1, 1), s_out("out"@, 2, 0)])
    } else if kind == 25 {
        Some(
            seq![
                s_in1("enable"@, 0, 1),
                s_in("in"@, -1, 0),
                sp("out"@, PinDir::OutputTristate, 2, 0, None),
            ],
        )
    } else if 26 <= kind && kind <= 28 {
        Some(seq![s_in("in0"@, -1, -1), s_in("in1"@, -1, 1), s_out1("out"@, 2, 0)])
    } else if kind == 30 {
        Some(
            seq![
                s_in("in0"@, -1, -1),
                s_in("in1"@, -1, 1),
                s_in1("carry_in"@, 0, -2),
                s_out("out"@, 2, 0),
                s_out("carry_out"@, 1, 2),
            ],
        )
    } else if kind == 31 {
        Some(
            seq![
                s_in("in0"@, -1, -1),
                s_in("in1"@, -1, 0),
                s_out("low"@, 1, -1),
                s_out("high"@, 1, 0),
            ],
        )
    } else if 33 <= kind && kind <= 37 {
        Some(
            seq![
                s_in("in"@, -1, -1),
                sp("shift"@, PinDir::Input, -1, 1, Some(8)),
                s_out("out"@, 2, 0),
            ],
        )
    } else if kind == 39 {
        Some(seq![s_in1("save"@, -3, -1), s_in("in"@, -3, 0), s_out("out"@, 3, 0)])
    } else if kind == 40 {
        Some(s_stacked("value"@, PinDir::Input, -1, -4, 8, 1))
    } else if kind == 42 {
        Some(
            seq![
                s_in1("select"@, -1, -1),
                s_in("in0"@, -1, 0),
                s_in("in1"@, -1, 1),
                s_out("out"@, 2, 0),
            ],
        )
    } else if kind == 43 {
        Some(seq![s_in1("select"@, -1, 0), s_out1("out0"@, 1, 0), s_out1("out1"@, 1, 1)])
    } else if kind == 44 {
        Some(
            seq![s_in1("select0"@, -1, -1), s_in1("select1"@, -1, 0)] + s_stacked(
                "out"@,
                PinDir::Output,
                1,
                -1,
                4,
                1,
            ),
        )
    } else if kind == 45 {
        Some(
            seq![s_in1("disable"@, 0, -4)] + s_stacked("select"@, PinDir::Input, -1, -3, 3, 1) + s_stacked(
                "out"@,
                PinDir::Output,
                1,
                -3,
                8,
                1,
            ),
        )
    } else if kind == 54 {
        Some(
            seq![
                s_in1("enable"@, -15, -1),
                sp("address"@, PinDir::Input, -15, 0, Some(32)),
                s_out("out"@, 16, -1),
            ],
        )
    } else if kind == 56 {
        Some(
            seq![
                s_in1("enable"@, -15, -1),
                sp("address"@, PinDir::Input, -15, 0, Some(32)),
                s_in("data"@, -15, 1),
            ],
        )
    } else if kind == 60 {
        Some(seq![s_out1("value"@, 1, 0)])
    } else if kind == 63 {
        Some(seq![s_out1("value0"@, 0, -1), s_out1("value1"@, 0, 1)])
    } else if kind == 64 {
        Some(s_stacked("value"@, PinDir::Output, 1, -2, 3, 1))
    } else if kind == 65 {
        Some(s_stacked("value"@, PinDir::Output, 1, -2, 4, 1))
    } else if kind == 68 {
        Some(seq![s_in1("value"@, -1, 0)])
    } else if kind == 73 {
        Some(s_stacked("value"@, PinDir::Input, -1, -1, 2, 1))
    } else if kind == 74 || kind == 77 {
        Some(s_stacked("value"@, PinDir::Input, -1, -1, 3, 1))
    } else if kind == 75 {
        Some(s_stacked("value"@, PinDir::Input, -1, -2, 4, 1))
    } else if kind == 79 {
        Some(seq![sp("in"@, PinDir::Output, 3, 0, None)])
    } else if kind == 81 {
        Some(seq![sp("out"@, PinDir::Input, -3, 0, None)])
    } else if kind == 97 {
        Some(s_stacked("in"@, PinDir::Input, -1, -1, 4, 8).push(sp("out"@, PinDir::Output, 1, 0, Some(32))))
    } else if kind == 98 {
        Some(s_stacked("in"@, PinDir::Input, -1, -3, 8, 8).push(sp("out"@, PinDir::Output, 1, 0, Some(64))))
    } else if kind == 99 {
        Some(seq![sp("in"@, PinDir::Input, -1, 0, Some(32))] + s_stacked("out"@, PinDir::Output, 1, -1, 4, 8))
    } else if kind == 100 {
        Some(seq![sp("in"@, PinDir::Input, -1, 0, Some(64))] + s_stacked("out"@, PinDir::Output, 1, -3, 8, 8))
    } else if kind == 109 {
        Some(
            seq![
                sp("in"@, PinDir::Input, -1, 0, Some(2)),
                s_out1("out0"@, 1, -1),
                s_out1("out1"@, 1, 0),
            ],
        )
    } else if kind == 111 {
        Some(
            seq![
                s_in1("in0"@, -1, -1),
                s_in1("in1"@, -1, 0),
                sp("out"@, PinDir::Output, 1, 0, Some(2)),
            ],
        )
    } else if kind == 118 {
        Some(Seq::empty())
    } else {
        None
    }
}

// ───────────────────────── building the table ─────────────────────────

fn pin(name: &str, direction: PinDir, x: i16, y: i16, width: Option<i64>) -> (p: PinSpec)
    ensures
        p@ == sp(name@, direction, x as int, y as int, width),
{
    PinSpec { name: name.to_owned(), direction, offset: (x, y), width }
}

fn inp(name: &str, x: i16, y: i16) -> (p: PinSpec)
    ensures
        p@ == s_in(name@, x as int, y as int),
{
    pin(name, PinDir::Input, x, y, None)
}

fn inp1(name: &str, x: i16, y: i16) -> (p: PinSpec)
    ensures
        p@ == s_in1(name@, x as int, y as int),
{
    pin(name, PinDir::Input, x, y, Some(1))
}

fn outp(name: &str, x: i16, y: i16) -> (p: PinSpec)
    ensures
        p@ == s_out(name@, x as int, y as int),
{
    pin(name, PinDir::Output, x, y, None)
}

fn outp1(name: &str, x: i16, y: i16) -> (p: PinSpec)
    ensures
        p@ == s_out1(name@, x as int, y as int),
{
    pin(name, PinDir::Output, x, y, Some(1))
}

/// `prefix` followed by the decimal digits of `i`.
fn indexed_name(prefix: &str, i: u64) -> (s: String)
    ensures
        s@ == prefix@ + dec_nat(i as nat),
{
    let mut v: Vec<char> = Vec::new();
    push_str(&mut v, prefix);
    push_u64(&mut v, i);
    chars_to_string(v.as_slice())
}

/// Append `n` pins of width `width` named `prefix0..` stacked vertically at
/// `(x, y0 + i)`.
fn push_stacked(out: &mut Vec<PinSpec>, prefix: &str, direction: PinDir, x: i16, y0: i16, n: i16, width: i64)
    requires
        0 <= n,
        y0 + n <= i16::MAX,
    ensures
        spec_views(final(out)@) == spec_views(old(out)@) + s_stacked(prefix@, direction, x as int, y0 as int, n as nat, width),
{
    let ghost start = spec_views(out@);
    let mut i: i16 = 0;
    while i < n
        invariant
            0 <= i <= n,
            y0 + n <= i16::MAX,
            spec_views(out@) == start + s_stacked(prefix@, direction, x as int, y0 as int, i as nat, width),
        decreases n - i,
    {
        let ghost before = out@;
        let name = indexed_name(prefix, i as u64);
        out.push(PinSpec { name, direction, offset: (x, y0 + i), width: Some(width) });
        assert(spec_views(out@) =~= spec_views(before).push(out@[out@.len() - 1]@));
        assert(s_stacked(prefix@, direction, x as int, y0 as int, (i + 1) as nat, width) =~= s_stacked(
            prefix@,
            direction,
            x as int,
            y0 as int,
            i as nat,
            width,
        ).push(sp(prefix@ + dec_nat(i as nat), direction, x as int, y0 + i, Some(width))));
        i = i + 1;
    }
}

/// Append the pins of a two-input one-bit gate.
fn push_gate2(v: &mut Vec<PinSpec>)
    ensures
        spec_views(final(v)@) == spec_views(old(v)@) + s_gate2(),
{
    let ghost start = spec_views(v@);
    v.push(inp1("in0", -1, -1));
    v.push(inp1("in1", -1, 1));
    v.push(outp1("out", 2, 0));
    assert(spec_views(v@) =~= start + s_gate2());
}

/// Append the pins of a three-input one-bit gate.
fn push_gate3(v: &mut Vec<PinSpec>)
    ensures
        spec_views(final(v)@) == spec_views(old(v)@) + s_gate3(),
{
    let ghost start = spec_views(v@);
    v.push(inp1("in0", -1, -1));
    v.push(inp1("in1", -1, 0));
    v.push(inp1("in2", -1, 1));
    v.push(outp1("out", 2, 0));
    assert(spec_views(v@) =~= start + s_gate3());
}

/// Static per-kind pin schema table.
#[verifier::rlimit(60)]
#[verifier::spinoff_prover]
fn pin_schemas(kind: u16) -> (r: Option<Vec<PinSpec>>)
    ensures
        match schema(kind) {
            Some(s) => r matches Some(v) && spec_views(v@) == s,
            None => r is None,
        },
{
    let mut v: Vec<PinSpec> = Vec::new();
    if kind == 1 || kind == 2 {
        v.push(outp1("out", 1, 0));
    } else if kind == 3 {
        v.push(inp1("in", -1, 0));
        v.push(outp1("out", 2, 0));
    } else if kind == 4 || kind == 6 || kind == 7 || kind == 9 || kind == 10 || kind == 11 {
        push_gate2(&mut v);
    } else if kind == 5 || kind == 8 {
        push_gate3(&mut v);
    } else if kind == 12 {
        v.push(inp1("enable", 0, 1));
        v.push(inp1("in", -1, 0));
        v.push(pin("out", PinDir::OutputTristate, 2, 0, Some(1)));
    } else if kind == 13 {
        v.push(inp1("in", -3, 0));
        v.push(outp1("out", 3, 0));
    } else if kind == 14 {
        v.push(inp1("save", -3, -3));
        v.push(inp1("in", -3, 0));
        v.push(outp1("out", 3, 0));
    } else if kind == 15 {
        v.push(inp1("carry_in", -1, -1));
        v.push(inp1("in0", -1, 0));
        v.push(inp1("in1", -1, 1));
        v.push(outp1("sum", 1, 0));
        v.push(outp1("carry_out", 1, 1));
    } else if kind == 16 {
        push_stacked(&mut v, "in", PinDir::Input, -1, -3, 8, 1);
        v.push(pin("out", PinDir::Output, 1, 0, Some(8)));
    } else if kind == 17 {
        v.push(pin("in", PinDir::Input, -1, 0, Some(8)));
        push_stacked(&mut v, "out", PinDir::Output, 1, -3, 8, 1);
    } else if kind == 18 || kind == 29 || kind == 49 {
        v.push(inp("in", -1, 0));
        v.push(outp("out", 2, 0));
    } else if (19 <= kind && kind <= 24) || kind == 32 {
        v.push(inp("in0", -1, -1));
        v.push(inp("in1", -1, 1));
        v.push(outp("out", 2, 0));
    } else if kind == 25 {
        v.push(inp1("enable", 0, 1));
        v.push(inp("in", -1, 0));
        v.push(pin("out", PinDir::OutputTristate, 2, 0, None));
    } else if 26 <= kind && kind <= 28 {
        v.push(inp("in0", -1, -1));
        v.push(inp("in1", -1, 1));
        v.push(outp1("out", 2, 0));
    } else if kind == 30 {
        v.push(inp("in0", -1, -1));
        v.push(inp("in1", -1, 1));
        v.push(inp1("carry_in", 0, -2));
        v.push(outp("out", 2, 0));
        v.push(outp("carry_out", 1, 2));
    } else if kind == 31 {
        v.push(inp("in0", -1, -1));
        v.push(inp("in1", -1, 0));
        v.push(outp("low", 1, -1));
        v.push(outp("high", 1, 0));
    } else if 33 <= kind && kind <= 37 {
        v.push(inp("in", -1, -1));
        v.push(pin("shift", PinDir::Input, -1, 1, Some(8)));
        v.push(outp("out", 2, 0));
    } else if kind == 39 {
        v.push(inp1("save", -3, -1));
        v.push(inp("in", -3, 0));
        v.push(outp("out", 3, 0));
    } else if kind == 40 {
        push_stacked(&mut v, "value", PinDir::Input, -1, -4, 8, 1);
    } else if kind == 42 {
        v.push(inp1("select", -1, -1));
        v.push(inp("in0", -1, 0));
        v.push(inp("in1", -1, 1));
        v.push(outp("out", 2, 0));
    } else if kind == 43 {
        v.push(inp1("select", -1, 0));
        v.push(outp1("out0", 1, 0));
        v.push(outp1("out1", 1, 1));
    } else if kind == 44 {
        v.push(inp1("select0", -1, -1));
        v.push(inp1("select1", -1, 0));
        push_stacked(&mut v, "out", PinDir::Output, 1, -1, 4, 1);
    } else if kind == 45 {
        v.push(inp1("disable", 0, -4));
        push_stacked(&mut v, "select", PinDir::Input, -1, -3, 3, 1);
        push_stacked(&mut v, "out", PinDir::Output, 1, -3, 8, 1);
    } else if kind == 54 {
        v.push(inp1("enable", -15, -1));
        v.push(pin("address", PinDir::Input, -15, 0, Some(32)));
        v.push(outp("out", 16, -1));
    } else if kind == 56 {
        v.push(inp1("enable", -15, -1));
        v.push(pin("address", PinDir::Input, -15, 0, Some(32)));
        v.push(inp("data", -15, 1));
    } else if kind == 60 {
        v.push(outp1("value", 1, 0));
    } else if kind == 63 {
        v.push(outp1("value0", 0, -1));
        v.push(outp1("value1", 0, 1));
    } else if kind == 64 {
        push_stacked(&mut v, "value", PinDir::Output, 1, -2, 3, 1);
    } else if kind == 65 {
        push_stacked(&mut v, "value", PinDir::Output, 1, -2, 4, 1);
    } else if kind == 68 {
        v.push(inp1("value", -1, 0));
    } else if kind == 73 {
        push_stacked(&mut v, "value", PinDir::Input, -1, -1, 2, 1);
    } else if kind == 74 || kind == 77 {
        push_stacked(&mut v, "value", PinDir::Input, -1, -1, 3, 1);
    } else if kind == 75 {
        push_stacked(&mut v, "value", PinDir::Input, -1, -2, 4, 1);
    } else if kind == 79 {
        v.push(pin("in", PinDir::Output, 3, 0, None));
    } else if kind == 81 {
        v.push(pin("out", PinDir::Input, -3, 0, None));
    } else if kind == 97 {
        push_stacked(&mut v, "in", PinDir::Input, -1, -1, 4, 8);
        v.push(pin("out", PinDir::Output, 1, 0, Some(32)));
    } else if kind == 98 {
        push_stacked(&mut v, "in", PinDir::Input, -1, -3, 8, 8);
        v.push(pin("out", PinDir::Output, 1, 0, Some(64)));
    } else if kind == 99 {
        v.push(pin("in", PinDir::Input, -1, 0, Some(32)));
        push_stacked(&mut v, "out", PinDir::Output, 1, -1, 4, 8);
    } else if kind == 100 {
        v.push(pin("in", PinDir::Input, -1, 0, Some(64)));
        push_stacked(&mut v, "out", PinDir::Output, 1, -3, 8, 8);
    } else if kind == 109 {
        v.push(pin("in", PinDir::Input, -1, 0, Some(2)));
        v.push(outp1("out0", 1, -1));
        v.push(outp1("out1", 1, 0));
    } else if kind == 111 {
        v.push(inp1("in0", -1, -1));
        v.push(inp1("in1", -1, 0));
        v.push(pin("out", PinDir::Output, 1, 0, Some(2)));
    } else if kind == 118 {
    } else {
        return None;
    }
    assert(spec_views(v@) =~= schema(kind)->0);
    Some(v)
}

// ───────────────────────── per-component layouts ─────────────────────────

/// `floor(log2(n))` for `n >= 1`.
pub open spec fn log2_floor(n: nat) -> nat
    decreases n,
{
    if n < 2 {
        0
    } else {
        1 + log2_floor(n / 2)
    }
}

/// Bits of the shift input of a shift component: enough to encode a shift
/// count below the word size, and at least one.
pub open spec fn shift_width(word_size: i64) -> i64 {
    let m: int = if word_size < 2 { 2 } else { word_size as int };
    (log2_floor((m - 1) as nat) + 1) as i64
}

/// Output position offset of a constant/probe component by word size.
pub open spec fn span_for(word_size: i64) -> int {
    if word_size <= 8 {
        1
    } else if word_size <= 32 {
        2
    } else {
        3
    }
}

/// The pin layout of a component: per-kind cases that depend on its word size,
/// then the static table.
pub open spec fn specs_for(c: ComponentV) -> Option<Seq<PinSpecV>> {
    if c.kind == 46 {
        Some(seq![s_out("out"@, 3, 0)])
    } else if c.kind == 61 {
        Some(seq![s_out("value"@, 3, 0)])
    } else if c.kind == 62 {
        Some(seq![s_in1("control"@, 1, -2), sp("value"@, PinDir::OutputTristate, 3, 0, None)])
    } else if c.kind == 55 {
        if !(1 <= c.word_size <= 64) {
            None
        } else {
            Some(seq![s_in("in"@, -span_for(c.word_size), 0), s_out("out"@, span_for(c.word_size), 0)])
        }
    } else if 33 <= c.kind <= 37 {
        Some(
            seq![
                s_in("in"@, -1, -1),
                sp("shift"@, PinDir::Input, -1, 1, Some(shift_width(c.word_size))),
                s_out("out"@, 2, 0),
            ],
        )
    } else if c.kind == 69 {
        Some(seq![s_in("value"@, -3, 0)])
    } else if c.kind == 70 {
        Some(seq![s_in1("control"@, -1, -2), s_in("value"@, -3, 0)])
    } else {
        schema(c.kind)
    }
}

/// `2^k`.
pub open spec fn two_pow(k: nat) -> nat
    decreases k,
{
    if k == 0 {
        1
    } else {
        2 * two_pow((k - 1) as nat)
    }
}

/// `floor(log2(n))`.
fn ilog2(n: i64) -> (r: i64)
    requires
        n >= 1,
    ensures
        r == log2_floor(n as nat),
        0 <= r < 63,
{
    proof {
        reveal_with_fuel(two_pow, 64);
    }
    assert(two_pow(63) == 0x8000_0000_0000_0000);
    let mut m = n;
    let mut r: i64 = 0;
    while m >= 2
        invariant
            1 <= m <= n,
            0 <= r <= 63,
            m < two_pow((63 - r) as nat),
            r + log2_floor(m as nat) == log2_floor(n as nat),
        decreases m,
    {
        assert(r < 62) by {
            if r >= 62 {
                reveal_with_fuel(two_pow, 2);
            }
        }
        assert(two_pow((63 - r) as nat) == 2 * two_pow((62 - r) as nat));
        m = m / 2;
        r = r + 1;
    }
    r
}

/// Pin layout of a component; `None` for kinds whose geometry is unknown.
fn pin_specs_for(component: &Component) -> (r: Option<Vec<PinSpec>>)
    ensures
        match specs_for(component@) {
            Some(s) => r matches Some(v) && spec_views(v@) == s,
            None => r is None,
        },
{
    let mut v: Vec<PinSpec> = Vec::new();
    let kind = component.kind;
    if kind == 46 {
        v.push(outp("out", 3, 0));
    } else if kind == 61 {
        v.push(outp("value", 3, 0));
    } else if kind == 62 {
        v.push(inp1("control", 1, -2));
        v.push(pin("value", PinDir::OutputTristate, 3, 0, None));
    } else if kind == 55 {
        if !(1 <= component.word_size && component.word_size <= 64) {
            return None;
        }
        let span: i16 = if component.word_size <= 8 {
            1
        } else if component.word_size <= 32 {
            2
        } else {
            3
        };
        v.push(inp("in", -span, 0));
        v.push(outp("out", span, 0));
    } else if 33 <= kind && kind <= 37 {
        let m: i64 = if component.word_size < 2 { 2 } else { component.word_size };
        let bits = ilog2(m - 1) + 1;
        v.push(inp("in", -1, -1));
        v.push(pin("shift", PinDir::Input, -1, 1, Some(bits)));
        v.push(outp("out", 2, 0));
    } else if kind == 69 {
        v.push(inp("value", -3, 0));
    } else if kind == 70 {
        v.push(inp1("control", -1, -2));
        v.push(inp("value", -3, 0));
    } else {
        return pin_schemas(kind);
    }
    assert(spec_views(v@) =~= specs_for(component@)->0);
    Some(v)
}

// ───────────────────────── placing pins ─────────────────────────

/// A pin positioned in absolute circuit coordinates.
#[derive(Debug, PartialEq, Eq)]
pub struct PositionedPin {
    pub component_index: usize,
    pub permanent_id: i64,
    pub component_kind: u16,
    pub name: String,
    pub direction: PinDir,
    pub width: i64,
    pub position: Point,
}

pub struct PositionedPinV {
    pub component_index: nat,
    pub permanent_id: i64,
    pub component_kind: u16,
    pub name: Seq<char>,
    pub direction: PinDir,
    pub width: i64,
    pub position: Point,
}

impl View for PositionedPin {
    type V = PositionedPinV;

    open spec fn view(&self) -> PositionedPinV {
        PositionedPinV {
            component_index: self.component_index as nat,
            permanent_id: self.permanent_id,
            component_kind: self.component_kind,
            name: self.name@,
            direction: self.direction,
            width: self.width,
            position: self.position,
        }
    }
}

pub open spec fn pin_views(v: Seq<PositionedPin>) -> Seq<PositionedPinV> {
    v.map_values(|p: PositionedPin| p@)
}

/// `offset` turned by `rotation` quarter turns.
pub open spec fn rotated(offset: (i16, i16), rotation: u8) -> (int, int) {
    let (x, y) = (offset.0 as int, offset.1 as int);
    if rotation % 4 == 0 {
        (x, y)
    } else if rotation % 4 == 1 {
        (-y, x)
    } else if rotation % 4 == 2 {
        (-x, -y)
    } else {
        (y, -x)
    }
}

/// Rotation counts quarter turns: it depends only on the count modulo 4, no
/// turn leaves an offset where it is, two more quarter turns point an offset
/// the opposite way, and turning a turned offset by one more quarter turn is
/// turning the original one by one quarter turn more.
pub proof fn lemma_rotation_turns(offset: (i16, i16), r: u8)
    ensures
        rotated(offset, r) == rotated(offset, r % 4),
        rotated(offset, 0) == (offset.0 as int, offset.1 as int),
        r < 254 ==> rotated(offset, (r + 2) as u8) == (-rotated(offset, r).0, -rotated(offset, r).1),
        r < 255 && offset.0 > i16::MIN && offset.1 > i16::MIN ==> {
            let q = rotated(offset, 1);
            rotated((q.0 as i16, q.1 as i16), r) == rotated(offset, (r + 1) as u8)
        },
{
    assert((r % 4) % 4 == r % 4);
    if r < 254 {
        assert(((r + 2) as u8) % 4 == (r % 4 + 2) % 4);
    }
    if r < 255 {
        assert(((r + 1) as u8) % 4 == (r % 4 + 1) % 4);
    }
}

/// A quarter turn turns like the wire directions: it takes the step of wire
/// direction `d` to the step of direction `d + 2`, and `r` quarter turns take
/// it to direction `d + 2r` (so a half turn reverses it).
pub proof fn lemma_rotation_follows_wire_directions(d: u8, r: u8)
    requires
        d < 8,
    ensures
        ({
            let s = dir_step(d);
            rotated((s.0 as i16, s.1 as i16), r) == dir_step(((d + 2 * (r % 4)) % 8) as u8)
        }),
{
    assert(r % 4 < 4);
}

/// A component turned by two more quarter turns has every pin mirrored
/// through the component's position.
pub proof fn lemma_half_turn_mirrors_pins(c: ComponentV, s: PinSpecV)
    requires
        c.rotation < 254,
    ensures
        ({
            let c2 = ComponentV { rotation: (c.rotation + 2) as u8, ..c };
            &&& pin_at(c2, s).0 - c.position.0 == -(pin_at(c, s).0 - c.position.0)
            &&& pin_at(c2, s).1 - c.position.1 == -(pin_at(c, s).1 - c.position.1)
        }),
{
    lemma_rotation_turns(s.offset, c.rotation);
}

pub open spec fn in_i16(p: (int, int)) -> bool {
    -32768 <= p.0 <= 32767 && -32768 <= p.1 <= 32767
}

/// Where pin `s` of component `c` sits, before narrowing to `i16`.
pub open spec fn pin_at(c: ComponentV, s: PinSpecV) -> (int, int) {
    (c.position.0 + rotated(s.offset, c.rotation).0, c.position.1 + rotated(s.offset, c.rotation).1)
}

/// Pin `s` of component `c` (at index `index`) placed in the circuit.
pub open spec fn place(c: ComponentV, index: nat, s: PinSpecV) -> PositionedPinV {
    PositionedPinV {
        component_index: index,
        permanent_id: c.permanent_id,
        component_kind: c.kind,
        name: s.name,
        direction: s.direction,
        width: match s.width {
            Some(w) => w,
            None => c.word_size,
        },
        position: (pin_at(c, s).0 as i16, pin_at(c, s).1 as i16),
    }
}

/// The placed pins of a component; none for a kind without a layout.
pub open spec fn placed(c: ComponentV, index: nat) -> Seq<PositionedPinV> {
    match specs_for(c) {
        None => Seq::empty(),
        Some(ss) => ss.map_values(|s: PinSpecV| place(c, index, s)),
    }
}

/// Every pin of `c` lands inside the `i16` coordinate range.
pub open spec fn placement_fits(c: ComponentV) -> bool {
    match specs_for(c) {
        None => true,
        Some(ss) => forall|i: int| 0 <= i < ss.len() ==> in_i16(#[trigger] pin_at(c, ss[i])),
    }
}

fn rotate_offset(offset: (i16, i16), rotation: u8) -> (r: (i32, i32))
    ensures
        (r.0 as int, r.1 as int) == rotated(offset, rotation),
{
    let (x, y) = offset;
    let (x, y) = (x as i32, y as i32);
    let q = rotation % 4;
    if q == 0 {
        (x, y)
    } else if q == 1 {
        (-y, x)
    } else if q == 2 {
        (-x, -y)
    } else {
        (y, -x)
    }
}

/// The pins of `component` (at `component_index`) in absolute coordinates.
pub fn positioned_pins(component: &Component, component_index: usize) -> (r: Vec<PositionedPin>)
    requires
        placement_fits(component@),
    ensures
        pin_views(r@) == placed(component@, component_index as nat),
{
    let specs = match pin_specs_for(component) {
        Some(v) => v,
        None => {
            let r: Vec<PositionedPin> = Vec::new();
            assert(pin_views(r@) =~= Seq::<PositionedPinV>::empty());
            return r;
        },
    };
    let ghost ss = specs_for(component@)->0;
    assert(forall|k: int| 0 <= k < ss.len() ==> in_i16(#[trigger] pin_at(component@, ss[k])));
    let mut out: Vec<PositionedPin> = Vec::new();
    let mut i: usize = 0;
    while i < specs.len()
        invariant
            i <= specs@.len(),
            spec_views(specs@) == ss,
            forall|k: int| 0 <= k < ss.len() ==> in_i16(#[trigger] pin_at(component@, ss[k])),
            specs_for(component@) == Some(ss),
            pin_views(out@) == ss.take(i as int).map_values(|s: PinSpecV| place(component@, component_index as nat, s)),
        decreases specs@.len() - i,
    {
        let spec = &specs[i];
        assert(spec@ == ss[i as int]);
        assert(in_i16(pin_at(component@, ss[i as int])));
        let (dx, dy) = rotate_offset(spec.offset, component.rotation);
        let px = (component.position.0 as i32 + dx) as i16;
        let py = (component.position.1 as i32 + dy) as i16;
        let width = match spec.width {
            Some(w) => w,
            None => component.word_size,
        };
        let ghost before = out@;
        out.push(
            PositionedPin {
                component_index,
                permanent_id: component.permanent_id,
                component_kind: component.kind,
                name: spec.name.clone(),
                direction: spec.direction,
                width,
                position: (px, py),
            },
        );
        assert(ss.take(i + 1) =~= ss.take(i as int).push(ss[i as int]));
        assert(pin_views(out@) =~= pin_views(before).push(out@[i as int]@));
        i = i + 1;
    }
    assert(ss.take(ss.len() as int) =~= ss);
    out
}

// ───────────────────────── wire geometry ─────────────────────────

/// `(dx, dy)` for each wire-segment direction index 0..=7.
pub const DIRECTIONS: [(i16, i16); 8] = [(1, 0), (1, 1), (0, 1), (-1, 1), (-1, 0), (-1, -1), (0, -1), (1, -1)];

/// The unit step of direction `d` (taken modulo 8).
pub open spec fn dir_step(d: u8) -> (int, int) {
    let k = d % 8;
    if k == 0 {
        (1, 0)
    } else if k == 1 {
        (1, 1)
    } else if k == 2 {
        (0, 1)
    } else if k == 3 {
        (-1, 1)
    } else if k == 4 {
        (-1, 0)
    } else if k == 5 {
        (-1, -1)
    } else if k == 6 {
        (0, -1)
    } else {
        (1, -1)
    }
}

pub open spec fn step(p: (int, int), d: u8) -> (int, int) {
    (p.0 + dir_step(d).0, p.1 + dir_step(d).1)
}

/// Where `n` steps in direction `d` from `p` end.
pub open spec fn walk_end(p: (int, int), d: u8, n: nat) -> (int, int)
    decreases n,
{
    if n == 0 {
        p
    } else {
        step(walk_end(p, d, (n - 1) as nat), d)
    }
}

/// The points visited by `n` steps in direction `d` from `p` (excluding `p`).
pub open spec fn walk(p: (int, int), d: u8, n: nat) -> Seq<(int, int)>
    decreases n,
{
    if n == 0 {
        Seq::empty()
    } else {
        walk(p, d, (n - 1) as nat).push(walk_end(p, d, n))
    }
}

/// Where a chain of segments from `p` ends.
pub open spec fn path_end(p: (int, int), segs: Seq<(u8, u16)>) -> (int, int)
    decreases segs.len(),
{
    if segs.len() == 0 {
        p
    } else {
        walk_end(path_end(p, segs.drop_last()), segs.last().0, segs.last().1 as nat)
    }
}

/// The points visited by a chain of segments from `p` (excluding `p`).
pub open spec fn seg_path(p: (int, int), segs: Seq<(u8, u16)>) -> Seq<(int, int)>
    decreases segs.len(),
{
    if segs.len() == 0 {
        Seq::empty()
    } else {
        seg_path(p, segs.drop_last()) + walk(path_end(p, segs.drop_last()), segs.last().0, segs.last().1 as nat)
    }
}

pub open spec fn point_int(p: Point) -> (int, int) {
    (p.0 as int, p.1 as int)
}

/// All grid points of a wire, first and last being its logical endpoints.
pub open spec fn wire_path(w: WireV) -> Seq<(int, int)> {
    match w.teleport_end {
        Some(e) => seq![point_int(w.start), point_int(e)],
        None => seq![point_int(w.start)] + seg_path(point_int(w.start), w.segments),
    }
}

/// Every point of the wire lies inside the `i16` coordinate range.
pub open spec fn path_fits(w: WireV) -> bool {
    forall|i: int| 0 <= i < wire_path(w).len() ==> in_i16(#[trigger] wire_path(w)[i])
}

pub open spec fn point_ints(v: Seq<Point>) -> Seq<(int, int)> {
    v.map_values(|p: Point| point_int(p))
}

proof fn lemma_walk_prefix(p: (int, int), d: u8, j: nat, n: nat)
    requires
        j <= n,
    ensures
        walk(p, d, j).is_prefix_of(walk(p, d, n)),
        walk(p, d, n).len() == n,
    decreases n,
{
    if n > 0 {
        lemma_walk_prefix(p, d, if j < n { j } else { (n - 1) as nat }, (n - 1) as nat);
        if j < n {
            assert(walk(p, d, j).is_prefix_of(walk(p, d, n)));
        }
    }
}

proof fn lemma_walk_index(p: (int, int), d: u8, n: nat, i: int)
    requires
        0 <= i < n,
    ensures
        walk(p, d, n).len() == n,
        walk(p, d, n)[i] == walk_end(p, d, (i + 1) as nat),
    decreases n,
{
    lemma_walk_prefix(p, d, n, n);
    if i < n - 1 {
        lemma_walk_index(p, d, (n - 1) as nat, i);
        lemma_walk_prefix(p, d, (n - 1) as nat, (n - 1) as nat);
    }
}

proof fn lemma_seg_path_prefix(p: (int, int), segs: Seq<(u8, u16)>, k: int)
    requires
        0 <= k <= segs.len(),
    ensures
        seg_path(p, segs.take(k)).is_prefix_of(seg_path(p, segs)),
    decreases segs.len(),
{
    if k == segs.len() {
        assert(segs.take(k) =~= segs);
    } else {
        let dl = segs.drop_last();
        assert(segs.take(k) =~= dl.take(k));
        lemma_seg_path_prefix(p, dl, k);
    }
}

/// The unit step of `direction`.
fn direction_of(direction: u8) -> (r: (i16, i16))
    ensures
        (r.0 as int, r.1 as int) == dir_step(direction),
{
    let k = direction % 8;
    if k == 0 {
        (1, 0)
    } else if k == 1 {
        (1, 1)
    } else if k == 2 {
        (0, 1)
    } else if k == 3 {
        (-1, 1)
    } else if k == 4 {
        (-1, 0)
    } else if k == 5 {
        (-1, -1)
    } else if k == 6 {
        (0, -1)
    } else {
        (1, -1)
    }
}

/// Expand a wire's path to grid points. The first and last points are its
/// logical endpoints (the positions pins sit at).
#[verifier::loop_isolation(false)]
pub fn wire_points(wire: &Wire) -> (points: Vec<Point>)
    requires
        path_fits(wire@),
    ensures
        point_ints(points@) == wire_path(wire@),
{
    let mut points: Vec<Point> = Vec::new();
    points.push(wire.start);
    if let Some(end) = wire.teleport_end {
        points.push(end);
        assert(point_ints(points@) =~= wire_path(wire@));
        return points;
    }
    let ghost s0 = point_int(wire.start);
    let ghost full = wire_path(wire@);
    let ghost segs = wire@.segments;
    let mut x: i16 = wire.start.0;
    let mut y: i16 = wire.start.1;
    let mut k: usize = 0;
    assert(segs.take(0) =~= Seq::<(u8, u16)>::empty());
    assert(point_ints(points@) =~= seq![s0] + seg_path(s0, segs.take(0)));
    while k < wire.segments.len()
        invariant
            k <= segs.len(),
            segs == wire@.segments,
            full == wire_path(wire@),
            wire@.teleport_end is None,
            point_ints(points@) == seq![s0] + seg_path(s0, segs.take(k as int)),
            (x as int, y as int) == path_end(s0, segs.take(k as int)),
        decreases segs.len() - k,
    {
        let (direction, length) = wire.segments[k];
        let (dx, dy) = direction_of(direction);
        let ghost base = point_ints(points@);
        let ghost q = (x as int, y as int);
        let ghost tk1 = segs.take(k + 1);
        proof {
            assert(tk1.drop_last() =~= segs.take(k as int));
            assert(tk1.last() == (direction, length));
            lemma_seg_path_prefix(s0, segs, k + 1);
            assert(seq![s0] + seg_path(s0, tk1) == base + walk(q, direction, length as nat)) by {
                assert(seq![s0] + (seg_path(s0, segs.take(k as int)) + walk(q, direction, length as nat))
                    =~= (seq![s0] + seg_path(s0, segs.take(k as int))) + walk(q, direction, length as nat));
            }
            assert((base + walk(q, direction, length as nat)).is_prefix_of(full)) by {
                assert(seq![s0] + seg_path(s0, tk1) =~= seq![s0] + seg_path(s0, segs.take(k + 1)));
            }
            lemma_walk_prefix(q, direction, 0, length as nat);
        }
        let mut j: u16 = 0;
        assert(base + walk(q, direction, 0) =~= base);
        while j < length
            invariant
                j <= length,
                point_ints(points@) == base + walk(q, direction, j as nat),
                (x as int, y as int) == walk_end(q, direction, j as nat),
                (base + walk(q, direction, length as nat)).is_prefix_of(full),
            decreases length - j,
        {
            proof {
                lemma_walk_index(q, direction, length as nat, j as int);
                let idx = base.len() + j;
                assert(full[idx] == (base + walk(q, direction, length as nat))[idx]);
                assert(in_i16(full[idx]));
            }
            x = x + dx;
            y = y + dy;
            let ghost before = points@;
            points.push((x, y));
            assert(point_ints(points@) =~= point_ints(before).push(point_int((x, y))));
            j = j + 1;
        }
        k = k + 1;
    }
    assert(segs.take(segs.len() as int) =~= segs);
    points
}

// ───────────────────────── logical networks ─────────────────────────

/// The two logical endpoints of a wire.
pub open spec fn ends(w: WireV) -> ((int, int), (int, int)) {
    (wire_path(w)[0], wire_path(w).last())
}

/// `p` is an endpoint of wire `w`.
pub open spec fn has_end(w: WireV, p: (int, int)) -> bool {
    ends(w).0 == p || ends(w).1 == p
}

/// Wires `i` and `j` share an endpoint position.
pub open spec fn touching(ws: Seq<WireV>, i: int, j: int) -> bool {
    has_end(ws[j], ends(ws[i]).0) || has_end(ws[j], ends(ws[i]).1)
}

/// `p` is a chain of wires, each sharing an endpoint with the next.
pub open spec fn is_chain(ws: Seq<WireV>, p: Seq<int>) -> bool {
    &&& p.len() >= 1
    &&& forall|k: int| 0 <= k < p.len() ==> 0 <= #[trigger] p[k] < ws.len()
    &&& forall|k: int| 0 <= k < p.len() - 1 ==> touching(ws, #[trigger] p[k], p[k + 1])
}

/// Wires `i` and `j` belong to one logical network.
pub open spec fn linked(ws: Seq<WireV>, i: int, j: int) -> bool {
    exists|p: Seq<int>| is_chain(ws, p) && p[0] == i && #[trigger] p.last() == j
}

/// The id of wire `i`'s network: its smallest wire index.
pub open spec fn net_id(ws: Seq<WireV>, i: int) -> int {
    choose|m: int| linked(ws, i, m) && forall|j: int| #[trigger] linked(ws, i, j) ==> m <= j
}

proof fn lemma_touching_symmetric(ws: Seq<WireV>, i: int, j: int)
    requires
        touching(ws, i, j),
    ensures
        touching(ws, j, i),
{
}

proof fn lemma_linked_refl(ws: Seq<WireV>, i: int)
    requires
        0 <= i < ws.len(),
    ensures
        linked(ws, i, i),
{
    let p = seq![i];
    assert(is_chain(ws, p));
    assert(p.last() == i);
}

proof fn lemma_linked_step(ws: Seq<WireV>, i: int, j: int)
    requires
        0 <= i < ws.len(),
        0 <= j < ws.len(),
        touching(ws, i, j),
    ensures
        linked(ws, i, j),
{
    let p = seq![i, j];
    assert(is_chain(ws, p));
    assert(p.last() == j);
}

proof fn lemma_linked_symmetric(ws: Seq<WireV>, i: int, j: int)
    requires
        linked(ws, i, j),
    ensures
        linked(ws, j, i),
{
    let p = choose|p: Seq<int>| is_chain(ws, p) && p[0] == i && #[trigger] p.last() == j;
    let r = p.reverse();
    assert forall|k: int| 0 <= k < r.len() - 1 implies touching(ws, #[trigger] r[k], r[k + 1]) by {
        let a = p.len() - 1 - k;
        assert(r[k] == p[a]);
        assert(r[k + 1] == p[a - 1]);
        assert(touching(ws, p[a - 1], p[a]));
        lemma_touching_symmetric(ws, p[a - 1], p[a]);
    }
    assert forall|k: int| 0 <= k < r.len() implies 0 <= #[trigger] r[k] < ws.len() by {
        assert(r[k] == p[p.len() - 1 - k]);
    }
    assert(is_chain(ws, r));
    assert(r[0] == j);
    assert(r.last() == i);
}

proof fn lemma_linked_trans(ws: Seq<WireV>, i: int, j: int, k: int)
    requires
        linked(ws, i, j),
        linked(ws, j, k),
    ensures
        linked(ws, i, k),
{
    let p = choose|p: Seq<int>| is_chain(ws, p) && p[0] == i && #[trigger] p.last() == j;
    let q = choose|q: Seq<int>| is_chain(ws, q) && q[0] == j && #[trigger] q.last() == k;
    let r = p + q.drop_first();
    assert forall|m: int| 0 <= m < r.len() implies 0 <= #[trigger] r[m] < ws.len() by {
        if m >= p.len() {
            assert(r[m] == q[m - p.len() + 1]);
        }
    }
    assert forall|m: int| 0 <= m < r.len() - 1 implies touching(ws, #[trigger] r[m], r[m + 1]) by {
        if m < p.len() - 1 {
            assert(r[m] == p[m] && r[m + 1] == p[m + 1]);
        } else if m == p.len() - 1 {
            assert(r[m] == q[0]);
            assert(r[m + 1] == q[1]);
        } else {
            assert(r[m] == q[m - p.len() + 1]);
            assert(r[m + 1] == q[m - p.len() + 2]);
        }
    }
    assert(is_chain(ws, r));
    if q.len() == 1 {
        assert(r =~= p);
    } else {
        assert(r.last() == q.last());
    }
}

/// `m` is the smallest index linked to `i`.
pub open spec fn is_min_linked(ws: Seq<WireV>, i: int, m: int) -> bool {
    linked(ws, i, m) && forall|j: int| #[trigger] linked(ws, i, j) ==> m <= j
}

/// The smallest index linked to `i` is also the smallest linked to every wire linked to `i`.
proof fn lemma_min_linked_shared(ws: Seq<WireV>, i: int, k: int, m: int)
    requires
        is_min_linked(ws, i, m),
        linked(ws, i, k),
    ensures
        is_min_linked(ws, k, m),
        net_id(ws, k) == m,
{
    lemma_linked_symmetric(ws, i, k);
    lemma_linked_trans(ws, k, i, m);
    assert forall|j: int| #[trigger] linked(ws, k, j) implies m <= j by {
        lemma_linked_trans(ws, i, k, j);
    }
    lemma_net_id_is_min(ws, k, m);
}

/// `m` is the smallest index linked to `i`, so it is `i`'s network id.
proof fn lemma_net_id_is_min(ws: Seq<WireV>, i: int, m: int)
    requires
        linked(ws, i, m),
        forall|j: int| #[trigger] linked(ws, i, j) ==> m <= j,
    ensures
        net_id(ws, i) == m,
{
    let c = net_id(ws, i);
    assert(linked(ws, i, c) && forall|j: int| #[trigger] linked(ws, i, j) ==> c <= j);
    assert(c <= m && m <= c);
}

// ───────────────────────── union-find over wires ─────────────────────────

/// The representative of `v`: follow parent links down to a self-parented index.
pub open spec fn root(par: Seq<usize>, v: int) -> int
    decreases v,
{
    if 0 <= v < par.len() && par[v] < v {
        root(par, par[v] as int)
    } else {
        v
    }
}

/// Parent links only point downwards, and every wire is linked to its parent.
pub open spec fn forest_ok(ws: Seq<WireV>, par: Seq<usize>) -> bool {
    &&& par.len() == ws.len()
    &&& forall|v: int| 0 <= v < par.len() ==> #[trigger] par[v] <= v
    &&& forall|v: int| 0 <= v < par.len() ==> linked(ws, v, #[trigger] par[v] as int)
}

proof fn lemma_root_facts(ws: Seq<WireV>, par: Seq<usize>, v: int)
    requires
        forest_ok(ws, par),
        0 <= v < par.len(),
    ensures
        0 <= root(par, v) <= v,
        par[root(par, v)] as int == root(par, v),
        linked(ws, v, root(par, v)),
    decreases v,
{
    if par[v] < v {
        lemma_root_facts(ws, par, par[v] as int);
        lemma_linked_trans(ws, v, par[v] as int, root(par, par[v] as int));
    } else {
        lemma_linked_refl(ws, v);
    }
}

/// Linking root `hi` under root `lo` moves exactly `hi`'s tree under `lo`.
proof fn lemma_root_after_link(par: Seq<usize>, lo: int, hi: int, x: int)
    requires
        forall|v: int| 0 <= v < par.len() ==> #[trigger] par[v] <= v,
        0 <= lo < hi < par.len(),
        par[lo] as int == lo,
        par[hi] as int == hi,
        0 <= x < par.len(),
    ensures
        root(par.update(hi, lo as usize), x) == if root(par, x) == hi {
            lo
        } else {
            root(par, x)
        },
    decreases x,
{
    let p2 = par.update(hi, lo as usize);
    if x == hi {
        assert(p2[hi] as int == lo);
        assert(root(p2, lo) == lo);
    } else if par[x] < x {
        lemma_root_after_link(par, lo, hi, par[x] as int);
    }
}

/// Every touching pair among the first pairs in `(a, b)` order, `b < a`, shares a root.
pub open spec fn pairs_joined(ws: Seq<WireV>, par: Seq<usize>, i: int, j: int) -> bool {
    forall|a: int, b: int|
        0 <= b < a < ws.len() && (a < i || (a == i && b < j)) && #[trigger] touching(ws, a, b) ==> root(par, a)
            == #[trigger] root(par, b)
}

proof fn lemma_chain_roots(ws: Seq<WireV>, par: Seq<usize>, p: Seq<int>)
    requires
        forest_ok(ws, par),
        pairs_joined(ws, par, ws.len() as int, 0),
        is_chain(ws, p),
    ensures
        root(par, p[0]) == root(par, p.last()),
    decreases p.len(),
{
    if p.len() > 1 {
        let q = p.drop_last();
        assert(is_chain(ws, q)) by {
            assert forall|k: int| 0 <= k < q.len() - 1 implies touching(ws, #[trigger] q[k], q[k + 1]) by {
                assert(q[k] == p[k] && q[k + 1] == p[k + 1]);
            }
            assert forall|k: int| 0 <= k < q.len() implies 0 <= #[trigger] q[k] < ws.len() by {
                assert(q[k] == p[k]);
            }
        }
        lemma_chain_roots(ws, par, q);
        let a = p[p.len() - 2];
        let b = p[p.len() - 1];
        assert(touching(ws, a, b));
        if b < a {
            assert(root(par, a) == root(par, b));
        } else if a < b {
            lemma_touching_symmetric(ws, a, b);
            assert(root(par, b) == root(par, a));
        }
    }
}

/// Wire endpoints as `i16` points agree with the wires' views.
pub open spec fn ends_match(ws: Seq<WireV>, ep: Seq<(Point, Point)>) -> bool {
    &&& ep.len() == ws.len()
    &&& forall|i: int|
        0 <= i < ws.len() ==> point_int(#[trigger] ep[i].0) == ends(ws[i]).0 && point_int(ep[i].1) == ends(
            ws[i],
        ).1
}

fn same_point(a: Point, b: Point) -> (r: bool)
    ensures
        r == (point_int(a) == point_int(b)),
{
    a.0 == b.0 && a.1 == b.1
}

fn touching_exec(ep: &Vec<(Point, Point)>, i: usize, j: usize, Ghost(ws): Ghost<Seq<WireV>>) -> (r: bool)
    requires
        ends_match(ws, ep@),
        i < ws.len(),
        j < ws.len(),
    ensures
        r == touching(ws, i as int, j as int),
{
    let (a0, a1) = ep[i];
    let (b0, b1) = ep[j];
    same_point(b0, a0) || same_point(b1, a0) || same_point(b0, a1) || same_point(b1, a1)
}

fn find(par: &Vec<usize>, v: usize, Ghost(ws): Ghost<Seq<WireV>>) -> (r: usize)
    requires
        forest_ok(ws, par@),
        v < par@.len(),
    ensures
        r as int == root(par@, v as int),
{
    let mut x = v;
    while par[x] != x
        invariant
            forest_ok(ws, par@),
            x < par@.len(),
            root(par@, x as int) == root(par@, v as int),
        decreases x,
    {
        x = par[x];
    }
    x
}

/// The network id of every wire, from the wires' endpoints.
#[verifier::loop_isolation(false)]
#[verifier::rlimit(40)]
fn wire_networks(ep: &Vec<(Point, Point)>, Ghost(ws): Ghost<Seq<WireV>>) -> (ids: Vec<usize>)
    requires
        ends_match(ws, ep@),
    ensures
        ids@.len() == ws.len(),
        forall|i: int| 0 <= i < ws.len() ==> #[trigger] ids@[i] as int == net_id(ws, i),
        forall|i: int| 0 <= i < ws.len() ==> is_min_linked(ws, i, #[trigger] ids@[i] as int),
{
    let n = ep.len();
    let mut par: Vec<usize> = Vec::new();
    let mut k: usize = 0;
    while k < n
        invariant
            k <= n,
            par@.len() == k,
            forall|v: int| 0 <= v < k ==> #[trigger] par@[v] == v,
        decreases n - k,
    {
        par.push(k);
        k = k + 1;
    }
    assert forall|v: int| 0 <= v < par@.len() implies linked(ws, v, #[trigger] par@[v] as int) by {
        lemma_linked_refl(ws, v);
    }
    let mut i: usize = 0;
    while i < n
        invariant
            i <= n,
            forest_ok(ws, par@),
            pairs_joined(ws, par@, i as int, 0),
        decreases n - i,
    {
        let mut j: usize = 0;
        while j < i
            invariant
                j <= i < n,
                forest_ok(ws, par@),
                pairs_joined(ws, par@, i as int, j as int),
            decreases i - j,
        {
            if touching_exec(ep, i, j, Ghost(ws)) {
                let ri = find(&par, i, Ghost(ws));
                let rj = find(&par, j, Ghost(ws));
                if ri != rj {
                    let lo = if ri < rj { ri } else { rj };
                    let hi = if ri < rj { rj } else { ri };
                    let ghost old_par = par@;
                    proof {
                        lemma_root_facts(ws, old_par, i as int);
                        lemma_root_facts(ws, old_par, j as int);
                        lemma_linked_step(ws, i as int, j as int);
                        lemma_linked_symmetric(ws, i as int, ri as int);
                        lemma_linked_trans(ws, ri as int, i as int, j as int);
                        lemma_linked_trans(ws, ri as int, j as int, rj as int);
                        lemma_linked_symmetric(ws, ri as int, rj as int);
                    }
                    par.set(hi, lo);
                    proof {
                        assert(par@ == old_par.update(hi as int, lo));
                        assert forall|a: int, b: int|
                            0 <= b < a < ws.len() && (a < i || (a == i && b < j + 1)) && #[trigger] touching(
                                ws,
                                a,
                                b,
                            ) implies root(par@, a) == #[trigger] root(par@, b) by {
                            lemma_root_after_link(old_par, lo as int, hi as int, a);
                            lemma_root_after_link(old_par, lo as int, hi as int, b);
                        }
                        assert forall|v: int| 0 <= v < par@.len() implies linked(
                            ws,
                            v,
                            #[trigger] par@[v] as int,
                        ) by {
                            if v != hi {
                                assert(par@[v] == old_par[v]);
                            }
                        }
                    }
                }
            }
            j = j + 1;
        }
        i = i + 1;
    }
    let mut ids: Vec<usize> = Vec::new();
    let mut v: usize = 0;
    while v < n
        invariant
            v <= n,
            forest_ok(ws, par@),
            pairs_joined(ws, par@, n as int, 0),
            ids@.len() == v,
            forall|i: int| 0 <= i < v ==> #[trigger] ids@[i] as int == net_id(ws, i),
            forall|i: int| 0 <= i < v ==> is_min_linked(ws, i, #[trigger] ids@[i] as int),
        decreases n - v,
    {
        let r = find(&par, v, Ghost(ws));
        proof {
            lemma_root_facts(ws, par@, v as int);
            assert forall|j: int| #[trigger] linked(ws, v as int, j) implies r <= j by {
                let p = choose|p: Seq<int>| is_chain(ws, p) && p[0] == v && #[trigger] p.last() == j;
                lemma_chain_roots(ws, par@, p);
                lemma_root_facts(ws, par@, j);
            }
            lemma_net_id_is_min(ws, v as int, r as int);
        }
        ids.push(r);
        v = v + 1;
    }
    ids
}

// ───────────────────────── ordering pins ─────────────────────────

/// Lexicographic order of character sequences (the order of `String`).
pub open spec fn chars_le(a: Seq<char>, b: Seq<char>) -> bool
    decreases a.len(),
{
    if a.len() == 0 {
        true
    } else if b.len() == 0 {
        false
    } else if a[0] != b[0] {
        (a[0] as int) < (b[0] as int)
    } else {
        chars_le(a.drop_first(), b.drop_first())
    }
}

pub proof fn lemma_chars_le_total(a: Seq<char>, b: Seq<char>)
    ensures
        chars_le(a, b) || chars_le(b, a),
    decreases a.len(),
{
    if a.len() > 0 && b.len() > 0 && a[0] == b[0] {
        lemma_chars_le_total(a.drop_first(), b.drop_first());
    }
}

pub proof fn lemma_chars_le_trans(a: Seq<char>, b: Seq<char>, c: Seq<char>)
    requires
        chars_le(a, b),
        chars_le(b, c),
    ensures
        chars_le(a, c),
    decreases a.len(),
{
    if a.len() > 0 && b.len() > 0 && c.len() > 0 && a[0] == b[0] && b[0] == c[0] {
        lemma_chars_le_trans(a.drop_first(), b.drop_first(), c.drop_first());
    }
}

/// Pins ordered by component index, then by name.
pub open spec fn key_le(a: PositionedPinV, b: PositionedPinV) -> bool {
    a.component_index < b.component_index || (a.component_index == b.component_index && chars_le(a.name, b.name))
}

pub open spec fn sorted_by_key(s: Seq<PositionedPinV>) -> bool {
    forall|i: int, j: int| 0 <= i < j < s.len() ==> key_le(#[trigger] s[i], #[trigger] s[j])
}

proof fn lemma_key_le_total(a: PositionedPinV, b: PositionedPinV)
    ensures
        key_le(a, b) || key_le(b, a),
{
    lemma_chars_le_total(a.name, b.name);
}

proof fn lemma_key_le_trans(a: PositionedPinV, b: PositionedPinV, c: PositionedPinV)
    requires
        key_le(a, b),
        key_le(b, c),
    ensures
        key_le(a, c),
{
    if a.component_index == b.component_index && b.component_index == c.component_index {
        lemma_chars_le_trans(a.name, b.name, c.name);
    }
}

/// `chars_le(a, b)`, computed.
pub(crate) fn name_le(a: &String, b: &String) -> (r: bool)
    ensures
        r == chars_le(a@, b@),
{
    let x = str_chars(a.as_str());
    let y = str_chars(b.as_str());
    let mut i: usize = 0;
    assert(x@.skip(0) =~= x@);
    assert(y@.skip(0) =~= y@);
    while i < x.len() && i < y.len() && x[i] == y[i]
        invariant
            i <= x@.len(),
            i <= y@.len(),
            x@ == a@,
            y@ == b@,
            chars_le(a@, b@) == chars_le(x@.skip(i as int), y@.skip(i as int)),
        decreases x@.len() - i,
    {
        assert(x@.skip(i as int).drop_first() =~= x@.skip(i + 1));
        assert(y@.skip(i as int).drop_first() =~= y@.skip(i + 1));
        i = i + 1;
    }
    if i == x.len() {
        assert(x@.skip(i as int).len() == 0);
        true
    } else if i == y.len() {
        assert(y@.skip(i as int).len() == 0);
        false
    } else {
        let cx = x[i];
        let cy = y[i];
        assert(x@.skip(i as int)[0] == cx && y@.skip(i as int)[0] == cy);
        assert(x@.skip(i as int).len() > 0 && y@.skip(i as int).len() > 0);
        assert(chars_le(x@.skip(i as int), y@.skip(i as int)) == ((cx as int) < (cy as int)));
        cx < cy
    }
}

/// `key_le`, computed.
fn pin_key_le(a: &PositionedPin, b: &PositionedPin) -> (r: bool)
    ensures
        r == key_le(a@, b@),
{
    a.component_index < b.component_index || (a.component_index == b.component_index && name_le(&a.name, &b.name))
}

/// A copy of a pin.
fn copy_pin(p: &PositionedPin) -> (r: PositionedPin)
    ensures
        r@ == p@,
{
    PositionedPin {
        component_index: p.component_index,
        permanent_id: p.permanent_id,
        component_kind: p.component_kind,
        name: p.name.clone(),
        direction: p.direction,
        width: p.width,
        position: p.position,
    }
}

/// The pins sorted by `(component_index, name)`, keeping equal keys in order.
fn sort_pins(v: &Vec<PositionedPin>) -> (r: Vec<PositionedPin>)
    ensures
        pin_views(r@).to_multiset() == pin_views(v@).to_multiset(),
        sorted_by_key(pin_views(r@)),
{
    let mut r: Vec<PositionedPin> = Vec::new();
    let mut i: usize = 0;
    assert(v@.take(0) =~= Seq::<PositionedPin>::empty());
    assert(pin_views(r@) =~= Seq::<PositionedPinV>::empty());
    while i < v.len()
        invariant
            i <= v@.len(),
            pin_views(r@).to_multiset() == pin_views(v@.take(i as int)).to_multiset(),
            sorted_by_key(pin_views(r@)),
        decreases v@.len() - i,
    {
        let x = copy_pin(&v[i]);
        let mut pos: usize = 0;
        while pos < r.len() && pin_key_le(&r[pos], &x)
            invariant
                pos <= r@.len(),
                forall|k: int| 0 <= k < pos ==> key_le(#[trigger] pin_views(r@)[k], x@),
            decreases r@.len() - pos,
        {
            pos = pos + 1;
        }
        let ghost rv = pin_views(r@);
        proof {
            if pos < r@.len() {
                assert(!key_le(rv[pos as int], x@));
                lemma_key_le_total(rv[pos as int], x@);
                assert forall|k: int| pos <= k < rv.len() implies key_le(x@, #[trigger] rv[k]) by {
                    if k > pos {
                        lemma_key_le_trans(x@, rv[pos as int], rv[k]);
                    }
                }
            }
        }
        r.insert(pos, x);
        proof {
            let nv = pin_views(r@);
            assert(nv =~= rv.insert(pos as int, x@));
            vstd::seq_lib::to_multiset_insert(rv, pos as int, x@);
            assert(v@.take(i + 1) =~= v@.take(i as int).push(v@[i as int]));
            assert(pin_views(v@.take(i + 1)) =~= pin_views(v@.take(i as int)).push(x@));
            vstd::seq_lib::to_multiset_build(pin_views(v@.take(i as int)), x@);
            assert forall|a: int, b: int| 0 <= a < b < nv.len() implies key_le(#[trigger] nv[a], #[trigger] nv[b]) by {
                if a < pos && b < pos {
                    assert(nv[a] == rv[a] && nv[b] == rv[b]);
                } else if a < pos && b == pos {
                    assert(nv[a] == rv[a]);
                } else if a < pos {
                    assert(nv[a] == rv[a] && nv[b] == rv[b - 1]);
                    assert(key_le(rv[a], x@));
                    lemma_key_le_trans(rv[a], x@, rv[b - 1]);
                } else if a == pos {
                    assert(nv[b] == rv[b - 1]);
                } else {
                    assert(nv[a] == rv[a - 1] && nv[b] == rv[b - 1]);
                }
            }
        }
        i = i + 1;
    }
    assert(v@.take(v@.len() as int) =~= v@);
    r
}

// ───────────────────────── attaching pins to networks ─────────────────────────

/// The network of a position: that of any wire ending there.
pub open spec fn net_at(ws: Seq<WireV>, pos: (int, int)) -> Option<int> {
    if exists|i: int| 0 <= i < ws.len() && #[trigger] has_end(ws[i], pos) {
        Some(net_id(ws, choose|i: int| 0 <= i < ws.len() && #[trigger] has_end(ws[i], pos)))
    } else {
        None
    }
}

pub open spec fn pin_net(ws: Seq<WireV>, p: PositionedPinV) -> Option<int> {
    net_at(ws, point_int(p.position))
}

/// The placed pins of the first `n` components, in component order.
pub open spec fn all_placed(cs: Seq<ComponentV>, n: nat) -> Seq<PositionedPinV>
    decreases n,
{
    if n == 0 || n > cs.len() {
        Seq::empty()
    } else {
        all_placed(cs, (n - 1) as nat) + placed(cs[n - 1], (n - 1) as nat)
    }
}

/// Every pin of every component, in component order.
pub open spec fn pins_of(cs: Seq<ComponentV>) -> Seq<PositionedPinV> {
    all_placed(cs, cs.len())
}

fn net_lookup(
    ep: &Vec<(Point, Point)>,
    ids: &Vec<usize>,
    pos: Point,
    Ghost(ws): Ghost<Seq<WireV>>,
) -> (r: Option<usize>)
    requires
        ends_match(ws, ep@),
        ids@.len() == ws.len(),
        forall|i: int| 0 <= i < ws.len() ==> is_min_linked(ws, i, #[trigger] ids@[i] as int),
    ensures
        match net_at(ws, point_int(pos)) {
            Some(id) => r == Some(id as usize) && 0 <= id < ws.len(),
            None => r is None,
        },
{
    let mut i: usize = 0;
    while i < ep.len()
        invariant
            i <= ep@.len(),
            ends_match(ws, ep@),
            ids@.len() == ws.len(),
            forall|k: int| 0 <= k < ws.len() ==> is_min_linked(ws, k, #[trigger] ids@[k] as int),
            forall|k: int| 0 <= k < i ==> !#[trigger] has_end(ws[k], point_int(pos)),
        decreases ep@.len() - i,
    {
        let (a, b) = ep[i];
        if same_point(a, pos) || same_point(b, pos) {
            proof {
                assert(has_end(ws[i as int], point_int(pos)));
                let k = choose|k: int| 0 <= k < ws.len() && #[trigger] has_end(ws[k], point_int(pos));
                assert(touching(ws, i as int, k) || touching(ws, k, i as int));
                if touching(ws, i as int, k) {
                    lemma_linked_step(ws, i as int, k);
                } else {
                    lemma_linked_step(ws, k, i as int);
                    lemma_linked_symmetric(ws, k, i as int);
                }
                assert(is_min_linked(ws, i as int, ids@[i as int] as int));
                lemma_min_linked_shared(ws, i as int, k, ids@[i as int] as int);
                lemma_linked_refl(ws, i as int);
                let q = choose|q: Seq<int>| is_chain(ws, q) && q[0] == i as int && #[trigger] q.last() == ids@[i as int] as int;
                assert(q[q.len() - 1] == q.last());
            }
            return Some(ids[i]);
        }
        i = i + 1;
    }
    None
}

/// Every pin of `components`, in component order.
fn collect_pins(components: &Vec<Component>) -> (r: Vec<PositionedPin>)
    requires
        forall|i: int| 0 <= i < components@.len() ==> placement_fits(#[trigger] components@[i]@),
    ensures
        pin_views(r@) == pins_of(component_views(components@)),
{
    let ghost cs = component_views(components@);
    let mut all: Vec<PositionedPin> = Vec::new();
    let mut i: usize = 0;
    while i < components.len()
        invariant
            i <= components@.len(),
            cs == component_views(components@),
            forall|k: int| 0 <= k < components@.len() ==> placement_fits(#[trigger] components@[k]@),
            pin_views(all@) == all_placed(cs, i as nat),
        decreases components@.len() - i,
    {
        let pins = positioned_pins(&components[i], i);
        let mut k: usize = 0;
        let ghost before = pin_views(all@);
        while k < pins.len()
            invariant
                k <= pins@.len(),
                pin_views(all@) == before + pin_views(pins@).take(k as int),
            decreases pins@.len() - k,
        {
            let p = copy_pin(&pins[k]);
            let ghost prev = all@;
            all.push(p);
            assert(pin_views(all@) =~= pin_views(prev).push(p@));
            assert(pin_views(pins@).take(k + 1) =~= pin_views(pins@).take(k as int).push(pin_views(pins@)[k as int]));
            k = k + 1;
        }
        assert(pin_views(pins@).take(pins@.len() as int) =~= pin_views(pins@));
        assert(cs[i as int] == components@[i as int]@);
        i = i + 1;
    }
    all
}

// ───────────────────────── networks ─────────────────────────

/// A logical wire network (a connected set of wire endpoints sharing pins).
#[derive(Debug)]
pub struct Net {
    pub id: usize,
    pub pins: Vec<PositionedPin>,
    /// The output/tristate pin driving this net, if any.
    pub driver: Option<PositionedPin>,
}

pub struct NetV {
    pub id: nat,
    pub pins: Seq<PositionedPinV>,
    pub driver: Option<PositionedPinV>,
}

impl View for Net {
    type V = NetV;

    open spec fn view(&self) -> NetV {
        NetV {
            id: self.id as nat,
            pins: pin_views(self.pins@),
            driver: match self.driver {
                Some(p) => Some(p@),
                None => None,
            },
        }
    }
}

pub open spec fn net_views(v: Seq<Net>) -> Seq<NetV> {
    v.map_values(|n: Net| n@)
}

/// The first output or tristate pin of `s`.
pub open spec fn first_driver(s: Seq<PositionedPinV>) -> Option<PositionedPinV>
    decreases s.len(),
{
    if s.len() == 0 {
        None
    } else if s[0].direction != PinDir::Input {
        Some(s[0])
    } else {
        first_driver(s.drop_first())
    }
}

pub open spec fn in_net(ws: Seq<WireV>, id: int) -> spec_fn(PositionedPinV) -> bool {
    |p: PositionedPinV| pin_net(ws, p) == Some(id)
}

/// The pins attached to network `id`, in component order.
pub open spec fn net_pins(ws: Seq<WireV>, pins: Seq<PositionedPinV>, id: int) -> Seq<PositionedPinV> {
    pins.filter(in_net(ws, id))
}

/// `nets` are the networks that have pins, by increasing id; each holds its
/// pins ordered by `(component_index, name)` and its first output pin as driver.
pub open spec fn nets_ok(ws: Seq<WireV>, pins: Seq<PositionedPinV>, nets: Seq<NetV>) -> bool {
    &&& forall|k: int|
        #![trigger nets[k]]
        0 <= k < nets.len() ==> {
            &&& nets[k].id < ws.len()
            &&& nets[k].pins.len() > 0
            &&& nets[k].pins.to_multiset() == net_pins(ws, pins, nets[k].id as int).to_multiset()
            &&& sorted_by_key(nets[k].pins)
            &&& nets[k].driver == first_driver(nets[k].pins)
        }
    &&& forall|k: int, l: int| 0 <= k < l < nets.len() ==> #[trigger] nets[k].id < #[trigger] nets[l].id
    &&& forall|id: int|
        #[trigger] net_pins(ws, pins, id).len() > 0 ==> exists|k: int| 0 <= k < nets.len() && #[trigger] nets[k].id
            == id
}

fn first_output(pins: &Vec<PositionedPin>) -> (r: Option<PositionedPin>)
    ensures
        match first_driver(pin_views(pins@)) {
            Some(d) => r matches Some(x) && x@ == d,
            None => r is None,
        },
{
    let ghost pv = pin_views(pins@);
    let mut i: usize = 0;
    assert(pv.skip(0) =~= pv);
    while i < pins.len()
        invariant
            i <= pins@.len(),
            pv == pin_views(pins@),
            first_driver(pv) == first_driver(pv.skip(i as int)),
        decreases pins@.len() - i,
    {
        assert(pv.skip(i as int)[0] == pins@[i as int]@);
        if pins[i].direction != PinDir::Input {
            return Some(copy_pin(&pins[i]));
        }
        assert(pv.skip(i as int).drop_first() =~= pv.skip(i + 1));
        i = i + 1;
    }
    assert(pv.skip(i as int).len() == 0);
    None
}

/// The pins whose network is `id`, in order.
fn pins_in_net(
    pins: &Vec<PositionedPin>,
    pin_nets: &Vec<Option<usize>>,
    id: usize,
    Ghost(ws): Ghost<Seq<WireV>>,
) -> (r: Vec<PositionedPin>)
    requires
        ws.len() <= usize::MAX,
        pin_nets@.len() == pins@.len(),
        forall|k: int|
            0 <= k < pins@.len() ==> match pin_net(ws, #[trigger] pins@[k]@) {
                Some(x) => pin_nets@[k] == Some(x as usize) && 0 <= x < ws.len(),
                None => pin_nets@[k] is None,
            },
    ensures
        pin_views(r@) == net_pins(ws, pin_views(pins@), id as int),
{
    let ghost pv = pin_views(pins@);
    let mut r: Vec<PositionedPin> = Vec::new();
    let mut k: usize = 0;
    assert(pv.take(0) =~= Seq::<PositionedPinV>::empty());
    while k < pins.len()
        invariant
            k <= pins@.len(),
            ws.len() <= usize::MAX,
            pv == pin_views(pins@),
            pin_nets@.len() == pins@.len(),
            forall|m: int|
                0 <= m < pins@.len() ==> match pin_net(ws, #[trigger] pins@[m]@) {
                    Some(x) => pin_nets@[m] == Some(x as usize) && 0 <= x < ws.len(),
                    None => pin_nets@[m] is None,
                },
            pin_views(r@) == pv.take(k as int).filter(in_net(ws, id as int)),
        decreases pins@.len() - k,
    {
        assert(ws.len() <= usize::MAX);
        assert(pv.take(k + 1).drop_last() =~= pv.take(k as int));
        assert(pv.take(k + 1).last() == pins@[k as int]@);
        let hit = match pin_nets[k] {
            Some(x) => x == id,
            None => false,
        };
        proof {
            let pn = pin_net(ws, pins@[k as int]@);
            match pn {
                Some(x) => {
                    assert(pin_nets@[k as int] == Some(x as usize) && 0 <= x < ws.len());
                },
                None => {
                    assert(pin_nets@[k as int] is None);
                },
            }
        }
        assert(hit == in_net(ws, id as int)(pins@[k as int]@));
        let ghost f = in_net(ws, id as int);
        let ghost t = pv.take(k + 1);
        assert(t.len() == k + 1);
        assert(t.drop_last() =~= pv.take(k as int));
        assert(t.last() == pv[k as int]);
        assert(pv[k as int] == pins@[k as int]@);
        reveal(Seq::filter);
        assert(t.filter(f) == if f(t.last()) {
            t.drop_last().filter(f).push(t.last())
        } else {
            t.drop_last().filter(f)
        });
        assert(pv.take(k + 1).filter(f) == if f(pins@[k as int]@) {
            pv.take(k as int).filter(f).push(pins@[k as int]@)
        } else {
            pv.take(k as int).filter(f)
        });
        if hit {
            let ghost before = r@;
            r.push(copy_pin(&pins[k]));
            assert(pin_views(r@) =~= pin_views(before).push(pins@[k as int]@));
        }
        k = k + 1;
    }
    assert(pv.take(pv.len() as int) =~= pv);
    r
}

/// The networks that have pins, by increasing id.
fn build_networks(
    pins: &Vec<PositionedPin>,
    pin_nets: &Vec<Option<usize>>,
    n: usize,
    Ghost(ws): Ghost<Seq<WireV>>,
) -> (nets: Vec<Net>)
    requires
        n == ws.len(),
        pin_nets@.len() == pins@.len(),
        forall|k: int|
            0 <= k < pins@.len() ==> match pin_net(ws, #[trigger] pins@[k]@) {
                Some(x) => pin_nets@[k] == Some(x as usize) && 0 <= x < ws.len(),
                None => pin_nets@[k] is None,
            },
    ensures
        nets_ok(ws, pin_views(pins@), net_views(nets@)),
{
    let ghost pv = pin_views(pins@);
    let mut nets: Vec<Net> = Vec::new();
    let mut id: usize = 0;
    while id < n
        invariant
            id <= n,
            n == ws.len(),
            pv == pin_views(pins@),
            pin_nets@.len() == pins@.len(),
            forall|k: int|
                0 <= k < pins@.len() ==> match pin_net(ws, #[trigger] pins@[k]@) {
                    Some(x) => pin_nets@[k] == Some(x as usize) && 0 <= x < ws.len(),
                    None => pin_nets@[k] is None,
                },
            forall|k: int|
                #![trigger net_views(nets@)[k]]
                0 <= k < nets@.len() ==> {
                    &&& net_views(nets@)[k].id < id
                    &&& net_views(nets@)[k].pins.len() > 0
                    &&& net_views(nets@)[k].pins.to_multiset() == net_pins(
                        ws,
                        pv,
                        net_views(nets@)[k].id as int,
                    ).to_multiset()
                    &&& sorted_by_key(net_views(nets@)[k].pins)
                    &&& net_views(nets@)[k].driver == first_driver(net_views(nets@)[k].pins)
                },
            forall|k: int, l: int|
                0 <= k < l < nets@.len() ==> #[trigger] net_views(nets@)[k].id < #[trigger] net_views(nets@)[l].id,
            forall|x: int|
                0 <= x < id && #[trigger] net_pins(ws, pv, x).len() > 0 ==> exists|k: int|
                    0 <= k < nets@.len() && #[trigger] net_views(nets@)[k].id == x,
        decreases n - id,
    {
        let members = pins_in_net(pins, pin_nets, id, Ghost(ws));
        if members.len() > 0 {
            let sorted = sort_pins(&members);
            proof {
                vstd::seq_lib::to_multiset_len(pin_views(members@));
                vstd::seq_lib::to_multiset_len(pin_views(sorted@));
            }
            let driver = first_output(&sorted);
            let ghost before = nets@;
            nets.push(Net { id, pins: sorted, driver });
            proof {
                let nv = net_views(nets@);
                assert(nv =~= net_views(before).push(nets@[nets@.len() - 1]@));
                assert(nv[nets@.len() - 1].id == id);
                assert forall|x: int| 0 <= x < id + 1 && #[trigger] net_pins(ws, pv, x).len() > 0 implies exists|k: int|
                    0 <= k < nets@.len() && #[trigger] net_views(nets@)[k].id == x by {
                    if x < id {
                        let k0 = choose|k: int| 0 <= k < before.len() && #[trigger] net_views(before)[k].id == x;
                        assert(nv[k0] == net_views(before)[k0]);
                    } else {
                        assert(nv[nets@.len() - 1].id == x);
                    }
                }
            }
        }
        id = id + 1;
    }
    proof {
        assert forall|x: int| #[trigger] net_pins(ws, pv, x).len() > 0 implies exists|k: int|
            0 <= k < nets@.len() && #[trigger] net_views(nets@)[k].id == x by {
            let f = in_net(ws, x);
            pv.filter_lemma(f);
            let q = net_pins(ws, pv, x);
            assert(f(q[0]));
            assert(pv.filter(f).contains(q[0]));
            pv.lemma_filter_contains_rev(f, q[0]);
            let m = choose|m: int| 0 <= m < pv.len() && pv[m] == q[0];
            assert(pins@[m]@ == pv[m]);
            assert(pin_net(ws, pins@[m]@) == Some(x));
        }
    }
    nets
}

// ───────────────────────── the component graph ─────────────────────────

/// Kinds whose input pins are sequential (register save/load): skipped when
/// forming directed edges because they would create false combinational loops.
pub const SEQUENTIAL_KINDS: [u16; 8] = [13, 14, 38, 39, 50, 55, 118, 119];

/// Kinds treated as zero-weight (level I/O) in depth computation.
pub const OUTPUT_KINDS: [u16; 15] = [40, 62, 68, 69, 70, 73, 74, 75, 77, 79, 81, 109, 110, 111, 112];

pub open spec fn is_sequential(kind: u16) -> bool {
    SEQUENTIAL_KINDS@.contains(kind)
}

/// Receiver pin `r` of `net` yields the directed edge `e`.
pub open spec fn edge_from(net: NetV, r: PositionedPinV, e: (nat, nat)) -> bool {
    match net.driver {
        Some(d) => {
            &&& r.direction == PinDir::Input
            &&& r.component_index != d.component_index
            &&& !is_sequential(r.component_kind)
            &&& e == (d.component_index, r.component_index)
        },
        None => false,
    }
}

/// `e` is a directed edge: a network's driver component feeds a receiver component.
pub open spec fn is_edge(nets: Seq<NetV>, e: (nat, nat)) -> bool {
    exists|k: int, m: int|
        0 <= k < nets.len() && 0 <= m < nets[k].pins.len() && #[trigger] edge_from(nets[k], nets[k].pins[m], e)
}

pub open spec fn pair_lt(a: (nat, nat), b: (nat, nat)) -> bool {
    a.0 < b.0 || (a.0 == b.0 && a.1 < b.1)
}

pub open spec fn strictly_sorted(es: Seq<(nat, nat)>) -> bool {
    forall|i: int, j: int| 0 <= i < j < es.len() ==> pair_lt(#[trigger] es[i], #[trigger] es[j])
}

pub open spec fn edge_views(v: Seq<(usize, usize)>) -> Seq<(nat, nat)> {
    v.map_values(|e: (usize, usize)| (e.0 as nat, e.1 as nat))
}

fn kind_listed(kinds: &[u16], kind: u16) -> (b: bool)
    ensures
        b == kinds@.contains(kind),
{
    let mut i: usize = 0;
    while i < kinds.len()
        invariant
            i <= kinds@.len(),
            forall|j: int| 0 <= j < i ==> kinds@[j] != kind,
        decreases kinds@.len() - i,
    {
        if kinds[i] == kind {
            assert(kinds@[i as int] == kind);
            return true;
        }
        i = i + 1;
    }
    false
}

/// Add `e` to a strictly sorted list of edges, keeping it strictly sorted.
fn insert_edge(edges: &mut Vec<(usize, usize)>, e: (usize, usize))
    requires
        strictly_sorted(edge_views(old(edges)@)),
    ensures
        strictly_sorted(edge_views(final(edges)@)),
        forall|x: (nat, nat)|
            edge_views(final(edges)@).contains(x) <==> (edge_views(old(edges)@).contains(x) || x == (
            e.0 as nat,
            e.1 as nat,
        )),
{
    let ghost ev = edge_views(edges@);
    let ghost ex = (e.0 as nat, e.1 as nat);
    let mut pos: usize = 0;
    while pos < edges.len() && (edges[pos].0 < e.0 || (edges[pos].0 == e.0 && edges[pos].1 < e.1))
        invariant
            pos <= edges@.len(),
            ev == edge_views(edges@),
            ex == (e.0 as nat, e.1 as nat),
            forall|k: int| 0 <= k < pos ==> pair_lt(#[trigger] ev[k], ex),
        decreases edges@.len() - pos,
    {
        assert(ev[pos as int] == (edges@[pos as int].0 as nat, edges@[pos as int].1 as nat));
        pos = pos + 1;
    }
    if pos < edges.len() {
        assert(ev[pos as int] == (edges@[pos as int].0 as nat, edges@[pos as int].1 as nat));
    }
    if pos < edges.len() && edges[pos].0 == e.0 && edges[pos].1 == e.1 {
        assert(ev[pos as int] == ex);
        return;
    }
    proof {
        assert forall|k: int| pos <= k < ev.len() implies pair_lt(ex, #[trigger] ev[k]) by {
            assert(!pair_lt(ev[pos as int], ex) && ev[pos as int] != ex);
            if k > pos {
                assert(pair_lt(ev[pos as int], ev[k]));
            }
        }
    }
    edges.insert(pos, e);
    proof {
        let nv = edge_views(edges@);
        assert(nv =~= ev.insert(pos as int, ex));
        assert forall|x: (nat, nat)| nv.contains(x) <==> (ev.contains(x) || x == ex) by {
            if nv.contains(x) {
                let k = choose|k: int| 0 <= k < nv.len() && nv[k] == x;
                if k < pos {
                    assert(ev[k] == x);
                } else if k > pos {
                    assert(ev[k - 1] == x);
                }
            }
            if ev.contains(x) {
                let k = choose|k: int| 0 <= k < ev.len() && ev[k] == x;
                if k < pos {
                    assert(nv[k] == x);
                } else {
                    assert(nv[k + 1] == x);
                }
            }
            if x == ex {
                assert(nv[pos as int] == x);
            }
        }
        assert forall|a: int, b: int| 0 <= a < b < nv.len() implies pair_lt(#[trigger] nv[a], #[trigger] nv[b]) by {
            if b < pos {
                assert(nv[a] == ev[a] && nv[b] == ev[b]);
            } else if b == pos {
                assert(nv[a] == ev[a]);
            } else if a < pos {
                assert(nv[a] == ev[a] && nv[b] == ev[b - 1]);
            } else if a == pos {
                assert(nv[b] == ev[b - 1]);
            } else {
                assert(nv[a] == ev[a - 1] && nv[b] == ev[b - 1]);
            }
        }
    }
}

/// The directed edges of `nets`, strictly sorted.
#[verifier::loop_isolation(false)]
fn collect_edges(nets: &Vec<Net>) -> (edges: Vec<(usize, usize)>)
    ensures
        strictly_sorted(edge_views(edges@)),
        forall|x: (nat, nat)| edge_views(edges@).contains(x) <==> is_edge(net_views(nets@), x),
{
    let ghost nv = net_views(nets@);
    let mut edges: Vec<(usize, usize)> = Vec::new();
    let mut k: usize = 0;
    while k < nets.len()
        invariant
            k <= nets@.len(),
            nv == net_views(nets@),
            strictly_sorted(edge_views(edges@)),
            forall|x: (nat, nat)|
                edge_views(edges@).contains(x) <==> exists|a: int, m: int|
                    0 <= a < k && 0 <= m < nv[a].pins.len() && #[trigger] edge_from(nv[a], nv[a].pins[m], x),
        decreases nets@.len() - k,
    {
        let net = &nets[k];
        assert(nv[k as int] == net@);
        match &net.driver {
            None => {
                assert forall|x: (nat, nat)|
                    edge_views(edges@).contains(x) <==> exists|a: int, m: int|
                        0 <= a < k + 1 && 0 <= m < nv[a].pins.len() && #[trigger] edge_from(nv[a], nv[a].pins[m], x) by {
                    if exists|a: int, m: int|
                        0 <= a < k + 1 && 0 <= m < nv[a].pins.len() && #[trigger] edge_from(nv[a], nv[a].pins[m], x) {
                        let (a, m) = choose|a: int, m: int|
                            0 <= a < k + 1 && 0 <= m < nv[a].pins.len() && #[trigger] edge_from(nv[a], nv[a].pins[m], x);
                        assert(a < k);
                    }
                }
            },
            Some(d) => {
                let mut m: usize = 0;
                while m < net.pins.len()
                    invariant
                        m <= net.pins@.len(),
                        nv[k as int] == net@,
                        net.driver == Some(*d),
                        strictly_sorted(edge_views(edges@)),
                        forall|x: (nat, nat)|
                            edge_views(edges@).contains(x) <==> (exists|a: int, j: int|
                                0 <= a < k && 0 <= j < nv[a].pins.len() && #[trigger] edge_from(nv[a], nv[a].pins[j], x))
                                || (exists|j: int| 0 <= j < m && #[trigger] edge_from(nv[k as int], nv[k as int].pins[j], x)),
                    decreases net.pins@.len() - m,
                {
                    let r = &net.pins[m];
                    assert(nv[k as int].pins[m as int] == r@);
                    let ghost before = edge_views(edges@);
                    if r.direction == PinDir::Input && r.component_index != d.component_index && !kind_listed(
                        &SEQUENTIAL_KINDS,
                        r.component_kind,
                    ) {
                        insert_edge(&mut edges, (d.component_index, r.component_index));
                    }
                    proof {
                        assert forall|x: (nat, nat)|
                            edge_views(edges@).contains(x) <==> (exists|a: int, j: int|
                                0 <= a < k && 0 <= j < nv[a].pins.len() && #[trigger] edge_from(nv[a], nv[a].pins[j], x))
                                || (exists|j: int| 0 <= j < m + 1 && #[trigger] edge_from(nv[k as int], nv[k as int].pins[j], x)) by {
                            if exists|j: int| 0 <= j < m + 1 && #[trigger] edge_from(nv[k as int], nv[k as int].pins[j], x) {
                                let j = choose|j: int| 0 <= j < m + 1 && #[trigger] edge_from(nv[k as int], nv[k as int].pins[j], x);
                                if j < m {
                                    assert(exists|j: int| 0 <= j < m && #[trigger] edge_from(nv[k as int], nv[k as int].pins[j], x));
                                }
                            }
                            if edge_from(nv[k as int], nv[k as int].pins[m as int], x) {
                                assert(exists|j: int| 0 <= j < m + 1 && #[trigger] edge_from(nv[k as int], nv[k as int].pins[j], x));
                            }
                        }
                    }
                    m = m + 1;
                }
                assert forall|x: (nat, nat)|
                    edge_views(edges@).contains(x) <==> exists|a: int, j: int|
                        0 <= a < k + 1 && 0 <= j < nv[a].pins.len() && #[trigger] edge_from(nv[a], nv[a].pins[j], x) by {
                    if exists|a: int, j: int|
                        0 <= a < k + 1 && 0 <= j < nv[a].pins.len() && #[trigger] edge_from(nv[a], nv[a].pins[j], x) {
                        let (a, j) = choose|a: int, j: int|
                            0 <= a < k + 1 && 0 <= j < nv[a].pins.len() && #[trigger] edge_from(nv[a], nv[a].pins[j], x);
                        if a == k {
                            assert(exists|j: int| 0 <= j < m && #[trigger] edge_from(nv[k as int], nv[k as int].pins[j], x));
                        } else {
                            assert(exists|a: int, j: int|
                                0 <= a < k && 0 <= j < nv[a].pins.len() && #[trigger] edge_from(nv[a], nv[a].pins[j], x));
                        }
                    }
                    if exists|j: int| 0 <= j < m && #[trigger] edge_from(nv[k as int], nv[k as int].pins[j], x) {
                        let j = choose|j: int| 0 <= j < m && #[trigger] edge_from(nv[k as int], nv[k as int].pins[j], x);
                        assert(0 <= k < k + 1 && 0 <= j < nv[k as int].pins.len());
                    }
                }
            },
        }
        k = k + 1;
    }
    edges
}

// ───────────────────────── evaluation order ─────────────────────────

/// Every edge into a listed component comes from a component listed before it.
pub open spec fn preds_before(es: Seq<(nat, nat)>, topo: Seq<nat>) -> bool {
    forall|j: int, k: int|
        0 <= j < topo.len() && 0 <= k < es.len() && es[k].1 == #[trigger] topo[j] ==> exists|i: int|
            0 <= i < j && #[trigger] topo[i] == (#[trigger] es[k]).0
}

/// Every component left out has an edge from another component left out.
pub open spec fn blocked(n: nat, es: Seq<(nat, nat)>, topo: Seq<nat>) -> bool {
    forall|v: nat|
        v < n && !#[trigger] topo.contains(v) ==> exists|k: int|
            0 <= k < es.len() && (#[trigger] es[k]).1 == v && !topo.contains(es[k].0)
}

/// `topo` is the evaluation order of the graph on `n` components: each
/// component at most once, after all its predecessors, and exactly the
/// components that no cycle precedes.
pub open spec fn topo_ok(n: nat, es: Seq<(nat, nat)>, topo: Seq<nat>) -> bool {
    &&& topo.no_duplicates()
    &&& forall|i: int| 0 <= i < topo.len() ==> #[trigger] topo[i] < n
    &&& preds_before(es, topo)
    &&& blocked(n, es, topo)
}

/// Depth weight of a component kind: level I/O counts 0, everything else 1.
pub open spec fn weight(kind: u16) -> nat {
    if OUTPUT_KINDS@.contains(kind) {
        0
    } else {
        1
    }
}

/// `d[v]` is the largest `d[u] + weight(v)` over edges `u -> v` from ordered
/// components `u`, or 0 when there is none.
pub open spec fn depth_ok(es: Seq<(nat, nat)>, topo: Seq<nat>, kinds: Seq<u16>, d: Seq<nat>) -> bool {
    &&& d.len() == kinds.len()
    &&& forall|k: int|
        0 <= k < es.len() && topo.contains((#[trigger] es[k]).0) ==> d[es[k].1 as int] >= d[es[k].0 as int] + weight(
            kinds[es[k].1 as int],
        )
    &&& forall|v: int|
        0 <= v < d.len() ==> #[trigger] d[v] == 0 || exists|k: int|
            0 <= k < es.len() && (#[trigger] es[k]).1 == v && topo.contains(es[k].0) && d[v] == d[es[k].0 as int]
                + weight(kinds[v])
}

/// `m` is the largest entry of `d` (0 when empty).
pub open spec fn is_max(d: Seq<nat>, m: nat) -> bool {
    &&& forall|v: int| 0 <= v < d.len() ==> #[trigger] d[v] <= m
    &&& (d.len() == 0 && m == 0) || exists|v: int| 0 <= v < d.len() && #[trigger] d[v] == m
}

pub open spec fn usize_seq_nat(v: Seq<usize>) -> Seq<nat> {
    v.map_values(|x: usize| x as nat)
}

/// All edges into `dest` come from components in state 2.
fn preds_done(edges: &Vec<(usize, usize)>, state: &Vec<u8>, dest: usize) -> (r: bool)
    requires
        forall|k: int| 0 <= k < edges@.len() ==> (#[trigger] edges@[k]).0 < state@.len(),
    ensures
        r == forall|k: int| 0 <= k < edges@.len() && (#[trigger] edges@[k]).1 == dest ==> state@[edges@[k].0 as int] == 2,
{
    let mut k: usize = 0;
    while k < edges.len()
        invariant
            k <= edges@.len(),
            forall|m: int| 0 <= m < edges@.len() ==> (#[trigger] edges@[m]).0 < state@.len(),
            forall|m: int| 0 <= m < k && (#[trigger] edges@[m]).1 == dest ==> state@[edges@[m].0 as int] == 2,
        decreases edges@.len() - k,
    {
        if edges[k].1 == dest && state[edges[k].0] != 2 {
            return false;
        }
        k = k + 1;
    }
    true
}

fn kind_weight(kind: u16) -> (w: usize)
    ensures
        w == weight(kind),
{
    if kind_listed(&OUTPUT_KINDS, kind) {
        0
    } else {
        1
    }
}

/// The edge at `k` has been taken into account: its source was processed
/// before `s`, or it leaves `s` and lies before `t`.
pub open spec fn edge_done(es: Seq<(nat, nat)>, st: Seq<u8>, s: nat, t: int, k: int) -> bool {
    (st[es[k].0 as int] == 2 && es[k].0 != s) || (es[k].0 == s && k < t)
}

/// The queue and the component states agree: 0 = not queued, 1 = queued,
/// 2 = taken off the queue (the first `head` entries).
#[verifier::opaque]
pub open spec fn queue_ok(n: nat, st: Seq<u8>, q: Seq<nat>, head: nat) -> bool {
    &&& st.len() == n
    &&& head <= q.len()
    &&& q.no_duplicates()
    &&& forall|j: int| 0 <= j < q.len() ==> #[trigger] q[j] < n
    &&& forall|v: int| 0 <= v < n ==> (#[trigger] st[v] == 0 <==> !q.contains(v as nat))
    &&& forall|v: int| 0 <= v < n ==> (st[v] == 2 <==> exists|j: int| 0 <= j < head && #[trigger] q[j] == v)
    &&& forall|v: int| 0 <= v < n ==> #[trigger] st[v] <= 2
}

/// Every edge into a queued component comes from a component queued before it.
#[verifier::opaque]
pub open spec fn queue_ordered(es: Seq<(nat, nat)>, q: Seq<nat>) -> bool {
    forall|j: int, k: int|
        0 <= j < q.len() && 0 <= k < es.len() && es[k].1 == #[trigger] q[j] ==> exists|i: int|
            0 <= i < j && #[trigger] q[i] == (#[trigger] es[k]).0
}

/// Every edge into a queued component has been taken into account.
#[verifier::opaque]
pub open spec fn queued_done(es: Seq<(nat, nat)>, st: Seq<u8>, q: Seq<nat>, s: nat, t: int) -> bool {
    forall|j: int, k: int|
        0 <= j < q.len() && 0 <= k < es.len() && (#[trigger] es[k]).1 == #[trigger] q[j] ==> edge_done(es, st, s, t, k)
}

/// A component all of whose incoming edges have been taken into account is queued.
#[verifier::opaque]
pub open spec fn closed(n: nat, es: Seq<(nat, nat)>, st: Seq<u8>, s: nat, t: int) -> bool {
    forall|v: int|
        0 <= v < n && (forall|k: int| 0 <= k < es.len() && (#[trigger] es[k]).1 == v ==> edge_done(es, st, s, t, k))
            ==> #[trigger] st[v] != 0
}

/// Depths are the maxima over the edges taken into account so far.
#[verifier::opaque]
pub open spec fn depth_inv(n: nat, es: Seq<(nat, nat)>, kinds: Seq<u16>, st: Seq<u8>, d: Seq<nat>, s: nat, t: int) -> bool {
    &&& d.len() == n && kinds.len() == n
    &&& forall|k: int|
        0 <= k < es.len() && edge_done(es, st, s, t, k) ==> d[(#[trigger] es[k]).1 as int] >= d[es[k].0 as int]
            + weight(kinds[es[k].1 as int])
    &&& forall|v: int|
        0 <= v < n ==> #[trigger] d[v] == 0 || exists|k: int|
            0 <= k < es.len() && (#[trigger] es[k]).1 == v && edge_done(es, st, s, t, k) && d[v] == d[es[k].0 as int]
                + weight(kinds[v])
}

/// Depths stay below the number of components processed, and below queue positions.
#[verifier::opaque]
pub open spec fn depth_bounds(n: nat, d: Seq<nat>, q: Seq<nat>, head: nat) -> bool {
    &&& forall|v: int| 0 <= v < n ==> #[trigger] d[v] <= head
    &&& forall|j: int| 0 <= j < q.len() ==> d[#[trigger] q[j] as int] <= j
}

/// What Kahn's algorithm keeps true while processing source `s` up to edge `t`.
pub open spec fn kahn_inv(
    n: nat,
    es: Seq<(nat, nat)>,
    kinds: Seq<u16>,
    st: Seq<u8>,
    q: Seq<nat>,
    head: nat,
    d: Seq<nat>,
    s: nat,
    t: int,
) -> bool {
    &&& queue_ok(n, st, q, head)
    &&& queue_ordered(es, q)
    &&& queued_done(es, st, q, s, t)
    &&& closed(n, es, st, s, t)
    &&& depth_inv(n, es, kinds, st, d, s, t)
    &&& depth_bounds(n, d, q, head)
}

/// Edges of a graph on `n` components: in range, no self-loops, strictly sorted.
pub open spec fn graph_ok(n: nat, es: Seq<(nat, nat)>) -> bool {
    &&& forall|k: int| 0 <= k < es.len() ==> (#[trigger] es[k]).0 < n && es[k].1 < n && es[k].0 != es[k].1
    &&& strictly_sorted(es)
}

/// The effect of taking edge `t = (s, dest)` into account.
pub open spec fn edge_step(
    n: nat,
    es: Seq<(nat, nat)>,
    kinds: Seq<u16>,
    st0: Seq<u8>,
    q0: Seq<nat>,
    d0: Seq<nat>,
    st1: Seq<u8>,
    q1: Seq<nat>,
    d1: Seq<nat>,
    head: nat,
    s: nat,
    t: int,
    ready: bool,
) -> bool {
    &&& graph_ok(n, es)
    &&& 0 <= t < es.len()
    &&& es[t].0 == s
    &&& 1 <= head <= q0.len()
    &&& q0[head - 1] == s
    &&& st0[s as int] == 2
    &&& st0[es[t].1 as int] == 0
    &&& ready == forall|k: int| 0 <= k < es.len() && (#[trigger] es[k]).1 == es[t].1 ==> st0[es[k].0 as int] == 2
    &&& st1 == if ready { st0.update(es[t].1 as int, 1) } else { st0 }
    &&& q1 == if ready { q0.push(es[t].1) } else { q0 }
    &&& d1 == d0.update(
        es[t].1 as int,
        if d0[es[t].1 as int] < d0[s as int] + weight(kinds[es[t].1 as int]) {
            (d0[s as int] + weight(kinds[es[t].1 as int])) as nat
        } else {
            d0[es[t].1 as int]
        },
    )
}

proof fn lemma_step_done(
    n: nat, es: Seq<(nat, nat)>, kinds: Seq<u16>, st0: Seq<u8>, q0: Seq<nat>, d0: Seq<nat>,
    st1: Seq<u8>, q1: Seq<nat>, d1: Seq<nat>, head: nat, s: nat, t: int, ready: bool, k: int,
)
    requires
        edge_step(n, es, kinds, st0, q0, d0, st1, q1, d1, head, s, t, ready),
        queue_ok(n, st0, q0, head),
        0 <= k < es.len(),
    ensures
        edge_done(es, st1, s, t + 1, k) == (edge_done(es, st0, s, t, k) || k == t),
        es[k].0 == s && es[k].1 == es[t].1 ==> k == t,
{
    reveal(queue_ok);
    let dest = es[t].1;
    if k != t && es[k].0 != s && es[k].0 == dest {
        assert(st1[dest as int] != 2);
    }
    if es[k].0 == s && es[k].1 == dest {
        if k < t {
            assert(pair_lt(es[k], es[t]));
        } else if k > t {
            assert(pair_lt(es[t], es[k]));
        }
    }
}

proof fn lemma_step_queue(
    n: nat, es: Seq<(nat, nat)>, kinds: Seq<u16>, st0: Seq<u8>, q0: Seq<nat>, d0: Seq<nat>,
    st1: Seq<u8>, q1: Seq<nat>, d1: Seq<nat>, head: nat, s: nat, t: int, ready: bool,
)
    requires
        edge_step(n, es, kinds, st0, q0, d0, st1, q1, d1, head, s, t, ready),
        queue_ok(n, st0, q0, head),
        queue_ordered(es, q0),
    ensures
        queue_ok(n, st1, q1, head),
        queue_ordered(es, q1),
{
    reveal(queue_ok);
    reveal(queue_ordered);
    let dest = es[t].1;
    assert(!q0.contains(dest));
    assert forall|v: int| 0 <= v < n implies (#[trigger] st1[v] == 0 <==> !q1.contains(v as nat)) by {
        if v == dest {
            if ready {
                assert(q1[q1.len() - 1] == dest);
            }
        } else {
            if q1.contains(v as nat) {
                let j = choose|j: int| 0 <= j < q1.len() && q1[j] == v as nat;
                if j < q0.len() {
                    assert(q0[j] == v as nat);
                }
            }
            if q0.contains(v as nat) {
                let j = choose|j: int| 0 <= j < q0.len() && q0[j] == v as nat;
                assert(q1[j] == v as nat);
            }
        }
    }
    assert forall|v: int| 0 <= v < n implies (st1[v] == 2 <==> exists|j: int| 0 <= j < head && #[trigger] q1[j] == v) by {
        if exists|j: int| 0 <= j < head && #[trigger] q1[j] == v {
            let j = choose|j: int| 0 <= j < head && #[trigger] q1[j] == v;
            assert(q0[j] == v);
        }
        if st0[v] == 2 {
            let j = choose|j: int| 0 <= j < head && #[trigger] q0[j] == v;
            assert(q1[j] == v);
        }
    }
    assert forall|j: int, k: int|
        0 <= j < q1.len() && 0 <= k < es.len() && es[k].1 == #[trigger] q1[j] implies exists|i: int|
            0 <= i < j && #[trigger] q1[i] == (#[trigger] es[k]).0 by {
        if j < q0.len() {
            assert(q1[j] == q0[j]);
            let i = choose|i: int| 0 <= i < j && #[trigger] q0[i] == (#[trigger] es[k]).0;
            assert(q1[i] == q0[i]);
        } else {
            assert(st0[es[k].0 as int] == 2);
            let i = choose|i: int| 0 <= i < head && #[trigger] q0[i] == es[k].0 as int;
            assert(q1[i] == q0[i]);
        }
    }
    if ready {
        assert forall|a: int, b: int| 0 <= a < b < q1.len() implies q1[a] != q1[b] by {
            if b == q1.len() - 1 {
                assert(q1[a] == q0[a]);
            } else {
                assert(q1[a] == q0[a] && q1[b] == q0[b]);
            }
        }
    }
}

proof fn lemma_step_done_sets(
    n: nat, es: Seq<(nat, nat)>, kinds: Seq<u16>, st0: Seq<u8>, q0: Seq<nat>, d0: Seq<nat>,
    st1: Seq<u8>, q1: Seq<nat>, d1: Seq<nat>, head: nat, s: nat, t: int, ready: bool,
)
    requires
        edge_step(n, es, kinds, st0, q0, d0, st1, q1, d1, head, s, t, ready),
        queue_ok(n, st0, q0, head),
        queued_done(es, st0, q0, s, t),
        closed(n, es, st0, s, t),
    ensures
        queued_done(es, st1, q1, s, t + 1),
        closed(n, es, st1, s, t + 1),
{
    reveal(queue_ok);
    reveal(queued_done);
    reveal(closed);
    let dest = es[t].1;
    assert forall|j: int, k: int|
        0 <= j < q1.len() && 0 <= k < es.len() && (#[trigger] es[k]).1 == #[trigger] q1[j] implies edge_done(es, st1, s, t + 1, k) by {
        lemma_step_done(n, es, kinds, st0, q0, d0, st1, q1, d1, head, s, t, ready, k);
        if j < q0.len() {
            assert(q1[j] == q0[j]);
        } else {
            assert(q1[j] == dest);
            assert(st0[es[k].0 as int] == 2);
        }
    }
    assert forall|v: int|
        0 <= v < n && (forall|k: int| 0 <= k < es.len() && (#[trigger] es[k]).1 == v ==> edge_done(es, st1, s, t + 1, k))
            implies #[trigger] st1[v] != 0 by {
        if v == dest {
            assert forall|k: int| 0 <= k < es.len() && (#[trigger] es[k]).1 == es[t].1 implies st0[es[k].0 as int] == 2 by {
                lemma_step_done(n, es, kinds, st0, q0, d0, st1, q1, d1, head, s, t, ready, k);
                assert(edge_done(es, st1, s, t + 1, k));
            }
        } else {
            assert forall|k: int| 0 <= k < es.len() && (#[trigger] es[k]).1 == v implies edge_done(es, st0, s, t, k) by {
                lemma_step_done(n, es, kinds, st0, q0, d0, st1, q1, d1, head, s, t, ready, k);
                assert(edge_done(es, st1, s, t + 1, k));
            }
        }
    }
}

proof fn lemma_step_depth(
    n: nat, es: Seq<(nat, nat)>, kinds: Seq<u16>, st0: Seq<u8>, q0: Seq<nat>, d0: Seq<nat>,
    st1: Seq<u8>, q1: Seq<nat>, d1: Seq<nat>, head: nat, s: nat, t: int, ready: bool,
)
    requires
        edge_step(n, es, kinds, st0, q0, d0, st1, q1, d1, head, s, t, ready),
        queue_ok(n, st0, q0, head),
        depth_inv(n, es, kinds, st0, d0, s, t),
        depth_bounds(n, d0, q0, head),
    ensures
        depth_inv(n, es, kinds, st1, d1, s, t + 1),
        depth_bounds(n, d1, q1, head),
{
    reveal(queue_ok);
    reveal(depth_inv);
    reveal(depth_bounds);
    let dest = es[t].1;
    assert(!q0.contains(dest));
    assert(d0[s as int] <= head - 1) by {
        assert(q0[head - 1] == s);
    }
    assert forall|k: int|
        0 <= k < es.len() && edge_done(es, st1, s, t + 1, k) implies d1[(#[trigger] es[k]).1 as int] >= d1[es[k].0 as int]
            + weight(kinds[es[k].1 as int]) by {
        lemma_step_done(n, es, kinds, st0, q0, d0, st1, q1, d1, head, s, t, ready, k);
        if k != t {
            assert(es[k].0 != dest);
        }
    }
    assert forall|v: int|
        0 <= v < n implies #[trigger] d1[v] == 0 || exists|k: int|
            0 <= k < es.len() && (#[trigger] es[k]).1 == v && edge_done(es, st1, s, t + 1, k) && d1[v] == d1[es[k].0 as int]
                + weight(kinds[v]) by {
        if v == dest && d1[v] != d0[v] {
            lemma_step_done(n, es, kinds, st0, q0, d0, st1, q1, d1, head, s, t, ready, t);
        } else if d1[v] != 0 {
            let k = choose|k: int|
                0 <= k < es.len() && (#[trigger] es[k]).1 == v && edge_done(es, st0, s, t, k) && d0[v] == d0[es[k].0 as int]
                    + weight(kinds[v]);
            lemma_step_done(n, es, kinds, st0, q0, d0, st1, q1, d1, head, s, t, ready, k);
            assert(es[k].0 != dest);
        }
    }
    assert forall|j: int| 0 <= j < q1.len() implies d1[#[trigger] q1[j] as int] <= j by {
        if j < q0.len() {
            assert(q1[j] == q0[j]);
            assert(q0[j] != dest);
        }
    }
}

/// What holds of the source and target of edge `t` while processing its source.
proof fn lemma_step_facts(
    n: nat,
    es: Seq<(nat, nat)>,
    kinds: Seq<u16>,
    st: Seq<u8>,
    q: Seq<nat>,
    head: nat,
    d: Seq<nat>,
    s: nat,
    t: int,
)
    requires
        kahn_inv(n, es, kinds, st, q, head, d, s, t),
        graph_ok(n, es),
        0 <= t < es.len(),
        es[t].0 == s,
        1 <= head <= q.len(),
        q[head - 1] == s,
    ensures
        st[s as int] == 2,
        d[s as int] <= head - 1,
        st[es[t].1 as int] == 0,
        d.len() == n && st.len() == n && kinds.len() == n,
        d[es[t].1 as int] <= head,
{
    reveal(queue_ok);
    reveal(queued_done);
    reveal(depth_inv);
    reveal(depth_bounds);
    assert(q[head - 1] == s);
    let dest = es[t].1;
    if q.contains(dest) {
        let j = choose|j: int| 0 <= j < q.len() && q[j] == dest;
        assert(es[t].1 == q[j]);
        assert(edge_done(es, st, s, t, t));
    }
}

/// Past edges that leave other components are unaffected by moving on.
proof fn lemma_skip_edge(
    n: nat,
    es: Seq<(nat, nat)>,
    kinds: Seq<u16>,
    st: Seq<u8>,
    q: Seq<nat>,
    head: nat,
    d: Seq<nat>,
    s: nat,
    t: int,
)
    requires
        kahn_inv(n, es, kinds, st, q, head, d, s, t),
        0 <= t < es.len(),
        es[t].0 != s,
    ensures
        kahn_inv(n, es, kinds, st, q, head, d, s, t + 1),
{
    reveal(queued_done);
    reveal(closed);
    reveal(depth_inv);
    assert forall|k: int| 0 <= k < es.len() implies edge_done(es, st, s, t + 1, k) == edge_done(es, st, s, t, k) by {}
}

/// Take edge `t` into account while processing source `s`.
#[verifier::spinoff_prover]
#[verifier::rlimit(60)]
/// Component `v` has no incoming edge.
pub open spec fn is_source(es: Seq<(nat, nat)>, v: nat) -> bool {
    forall|k: int| 0 <= k < es.len() ==> (#[trigger] es[k]).1 != v
}

/// Position `p` of `topo` holds the latest of `v`'s predecessors: an edge
/// leads from `topo[p]` to `v`, and every predecessor of `v` stands at or
/// before `p`.
pub open spec fn last_pred_at(es: Seq<(nat, nat)>, topo: Seq<nat>, v: nat, p: int) -> bool {
    &&& 0 <= p < topo.len()
    &&& exists|k: int| 0 <= k < es.len() && #[trigger] es[k] == (topo[p], v)
    &&& forall|k: int|
        0 <= k < es.len() && (#[trigger] es[k]).1 == v ==> exists|i: int| 0 <= i <= p && #[trigger] topo[i] == es[k].0
}

/// `u` comes before `v` in Kahn's first-in-first-out order: components
/// without incoming edges first, by index; then by the position of the
/// latest predecessor, ties by index.
pub open spec fn fifo_before(es: Seq<(nat, nat)>, topo: Seq<nat>, u: nat, v: nat) -> bool {
    if is_source(es, v) {
        is_source(es, u) && u < v
    } else {
        is_source(es, u) || forall|pu: int, pv: int|
            #![trigger last_pred_at(es, topo, u, pu), last_pred_at(es, topo, v, pv)]
            last_pred_at(es, topo, u, pu) && last_pred_at(es, topo, v, pv) ==> pu < pv || (pu == pv && u < v)
    }
}

/// `topo` is in Kahn's order: the sources by increasing index, then each
/// component as the last of its predecessors is taken off the queue, the
/// successors of one component by increasing index.
pub open spec fn fifo_order(es: Seq<(nat, nat)>, topo: Seq<nat>) -> bool {
    forall|a: int, b: int| 0 <= a < b < topo.len() ==> fifo_before(es, topo, #[trigger] topo[a], #[trigger] topo[b])
}

/// The order so far, and each queued component placed after the latest of
/// its predecessors among the first `head`.
pub open spec fn fifo_base(es: Seq<(nat, nat)>, q: Seq<nat>, head: int) -> bool {
    &&& fifo_order(es, q)
    &&& forall|j: int|
        0 <= j < q.len() && !is_source(es, #[trigger] q[j]) ==> exists|p: int| 0 <= p < head && last_pred_at(es, q, q[j], p)
}

/// While processing source `s` (at `head - 1`) up to edge `t`: what was
/// queued for `s` came through an earlier edge of `s`.
pub open spec fn fifo_inv(es: Seq<(nat, nat)>, q: Seq<nat>, head: int, s: nat, t: int) -> bool {
    &&& fifo_base(es, q, head)
    &&& forall|j: int|
        0 <= j < q.len() && #[trigger] last_pred_at(es, q, q[j], head - 1) ==> exists|k: int|
            0 <= k < t && (#[trigger] es[k]).0 == s && es[k].1 == q[j]
}

proof fn lemma_lpa_unique(es: Seq<(nat, nat)>, q: Seq<nat>, v: nat, p1: int, p2: int)
    requires
        q.no_duplicates(),
        last_pred_at(es, q, v, p1),
        last_pred_at(es, q, v, p2),
    ensures
        p1 == p2,
{
    let k1 = choose|k: int| 0 <= k < es.len() && #[trigger] es[k] == (q[p1], v);
    let k2 = choose|k: int| 0 <= k < es.len() && #[trigger] es[k] == (q[p2], v);
    let i1 = choose|i: int| 0 <= i <= p2 && #[trigger] q[i] == es[k1].0;
    let i2 = choose|i: int| 0 <= i <= p1 && #[trigger] q[i] == es[k2].0;
    assert(q[i1] == q[p1]);
    assert(q[i2] == q[p2]);
}

proof fn lemma_lpa_push(es: Seq<(nat, nat)>, q: Seq<nat>, x: nat, v: nat, p: int)
    requires
        p < q.len(),
    ensures
        last_pred_at(es, q.push(x), v, p) == last_pred_at(es, q, v, p),
{
    let q1 = q.push(x);
    if 0 <= p {
        assert(q1[p] == q[p]);
        if last_pred_at(es, q1, v, p) {
            assert forall|k: int| 0 <= k < es.len() && (#[trigger] es[k]).1 == v implies exists|i: int|
                0 <= i <= p && #[trigger] q[i] == es[k].0 by {
                let i = choose|i: int| 0 <= i <= p && #[trigger] q1[i] == es[k].0;
                assert(q[i] == q1[i]);
            }
        }
        if last_pred_at(es, q, v, p) {
            assert forall|k: int| 0 <= k < es.len() && (#[trigger] es[k]).1 == v implies exists|i: int|
                0 <= i <= p && #[trigger] q1[i] == es[k].0 by {
                let i = choose|i: int| 0 <= i <= p && #[trigger] q[i] == es[k].0;
                assert(q[i] == q1[i]);
            }
        }
    }
}

/// Taking the next source off the queue.
proof fn lemma_fifo_pop(es: Seq<(nat, nat)>, q: Seq<nat>, head: int)
    requires
        fifo_base(es, q, head),
        q.no_duplicates(),
        0 <= head < q.len(),
    ensures
        fifo_inv(es, q, head + 1, q[head], 0),
{
    assert forall|j: int| 0 <= j < q.len() && !is_source(es, #[trigger] q[j]) implies exists|p: int|
        0 <= p < head + 1 && last_pred_at(es, q, q[j], p) by {
        let p = choose|p: int| 0 <= p < head && last_pred_at(es, q, q[j], p);
    }
    assert forall|j: int| 0 <= j < q.len() && #[trigger] last_pred_at(es, q, q[j], head) implies exists|k: int|
        0 <= k < 0 && (#[trigger] es[k]).0 == q[head] && es[k].1 == q[j] by {
        let k = choose|k: int| 0 <= k < es.len() && #[trigger] es[k] == (q[head], q[j]);
        assert(!is_source(es, q[j]));
        let p = choose|p: int| 0 <= p < head && last_pred_at(es, q, q[j], p);
        lemma_lpa_unique(es, q, q[j], p, head);
    }
}

/// An edge that queues nothing.
proof fn lemma_fifo_skip(es: Seq<(nat, nat)>, q: Seq<nat>, head: int, s: nat, t: int)
    requires
        fifo_inv(es, q, head, s, t),
    ensures
        fifo_inv(es, q, head, s, t + 1),
{
    assert forall|j: int| 0 <= j < q.len() && #[trigger] last_pred_at(es, q, q[j], head - 1) implies exists|k: int|
        0 <= k < t + 1 && (#[trigger] es[k]).0 == s && es[k].1 == q[j] by {
        let k = choose|k: int| 0 <= k < t && (#[trigger] es[k]).0 == s && es[k].1 == q[j];
    }
}

/// Edge `t` from `s` queues `dest`, whose other predecessors are all taken
/// off the queue.
proof fn lemma_fifo_push(es: Seq<(nat, nat)>, q: Seq<nat>, head: int, s: nat, t: int, dest: nat)
    requires
        fifo_inv(es, q, head, s, t),
        q.no_duplicates(),
        !q.contains(dest),
        1 <= head <= q.len(),
        q[head - 1] == s,
        0 <= t < es.len(),
        es[t] == (s, dest),
        strictly_sorted(es),
        forall|k: int| 0 <= k < es.len() && (#[trigger] es[k]).1 == dest ==> exists|i: int|
            0 <= i < head && #[trigger] q[i] == es[k].0,
        forall|j: int, k: int|
            0 <= j < q.len() && 0 <= k < es.len() && es[k].1 == #[trigger] q[j] ==> exists|i: int|
                0 <= i < j && #[trigger] q[i] == (#[trigger] es[k]).0,
    ensures
        fifo_inv(es, q.push(dest), head, s, t + 1),
{
    let q1 = q.push(dest);
    assert(q1[q.len() as int] == dest);
    assert(!is_source(es, dest));
    // dest is placed after its latest predecessor, `s`.
    assert(last_pred_at(es, q1, dest, head - 1)) by {
        assert(q1[head - 1] == s);
        assert(es[t] == (q1[head - 1], dest));
        assert forall|k: int| 0 <= k < es.len() && (#[trigger] es[k]).1 == dest implies exists|i: int|
            0 <= i <= head - 1 && #[trigger] q1[i] == es[k].0 by {
            let i = choose|i: int| 0 <= i < head && #[trigger] q[i] == es[k].0;
            assert(q1[i] == q[i]);
        }
    }
    assert(q1.no_duplicates()) by {
        assert forall|a: int, b: int| 0 <= a < b < q1.len() implies q1[a] != q1[b] by {
            if b == q.len() {
                assert(q1[a] == q[a]);
                if q[a] == dest {
                    assert(q.contains(dest));
                }
            } else {
                assert(q1[a] == q[a] && q1[b] == q[b]);
            }
        }
    }
    // For a component already queued, the latest predecessor is the same.
    assert forall|j: int, p: int| 0 <= j < q.len() && #[trigger] last_pred_at(es, q1, q[j], p) implies last_pred_at(
        es,
        q,
        q[j],
        p,
    ) by {
        if p == q.len() {
            let k = choose|k: int| 0 <= k < es.len() && #[trigger] es[k] == (q1[p], q[j]);
            let i = choose|i: int| 0 <= i < j && #[trigger] q[i] == (#[trigger] es[k]).0;
            assert(q.contains(dest));
        } else {
            lemma_lpa_push(es, q, dest, q[j], p);
        }
    }
    assert forall|a: int, b: int| 0 <= a < b < q1.len() implies fifo_before(es, q1, #[trigger] q1[a], #[trigger] q1[b]) by {
        let u = q1[a];
        let v = q1[b];
        assert(u == q[a]);
        if b < q.len() {
            assert(v == q[b]);
            assert(fifo_before(es, q, q[a], q[b]));
            if !is_source(es, v) && !is_source(es, u) {
                assert forall|pu: int, pv: int|
                    last_pred_at(es, q1, u, pu) && last_pred_at(es, q1, v, pv) implies pu < pv || (pu == pv && u < v) by {
                    assert(last_pred_at(es, q, q[a], pu));
                    assert(last_pred_at(es, q, q[b], pv));
                }
            }
        } else {
            assert(v == dest);
            if !is_source(es, u) {
                assert forall|pu: int, pv: int|
                    last_pred_at(es, q1, u, pu) && last_pred_at(es, q1, v, pv) implies pu < pv || (pu == pv && u < v) by {
                    lemma_lpa_unique(es, q1, dest, pv, head - 1);
                    assert(last_pred_at(es, q, q[a], pu));
                    let p0 = choose|p: int| 0 <= p < head && last_pred_at(es, q, q[a], p);
                    lemma_lpa_unique(es, q, q[a], pu, p0);
                    if pu == head - 1 {
                        let k = choose|k: int| 0 <= k < t && (#[trigger] es[k]).0 == s && es[k].1 == q[a];
                        assert(pair_lt(es[k], es[t]));
                    }
                }
            }
        }
    }
    assert forall|j: int| 0 <= j < q1.len() && !is_source(es, #[trigger] q1[j]) implies exists|p: int|
        0 <= p < head && last_pred_at(es, q1, q1[j], p) by {
        if j < q.len() {
            assert(q1[j] == q[j]);
            let p = choose|p: int| 0 <= p < head && last_pred_at(es, q, q[j], p);
            lemma_lpa_push(es, q, dest, q[j], p);
        } else {
            assert(last_pred_at(es, q1, q1[j], head - 1));
        }
    }
    assert forall|j: int| 0 <= j < q1.len() && #[trigger] last_pred_at(es, q1, q1[j], head - 1) implies exists|k: int|
        0 <= k < t + 1 && (#[trigger] es[k]).0 == s && es[k].1 == q1[j] by {
        if j < q.len() {
            assert(q1[j] == q[j]);
            assert(last_pred_at(es, q, q[j], head - 1));
            let k = choose|k: int| 0 <= k < t && (#[trigger] es[k]).0 == s && es[k].1 == q[j];
        } else {
            assert(es[t].0 == s && es[t].1 == q1[j]);
        }
    }
}

proof fn lemma_fifo_edge(
    n: nat, es: Seq<(nat, nat)>, kinds: Seq<u16>, st0: Seq<u8>, q0: Seq<nat>, d0: Seq<nat>,
    st1: Seq<u8>, q1: Seq<nat>, d1: Seq<nat>, head: nat, s: nat, t: int, ready: bool,
)
    requires
        edge_step(n, es, kinds, st0, q0, d0, st1, q1, d1, head, s, t, ready),
        queue_ok(n, st0, q0, head),
        queue_ordered(es, q0),
        fifo_inv(es, q0, head as int, s, t),
    ensures
        fifo_inv(es, q1, head as int, s, t + 1),
{
    reveal(queue_ok);
    reveal(queue_ordered);
    if ready {
        let dest = es[t].1;
        assert(!q0.contains(dest));
        assert forall|k: int| 0 <= k < es.len() && (#[trigger] es[k]).1 == dest implies exists|i: int|
            0 <= i < head && #[trigger] q0[i] == es[k].0 by {
            assert(st0[es[k].0 as int] == 2);
        }
        lemma_fifo_push(es, q0, head as int, s, t, dest);
    } else {
        lemma_fifo_skip(es, q0, head as int, s, t);
    }
}

fn process_edge(
    edges: &Vec<(usize, usize)>,
    kinds: &Vec<u16>,
    state: &mut Vec<u8>,
    queue: &mut Vec<usize>,
    depths: &mut Vec<usize>,
    head: usize,
    s: usize,
    t: usize,
)
    requires
        graph_ok(kinds@.len(), edge_views(edges@)),
        t < edges@.len(),
        1 <= head,
        head <= old(queue)@.len(),
        old(queue)@[head - 1] == s,
        kahn_inv(
            kinds@.len(),
            edge_views(edges@),
            kinds@,
            old(state)@,
            usize_seq_nat(old(queue)@),
            head as nat,
            usize_seq_nat(old(depths)@),
            s as nat,
            t as int,
        ),
        fifo_inv(edge_views(edges@), usize_seq_nat(old(queue)@), head as int, s as nat, t as int),
    ensures
        fifo_inv(edge_views(edges@), usize_seq_nat(final(queue)@), head as int, s as nat, t + 1),
        kahn_inv(
            kinds@.len(),
            edge_views(edges@),
            kinds@,
            final(state)@,
            usize_seq_nat(final(queue)@),
            head as nat,
            usize_seq_nat(final(depths)@),
            s as nat,
            t + 1,
        ),
        head <= final(queue)@.len(),
        final(queue)@[head - 1] == s,
        final(state)@[s as int] == old(state)@[s as int],
{
    let ghost n = kinds@.len();
    let ghost es = edge_views(edges@);
    let ghost st0 = state@;
    let ghost q0 = usize_seq_nat(queue@);
    let ghost d0 = usize_seq_nat(depths@);
    let (src, dest) = edges[t];
    assert(es[t as int] == (src as nat, dest as nat));
    if src != s {
        proof {
            lemma_skip_edge(n, es, kinds@, st0, q0, head as nat, d0, s as nat, t as int);
            lemma_fifo_skip(es, q0, head as int, s as nat, t as int);
        }
        return;
    }
    proof {
        lemma_step_facts(n, es, kinds@, st0, q0, head as nat, d0, s as nat, t as int);
        assert(q0[head - 1] == s as nat);
        assert(dest != s);
    }
    let w = kind_weight(kinds[dest]);
    let cand = depths[s] + w;
    if depths[dest] < cand {
        depths.set(dest, cand);
    }
    assert forall|k: int| 0 <= k < edges@.len() implies (#[trigger] edges@[k]).0 < state@.len() by {
        assert(es[k] == (edges@[k].0 as nat, edges@[k].1 as nat));
    }
    let ready = preds_done(edges, state, dest);
    if ready {
        queue.push(dest);
        state.set(dest, 1);
    }
    proof {
        let st1 = state@;
        let q1 = usize_seq_nat(queue@);
        let d1 = usize_seq_nat(depths@);
        assert(q1 =~= if ready { q0.push(dest as nat) } else { q0 });
        assert(d1 =~= d0.update(
            dest as int,
            if d0[dest as int] < d0[s as int] + weight(kinds@[dest as int]) {
                (d0[s as int] + weight(kinds@[dest as int])) as nat
            } else {
                d0[dest as int]
            },
        ));
        let spec_ready = forall|k: int| 0 <= k < es.len() && (#[trigger] es[k]).1 == es[t as int].1 ==> st0[es[k].0 as int] == 2;
        if ready {
            assert forall|k: int| 0 <= k < es.len() && (#[trigger] es[k]).1 == es[t as int].1 implies st0[es[k].0 as int] == 2 by {
                assert(es[k] == (edges@[k].0 as nat, edges@[k].1 as nat));
                assert(edges@[k].1 == dest);
            }
        }
        if spec_ready {
            assert forall|k: int| 0 <= k < edges@.len() && (#[trigger] edges@[k]).1 == dest implies st0[edges@[k].0 as int] == 2 by {
                assert(es[k] == (edges@[k].0 as nat, edges@[k].1 as nat));
            }
        }
        assert(ready == spec_ready);
        assert(edge_step(n, es, kinds@, st0, q0, d0, st1, q1, d1, head as nat, s as nat, t as int, ready));
        lemma_step_queue(n, es, kinds@, st0, q0, d0, st1, q1, d1, head as nat, s as nat, t as int, ready);
        lemma_step_done_sets(n, es, kinds@, st0, q0, d0, st1, q1, d1, head as nat, s as nat, t as int, ready);
        lemma_step_depth(n, es, kinds@, st0, q0, d0, st1, q1, d1, head as nat, s as nat, t as int, ready);
        lemma_fifo_edge(n, es, kinds@, st0, q0, d0, st1, q1, d1, head as nat, s as nat, t as int, ready);
        assert(q1[head - 1] == s as nat);
    }
}

proof fn lemma_finish_source(
    n: nat,
    es: Seq<(nat, nat)>,
    kinds: Seq<u16>,
    st: Seq<u8>,
    q: Seq<nat>,
    head: nat,
    d: Seq<nat>,
    s: nat,
)
    requires
        kahn_inv(n, es, kinds, st, q, head, d, s, es.len() as int),
        graph_ok(n, es),
        s < n,
        st[s as int] == 2,
    ensures
        kahn_inv(n, es, kinds, st, q, head, d, n, 0),
{
    reveal(queue_ok);
    reveal(queued_done);
    reveal(closed);
    reveal(depth_inv);
    assert forall|k: int| 0 <= k < es.len() implies edge_done(es, st, n, 0, k) == edge_done(es, st, s, es.len() as int, k) by {
        assert(es[k].0 < n);
    }
}

/// A queue without repeats, of components below `n`, holds at most `n` entries.
proof fn lemma_queue_len(q: Seq<nat>, n: nat)
    requires
        q.no_duplicates(),
        forall|j: int| 0 <= j < q.len() ==> #[trigger] q[j] < n,
    ensures
        q.len() <= n,
{
    let qi = q.map_values(|x: nat| x as int);
    q.lemma_no_duplicates_injective(|x: nat| x as int);
    qi.unique_seq_to_set();
    vstd::set_lib::lemma_int_range(0, n as int);
    assert forall|x: int| qi.to_set().contains(x) implies vstd::set_lib::set_int_range(0, n as int).contains(x) by {
        let j = choose|j: int| 0 <= j < qi.len() && qi[j] == x;
        assert(q[j] < n);
    }
    vstd::set_lib::lemma_len_subset(qi.to_set(), vstd::set_lib::set_int_range(0, n as int));
}

proof fn lemma_pop_source(
    n: nat,
    es: Seq<(nat, nat)>,
    kinds: Seq<u16>,
    st: Seq<u8>,
    q: Seq<nat>,
    head: nat,
    d: Seq<nat>,
)
    requires
        kahn_inv(n, es, kinds, st, q, head, d, n, 0),
        graph_ok(n, es),
        head < q.len(),
    ensures
        kahn_inv(n, es, kinds, st.update(q[head as int] as int, 2), q, head + 1, d, q[head as int], 0),
        q[head as int] < n,
        st.len() == n,
        st[q[head as int] as int] == 1,
{
    reveal(queue_ok);
    reveal(queue_ordered);
    reveal(queued_done);
    reveal(closed);
    reveal(depth_inv);
    reveal(depth_bounds);
    let s = q[head as int];
    let st1 = st.update(s as int, 2);
    assert(q.contains(s));
    assert(st[s as int] != 2) by {
        if st[s as int] == 2 {
            let j = choose|j: int| 0 <= j < head && #[trigger] q[j] == s as int;
            assert(q[j] == q[head as int]);
        }
    }
    assert forall|k: int| 0 <= k < es.len() implies edge_done(es, st1, s, 0, k) == edge_done(es, st, n, 0, k) by {
        if es[k].0 == s {
            assert(st[s as int] != 2);
        }
    }
    assert forall|v: int| 0 <= v < n implies (st1[v] == 2 <==> exists|j: int| 0 <= j < head + 1 && #[trigger] q[j] == v) by {
        if v == s {
            assert(q[head as int] == v);
        } else if exists|j: int| 0 <= j < head + 1 && #[trigger] q[j] == v {
            let j = choose|j: int| 0 <= j < head + 1 && #[trigger] q[j] == v;
            assert(j < head);
        }
    }
}

/// A component has no incoming edge.
fn no_pred(edges: &Vec<(usize, usize)>, v: usize) -> (r: bool)
    ensures
        r == forall|k: int| 0 <= k < edges@.len() ==> (#[trigger] edges@[k]).1 != v,
{
    let mut k: usize = 0;
    while k < edges.len()
        invariant
            k <= edges@.len(),
            forall|m: int| 0 <= m < k ==> (#[trigger] edges@[m]).1 != v,
        decreases edges@.len() - k,
    {
        if edges[k].1 == v {
            return false;
        }
        k = k + 1;
    }
    true
}

/// The starting state of Kahn's algorithm: components without incoming
/// edges queued in increasing order, nothing processed, all depths 0.
#[verifier::rlimit(40)]
fn kahn_init(edges: &Vec<(usize, usize)>, kinds: &Vec<u16>) -> (r: (Vec<u8>, Vec<usize>, Vec<usize>))
    requires
        graph_ok(kinds@.len(), edge_views(edges@)),
    ensures
        kahn_inv(
            kinds@.len(),
            edge_views(edges@),
            kinds@,
            r.0@,
            usize_seq_nat(r.1@),
            0,
            usize_seq_nat(r.2@),
            kinds@.len(),
            0,
        ),
        r.1@.len() <= kinds@.len(),
        fifo_base(edge_views(edges@), usize_seq_nat(r.1@), 0),
{
    let n = kinds.len();
    let ghost es = edge_views(edges@);
    assert forall|k: int| 0 <= k < edges@.len() implies (#[trigger] edges@[k]).0 < n && edges@[k].1 < n && edges@[k].0 != edges@[k].1 by {
        assert(es[k] == (edges@[k].0 as nat, edges@[k].1 as nat));
    }
    let mut state: Vec<u8> = Vec::new();
    let mut depths: Vec<usize> = Vec::new();
    let mut queue: Vec<usize> = Vec::new();
    let mut v: usize = 0;
    while v < n
        invariant
            v <= n,
            n == kinds@.len(),
            state@.len() == v,
            depths@.len() == v,
            forall|u: int| 0 <= u < v ==> #[trigger] depths@[u] == 0,
            queue@.no_duplicates(),
            forall|j: int| 0 <= j < queue@.len() ==> #[trigger] queue@[j] < v,
            forall|u: int| 0 <= u < v ==> (#[trigger] state@[u] == 1 <==> queue@.contains(u as usize)),
            forall|u: int| 0 <= u < v ==> (state@[u] == 1 <==> forall|k: int| 0 <= k < edges@.len() ==> (#[trigger] edges@[k]).1 != u),
            forall|u: int| 0 <= u < v ==> (#[trigger] state@[u] == 0 || state@[u] == 1),
            forall|a: int, b: int| 0 <= a < b < queue@.len() ==> #[trigger] queue@[a] < #[trigger] queue@[b],
            forall|j: int| 0 <= j < queue@.len() ==> forall|k: int| 0 <= k < edges@.len() ==> (#[trigger] edges@[k]).1 != #[trigger] queue@[j],
        decreases n - v,
    {
        depths.push(0);
        if no_pred(edges, v) {
            let ghost before = queue@;
            queue.push(v);
            state.push(1);
            assert forall|a: int, b: int| 0 <= a < b < queue@.len() implies queue@[a] != queue@[b] by {
                if b == queue@.len() - 1 {
                    assert(queue@[a] == before[a]);
                }
            }
            assert forall|u: int| 0 <= u < v + 1 implies (#[trigger] state@[u] == 1 <==> queue@.contains(u as usize)) by {
                if u < v && queue@.contains(u as usize) {
                    let j = choose|j: int| 0 <= j < queue@.len() && queue@[j] == u as usize;
                    assert(j < before.len());
                    assert(before[j] == u as usize);
                }
                if u < v && before.contains(u as usize) {
                    let j = choose|j: int| 0 <= j < before.len() && before[j] == u as usize;
                    assert(queue@[j] == u as usize);
                }
                if u == v {
                    assert(queue@[queue@.len() - 1] == v);
                }
            }
        } else {
            state.push(0);
        }
        v = v + 1;
    }
    proof {
        let sentinel = n as nat;
        let st = state@;
        let q = usize_seq_nat(queue@);
        let d = usize_seq_nat(depths@);
        reveal(queue_ok);
        reveal(queue_ordered);
        reveal(queued_done);
        reveal(closed);
        reveal(depth_inv);
        reveal(depth_bounds);
        assert forall|k: int| 0 <= k < es.len() implies !edge_done(es, st, sentinel, 0, k) by {
            assert(st[es[k].0 as int] <= 1);
        }
        assert forall|v: int| 0 <= v < n implies (#[trigger] st[v] == 0 <==> !q.contains(v as nat)) by {
            if q.contains(v as nat) {
                let j = choose|j: int| 0 <= j < q.len() && q[j] == v as nat;
                assert(queue@[j] == v as usize);
            }
            if queue@.contains(v as usize) {
                let j = choose|j: int| 0 <= j < queue@.len() && queue@[j] == v as usize;
                assert(q[j] == v as nat);
            }
        }
        assert forall|j: int, k: int|
            0 <= j < q.len() && 0 <= k < es.len() && (#[trigger] es[k]).1 == #[trigger] q[j] implies edge_done(es, st, sentinel, 0, k) by {
            assert(queue@.contains(queue@[j]));
            assert(state@[queue@[j] as int] == 1);
            assert(edges@[k].1 == queue@[j]);
        }
        assert forall|v: int|
            0 <= v < n && (forall|k: int| 0 <= k < es.len() && (#[trigger] es[k]).1 == v ==> edge_done(es, st, sentinel, 0, k))
                implies #[trigger] st[v] != 0 by {
            assert forall|k: int| 0 <= k < edges@.len() implies (#[trigger] edges@[k]).1 != v by {
                if edges@[k].1 == v {
                    assert(es[k].1 == v);
                }
            }
        }
        assert forall|a: int, b: int| 0 <= a < b < q.len() implies q[a] != q[b] by {
            assert(queue@[a] != queue@[b]);
        }
        assert(kahn_inv(n as nat, es, kinds@, st, q, 0, d, sentinel, 0));
        assert forall|j: int| 0 <= j < q.len() implies is_source(es, #[trigger] q[j]) by {
            assert forall|k: int| 0 <= k < es.len() implies (#[trigger] es[k]).1 != q[j] by {
                assert(edges@[k].1 != queue@[j]);
            }
        }
        assert forall|a: int, b: int| 0 <= a < b < q.len() implies fifo_before(es, q, #[trigger] q[a], #[trigger] q[b]) by {
            assert(queue@[a] < queue@[b]);
            assert(is_source(es, q[a]) && is_source(es, q[b]));
        }
        lemma_queue_len(q, n as nat);
    }
    (state, queue, depths)
}

/// Run Kahn's algorithm from `kahn_init`'s state until the queue is exhausted.
#[verifier::loop_isolation(false)]
fn kahn_run(
    edges: &Vec<(usize, usize)>,
    kinds: &Vec<u16>,
    state: &mut Vec<u8>,
    queue: &mut Vec<usize>,
    depths: &mut Vec<usize>,
)
    requires
        graph_ok(kinds@.len(), edge_views(edges@)),
        kahn_inv(
            kinds@.len(),
            edge_views(edges@),
            kinds@,
            old(state)@,
            usize_seq_nat(old(queue)@),
            0,
            usize_seq_nat(old(depths)@),
            kinds@.len(),
            0,
        ),
        old(queue)@.len() <= kinds@.len(),
        fifo_base(edge_views(edges@), usize_seq_nat(old(queue)@), 0),
    ensures
        fifo_base(edge_views(edges@), usize_seq_nat(final(queue)@), final(queue)@.len() as int),
        kahn_inv(
            kinds@.len(),
            edge_views(edges@),
            kinds@,
            final(state)@,
            usize_seq_nat(final(queue)@),
            final(queue)@.len() as nat,
            usize_seq_nat(final(depths)@),
            kinds@.len(),
            0,
        ),
{
    let n = kinds.len();
    let ghost es = edge_views(edges@);
    let ghost sentinel = n as nat;
    let mut head: usize = 0;
    while head < queue.len()
        invariant
            n == kinds@.len(),
            graph_ok(n as nat, es),
            es == edge_views(edges@),
            sentinel == n as nat,
            queue@.len() <= n,
            kahn_inv(n as nat, es, kinds@, state@, usize_seq_nat(queue@), head as nat, usize_seq_nat(depths@), sentinel, 0),
            fifo_base(es, usize_seq_nat(queue@), head as int),
        decreases n - head,
    {
        let s = queue[head];
        proof {
            lemma_pop_source(n as nat, es, kinds@, state@, usize_seq_nat(queue@), head as nat, usize_seq_nat(depths@));
            reveal(queue_ok);
            lemma_fifo_pop(es, usize_seq_nat(queue@), head as int);
        }
        state.set(s, 2);
        head = head + 1;
        let mut t: usize = 0;
        while t < edges.len()
            invariant
                n == kinds@.len(),
                graph_ok(n as nat, es),
                es == edge_views(edges@),
                1 <= head <= queue@.len(),
                queue@[head - 1] == s,
                s < n,
                t <= edges@.len(),
                state@[s as int] == 2,
                kahn_inv(n as nat, es, kinds@, state@, usize_seq_nat(queue@), head as nat, usize_seq_nat(depths@), s as nat, t as int),
                fifo_inv(es, usize_seq_nat(queue@), head as int, s as nat, t as int),
            decreases edges@.len() - t,
        {
            process_edge(edges, kinds, state, queue, depths, head, s, t);
            t = t + 1;
        }
        proof {
            lemma_finish_source(n as nat, es, kinds@, state@, usize_seq_nat(queue@), head as nat, usize_seq_nat(depths@), s as nat);
            reveal(queue_ok);
            lemma_queue_len(usize_seq_nat(queue@), n as nat);
        }
    }
    proof {
        reveal(queue_ok);
    }
}

/// The largest entry (0 when empty).
fn max_of(v: &Vec<usize>) -> (m: usize)
    ensures
        is_max(usize_seq_nat(v@), m as nat),
{
    let mut m: usize = 0;
    let mut i: usize = 0;
    while i < v.len()
        invariant
            i <= v@.len(),
            forall|k: int| 0 <= k < i ==> #[trigger] v@[k] <= m,
            (i == 0 && m == 0) || exists|k: int| 0 <= k < i && #[trigger] v@[k] == m,
        decreases v@.len() - i,
    {
        if v[i] > m {
            m = v[i];
        }
        i = i + 1;
    }
    let ghost d = usize_seq_nat(v@);
    assert forall|k: int| 0 <= k < d.len() implies #[trigger] d[k] <= m as nat by {
        assert(v@[k] <= m);
    }
    if v.len() > 0 {
        let ghost k = choose|k: int| 0 <= k < v@.len() && #[trigger] v@[k] == m;
        assert(d[k] == m as nat);
    }
    m
}

/// Kahn's topological order (FIFO, successors by increasing index), each
/// component's 0/1-weighted depth, and the largest depth.
fn kahn(edges: &Vec<(usize, usize)>, kinds: &Vec<u16>) -> (r: (Vec<usize>, Vec<usize>, usize))
    requires
        graph_ok(kinds@.len(), edge_views(edges@)),
    ensures
        topo_ok(kinds@.len(), edge_views(edges@), usize_seq_nat(r.0@)),
        depth_ok(edge_views(edges@), usize_seq_nat(r.0@), kinds@, usize_seq_nat(r.1@)),
        is_max(usize_seq_nat(r.1@), r.2 as nat),
        fifo_order(edge_views(edges@), usize_seq_nat(r.0@)),
{
    let (mut state, mut queue, mut depths) = kahn_init(edges, kinds);
    kahn_run(edges, kinds, &mut state, &mut queue, &mut depths);
    let unit = max_of(&depths);
    proof {
        lemma_kahn_result(
            kinds@.len(),
            edge_views(edges@),
            kinds@,
            state@,
            usize_seq_nat(queue@),
            queue@.len() as nat,
            usize_seq_nat(depths@),
        );
    }
    (queue, depths, unit)
}

proof fn lemma_kahn_result(
    n: nat,
    es: Seq<(nat, nat)>,
    kinds: Seq<u16>,
    st: Seq<u8>,
    q: Seq<nat>,
    head: nat,
    d: Seq<nat>,
)
    requires
        kahn_inv(n, es, kinds, st, q, head, d, n, 0),
        head == q.len(),
        graph_ok(n, es),
    ensures
        topo_ok(n, es, q),
        depth_ok(es, q, kinds, d),
{
    reveal(queue_ok);
    reveal(queue_ordered);
    reveal(closed);
    reveal(depth_inv);
    assert forall|u: int| 0 <= u < n implies (st[u] == 2 <==> q.contains(u as nat)) by {
        if q.contains(u as nat) {
            let j = choose|j: int| 0 <= j < q.len() && q[j] == u as nat;
            assert(exists|j: int| 0 <= j < head && #[trigger] q[j] == u);
        }
    }
    assert forall|k: int| 0 <= k < es.len() implies edge_done(es, st, n, 0, k) == q.contains((#[trigger] es[k]).0) by {}
    assert forall|v: nat| v < n && !#[trigger] q.contains(v) implies exists|k: int|
        0 <= k < es.len() && (#[trigger] es[k]).1 == v && !q.contains(es[k].0) by {
        assert(st[v as int] == 0);
        if forall|k: int| 0 <= k < es.len() && (#[trigger] es[k]).1 == v ==> edge_done(es, st, n, 0, k) {
            assert(st[v as int] != 0);
        }
    }
    assert forall|j: int, k: int|
        0 <= j < q.len() && 0 <= k < es.len() && es[k].1 == #[trigger] q[j] implies exists|i: int|
            0 <= i < j && #[trigger] q[i] == (#[trigger] es[k]).0 by {}
}

// ───────────────────────── resolution ─────────────────────────

/// Result of connectivity resolution.
#[derive(Debug)]
pub struct Connectivity {
    pub unsupported_kinds: Vec<u16>,
    pub networks: Vec<Net>,
    pub unconnected_pins: Vec<PositionedPin>,
    pub connected_pin_count: usize,
    /// Directed edges `(driver_component_index, receiver_component_index)`.
    pub edges: Vec<(usize, usize)>,
    /// Component indices in evaluation order (topological; input components first).
    pub topo_order: Vec<usize>,
    pub unit_logic_depth: usize,
}

pub open spec fn unsupported_pred() -> spec_fn(ComponentV) -> bool {
    |c: ComponentV| specs_for(c) is None
}

/// The kinds of the components without a known layout, in component order.
pub open spec fn unsupported_kinds(cs: Seq<ComponentV>) -> Seq<u16> {
    cs.filter(unsupported_pred()).map_values(|c: ComponentV| c.kind)
}

/// Decimal kinds separated by commas.
pub open spec fn join_kinds(ks: Seq<u16>) -> Seq<char>
    decreases ks.len(),
{
    if ks.len() == 0 {
        Seq::empty()
    } else if ks.len() == 1 {
        dec_nat(ks[0] as nat)
    } else {
        join_kinds(ks.drop_last()) + ","@ + dec_nat(ks.last() as nat)
    }
}

pub open spec fn unconnected_pred(ws: Seq<WireV>) -> spec_fn(PositionedPinV) -> bool {
    |p: PositionedPinV| pin_net(ws, p) is None
}

pub open spec fn component_kinds(cs: Seq<ComponentV>) -> Seq<u16> {
    cs.map_values(|c: ComponentV| c.kind)
}

/// Every pin and every wire point of the circuit lies in the `i16` coordinate range.
pub open spec fn resolve_fits(c: CircuitV) -> bool {
    &&& forall|i: int| 0 <= i < c.components.len() ==> placement_fits(#[trigger] c.components[i])
    &&& forall|i: int| 0 <= i < c.wires.len() ==> path_fits(#[trigger] c.wires[i])
}

/// The kinds of components without a known layout.
fn find_unsupported(components: &Vec<Component>) -> (r: Vec<u16>)
    ensures
        r@ == unsupported_kinds(component_views(components@)),
{
    let ghost cs = component_views(components@);
    let ghost f = unsupported_pred();
    let mut r: Vec<u16> = Vec::new();
    let mut i: usize = 0;
    assert(cs.take(0) =~= Seq::<ComponentV>::empty());
    proof {
        reveal(Seq::filter);
    }
    assert(r@ =~= cs.take(0).filter(f).map_values(|c: ComponentV| c.kind));
    while i < components.len()
        invariant
            i <= components@.len(),
            cs == component_views(components@),
            f == unsupported_pred(),
            r@ == cs.take(i as int).filter(f).map_values(|c: ComponentV| c.kind),
        decreases components@.len() - i,
    {
        let ghost t = cs.take(i + 1);
        assert(t.drop_last() =~= cs.take(i as int));
        assert(t.last() == components@[i as int]@);
        proof {
            reveal(Seq::filter);
        }
        let spec_missing = pin_specs_for(&components[i]);
        let missing = spec_missing.is_none();
        assert(missing == f(t.last()));
        if missing {
            r.push(components[i].kind);
        }
        assert(r@ =~= t.filter(f).map_values(|c: ComponentV| c.kind));
        i = i + 1;
    }
    assert(cs.take(cs.len() as int) =~= cs);
    r
}

/// `UNSUPPORTED_COMPONENT_KINDS|` followed by the kinds, comma-separated.
fn unsupported_message(kinds: &Vec<u16>) -> (s: String)
    ensures
        s@ == "UNSUPPORTED_COMPONENT_KINDS|"@ + join_kinds(kinds@),
{
    let mut v: Vec<char> = Vec::new();
    push_str(&mut v, "UNSUPPORTED_COMPONENT_KINDS|");
    let ghost start = v@;
    let mut i: usize = 0;
    assert(kinds@.take(0) =~= Seq::<u16>::empty());
    assert(v@ =~= start + join_kinds(kinds@.take(0)));
    while i < kinds.len()
        invariant
            i <= kinds@.len(),
            v@ == start + join_kinds(kinds@.take(i as int)),
        decreases kinds@.len() - i,
    {
        let ghost t = kinds@.take(i + 1);
        assert(t.drop_last() =~= kinds@.take(i as int));
        if i > 0 {
            push_str(&mut v, ",");
        }
        push_u64(&mut v, kinds[i] as u64);
        assert(v@ =~= start + join_kinds(t));
        i = i + 1;
    }
    assert(kinds@.take(kinds@.len() as int) =~= kinds@);
    chars_to_string(v.as_slice())
}

proof fn lemma_placed_indices(cs: Seq<ComponentV>, n: nat)
    requires
        n <= cs.len(),
    ensures
        forall|k: int| 0 <= k < all_placed(cs, n).len() ==> (#[trigger] all_placed(cs, n)[k]).component_index < n,
    decreases n,
{
    if n > 0 {
        lemma_placed_indices(cs, (n - 1) as nat);
        let a = all_placed(cs, (n - 1) as nat);
        let b = placed(cs[n - 1], (n - 1) as nat);
        assert forall|k: int| 0 <= k < all_placed(cs, n).len() implies (#[trigger] all_placed(cs, n)[k]).component_index < n by {
            if k >= a.len() {
                assert(all_placed(cs, n)[k] == b[k - a.len()]);
            } else {
                assert(all_placed(cs, n)[k] == a[k]);
            }
        }
    }
}

proof fn lemma_first_driver_in(s: Seq<PositionedPinV>)
    requires
        first_driver(s) is Some,
    ensures
        s.contains(first_driver(s)->0),
        first_driver(s)->0.direction != PinDir::Input,
    decreases s.len(),
{
    if s[0].direction == PinDir::Input {
        lemma_first_driver_in(s.drop_first());
        let x = first_driver(s.drop_first())->0;
        let j = choose|j: int| 0 <= j < s.drop_first().len() && s.drop_first()[j] == x;
        assert(s[j + 1] == x);
    } else {
        assert(s[0] == first_driver(s)->0);
    }
}

/// A pin of a network is one of the circuit's pins.
proof fn lemma_net_pin_in(ws: Seq<WireV>, cs: Seq<ComponentV>, nets: Seq<NetV>, k: int, p: PositionedPinV)
    requires
        nets_ok(ws, pins_of(cs), nets),
        0 <= k < nets.len(),
        nets[k].pins.contains(p),
    ensures
        p.component_index < cs.len(),
{
    let np = net_pins(ws, pins_of(cs), nets[k].id as int);
    vstd::seq_lib::to_multiset_contains(nets[k].pins, p);
    vstd::seq_lib::to_multiset_contains(np, p);
    assert(np.contains(p));
    pins_of(cs).lemma_filter_contains_rev(in_net(ws, nets[k].id as int), p);
    lemma_placed_indices(cs, cs.len());
}

proof fn lemma_edges_ok(ws: Seq<WireV>, cs: Seq<ComponentV>, nets: Seq<NetV>, es: Seq<(nat, nat)>)
    requires
        nets_ok(ws, pins_of(cs), nets),
        strictly_sorted(es),
        forall|x: (nat, nat)| es.contains(x) <==> is_edge(nets, x),
    ensures
        graph_ok(cs.len(), es),
{
    assert forall|i: int| 0 <= i < es.len() implies (#[trigger] es[i]).0 < cs.len() && es[i].1 < cs.len() && es[i].0 != es[i].1 by {
        assert(es.contains(es[i]));
        let (k, m) = choose|k: int, m: int|
            0 <= k < nets.len() && 0 <= m < nets[k].pins.len() && #[trigger] edge_from(nets[k], nets[k].pins[m], es[i]);
        let d = nets[k].driver->0;
        assert(nets[k].driver == first_driver(nets[k].pins));
        lemma_first_driver_in(nets[k].pins);
        lemma_net_pin_in(ws, cs, nets, k, d);
        assert(nets[k].pins.contains(nets[k].pins[m]));
        lemma_net_pin_in(ws, cs, nets, k, nets[k].pins[m]);
    }
}

/// The logical endpoints of every wire.
fn wire_endpoints(wires: &Vec<Wire>) -> (ep: Vec<(Point, Point)>)
    requires
        forall|i: int| 0 <= i < wires@.len() ==> path_fits(#[trigger] wires@[i]@),
    ensures
        ends_match(wire_views(wires@), ep@),
{
    let ghost ws = wire_views(wires@);
    let mut ep: Vec<(Point, Point)> = Vec::new();
    let mut i: usize = 0;
    while i < wires.len()
        invariant
            i <= wires@.len(),
            ws == wire_views(wires@),
            forall|k: int| 0 <= k < wires@.len() ==> path_fits(#[trigger] wires@[k]@),
            ep@.len() == i,
            forall|k: int|
                0 <= k < i ==> point_int(#[trigger] ep@[k].0) == ends(ws[k]).0 && point_int(ep@[k].1) == ends(ws[k]).1,
        decreases wires@.len() - i,
    {
        assert(ws[i as int] == wires@[i as int]@);
        let pts = wire_points(&wires[i]);
        assert(wire_path(wires@[i as int]@).len() >= 1);
        assert(point_ints(pts@)[0] == point_int(pts@[0]));
        let last = pts.len() - 1;
        assert(point_ints(pts@)[last as int] == point_int(pts@[last as int]));
        ep.push((pts[0], pts[last]));
        i = i + 1;
    }
    ep
}

/// Each pin's network, the pins attached to none, and how many are attached.
fn attach_pins(
    pins: &Vec<PositionedPin>,
    ep: &Vec<(Point, Point)>,
    ids: &Vec<usize>,
    Ghost(ws): Ghost<Seq<WireV>>,
) -> (r: (Vec<Option<usize>>, Vec<PositionedPin>, usize))
    requires
        ends_match(ws, ep@),
        ids@.len() == ws.len(),
        forall|m: int| 0 <= m < ws.len() ==> is_min_linked(ws, m, #[trigger] ids@[m] as int),
    ensures
        r.0@.len() == pins@.len(),
        forall|m: int|
            0 <= m < pins@.len() ==> match pin_net(ws, #[trigger] pins@[m]@) {
                Some(x) => r.0@[m] == Some(x as usize) && 0 <= x < ws.len(),
                None => r.0@[m] is None,
            },
        pin_views(r.1@) == pin_views(pins@).filter(unconnected_pred(ws)),
        r.2 + r.1@.len() == pins@.len(),
{
    let ghost pv = pin_views(pins@);
    let mut pin_nets: Vec<Option<usize>> = Vec::new();
    let mut unconnected: Vec<PositionedPin> = Vec::new();
    let mut connected: usize = 0;
    let ghost uf = unconnected_pred(ws);
    let mut k: usize = 0;
    assert(pv.take(0) =~= Seq::<PositionedPinV>::empty());
    proof {
        reveal(Seq::filter);
    }
    assert(pin_views(unconnected@) =~= pv.take(0).filter(uf));
    while k < pins.len()
        invariant
            k <= pins@.len(),
            pv == pin_views(pins@),
            uf == unconnected_pred(ws),
            ends_match(ws, ep@),
            ids@.len() == ws.len(),
            forall|m: int| 0 <= m < ws.len() ==> is_min_linked(ws, m, #[trigger] ids@[m] as int),
            pin_nets@.len() == k,
            forall|m: int|
                0 <= m < k ==> match pin_net(ws, #[trigger] pins@[m]@) {
                    Some(x) => pin_nets@[m] == Some(x as usize) && 0 <= x < ws.len(),
                    None => pin_nets@[m] is None,
                },
            pin_views(unconnected@) == pv.take(k as int).filter(uf),
            connected + unconnected@.len() == k,
        decreases pins@.len() - k,
    {
        let ghost t = pv.take(k + 1);
        assert(t.drop_last() =~= pv.take(k as int));
        assert(t.last() == pins@[k as int]@);
        proof {
            reveal(Seq::filter);
        }
        let net = net_lookup(ep, ids, pins[k].position, Ghost(ws));
        let ghost before = unconnected@;
        match net {
            Some(x) => {
                pin_nets.push(Some(x));
                connected = connected + 1;
            },
            None => {
                pin_nets.push(None);
                unconnected.push(copy_pin(&pins[k]));
                assert(pin_views(unconnected@) =~= pin_views(before).push(pins@[k as int]@));
            },
        }
        assert(uf(t.last()) == (net is None));
        assert(pin_views(unconnected@) =~= t.filter(uf));
        k = k + 1;
    }
    assert(pv.take(pv.len() as int) =~= pv);
    (pin_nets, unconnected, connected)
}

/// The kinds of the components, in order.
fn kinds_of(components: &Vec<Component>) -> (r: Vec<u16>)
    ensures
        r@ == component_kinds(component_views(components@)),
{
    let ghost cs = component_views(components@);
    let mut r: Vec<u16> = Vec::new();
    let mut c: usize = 0;
    while c < components.len()
        invariant
            c <= components@.len(),
            r@ == component_kinds(cs).take(c as int),
            cs == component_views(components@),
        decreases components@.len() - c,
    {
        r.push(components[c].kind);
        assert(component_kinds(cs).take(c + 1) =~= component_kinds(cs).take(c as int).push(components@[c as int].kind));
        c = c + 1;
    }
    assert(component_kinds(cs).take(cs.len() as int) =~= component_kinds(cs));
    r
}

/// Resolve the circuit's wiring into a directed component graph.
///
/// Returns an error listing unsupported component kinds so the caller can
/// report them instead of silently producing a wrong topology.
///
/// The networks come out by increasing id and the edges strictly sorted, so
/// that the result does not depend on a hash map's walking order; the edge
/// list holds no pair twice, and Kahn's queue is the order itself with a
/// head index.
pub fn resolve(circuit: &Circuit) -> (r: Result<Connectivity, String>)
    requires
        resolve_fits(circuit@),
    ensures
        r is Err <==> unsupported_kinds(circuit@.components).len() > 0,
        r matches Err(e) ==> e@ == "UNSUPPORTED_COMPONENT_KINDS|"@ + join_kinds(unsupported_kinds(circuit@.components)),
        r matches Ok(conn) ==> {
            let cs = circuit@.components;
            let ws = circuit@.wires;
            let pins = pins_of(cs);
            &&& conn.unsupported_kinds@.len() == 0
            &&& nets_ok(ws, pins, net_views(conn.networks@))
            &&& pin_views(conn.unconnected_pins@) == pins.filter(unconnected_pred(ws))
            &&& conn.connected_pin_count + conn.unconnected_pins@.len() == pins.len()
            &&& strictly_sorted(edge_views(conn.edges@))
            &&& forall|x: (nat, nat)| edge_views(conn.edges@).contains(x) <==> is_edge(net_views(conn.networks@), x)
            &&& topo_ok(cs.len(), edge_views(conn.edges@), usize_seq_nat(conn.topo_order@))
            &&& fifo_order(edge_views(conn.edges@), usize_seq_nat(conn.topo_order@))
            &&& exists|d: Seq<nat>|
                #[trigger] depth_ok(edge_views(conn.edges@), usize_seq_nat(conn.topo_order@), component_kinds(cs), d)
                    && is_max(d, conn.unit_logic_depth as nat)
        },
{
    let components = &circuit.components;
    let kinds = find_unsupported(components);
    if kinds.len() > 0 {
        return Err(unsupported_message(&kinds));
    }
    let ghost cs = circuit@.components;
    let ghost ws = circuit@.wires;
    assert forall|i: int| 0 <= i < circuit.wires@.len() implies path_fits(#[trigger] circuit.wires@[i]@) by {
        assert(ws[i] == circuit.wires@[i]@);
    }
    assert forall|i: int| 0 <= i < components@.len() implies placement_fits(#[trigger] components@[i]@) by {
        assert(cs[i] == components@[i]@);
    }
    // Wire endpoints, unioned by shared position into logical networks.
    let ep = wire_endpoints(&circuit.wires);
    let ids = wire_networks(&ep, Ghost(ws));
    // Position every component's pins and attach them to networks by position.
    let pins = collect_pins(components);
    let (pin_nets, unconnected, connected) = attach_pins(&pins, &ep, &ids, Ghost(ws));
    let networks = build_networks(&pins, &pin_nets, ep.len(), Ghost(ws));
    // Directed edges: each network's driver component feeds its receiver components.
    let edges = collect_edges(&networks);
    let comp_kinds = kinds_of(components);
    proof {
        lemma_edges_ok(ws, cs, net_views(networks@), edge_views(edges@));
    }
    // Kahn's topological sort with a 0/1 depth weight (level I/O are weight 0).
    let (topo, depths, unit) = kahn(&edges, &comp_kinds);
    let ghost d = usize_seq_nat(depths@);
    assert(depth_ok(edge_views(edges@), usize_seq_nat(topo@), component_kinds(cs), d) && is_max(d, unit as nat));
    let conn = Connectivity {
        unsupported_kinds: Vec::new(),
        networks,
        unconnected_pins: unconnected,
        connected_pin_count: connected,
        edges,
        topo_order: topo,
        unit_logic_depth: unit,
    };
    assert(depth_ok(edge_views(conn.edges@), usize_seq_nat(conn.topo_order@), component_kinds(cs), d) && is_max(
        d,
        conn.unit_logic_depth as nat,
    ));
    Ok(conn)
}


// ───────────────────────── coordinate range ─────────────────────────

fn fits_i16(x: i32) -> (r: bool)
    ensures
        r == (-32768 <= x <= 32767),
{
    -32768 <= x && x <= 32767
}

proof fn lemma_pin_outside(c: ComponentV, ss: Seq<PinSpecV>, i: int)
    requires
        specs_for(c) == Some(ss),
        0 <= i < ss.len(),
        !in_i16(pin_at(c, ss[i])),
    ensures
        !placement_fits(c),
{
    if placement_fits(c) {
        let s2 = specs_for(c)->0;
        assert(s2 == ss);
        assert(forall|k: int| 0 <= k < s2.len() ==> in_i16(#[trigger] pin_at(c, s2[k])));
        assert(in_i16(pin_at(c, s2[i])));
    }
}

/// Whether every pin of `component` lands inside the `i16` range.
pub fn placement_in_range(component: &Component) -> (r: bool)
    ensures
        r == placement_fits(component@),
{
    let specs = match pin_specs_for(component) {
        Some(v) => v,
        None => {
            return true;
        },
    };
    let ghost ss = specs_for(component@)->0;
    let mut i: usize = 0;
    while i < specs.len()
        invariant
            i <= specs@.len(),
            spec_views(specs@) == ss,
            specs_for(component@) == Some(ss),
            forall|k: int| 0 <= k < i ==> in_i16(#[trigger] pin_at(component@, ss[k])),
        decreases specs@.len() - i,
    {
        let spec = &specs[i];
        assert(spec@ == ss[i as int]);
        let (dx, dy) = rotate_offset(spec.offset, component.rotation);
        let px = component.position.0 as i32 + dx;
        let py = component.position.1 as i32 + dy;
        if !(fits_i16(px) && fits_i16(py)) {
            assert(0 <= i < ss.len());
            proof {
                lemma_pin_outside(component@, ss, i as int);
            }
            return false;
        }
        i = i + 1;
    }
    true
}

/// Whether every point of `wire` lies inside the `i16` range.
#[verifier::loop_isolation(false)]
pub fn wire_in_range(wire: &Wire) -> (r: bool)
    ensures
        r == path_fits(wire@),
{
    let ghost full = wire_path(wire@);
    if wire.teleport_end.is_some() {
        assert forall|i: int| 0 <= i < full.len() implies in_i16(#[trigger] full[i]) by {}
        return true;
    }
    let ghost s0 = point_int(wire.start);
    let ghost segs = wire@.segments;
    let mut x: i32 = wire.start.0 as i32;
    let mut y: i32 = wire.start.1 as i32;
    let ghost mut count: int = 1;
    let mut k: usize = 0;
    assert(segs.take(0) =~= Seq::<(u8, u16)>::empty());
    proof {
        lemma_seg_path_prefix(s0, segs, 0);
    }
    while k < wire.segments.len()
        invariant
            k <= segs.len(),
            segs == wire@.segments,
            full == wire_path(wire@),
            wire@.teleport_end is None,
            count == 1 + seg_path(s0, segs.take(k as int)).len(),
            (seq![s0] + seg_path(s0, segs.take(k as int))).is_prefix_of(full),
            forall|i: int| 0 <= i < count ==> in_i16(#[trigger] full[i]),
            (x as int, y as int) == path_end(s0, segs.take(k as int)),
            in_i16((x as int, y as int)),
        decreases segs.len() - k,
    {
        let (direction, length) = wire.segments[k];
        let (dx, dy) = direction_of(direction);
        let ghost q = (x as int, y as int);
        let ghost base = seq![s0] + seg_path(s0, segs.take(k as int));
        let ghost tk1 = segs.take(k + 1);
        proof {
            assert(tk1.drop_last() =~= segs.take(k as int));
            assert(tk1.last() == (direction, length));
            lemma_seg_path_prefix(s0, segs, k + 1);
            assert(seq![s0] + seg_path(s0, tk1) == base + walk(q, direction, length as nat)) by {
                assert(seq![s0] + (seg_path(s0, segs.take(k as int)) + walk(q, direction, length as nat))
                    =~= (seq![s0] + seg_path(s0, segs.take(k as int))) + walk(q, direction, length as nat));
            }
            assert((base + walk(q, direction, length as nat)).is_prefix_of(full)) by {
                assert(seq![s0] + seg_path(s0, tk1) =~= seq![s0] + seg_path(s0, segs.take(k + 1)));
            }
            lemma_walk_prefix(q, direction, 0, length as nat);
        }
        let mut j: u16 = 0;
        while j < length
            invariant
                j <= length,
                count == base.len() + j,
                base.len() + length <= full.len(),
                (x as int, y as int) == walk_end(q, direction, j as nat),
                in_i16((x as int, y as int)),
                (base + walk(q, direction, length as nat)).is_prefix_of(full),
                forall|i: int| 0 <= i < count ==> in_i16(#[trigger] full[i]),
            decreases length - j,
        {
            proof {
                lemma_walk_index(q, direction, length as nat, j as int);
            }
            let nx = x + dx as i32;
            let ny = y + dy as i32;
            let ghost idx = base.len() + j;
            assert(full[idx] == (base + walk(q, direction, length as nat))[idx]);
            assert(full[idx] == (nx as int, ny as int));
            if !(fits_i16(nx) && fits_i16(ny)) {
                assert(!in_i16(full[idx]));
                return false;
            }
            x = nx;
            y = ny;
            proof {
                count = count + 1;
            }
            j = j + 1;
        }
        proof {
            lemma_walk_prefix(q, direction, length as nat, length as nat);
        }
        k = k + 1;
    }
    assert(segs.take(segs.len() as int) =~= segs);
    true
}

/// Whether the circuit's pins and wire points all lie in the `i16` range,
/// which `resolve` needs.
pub fn coordinates_fit(circuit: &Circuit) -> (r: bool)
    ensures
        r == resolve_fits(circuit@),
{
    let ghost cv = circuit@;
    let mut i: usize = 0;
    while i < circuit.components.len()
        invariant
            i <= circuit.components@.len(),
            cv == circuit@,
            forall|k: int| 0 <= k < i ==> placement_fits(#[trigger] cv.components[k]),
        decreases circuit.components@.len() - i,
    {
        assert(cv.components[i as int] == circuit.components@[i as int]@);
        if !placement_in_range(&circuit.components[i]) {
            return false;
        }
        i = i + 1;
    }
    let mut j: usize = 0;
    while j < circuit.wires.len()
        invariant
            j <= circuit.wires@.len(),
            cv == circuit@,
            forall|k: int| 0 <= k < cv.components.len() ==> placement_fits(#[trigger] cv.components[k]),
            forall|k: int| 0 <= k < j ==> path_fits(#[trigger] cv.wires[k]),
        decreases circuit.wires@.len() - j,
    {
        assert(cv.wires[j as int] == circuit.wires@[j as int]@);
        if !wire_in_range(&circuit.wires[j]) {
            return false;
        }
        j = j + 1;
    }
    true
}

} // verus!
