//! Simulation source for a circuit under a level's test template.
use vstd::prelude::*;
use crate::model::{component_views, Circuit, CircuitV, Component, ComponentV, Point};
use crate::test_si::{build_output_struct, output_struct_text};
use crate::pins::{
    fifo_order, join_kinds, nets_ok, pins_of, resolve, resolve_fits, topo_ok, unsupported_kinds, usize_seq_nat, is_edge,
    net_views, pin_views, placed, placement_fits, positioned_pins, s_stacked, schema, sp, specs_for, Connectivity, Net,
    NetV, PinDir, PositionedPin, PositionedPinV,
};
use crate::text::{
    replace_all, replace_chars, chars_to_string, dec_int, dec_nat, join_sep, join_vecs, push_chars, push_i64, push_str, push_u64,
    str_chars,
};

verus! {

/// A level's test template: its I/O contract and test oracle.
#[derive(Debug)]
pub struct LevelTemplate {
    /// `type Input { ... }` block.
    pub input_struct: String,
    /// `type Output { ... }` block.
    pub output_struct: String,
    /// Module declarations, helper defs, `get_input` and `check_output`.
    pub test_defs: String,
    /// `(field_name, field_type)` of the level-input ports.
    pub input_fields: Vec<(String, String)>,
    /// `(field_name, field_type)` of the level-output ports.
    pub output_fields: Vec<(String, String)>,
    /// High-impedance flag fields (`output_is_z`, ...).
    pub output_z_fields: Vec<String>,
}

pub struct LevelTemplateV {
    pub input_struct: Seq<char>,
    pub output_struct: Seq<char>,
    pub test_defs: Seq<char>,
    pub input_fields: Seq<(Seq<char>, Seq<char>)>,
    pub output_fields: Seq<(Seq<char>, Seq<char>)>,
    pub output_z_fields: Seq<Seq<char>>,
}

pub open spec fn field_views(v: Seq<(String, String)>) -> Seq<(Seq<char>, Seq<char>)> {
    v.map_values(|f: (String, String)| (f.0@, f.1@))
}

pub open spec fn string_views(v: Seq<String>) -> Seq<Seq<char>> {
    v.map_values(|s: String| s@)
}

impl View for LevelTemplate {
    type V = LevelTemplateV;

    open spec fn view(&self) -> LevelTemplateV {
        LevelTemplateV {
            input_struct: self.input_struct@,
            output_struct: self.output_struct@,
            test_defs: self.test_defs@,
            input_fields: field_views(self.input_fields@),
            output_fields: field_views(self.output_fields@),
            output_z_fields: string_views(self.output_z_fields@),
        }
    }
}

// ───────────────────────── component kinds ─────────────────────────

/// Index of a kind in the DSL's `ComponentType` enum, for the kinds the
/// generator can simulate.
pub open spec fn enum_index(kind: u16) -> Option<nat> {
    if 3 <= kind <= 11 || 16 <= kind <= 24 || kind == 29 {
        Some((kind - 1) as nat)
    } else if kind == 60 {
        Some(56)
    } else if kind == 61 {
        Some(57)
    } else if kind == 63 {
        Some(59)
    } else if kind == 68 {
        Some(62)
    } else if kind == 69 {
        Some(63)
    } else {
        None
    }
}

fn kind_to_enum(kind: u16) -> (r: Option<usize>)
    ensures
        match enum_index(kind) {
            Some(e) => r == Some(e as usize),
            None => r is None,
        },
{
    if (3 <= kind && kind <= 11) || (16 <= kind && kind <= 24) || kind == 29 {
        Some((kind - 1) as usize)
    } else if kind == 60 {
        Some(56)
    } else if kind == 61 {
        Some(57)
    } else if kind == 63 {
        Some(59)
    } else if kind == 68 {
        Some(62)
    } else if kind == 69 {
        Some(63)
    } else {
        None
    }
}

/// The DSL `ComponentType` name of a kind the generator can simulate.
pub open spec fn kind_name(kind: u16) -> Option<Seq<char>> {
    if kind == 3 {
        Some("com_not_bit"@)
    } else if kind == 4 {
        Some("com_and_bit"@)
    } else if kind == 5 {
        Some("com_and_3_bit"@)
    } else if kind == 6 {
        Some("com_nand_bit"@)
    } else if kind == 7 {
        Some("com_or_bit"@)
    } else if kind == 8 {
        Some("com_or_3_bit"@)
    } else if kind == 9 {
        Some("com_nor_bit"@)
    } else if kind == 10 {
        Some("com_xor_bit"@)
    } else if kind == 11 {
        Some("com_xnor_bit"@)
    } else if kind == 16 {
        Some("com_maker_bit_8"@)
    } else if kind == 17 {
        Some("com_splitter_bit_8"@)
    } else if kind == 18 {
        Some("com_not_word"@)
    } else if kind == 19 {
        Some("com_or_word"@)
    } else if kind == 20 {
        Some("com_and_word"@)
    } else if kind == 21 {
        Some("com_nand_word"@)
    } else if kind == 22 {
        Some("com_xor_word"@)
    } else if kind == 23 {
        Some("com_nor_word"@)
    } else if kind == 24 {
        Some("com_xnor_word"@)
    } else if kind == 29 {
        Some("com_neg"@)
    } else if kind == 60 {
        Some("com_level_input_1_pin"@)
    } else if kind == 61 {
        Some("com_level_input_word"@)
    } else if kind == 63 {
        Some("com_level_input_2_pin"@)
    } else if kind == 68 {
        Some("com_level_output_1_pin"@)
    } else if kind == 69 {
        Some("com_level_output_word"@)
    } else {
        None
    }
}

fn kind_to_name(kind: u16) -> (r: Option<&'static str>)
    ensures
        match kind_name(kind) {
            Some(n) => r matches Some(s) && s@ == n,
            None => r is None,
        },
{
    if kind == 3 {
        Some("com_not_bit")
    } else if kind == 4 {
        Some("com_and_bit")
    } else if kind == 5 {
        Some("com_and_3_bit")
    } else if kind == 6 {
        Some("com_nand_bit")
    } else if kind == 7 {
        Some("com_or_bit")
    } else if kind == 8 {
        Some("com_or_3_bit")
    } else if kind == 9 {
        Some("com_nor_bit")
    } else if kind == 10 {
        Some("com_xor_bit")
    } else if kind == 11 {
        Some("com_xnor_bit")
    } else if kind == 16 {
        Some("com_maker_bit_8")
    } else if kind == 17 {
        Some("com_splitter_bit_8")
    } else if kind == 18 {
        Some("com_not_word")
    } else if kind == 19 {
        Some("com_or_word")
    } else if kind == 20 {
        Some("com_and_word")
    } else if kind == 21 {
        Some("com_nand_word")
    } else if kind == 22 {
        Some("com_xor_word")
    } else if kind == 23 {
        Some("com_nor_word")
    } else if kind == 24 {
        Some("com_xnor_word")
    } else if kind == 29 {
        Some("com_neg")
    } else if kind == 60 {
        Some("com_level_input_1_pin")
    } else if kind == 61 {
        Some("com_level_input_word")
    } else if kind == 63 {
        Some("com_level_input_2_pin")
    } else if kind == 68 {
        Some("com_level_output_1_pin")
    } else if kind == 69 {
        Some("com_level_output_word")
    } else {
        None
    }
}

/// Kinds of the level-input components.
pub open spec fn is_input_kind(kind: u16) -> bool {
    60 <= kind <= 65 || kind == 106
}

/// Kinds of the level-output components.
pub open spec fn is_output_kind(kind: u16) -> bool {
    kind == 40 || kind == 58 || kind == 68 || kind == 69 || kind == 70 || kind == 73 || kind == 74
        || kind == 75 || kind == 77 || kind == 112
}

fn is_level_input(kind: u16) -> (r: bool)
    ensures
        r == is_input_kind(kind),
{
    (60 <= kind && kind <= 65) || kind == 106
}

fn is_level_output(kind: u16) -> (r: bool)
    ensures
        r == is_output_kind(kind),
{
    kind == 40 || kind == 58 || kind == 68 || kind == 69 || kind == 70 || kind == 73 || kind == 74
        || kind == 75 || kind == 77 || kind == 112
}

// ───────────────────────── gate expressions ─────────────────────────

/// `U<w>`, the DSL's unsigned type of width `w`.
pub open spec fn ty(w: i64) -> Seq<char> {
    "U"@ + dec_int(w as int)
}

/// The value an input pin reads: its driver's slot, or the constant 0 when
/// nothing drives it, cast to the pin's width.
pub open spec fn src_ref(src: (Option<usize>, i64)) -> Seq<char> {
    match src.0 {
        Some(s) => "(U"@ + dec_int(src.1 as int) + " vid"@ + dec_nat(s as nat) + ")"@,
        None => "(U"@ + dec_int(src.1 as int) + " 0x0)"@,
    }
}

pub open spec fn arity_error(kind: u16, expected: nat, got: nat) -> Seq<char> {
    "KIND_"@ + dec_nat(kind as nat) + "_EXPECTS_"@ + dec_nat(expected) + "_INPUTS|got="@ + dec_nat(got)
}

/// The number of inputs a plain gate takes.
pub open spec fn gate_arity(kind: u16) -> Option<nat> {
    if kind == 3 || kind == 18 || kind == 29 {
        Some(1)
    } else if kind == 4 || kind == 6 || kind == 7 || kind == 9 || kind == 10 || kind == 11 || (19 <= kind
        <= 24) {
        Some(2)
    } else if kind == 5 || kind == 8 {
        Some(3)
    } else {
        None
    }
}

/// The expression of a plain gate of type `t` over the input references `r`.
pub open spec fn gate_expr(kind: u16, t: Seq<char>, r: Seq<Seq<char>>) -> Seq<char> {
    if kind == 3 || kind == 18 {
        t + " ("@ + t + " ~"@ + r[0] + ")"@
    } else if kind == 4 || kind == 20 {
        t + " "@ + r[0] + " & "@ + r[1]
    } else if kind == 5 {
        t + " "@ + r[0] + " & "@ + r[1] + " & "@ + r[2]
    } else if kind == 6 || kind == 21 {
        t + " ("@ + t + " ~("@ + r[0] + " & "@ + r[1] + "))"@
    } else if kind == 7 || kind == 19 {
        t + " "@ + r[0] + " | "@ + r[1]
    } else if kind == 8 {
        t + " "@ + r[0] + " | "@ + r[1] + " | "@ + r[2]
    } else if kind == 9 || kind == 23 {
        t + " ("@ + t + " ~("@ + r[0] + " | "@ + r[1] + "))"@
    } else if kind == 10 || kind == 22 {
        t + " "@ + r[0] + " ^ "@ + r[1]
    } else if kind == 11 || kind == 24 {
        t + " ("@ + t + " ~("@ + r[0] + " ^ "@ + r[1] + "))"@
    } else {
        t + " (-"@ + r[0] + ")"@
    }
}

pub open spec fn splitter_bit(r: Seq<char>, i: nat) -> Seq<char> {
    if i == 0 {
        "U1 ("@ + r + " & 1)"@
    } else {
        "U1 ("@ + r + " >> "@ + dec_nat(i) + " & 1)"@
    }
}

pub open spec fn maker_term(t: Seq<char>, r: Seq<char>, i: nat) -> Seq<char> {
    "(("@ + t + " "@ + r + ") << "@ + dec_nat(i) + ")"@
}

/// The per-cycle expressions of a combinational component, one per output
/// pin: a splitter gives bit `i` of its input on output `i`; a maker ORs its
/// inputs shifted into place (one expression); a plain gate gives the same
/// expression on every output (at least one).
pub open spec fn gate_exprs(kind: u16, inputs: Seq<(Option<usize>, i64)>, n_out: nat, width: i64) -> Result<
    Seq<Seq<char>>,
    Seq<char>,
> {
    let t = ty(width);
    let refs = inputs.map_values(|s: (Option<usize>, i64)| src_ref(s));
    if kind == 17 {
        if inputs.len() != 1 {
            Err(arity_error(kind, 1, inputs.len()))
        } else {
            Ok(Seq::new(n_out, |i: int| splitter_bit(refs[0], i as nat)))
        }
    } else if kind == 16 {
        Ok(
            seq![t + " ("@ + join_sep(Seq::new(inputs.len(), |i: int| maker_term(t, refs[i], i as nat)), " | "@)
                + ")"@],
        )
    } else {
        match gate_arity(kind) {
            None => Err("UNSUPPORTED_GATE_KIND|"@ + dec_nat(kind as nat)),
            Some(n) => if inputs.len() != n {
                Err(arity_error(kind, n, inputs.len()))
            } else {
                Ok(
                    Seq::new(
                        if n_out == 0 {
                            1
                        } else {
                            n_out
                        },
                        |i: int| gate_expr(kind, t, refs),
                    ),
                )
            },
        }
    }
}

fn push_ref(out: &mut Vec<char>, src: (Option<usize>, i64))
    ensures
        final(out)@ == old(out)@ + src_ref(src),
{
    push_str(out, "(U");
    push_i64(out, src.1);
    match src.0 {
        Some(s) => {
            push_str(out, " vid");
            push_u64(out, s as u64);
            push_str(out, ")");
        },
        None => {
            push_str(out, " 0x0)");
        },
    }
    assert(out@ =~= old(out)@ + src_ref(src));
}

fn ref_text(src: (Option<usize>, i64)) -> (r: Vec<char>)
    ensures
        r@ == src_ref(src),
{
    let mut v: Vec<char> = Vec::new();
    push_ref(&mut v, src);
    assert(v@ =~= src_ref(src));
    v
}

fn arity_message(kind: u16, expected: usize, got: usize) -> (r: String)
    ensures
        r@ == arity_error(kind, expected as nat, got as nat),
{
    let mut v: Vec<char> = Vec::new();
    push_str(&mut v, "KIND_");
    push_u64(&mut v, kind as u64);
    push_str(&mut v, "_EXPECTS_");
    push_u64(&mut v, expected as u64);
    push_str(&mut v, "_INPUTS|got=");
    push_u64(&mut v, got as u64);
    assert(v@ =~= arity_error(kind, expected as nat, got as nat));
    chars_to_string(v.as_slice())
}

fn plain_gate(kind: u16, t: &Vec<char>, r: &Vec<Vec<char>>) -> (e: Vec<char>)
    requires
        gate_arity(kind) is Some,
        r@.len() >= gate_arity(kind)->0,
    ensures
        e@ == gate_expr(kind, t@, Seq::new(r@.len(), |k: int| r@[k]@)),
{
    let ghost rs = Seq::new(r@.len(), |k: int| r@[k]@);
    let mut e: Vec<char> = Vec::new();
    push_chars(&mut e, t.as_slice());
    if kind == 3 || kind == 18 || kind == 29 {
        if kind == 29 {
            push_str(&mut e, " (-");
            push_chars(&mut e, r[0].as_slice());
            push_str(&mut e, ")");
        } else {
            push_str(&mut e, " (");
            push_chars(&mut e, t.as_slice());
            push_str(&mut e, " ~");
            push_chars(&mut e, r[0].as_slice());
            push_str(&mut e, ")");
        }
    } else if kind == 4 || kind == 20 || kind == 7 || kind == 19 || kind == 10 || kind == 22 {
        let op = if kind == 4 || kind == 20 {
            " & "
        } else if kind == 7 || kind == 19 {
            " | "
        } else {
            " ^ "
        };
        push_str(&mut e, " ");
        push_chars(&mut e, r[0].as_slice());
        push_str(&mut e, op);
        push_chars(&mut e, r[1].as_slice());
    } else if kind == 5 || kind == 8 {
        let op = if kind == 5 {
            " & "
        } else {
            " | "
        };
        push_str(&mut e, " ");
        push_chars(&mut e, r[0].as_slice());
        push_str(&mut e, op);
        push_chars(&mut e, r[1].as_slice());
        push_str(&mut e, op);
        push_chars(&mut e, r[2].as_slice());
    } else {
        let op = if kind == 6 || kind == 21 {
            " & "
        } else if kind == 9 || kind == 23 {
            " | "
        } else {
            " ^ "
        };
        push_str(&mut e, " (");
        push_chars(&mut e, t.as_slice());
        push_str(&mut e, " ~(");
        push_chars(&mut e, r[0].as_slice());
        push_str(&mut e, op);
        push_chars(&mut e, r[1].as_slice());
        push_str(&mut e, "))");
    }
    assert(e@ =~= gate_expr(kind, t@, rs));
    e
}

fn type_text(width: i64) -> (r: Vec<char>)
    ensures
        r@ == ty(width),
{
    let mut t: Vec<char> = Vec::new();
    push_str(&mut t, "U");
    push_i64(&mut t, width);
    t
}

/// The per-cycle expressions of a combinational component whose input pins
/// read `inputs` (driver slot and width, in pin order), with `output_count`
/// output pins of `width` bits.
fn component_exprs(kind: u16, inputs: &Vec<(Option<usize>, i64)>, output_count: usize, width: i64) -> (r: Result<
    Vec<Vec<char>>,
    String,
>)
    ensures
        match gate_exprs(kind, inputs@, output_count as nat, width) {
            Ok(es) => r matches Ok(v) && v@.len() == es.len() && forall|k: int|
                0 <= k < es.len() ==> #[trigger] v@[k]@ == es[k],
            Err(e) => r matches Err(x) && x@ == e,
        },
{
    let t = type_text(width);
    let mut refs: Vec<Vec<char>> = Vec::new();
    let mut i: usize = 0;
    while i < inputs.len()
        invariant
            i <= inputs@.len(),
            refs@.len() == i,
            forall|k: int| 0 <= k < i ==> #[trigger] refs@[k]@ == src_ref(inputs@[k]),
        decreases inputs@.len() - i,
    {
        refs.push(ref_text(inputs[i]));
        i = i + 1;
    }
    let ghost rs = inputs@.map_values(|s: (Option<usize>, i64)| src_ref(s));
    assert(Seq::new(refs@.len(), |k: int| refs@[k]@) =~= rs);
    if kind == 17 {
        if inputs.len() != 1 {
            return Err(arity_message(kind, 1, inputs.len()));
        }
        let mut out: Vec<Vec<char>> = Vec::new();
        let mut j: usize = 0;
        while j < output_count
            invariant
                j <= output_count,
                inputs@.len() == 1,
                refs@.len() == 1,
                refs@[0]@ == rs[0],
                out@.len() == j,
                forall|k: int| 0 <= k < j ==> #[trigger] out@[k]@ == splitter_bit(rs[0], k as nat),
            decreases output_count - j,
        {
            let mut b: Vec<char> = Vec::new();
            push_str(&mut b, "U1 (");
            push_chars(&mut b, refs[0].as_slice());
            if j == 0 {
                push_str(&mut b, " & 1)");
            } else {
                push_str(&mut b, " >> ");
                push_u64(&mut b, j as u64);
                push_str(&mut b, " & 1)");
            }
            assert(b@ =~= splitter_bit(rs[0], j as nat));
            out.push(b);
            j = j + 1;
        }
        return Ok(out);
    }
    if kind == 16 {
        let mut terms: Vec<Vec<char>> = Vec::new();
        let mut j: usize = 0;
        while j < refs.len()
            invariant
                j <= refs@.len(),
                refs@.len() == inputs@.len(),
                forall|k: int| 0 <= k < refs@.len() ==> #[trigger] refs@[k]@ == rs[k],
                t@ == ty(width),
                terms@.len() == j,
                forall|k: int| 0 <= k < j ==> #[trigger] terms@[k]@ == maker_term(t@, rs[k], k as nat),
            decreases refs@.len() - j,
        {
            let mut m: Vec<char> = Vec::new();
            push_str(&mut m, "((");
            push_chars(&mut m, t.as_slice());
            push_str(&mut m, " ");
            push_chars(&mut m, refs[j].as_slice());
            push_str(&mut m, ") << ");
            push_u64(&mut m, j as u64);
            push_str(&mut m, ")");
            assert(m@ =~= maker_term(t@, rs[j as int], j as nat));
            terms.push(m);
            j = j + 1;
        }
        let joined = join_vecs(&terms, " | ");
        assert(Seq::new(terms@.len(), |k: int| terms@[k]@) =~= Seq::new(
            inputs@.len(),
            |i: int| maker_term(t@, rs[i], i as nat),
        ));
        let mut e: Vec<char> = Vec::new();
        push_chars(&mut e, t.as_slice());
        push_str(&mut e, " (");
        push_chars(&mut e, joined.as_slice());
        push_str(&mut e, ")");
        let mut out: Vec<Vec<char>> = Vec::new();
        out.push(e);
        return Ok(out);
    }
    let arity: usize = if kind == 3 || kind == 18 || kind == 29 {
        1
    } else if kind == 4 || kind == 6 || kind == 7 || kind == 9 || kind == 10 || kind == 11 || (19 <= kind
        && kind <= 24) {
        2
    } else if kind == 5 || kind == 8 {
        3
    } else {
        let mut v: Vec<char> = Vec::new();
        push_str(&mut v, "UNSUPPORTED_GATE_KIND|");
        push_u64(&mut v, kind as u64);
        return Err(chars_to_string(v.as_slice()));
    };
    if inputs.len() != arity {
        return Err(arity_message(kind, arity, inputs.len()));
    }
    let e = plain_gate(kind, &t, &refs);
    let n = if output_count == 0 {
        1
    } else {
        output_count
    };
    let mut out: Vec<Vec<char>> = Vec::new();
    let mut j: usize = 0;
    while j < n
        invariant
            j <= n,
            out@.len() == j,
            forall|k: int| 0 <= k < j ==> #[trigger] out@[k]@ == e@,
        decreases n - j,
    {
        let c = copy_chars(&e);
        out.push(c);
        j = j + 1;
    }
    Ok(out)
}

fn copy_chars(v: &Vec<char>) -> (r: Vec<char>)
    ensures
        r@ == v@,
{
    let mut r: Vec<char> = Vec::new();
    push_chars(&mut r, v.as_slice());
    assert(r@ =~= v@);
    r
}


// ───────────────────────── port order ─────────────────────────

/// Which components an order lists: level inputs (`0`), level outputs (`1`),
/// or level outputs other than the high-impedance probes (`2`).
pub open spec fn picks(sel: u8, kind: u16) -> bool {
    if sel == 0 {
        is_input_kind(kind)
    } else if sel == 1 {
        is_output_kind(kind)
    } else {
        is_output_kind(kind) && kind != 112
    }
}

/// Components `a` before `b`: by word size first (outputs only), then by
/// position `x`, then `y`, then by index.
pub open spec fn key_lt(cs: Seq<ComponentV>, a: usize, b: usize, by_width: bool) -> bool {
    let (ca, cb) = (cs[a as int], cs[b as int]);
    if by_width && ca.word_size != cb.word_size {
        ca.word_size < cb.word_size
    } else if ca.position.0 != cb.position.0 {
        ca.position.0 < cb.position.0
    } else if ca.position.1 != cb.position.1 {
        ca.position.1 < cb.position.1
    } else {
        a < b
    }
}

/// `o` lists exactly the components that `sel` picks, each once, in key order.
pub open spec fn is_order(cs: Seq<ComponentV>, sel: u8, o: Seq<usize>) -> bool {
    &&& forall|k: int| 0 <= k < o.len() ==> #[trigger] o[k] < cs.len() && picks(sel, cs[o[k] as int].kind)
    &&& forall|i: usize| (i as int) < cs.len() && picks(sel, cs[i as int].kind) ==> o.contains(i)
    &&& forall|k: int, l: int| 0 <= k < l < o.len() ==> key_lt(cs, #[trigger] o[k], #[trigger] o[l], sel != 0)
}

proof fn lemma_order_unique(cs: Seq<ComponentV>, sel: u8, o1: Seq<usize>, o2: Seq<usize>)
    requires
        forall|k: int| 0 <= k < o1.len() ==> #[trigger] o1[k] < cs.len(),
        forall|k: int| 0 <= k < o2.len() ==> #[trigger] o2[k] < cs.len(),
        forall|x: usize| o1.contains(x) <==> o2.contains(x),
        forall|k: int, l: int| 0 <= k < l < o1.len() ==> key_lt(cs, #[trigger] o1[k], #[trigger] o1[l], sel != 0),
        forall|k: int, l: int| 0 <= k < l < o2.len() ==> key_lt(cs, #[trigger] o2[k], #[trigger] o2[l], sel != 0),
    ensures
        o1 == o2,
    decreases o1.len(),
{
    if o1.len() == 0 {
        if o2.len() > 0 {
            assert(o2.contains(o2[0]));
        }
        assert(o1 =~= o2);
    } else {
        assert(o1.contains(o1[0]));
        assert(o2.len() > 0);
        assert(o2.contains(o2[0]));
        let a = o1[0];
        let b = o2[0];
        if a != b {
            let p = choose|p: int| 0 <= p < o2.len() && o2[p] == a;
            let q = choose|q: int| 0 <= q < o1.len() && o1[q] == b;
            assert(p > 0 && q > 0);
            assert(key_lt(cs, o2[0], o2[p], sel != 0));
            assert(key_lt(cs, o1[0], o1[q], sel != 0));
        }
        let t1 = o1.drop_first();
        let t2 = o2.drop_first();
        assert forall|x: usize| t1.contains(x) implies t2.contains(x) by {
            let k = choose|k: int| 0 <= k < t1.len() && t1[k] == x;
            assert(o1[k + 1] == x);
            assert(key_lt(cs, o1[0], o1[k + 1], sel != 0));
            assert(x != a);
            assert(o2.contains(x));
            let m = choose|m: int| 0 <= m < o2.len() && o2[m] == x;
            assert(m != 0);
            assert(t2[m - 1] == x);
        }
        assert forall|x: usize| t2.contains(x) implies t1.contains(x) by {
            let k = choose|k: int| 0 <= k < t2.len() && t2[k] == x;
            assert(o2[k + 1] == x);
            assert(key_lt(cs, o2[0], o2[k + 1], sel != 0));
            assert(x != b);
            assert(o1.contains(x));
            let m = choose|m: int| 0 <= m < o1.len() && o1[m] == x;
            assert(m != 0);
            assert(t1[m - 1] == x);
        }
        assert forall|k: int, l: int| 0 <= k < l < t1.len() implies key_lt(cs, #[trigger] t1[k], #[trigger] t1[l], sel != 0) by {
            assert(t1[k] == o1[k + 1] && t1[l] == o1[l + 1]);
        }
        assert forall|k: int, l: int| 0 <= k < l < t2.len() implies key_lt(cs, #[trigger] t2[k], #[trigger] t2[l], sel != 0) by {
            assert(t2[k] == o2[k + 1] && t2[l] == o2[l + 1]);
        }
        lemma_order_unique(cs, sel, t1, t2);
        assert(o1 =~= seq![a] + t1);
        assert(o2 =~= seq![b] + t2);
    }
}

fn picks_kind(sel: u8, kind: u16) -> (r: bool)
    ensures
        r == picks(sel, kind),
{
    if sel == 0 {
        is_level_input(kind)
    } else if sel == 1 {
        is_level_output(kind)
    } else {
        is_level_output(kind) && kind != 112
    }
}

fn key_less(cs: &Vec<Component>, a: usize, b: usize, by_width: bool) -> (r: bool)
    requires
        a < cs@.len(),
        b < cs@.len(),
    ensures
        r == key_lt(crate::model::component_views(cs@), a, b, by_width),
{
    let ca = &cs[a];
    let cb = &cs[b];
    if by_width && ca.word_size != cb.word_size {
        ca.word_size < cb.word_size
    } else if ca.position.0 != cb.position.0 {
        ca.position.0 < cb.position.0
    } else if ca.position.1 != cb.position.1 {
        ca.position.1 < cb.position.1
    } else {
        a < b
    }
}

/// The indices of the components that `sel` picks, in key order (a stable
/// sort by the key without the index).
fn sorted_indices(cs: &Vec<Component>, sel: u8) -> (r: Vec<usize>)
    ensures
        is_order(crate::model::component_views(cs@), sel, r@),
{
    let ghost cv = crate::model::component_views(cs@);
    let bw = sel != 0;
    let mut out: Vec<usize> = Vec::new();
    let mut i: usize = 0;
    while i < cs.len()
        invariant
            i <= cs@.len(),
            cv == crate::model::component_views(cs@),
            cv.len() == cs@.len(),
            bw == (sel != 0),
            forall|k: int| 0 <= k < out@.len() ==> #[trigger] out@[k] < i && picks(sel, cv[out@[k] as int].kind),
            forall|j: usize| j < i && picks(sel, cv[j as int].kind) ==> out@.contains(j),
            forall|k: int, l: int| 0 <= k < l < out@.len() ==> key_lt(cv, #[trigger] out@[k], #[trigger] out@[l], bw),
        decreases cs@.len() - i,
    {
        if picks_kind(sel, cs[i].kind) {
            let mut p: usize = 0;
            while p < out.len() && !key_less(cs, i, out[p], bw)
                invariant
                    p <= out@.len(),
                    i < cs@.len(),
                    cv == crate::model::component_views(cs@),
                    forall|k: int| 0 <= k < out@.len() ==> #[trigger] out@[k] < i,
                    forall|k: int| 0 <= k < p ==> !key_lt(cv, i, #[trigger] out@[k], bw),
                decreases out@.len() - p,
            {
                p = p + 1;
            }
            let ghost old_out = out@;
            out.insert(p, i);
            assert(out@ == old_out.insert(p as int, i));
            assert forall|k: int, l: int| 0 <= k < l < out@.len() implies key_lt(cv, #[trigger] out@[k], #[trigger] out@[l], bw) by {
                if k < p && l < p {
                    assert(out@[k] == old_out[k] && out@[l] == old_out[l]);
                } else if k < p && l == p {
                    assert(!key_lt(cv, i, old_out[k], bw));
                    assert(old_out[k] != i);
                } else if k < p {
                    assert(out@[l] == old_out[l - 1]);
                    assert(!key_lt(cv, i, old_out[k], bw));
                    assert(old_out[k] < i);
                    assert(key_lt(cv, old_out[k], i, bw));
                    assert(key_lt(cv, i, old_out[p as int], bw));
                    if l - 1 > p {
                        assert(key_lt(cv, old_out[p as int], old_out[l - 1], bw));
                    }
                } else if k == p {
                    assert(out@[l] == old_out[l - 1]);
                    assert(key_lt(cv, i, old_out[p as int], bw));
                    if l - 1 > p {
                        assert(key_lt(cv, old_out[p as int], old_out[l - 1], bw));
                    }
                } else {
                    assert(out@[k] == old_out[k - 1] && out@[l] == old_out[l - 1]);
                }
            }
            assert forall|j: usize| j < i + 1 && picks(sel, cv[j as int].kind) implies out@.contains(j) by {
                if j == i {
                    assert(out@[p as int] == i);
                } else {
                    assert(old_out.contains(j));
                    let m = choose|m: int| 0 <= m < old_out.len() && old_out[m] == j;
                    if m < p {
                        assert(out@[m] == j);
                    } else {
                        assert(out@[m + 1] == j);
                    }
                }
            }
        }
        i = i + 1;
    }
    out
}

// ───────────────────────── port fields ─────────────────────────

/// How many of `o[..k]` are high-impedance probes (kind 112).
pub open spec fn z_before(cs: Seq<ComponentV>, o: Seq<usize>, k: int) -> nat
    decreases k,
{
    if k <= 0 {
        0
    } else {
        z_before(cs, o, k - 1) + if cs[o[k - 1] as int].kind == 112 {
            1nat
        } else {
            0nat
        }
    }
}

/// The first output component, in order `o`, left without a field.
pub open spec fn out_fault(cs: Seq<ComponentV>, o: Seq<usize>, n: int, n_value: nat, n_z: nat) -> Option<Seq<char>>
    decreases n,
{
    if n <= 0 {
        None
    } else {
        match out_fault(cs, o, n - 1, n_value, n_z) {
            Some(e) => Some(e),
            None => {
                let k = n - 1;
                if cs[o[k] as int].kind == 112 {
                    if z_before(cs, o, k) >= n_z {
                        Some("MISSING_OUTPUT_Z_FIELD"@)
                    } else {
                        None
                    }
                } else if k - z_before(cs, o, k) >= n_value {
                    Some("MISSING_OUTPUT_FIELD"@)
                } else {
                    None
                }
            },
        }
    }
}

/// The field of the `k`-th output component in order `o`: the next
/// high-impedance flag (typed `Bool`) for a probe, else the next value field.
pub open spec fn out_field(cs: Seq<ComponentV>, o: Seq<usize>, k: int, tpl: LevelTemplateV) -> (Seq<char>, Seq<char>) {
    if cs[o[k] as int].kind == 112 {
        (tpl.output_z_fields[z_before(cs, o, k) as int], "Bool"@)
    } else {
        tpl.output_fields[k - z_before(cs, o, k)]
    }
}

proof fn lemma_out_fault_sticks(cs: Seq<ComponentV>, o: Seq<usize>, m: int, n: int, nv: nat, nz: nat)
    requires
        m <= n,
        out_fault(cs, o, m, nv, nz) is Some,
    ensures
        out_fault(cs, o, n, nv, nz) == out_fault(cs, o, m, nv, nz),
    decreases n - m,
{
    if n > m {
        lemma_out_fault_sticks(cs, o, m, n - 1, nv, nz);
    }
}

proof fn lemma_z_before_le(cs: Seq<ComponentV>, o: Seq<usize>, k: int)
    requires
        k >= 0,
    ensures
        z_before(cs, o, k) <= k,
    decreases k,
{
    if k > 0 {
        lemma_z_before_le(cs, o, k - 1);
    }
}

fn copy_string_chars(s: &String) -> (r: Vec<char>)
    ensures
        r@ == s@,
{
    str_chars(s.as_str())
}

/// The fields of the output components in order `o`, aligned with it.
fn assign_output_fields(cs: &Vec<Component>, o: &Vec<usize>, tpl: &LevelTemplate) -> (r: Result<
    Vec<(Vec<char>, Vec<char>)>,
    String,
>)
    requires
        forall|k: int| 0 <= k < o@.len() ==> #[trigger] o@[k] < cs@.len(),
    ensures
        ({
            let cv = crate::model::component_views(cs@);
            match out_fault(cv, o@, o@.len() as int, tpl@.output_fields.len(), tpl@.output_z_fields.len()) {
                Some(e) => r matches Err(x) && x@ == e,
                None => r matches Ok(v) && v@.len() == o@.len() && forall|k: int|
                    0 <= k < o@.len() ==> (#[trigger] v@[k].0@, v@[k].1@) == out_field(cv, o@, k, tpl@),
            }
        }),
{
    let ghost cv = crate::model::component_views(cs@);
    let mut v: Vec<(Vec<char>, Vec<char>)> = Vec::new();
    let mut zi: usize = 0;
    let mut k: usize = 0;
    while k < o.len()
        invariant
            k <= o@.len(),
            cv == crate::model::component_views(cs@),
            forall|m: int| 0 <= m < o@.len() ==> #[trigger] o@[m] < cs@.len(),
            zi == z_before(cv, o@, k as int),
            zi <= k,
            out_fault(cv, o@, k as int, tpl@.output_fields.len(), tpl@.output_z_fields.len()) is None,
            v@.len() == k,
            forall|m: int| 0 <= m < k ==> (#[trigger] v@[m].0@, v@[m].1@) == out_field(cv, o@, m, tpl@),
        decreases o@.len() - k,
    {
        let ci = o[k];
        assert(cv[ci as int] == cs@[ci as int]@);
        if cs[ci].kind == 112 {
            if zi >= tpl.output_z_fields.len() {
                proof {
                    lemma_out_fault_sticks(cv, o@, k + 1, o@.len() as int, tpl@.output_fields.len(), tpl@.output_z_fields.len());
                }
                return Err(chars_to_string(str_chars("MISSING_OUTPUT_Z_FIELD").as_slice()));
            }
            let name = copy_string_chars(&tpl.output_z_fields[zi]);
            let t = str_chars("Bool");
            v.push((name, t));
            zi = zi + 1;
        } else {
            if k - zi >= tpl.output_fields.len() {
                proof {
                    lemma_out_fault_sticks(cv, o@, k + 1, o@.len() as int, tpl@.output_fields.len(), tpl@.output_z_fields.len());
                }
                return Err(chars_to_string(str_chars("MISSING_OUTPUT_FIELD").as_slice()));
            }
            let name = copy_string_chars(&tpl.output_fields[k - zi].0);
            let t = copy_string_chars(&tpl.output_fields[k - zi].1);
            v.push((name, t));
        }
        k = k + 1;
    }
    Ok(v)
}


// ───────────────────────── simulation blocks ─────────────────────────

/// The pins of `ps` that are inputs (`want_input`) or outputs, in order.
pub open spec fn sel_pins(ps: Seq<PositionedPinV>, want_input: bool) -> Seq<PositionedPinV>
    decreases ps.len(),
{
    if ps.len() == 0 {
        Seq::empty()
    } else {
        let r = sel_pins(ps.drop_last(), want_input);
        if (ps.last().direction == PinDir::Input) == want_input {
            r.push(ps.last())
        } else {
            r
        }
    }
}

proof fn lemma_no_outputs(ps: Seq<PositionedPinV>)
    requires
        forall|k: int| 0 <= k < ps.len() ==> (#[trigger] ps[k]).direction == PinDir::Input,
    ensures
        sel_pins(ps, false).len() == 0,
    decreases ps.len(),
{
    if ps.len() > 0 {
        lemma_no_outputs(ps.drop_last());
    }
}

/// A maker has exactly one output pin.
proof fn lemma_maker_one_output(c: ComponentV, ci: nat)
    requires
        c.kind == 16,
    ensures
        sel_pins(placed(c, ci), false).len() == 1,
{
    let st = s_stacked("in"@, PinDir::Input, -1, -3, 8, 1);
    let ss = st.push(sp("out"@, PinDir::Output, 1, 0, Some(8)));
    assert(specs_for(c) == schema(16));
    assert(schema(16) == Some(ss));
    let ps = placed(c, ci);
    assert(ps.len() == 9);
    assert forall|k: int| 0 <= k < ps.drop_last().len() implies (#[trigger] ps.drop_last()[k]).direction
        == PinDir::Input by {
        assert(ps.drop_last()[k] == ps[k]);
        assert(ss[k] == st[k]);
    }
    lemma_no_outputs(ps.drop_last());
    assert(ps.last().direction == PinDir::Output);
}

fn dir_indices(pins: &Vec<PositionedPin>, want_input: bool) -> (r: Vec<usize>)
    ensures
        r@.len() == sel_pins(pin_views(pins@), want_input).len(),
        forall|k: int|
            0 <= k < r@.len() ==> #[trigger] r@[k] < pins@.len() && pins@[r@[k] as int]@ == sel_pins(
                pin_views(pins@),
                want_input,
            )[k],
{
    let ghost pv = pin_views(pins@);
    let mut r: Vec<usize> = Vec::new();
    let mut i: usize = 0;
    while i < pins.len()
        invariant
            i <= pins@.len(),
            pv == pin_views(pins@),
            r@.len() == sel_pins(pv.take(i as int), want_input).len(),
            forall|k: int|
                0 <= k < r@.len() ==> #[trigger] r@[k] < i && pins@[r@[k] as int]@ == sel_pins(
                    pv.take(i as int),
                    want_input,
                )[k],
        decreases pins@.len() - i,
    {
        assert(pv.take(i + 1).drop_last() =~= pv.take(i as int));
        assert(pv[i as int] == pins@[i as int]@);
        let is_in = match pins[i].direction {
            PinDir::Input => true,
            _ => false,
        };
        if is_in == want_input {
            r.push(i);
        }
        i = i + 1;
    }
    assert(pv.take(pins@.len() as int) =~= pv);
    r
}

/// Whether a pin of `ps` sits at `pos`.
pub open spec fn has_pos(ps: Seq<PositionedPinV>, pos: Point) -> bool {
    exists|k: int| 0 <= k < ps.len() && (#[trigger] ps[k]).position == pos
}

/// The id of the last network with a pin at `pos`.
pub open spec fn net_for_pos(nets: Seq<NetV>, pos: Point) -> Option<nat>
    decreases nets.len(),
{
    if nets.len() == 0 {
        None
    } else if has_pos(nets.last().pins, pos) {
        Some(nets.last().id)
    } else {
        net_for_pos(nets.drop_last(), pos)
    }
}

/// The first network with id `id`.
pub open spec fn net_with_id(nets: Seq<NetV>, id: nat) -> Option<NetV>
    decreases nets.len(),
{
    if nets.len() == 0 {
        None
    } else if nets[0].id == id {
        Some(nets[0])
    } else {
        net_with_id(nets.drop_first(), id)
    }
}

/// The last slot given to output `key` (component index, pin name).
pub open spec fn last_key(keys: Seq<(nat, Seq<char>)>, key: (nat, Seq<char>)) -> Option<nat>
    decreases keys.len(),
{
    if keys.len() == 0 {
        None
    } else if keys.last() == key {
        Some((keys.len() - 1) as nat)
    } else {
        last_key(keys.drop_last(), key)
    }
}

/// The slot of the output driving the network at `pos`, if any.
pub open spec fn driver_of(nets: Seq<NetV>, keys: Seq<(nat, Seq<char>)>, pos: Point) -> Option<nat> {
    match net_for_pos(nets, pos) {
        None => None,
        Some(id) => match net_with_id(nets, id) {
            None => None,
            Some(n) => match n.driver {
                None => None,
                Some(d) => last_key(keys, (d.component_index, d.name)),
            },
        },
    }
}

pub open spec fn key_views(keys: Seq<(usize, Vec<char>)>) -> Seq<(nat, Seq<char>)> {
    Seq::new(keys.len(), |k: int| (keys[k].0 as nat, keys[k].1@))
}

pub open spec fn line_views(v: Seq<Vec<char>>) -> Seq<Seq<char>> {
    Seq::new(v.len(), |k: int| v[k]@)
}

fn chars_equal(a: &[char], b: &[char]) -> (r: bool)
    ensures
        r == (a@ == b@),
{
    if a.len() != b.len() {
        return false;
    }
    let mut i: usize = 0;
    while i < a.len()
        invariant
            a@.len() == b@.len(),
            i <= a@.len(),
            forall|k: int| 0 <= k < i ==> a@[k] == b@[k],
        decreases a@.len() - i,
    {
        if a[i] != b[i] {
            return false;
        }
        i = i + 1;
    }
    assert(a@ =~= b@);
    true
}

fn net_has_pos(pins: &Vec<PositionedPin>, pos: Point) -> (r: bool)
    ensures
        r == has_pos(pin_views(pins@), pos),
{
    let mut i: usize = 0;
    while i < pins.len()
        invariant
            i <= pins@.len(),
            forall|k: int| 0 <= k < i ==> (#[trigger] pins@[k]).position != pos,
        decreases pins@.len() - i,
    {
        if pins[i].position.0 == pos.0 && pins[i].position.1 == pos.1 {
            assert(pin_views(pins@)[i as int].position == pos);
            return true;
        }
        i = i + 1;
    }
    assert forall|k: int| 0 <= k < pin_views(pins@).len() implies (#[trigger] pin_views(pins@)[k]).position
        != pos by {
        assert(pin_views(pins@)[k] == pins@[k]@);
    }
    false
}

/// The slot of the output driving the network at `pos`.
fn driver_slot(pos: Point, nets: &Vec<Net>, keys: &Vec<(usize, Vec<char>)>) -> (r: Option<usize>)
    ensures
        match driver_of(net_views(nets@), key_views(keys@), pos) {
            Some(s) => r matches Some(x) && x == s && s < keys@.len(),
            None => r is None,
        },
{
    let ghost nv = net_views(nets@);
    let mut k: usize = nets.len();
    assert(nv.take(nets@.len() as int) =~= nv);
    while k > 0 && !net_has_pos(&nets[k - 1].pins, pos)
        invariant
            k <= nets@.len(),
            nv == net_views(nets@),
            net_for_pos(nv, pos) == net_for_pos(nv.take(k as int), pos),
        decreases k,
    {
        assert(nv.take(k as int).last() == nets@[k - 1]@);
        assert(nv.take(k as int).drop_last() =~= nv.take(k - 1));
        k = k - 1;
    }
    if k == 0 {
        return None;
    }
    assert(nv.take(k as int).last() == nets@[k - 1]@);
    let id = nets[k - 1].id;
    assert(net_for_pos(nv, pos) == Some(id as nat));
    let mut j: usize = 0;
    assert(nv.skip(0) =~= nv);
    while j < nets.len() && nets[j].id != id
        invariant
            j <= nets@.len(),
            nv == net_views(nets@),
            net_with_id(nv, id as nat) == net_with_id(nv.skip(j as int), id as nat),
        decreases nets@.len() - j,
    {
        assert(nv.skip(j as int).drop_first() =~= nv.skip(j + 1));
        j = j + 1;
    }
    if j == nets.len() {
        assert(nv.skip(j as int).len() == 0);
        return None;
    }
    assert(nv.skip(j as int)[0] == nets@[j as int]@);
    let d = match &nets[j].driver {
        Some(d) => d,
        None => {
            return None;
        },
    };
    let dname = str_chars(d.name.as_str());
    let dci = d.component_index;
    assert(net_with_id(nv, id as nat) == Some(nets@[j as int]@));
    assert(nets@[j as int]@.driver == Some(d@));
    let ghost kv = key_views(keys@);
    let ghost key = (dci as nat, dname@);
    assert(net_for_pos(nv, pos) == Some(id as nat));
    assert(key == (d@.component_index, d@.name));
    assert(driver_of(nv, kv, pos) == last_key(kv, key));
    let mut m: usize = keys.len();
    assert(kv.take(keys@.len() as int) =~= kv);
    while m > 0
        invariant
            m <= keys@.len(),
            kv == key_views(keys@),
            key == (dci as nat, dname@),
            driver_of(net_views(nets@), kv, pos) == last_key(kv, key),
            last_key(kv, key) == last_key(kv.take(m as int), key),
        decreases m,
    {
        assert(kv.take(m as int).drop_last() =~= kv.take(m - 1));
        assert(kv.take(m as int).last() == kv[m - 1]);
        assert(kv[m - 1] == (keys@[m - 1].0 as nat, keys@[m - 1].1@));
        let same_ci = keys[m - 1].0 == dci;
        let same = same_ci && chars_equal(keys[m - 1].1.as_slice(), dname.as_slice());
        if same {
            assert(kv[m - 1] == key);
            return Some(m - 1);
        }
        assert(kv[m - 1] != key);
        assert(last_key(kv.take(m as int), key) == last_key(kv.take(m - 1), key));
        m = m - 1;
    }
    assert(kv.take(0) =~= Seq::<(nat, Seq<char>)>::empty());
    None
}

/// The position of `ci` in `o`.
pub open spec fn index_in(o: Seq<usize>, ci: usize) -> Option<nat>
    decreases o.len(),
{
    if o.len() == 0 {
        None
    } else if o[0] == ci {
        Some(0)
    } else {
        match index_in(o.drop_first(), ci) {
            Some(k) => Some(k + 1),
            None => None,
        }
    }
}

fn find_index(o: &Vec<usize>, ci: usize) -> (r: Option<usize>)
    ensures
        match index_in(o@, ci) {
            Some(k) => r matches Some(x) && x == k && x < o@.len(),
            None => r is None,
        },
{
    let mut i: usize = 0;
    assert(o@.skip(0) =~= o@);
    while i < o.len()
        invariant
            i <= o@.len(),
            index_in(o@, ci) == match index_in(o@.skip(i as int), ci) {
                Some(k) => Some((k + i) as nat),
                None => None,
            },
        decreases o@.len() - i,
    {
        assert(o@.skip(i as int)[0] == o@[i as int]);
        if o[i] == ci {
            return Some(i);
        }
        assert(o@.skip(i as int).drop_first() =~= o@.skip(i + 1));
        i = i + 1;
    }
    None
}

/// What one simulated cycle has produced so far: the outputs given slots, in
/// slot order, and the lines.
pub struct SimState {
    pub keys: Seq<(nat, Seq<char>)>,
    pub lines: Seq<Seq<char>>,
}

pub open spec fn src_text(s: Option<nat>) -> Seq<char> {
    match s {
        Some(x) => "vid"@ + dec_nat(x),
        None => "0x0"@,
    }
}

pub open spec fn slot_line(slot: nat, rhs: Seq<char>) -> Seq<char> {
    "var vid"@ + dec_nat(slot) + " = "@ + rhs
}

/// The comment line that opens a component's block.
pub open spec fn comment(ci: nat, c: ComponentV) -> Seq<char> {
    "// "@ + dec_nat(ci) + " "@ + match kind_name(c.kind) {
        Some(n) => n,
        None => "com_unknown"@,
    } + " "@ + dec_int(c.word_size as int) + " "@ + dec_int(c.permanent_id as int) + " "@ + c.user_label
}

/// The assignment of a level output from the values `srcs` on its input pins.
pub open spec fn output_line(kind: u16, f: (Seq<char>, Seq<char>), srcs: Seq<Seq<char>>) -> Seq<char> {
    if kind == 112 {
        ".level_output."@ + f.0 + " = "@ + (if srcs.len() > 0 {
            srcs[0]
        } else {
            "0x0"@
        }) + " != 0x0"@
    } else if srcs.len() == 1 {
        ".level_output."@ + f.0 + " = "@ + f.1 + " "@ + srcs[0]
    } else {
        ".level_output."@ + f.0 + " = "@ + f.1 + " ("@ + join_sep(
            Seq::new(srcs.len(), |i: int| "(("@ + f.1 + " "@ + srcs[i] + ") << "@ + dec_nat(i as nat) + ")"@),
            " | "@,
        ) + ")"@
    }
}

pub open spec fn input_bit_line(f: (Seq<char>, Seq<char>), i: nat) -> Seq<char> {
    "U1 (.level_input."@ + f.0 + " >> "@ + dec_nat(i) + " & 1)"@
}

pub open spec fn as_usize_opt(s: Option<nat>) -> Option<usize> {
    match s {
        Some(x) => Some(x as usize),
        None => None,
    }
}

/// The block of component `ci` appended to `st`.
#[verifier::opaque]
pub open spec fn step(
    cs: Seq<ComponentV>,
    nets: Seq<NetV>,
    tpl: LevelTemplateV,
    in_o: Seq<usize>,
    out_o: Seq<usize>,
    st: SimState,
    ci: usize,
) -> Result<SimState, Seq<char>> {
    let c = cs[ci as int];
    let ps = placed(c, ci as nat);
    let cmt = comment(ci as nat, c);
    let base = st.keys.len();
    if is_input_kind(c.kind) {
        match index_in(in_o, ci) {
            None => Err("MISSING_INPUT_FIELD"@),
            Some(k) => {
                let f = tpl.input_fields[k as int];
                let outs = sel_pins(ps, false);
                if outs.len() == 1 {
                    Ok(
                        SimState {
                            keys: st.keys.push((ci as nat, outs[0].name)),
                            lines: st.lines.push(cmt).push(slot_line(base, f.1 + " .level_input."@ + f.0)),
                        },
                    )
                } else {
                    Ok(
                        SimState {
                            keys: st.keys + Seq::new(outs.len(), |i: int| (ci as nat, outs[i].name)),
                            lines: st.lines.push(cmt) + Seq::new(
                                outs.len(),
                                |i: int| slot_line((base + i) as nat, input_bit_line(f, i as nat)),
                            ),
                        },
                    )
                }
            },
        }
    } else if is_output_kind(c.kind) {
        match index_in(out_o, ci) {
            None => Err("MISSING_OUTPUT_FIELD"@),
            Some(k) => {
                let f = out_field(cs, out_o, k as int, tpl);
                let ins = sel_pins(ps, true);
                let srcs = Seq::new(ins.len(), |i: int| src_text(driver_of(nets, st.keys, ins[i].position)));
                Ok(SimState { keys: st.keys, lines: st.lines.push(cmt).push(output_line(c.kind, f, srcs)) })
            },
        }
    } else {
        gate_step(cs, nets, st, ci)
    }
}

/// The block of combinational component `ci` appended to `st`.
pub open spec fn gate_step(cs: Seq<ComponentV>, nets: Seq<NetV>, st: SimState, ci: usize) -> Result<SimState, Seq<char>> {
    let c = cs[ci as int];
    let ps = placed(c, ci as nat);
    let cmt = comment(ci as nat, c);
    let base = st.keys.len();
    let ins = sel_pins(ps, true);
    let outs = sel_pins(ps, false);
    let inputs = Seq::new(
        ins.len(),
        |i: int| (as_usize_opt(driver_of(nets, st.keys, ins[i].position)), ins[i].width),
    );
    let w = if outs.len() > 0 {
        outs[0].width
    } else {
        c.word_size
    };
    match gate_exprs(c.kind, inputs, outs.len(), w) {
        Err(e) => Err(e),
        Ok(es) => Ok(
            SimState {
                keys: st.keys + Seq::new(outs.len(), |i: int| (ci as nat, outs[i].name)),
                lines: st.lines.push(cmt) + Seq::new(outs.len(), |i: int| slot_line((base + i) as nat, es[i])),
            },
        ),
    }
}

fn comment_text(ci: usize, c: &Component) -> (r: Vec<char>)
    ensures
        r@ == comment(ci as nat, c@),
{
    let mut v: Vec<char> = Vec::new();
    push_str(&mut v, "// ");
    push_u64(&mut v, ci as u64);
    push_str(&mut v, " ");
    match kind_to_name(c.kind) {
        Some(n) => push_str(&mut v, n),
        None => push_str(&mut v, "com_unknown"),
    }
    push_str(&mut v, " ");
    push_i64(&mut v, c.word_size);
    push_str(&mut v, " ");
    push_i64(&mut v, c.permanent_id);
    push_str(&mut v, " ");
    push_str(&mut v, c.user_label.as_str());
    assert(v@ =~= comment(ci as nat, c@));
    v
}

fn slot_text(slot: usize, rhs: &Vec<char>) -> (r: Vec<char>)
    ensures
        r@ == slot_line(slot as nat, rhs@),
{
    let mut v: Vec<char> = Vec::new();
    push_str(&mut v, "var vid");
    push_u64(&mut v, slot as u64);
    push_str(&mut v, " = ");
    push_chars(&mut v, rhs.as_slice());
    assert(v@ =~= slot_line(slot as nat, rhs@));
    v
}

fn src_chars(s: Option<usize>) -> (r: Vec<char>)
    ensures
        r@ == src_text(match s {
            Some(x) => Some(x as nat),
            None => None,
        }),
{
    let mut v: Vec<char> = Vec::new();
    match s {
        Some(x) => {
            push_str(&mut v, "vid");
            push_u64(&mut v, x as u64);
        },
        None => push_str(&mut v, "0x0"),
    }
    v
}

fn output_line_text(kind: u16, f: &(Vec<char>, Vec<char>), srcs: &Vec<Vec<char>>) -> (r: Vec<char>)
    ensures
        r@ == output_line(kind, (f.0@, f.1@), line_views(srcs@)),
{
    let ghost sv = line_views(srcs@);
    let mut v: Vec<char> = Vec::new();
    push_str(&mut v, ".level_output.");
    push_chars(&mut v, f.0.as_slice());
    push_str(&mut v, " = ");
    if kind == 112 {
        if srcs.len() > 0 {
            push_chars(&mut v, srcs[0].as_slice());
        } else {
            push_str(&mut v, "0x0");
        }
        push_str(&mut v, " != 0x0");
    } else if srcs.len() == 1 {
        push_chars(&mut v, f.1.as_slice());
        push_str(&mut v, " ");
        push_chars(&mut v, srcs[0].as_slice());
    } else {
        let mut terms: Vec<Vec<char>> = Vec::new();
        let mut i: usize = 0;
        while i < srcs.len()
            invariant
                i <= srcs@.len(),
                sv == line_views(srcs@),
                terms@.len() == i,
                forall|k: int|
                    0 <= k < i ==> #[trigger] terms@[k]@ == "(("@ + f.1@ + " "@ + sv[k] + ") << "@ + dec_nat(
                        k as nat,
                    ) + ")"@,
            decreases srcs@.len() - i,
        {
            let mut t: Vec<char> = Vec::new();
            push_str(&mut t, "((");
            push_chars(&mut t, f.1.as_slice());
            push_str(&mut t, " ");
            push_chars(&mut t, srcs[i].as_slice());
            push_str(&mut t, ") << ");
            push_u64(&mut t, i as u64);
            push_str(&mut t, ")");
            assert(t@ =~= "(("@ + f.1@ + " "@ + sv[i as int] + ") << "@ + dec_nat(i as nat) + ")"@);
            terms.push(t);
            i = i + 1;
        }
        let joined = join_vecs(&terms, " | ");
        assert(Seq::new(terms@.len(), |k: int| terms@[k]@) =~= Seq::new(
            sv.len(),
            |i: int| "(("@ + f.1@ + " "@ + sv[i] + ") << "@ + dec_nat(i as nat) + ")"@,
        ));
        push_chars(&mut v, f.1.as_slice());
        push_str(&mut v, " (");
        push_chars(&mut v, joined.as_slice());
        push_str(&mut v, ")");
    }
    assert(v@ =~= output_line(kind, (f.0@, f.1@), sv));
    v
}

fn name_chars(p: &PositionedPin) -> (r: Vec<char>)
    ensures
        r@ == p@.name,
{
    str_chars(p.name.as_str())
}

/// The block of a level-input component.
fn input_block(
    cs: &Vec<Component>,
    tpl: &LevelTemplate,
    in_o: &Vec<usize>,
    keys: &mut Vec<(usize, Vec<char>)>,
    lines: &mut Vec<Vec<char>>,
    ci: usize,
) -> (r: Result<(), String>)
    requires
        ci < cs@.len(),
        placement_fits(cs@[ci as int]@),
        is_input_kind(cs@[ci as int].kind),
        in_o@.len() <= tpl@.input_fields.len(),
    ensures
        ({
            let cv = component_views(cs@);
            let st = SimState { keys: key_views(old(keys)@), lines: line_views(old(lines)@) };
            match step(cv, Seq::empty(), tpl@, in_o@, Seq::empty(), st, ci) {
                Ok(st2) => r is Ok && key_views(final(keys)@) == st2.keys && line_views(final(lines)@)
                    == st2.lines,
                Err(e) => r matches Err(x) && x@ == e,
            }
        }),
{
    let ghost cv = component_views(cs@);
    assert(cv[ci as int] == cs@[ci as int]@);
    reveal(step);
    let k = match find_index(in_o, ci) {
        Some(k) => k,
        None => {
            return Err(chars_to_string(str_chars("MISSING_INPUT_FIELD").as_slice()));
        },
    };
    let f0 = str_chars(tpl.input_fields[k].0.as_str());
    let f1 = str_chars(tpl.input_fields[k].1.as_str());
    let ghost f = tpl@.input_fields[k as int];
    assert(f == (f0@, f1@));
    let pins = positioned_pins(&cs[ci], ci);
    let outs = dir_indices(&pins, false);
    let ghost ps = placed(cv[ci as int], ci as nat);
    let ghost os = sel_pins(ps, false);
    let ghost k0 = key_views(keys@);
    let ghost l0 = line_views(lines@);
    let base = keys.len();
    lines.push(comment_text(ci, &cs[ci]));
    assert(line_views(lines@) =~= l0.push(comment(ci as nat, cv[ci as int])));
    if outs.len() == 1 {
        let mut rhs: Vec<char> = Vec::new();
        push_chars(&mut rhs, f1.as_slice());
        push_str(&mut rhs, " .level_input.");
        push_chars(&mut rhs, f0.as_slice());
        let ghost l1 = line_views(lines@);
        lines.push(slot_text(base, &rhs));
        keys.push((ci, name_chars(&pins[outs[0]])));
        assert(line_views(lines@) =~= l1.push(slot_line(base as nat, f.1 + " .level_input."@ + f.0)));
        assert(key_views(keys@) =~= k0.push((ci as nat, os[0].name)));
    } else {
        let mut i: usize = 0;
        while i < outs.len()
            invariant
                i <= outs@.len(),
                outs@.len() == os.len(),
                forall|m: int| 0 <= m < outs@.len() ==> #[trigger] outs@[m] < pins@.len() && pins@[outs@[m] as int]@
                    == os[m],
                base == k0.len(),
                f == (f0@, f1@),
                key_views(keys@) == k0 + Seq::new(i as nat, |m: int| (ci as nat, os[m].name)),
                line_views(lines@) == l0.push(comment(ci as nat, cv[ci as int])) + Seq::new(
                    i as nat,
                    |m: int| slot_line((base + m) as nat, input_bit_line(f, m as nat)),
                ),
            decreases outs@.len() - i,
        {
            let mut rhs: Vec<char> = Vec::new();
            push_str(&mut rhs, "U1 (.level_input.");
            push_chars(&mut rhs, f0.as_slice());
            push_str(&mut rhs, " >> ");
            push_u64(&mut rhs, i as u64);
            push_str(&mut rhs, " & 1)");
            assert(rhs@ =~= input_bit_line(f, i as nat));
            let ghost kb = key_views(keys@);
            let ghost lb = line_views(lines@);
            let slot = keys.len();
            lines.push(slot_text(slot, &rhs));
            keys.push((ci, name_chars(&pins[outs[i]])));
            assert(key_views(keys@) =~= kb.push((ci as nat, os[i as int].name)));
            assert(line_views(lines@) =~= lb.push(slot_line((base + i) as nat, input_bit_line(f, i as nat))));
            assert(k0 + Seq::new((i + 1) as nat, |m: int| (ci as nat, os[m].name)) =~= kb.push(
                (ci as nat, os[i as int].name),
            ));
            assert(l0.push(comment(ci as nat, cv[ci as int])) + Seq::new(
                (i + 1) as nat,
                |m: int| slot_line((base + m) as nat, input_bit_line(f, m as nat)),
            ) =~= lb.push(slot_line((base + i) as nat, input_bit_line(f, i as nat))));
            i = i + 1;
        }
    }
    Ok(())
}


spec fn opt_nat(s: Option<usize>) -> Option<nat> {
    match s {
        Some(x) => Some(x as nat),
        None => None,
    }
}

/// The block of a level-output component.
fn output_block(
    cs: &Vec<Component>,
    nets: &Vec<Net>,
    tpl: &LevelTemplate,
    out_o: &Vec<usize>,
    outf: &Vec<(Vec<char>, Vec<char>)>,
    keys: &Vec<(usize, Vec<char>)>,
    lines: &mut Vec<Vec<char>>,
    ci: usize,
) -> (r: Result<(), String>)
    requires
        ci < cs@.len(),
        placement_fits(cs@[ci as int]@),
        !is_input_kind(cs@[ci as int].kind),
        is_output_kind(cs@[ci as int].kind),
        outf@.len() == out_o@.len(),
        forall|k: int|
            0 <= k < outf@.len() ==> (#[trigger] outf@[k].0@, outf@[k].1@) == out_field(
                component_views(cs@),
                out_o@,
                k,
                tpl@,
            ),
    ensures
        ({
            let cv = component_views(cs@);
            let st = SimState { keys: key_views(keys@), lines: line_views(old(lines)@) };
            match step(cv, net_views(nets@), tpl@, Seq::empty(), out_o@, st, ci) {
                Ok(st2) => r is Ok && key_views(keys@) == st2.keys && line_views(final(lines)@) == st2.lines,
                Err(e) => r matches Err(x) && x@ == e,
            }
        }),
{
    let ghost cv = component_views(cs@);
    assert(cv[ci as int] == cs@[ci as int]@);
    reveal(step);
    let k = match find_index(out_o, ci) {
        Some(k) => k,
        None => {
            return Err(chars_to_string(str_chars("MISSING_OUTPUT_FIELD").as_slice()));
        },
    };
    let f = &outf[k];
    let pins = positioned_pins(&cs[ci], ci);
    let ins = dir_indices(&pins, true);
    let ghost ps = placed(cv[ci as int], ci as nat);
    let ghost is = sel_pins(ps, true);
    let ghost nv = net_views(nets@);
    let ghost kv = key_views(keys@);
    let mut srcs: Vec<Vec<char>> = Vec::new();
    let mut i: usize = 0;
    while i < ins.len()
        invariant
            i <= ins@.len(),
            ins@.len() == is.len(),
            forall|m: int| 0 <= m < ins@.len() ==> #[trigger] ins@[m] < pins@.len() && pins@[ins@[m] as int]@
                == is[m],
            nv == net_views(nets@),
            kv == key_views(keys@),
            srcs@.len() == i,
            forall|m: int| 0 <= m < i ==> #[trigger] srcs@[m]@ == src_text(driver_of(nv, kv, is[m].position)),
        decreases ins@.len() - i,
    {
        let d = driver_slot(pins[ins[i]].position, nets, keys);
        let t = src_chars(d);
        assert(opt_nat(d) == driver_of(nv, kv, is[i as int].position));
        srcs.push(t);
        i = i + 1;
    }
    assert(line_views(srcs@) =~= Seq::new(is.len(), |m: int| src_text(driver_of(nv, kv, is[m].position))));
    let ghost l0 = line_views(lines@);
    lines.push(comment_text(ci, &cs[ci]));
    lines.push(output_line_text(cs[ci].kind, f, &srcs));
    assert(line_views(lines@) =~= l0.push(comment(ci as nat, cv[ci as int])).push(
        output_line(cv[ci as int].kind, out_field(cv, out_o@, k as int, tpl@), line_views(srcs@)),
    ));
    Ok(())
}

/// The block of a combinational component.
fn gate_block(
    cs: &Vec<Component>,
    nets: &Vec<Net>,
    keys: &mut Vec<(usize, Vec<char>)>,
    lines: &mut Vec<Vec<char>>,
    ci: usize,
) -> (r: Result<(), String>)
    requires
        ci < cs@.len(),
        placement_fits(cs@[ci as int]@),
        !is_input_kind(cs@[ci as int].kind),
        !is_output_kind(cs@[ci as int].kind),
    ensures
        ({
            let st = SimState { keys: key_views(old(keys)@), lines: line_views(old(lines)@) };
            match gate_step(component_views(cs@), net_views(nets@), st, ci) {
                Ok(st2) => r is Ok && key_views(final(keys)@) == st2.keys && line_views(final(lines)@)
                    == st2.lines,
                Err(e) => r matches Err(x) && x@ == e,
            }
        }),
{
    let ghost cv = component_views(cs@);
    assert(cv[ci as int] == cs@[ci as int]@);
    let pins = positioned_pins(&cs[ci], ci);
    let ins = dir_indices(&pins, true);
    let outs = dir_indices(&pins, false);
    let ghost ps = placed(cv[ci as int], ci as nat);
    let ghost is = sel_pins(ps, true);
    let ghost os = sel_pins(ps, false);
    let ghost nv = net_views(nets@);
    let ghost k0 = key_views(keys@);
    let mut inputs: Vec<(Option<usize>, i64)> = Vec::new();
    let mut i: usize = 0;
    while i < ins.len()
        invariant
            i <= ins@.len(),
            ins@.len() == is.len(),
            forall|m: int| 0 <= m < ins@.len() ==> #[trigger] ins@[m] < pins@.len() && pins@[ins@[m] as int]@
                == is[m],
            nv == net_views(nets@),
            k0 == key_views(keys@),
            inputs@.len() == i,
            forall|m: int|
                0 <= m < i ==> #[trigger] inputs@[m] == (
                    as_usize_opt(driver_of(nv, k0, is[m].position)),
                    is[m].width,
                ),
        decreases ins@.len() - i,
    {
        let d = driver_slot(pins[ins[i]].position, nets, keys);
        inputs.push((d, pins[ins[i]].width));
        i = i + 1;
    }
    let ghost inv = Seq::new(
        is.len(),
        |m: int| (as_usize_opt(driver_of(nv, k0, is[m].position)), is[m].width),
    );
    assert(inputs@ =~= inv);
    let w = if outs.len() > 0 {
        pins[outs[0]].width
    } else {
        cs[ci].word_size
    };
    let exprs = component_exprs(cs[ci].kind, &inputs, outs.len(), w)?;
    proof {
        if cv[ci as int].kind == 16 {
            lemma_maker_one_output(cv[ci as int], ci as nat);
        }
    }
    assert(exprs@.len() >= outs@.len());
    let ghost es = gate_exprs(cv[ci as int].kind, inv, os.len(), w)->Ok_0;
    let ghost l0 = line_views(lines@);
    let base = keys.len();
    lines.push(comment_text(ci, &cs[ci]));
    let mut j: usize = 0;
    while j < outs.len()
        invariant
            j <= outs@.len(),
            outs@.len() == os.len(),
            forall|m: int| 0 <= m < outs@.len() ==> #[trigger] outs@[m] < pins@.len() && pins@[outs@[m] as int]@
                == os[m],
            exprs@.len() >= outs@.len(),
            forall|m: int| 0 <= m < exprs@.len() ==> #[trigger] exprs@[m]@ == es[m],
            base == k0.len(),
            key_views(keys@) == k0 + Seq::new(j as nat, |m: int| (ci as nat, os[m].name)),
            line_views(lines@) == l0.push(comment(ci as nat, cv[ci as int])) + Seq::new(
                j as nat,
                |m: int| slot_line((base + m) as nat, es[m]),
            ),
        decreases outs@.len() - j,
    {
        let ghost kb = key_views(keys@);
        let ghost lb = line_views(lines@);
        let slot = keys.len();
        lines.push(slot_text(slot, &exprs[j]));
        keys.push((ci, name_chars(&pins[outs[j]])));
        assert(key_views(keys@) =~= kb.push((ci as nat, os[j as int].name)));
        assert(line_views(lines@) =~= lb.push(slot_line((base + j) as nat, es[j as int])));
        assert(k0 + Seq::new((j + 1) as nat, |m: int| (ci as nat, os[m].name)) =~= kb.push(
            (ci as nat, os[j as int].name),
        ));
        assert(l0.push(comment(ci as nat, cv[ci as int])) + Seq::new(
            (j + 1) as nat,
            |m: int| slot_line((base + m) as nat, es[m]),
        ) =~= lb.push(slot_line((base + j) as nat, es[j as int])));
        j = j + 1;
    }
    Ok(())
}


/// The blocks of the components `topo`, in that order, appended to `st`; the
/// first failing block decides the error.
pub open spec fn sim_from(
    cs: Seq<ComponentV>,
    nets: Seq<NetV>,
    tpl: LevelTemplateV,
    in_o: Seq<usize>,
    out_o: Seq<usize>,
    topo: Seq<usize>,
    st: SimState,
) -> Result<SimState, Seq<char>>
    decreases topo.len(),
{
    if topo.len() == 0 {
        Ok(st)
    } else {
        match step(cs, nets, tpl, in_o, out_o, st, topo[0]) {
            Err(e) => Err(e),
            Ok(s2) => sim_from(cs, nets, tpl, in_o, out_o, topo.drop_first(), s2),
        }
    }
}

/// A line indented to the depth of the per-cycle loop body.
pub open spec fn indented(l: Seq<char>) -> Seq<char> {
    "            "@ + l
}

/// Clearing a high-impedance flag: every level output is driven.
pub open spec fn z_line(z: Seq<char>) -> Seq<char> {
    ".level_output."@ + z + " = false"@
}

/// The per-cycle simulation section: the blocks of the components in `topo`
/// order, then the high-impedance flags cleared, each line indented, joined
/// by newlines. Inputs take the template's input fields in order `in_o`;
/// outputs take value / flag fields in order `out_o`.
pub open spec fn sim_text(
    cs: Seq<ComponentV>,
    nets: Seq<NetV>,
    topo: Seq<usize>,
    tpl: LevelTemplateV,
    in_o: Seq<usize>,
    out_o: Seq<usize>,
) -> Result<Seq<char>, Seq<char>> {
    if in_o.len() > tpl.input_fields.len() {
        Err("MISSING_INPUT_FIELD"@)
    } else {
        match out_fault(cs, out_o, out_o.len() as int, tpl.output_fields.len(), tpl.output_z_fields.len()) {
            Some(e) => Err(e),
            None => match sim_from(
                cs,
                nets,
                tpl,
                in_o,
                out_o,
                topo,
                SimState { keys: Seq::empty(), lines: Seq::empty() },
            ) {
                Err(e) => Err(e),
                Ok(st) => Ok(
                    join_sep(
                        (st.lines + tpl.output_z_fields.map_values(|z: Seq<char>| z_line(z))).map_values(
                            |l: Seq<char>| indented(l),
                        ),
                        "\n"@,
                    ),
                ),
            },
        }
    }
}

proof fn lemma_is_order_unique(cs: Seq<ComponentV>, sel: u8, o1: Seq<usize>, o2: Seq<usize>)
    requires
        is_order(cs, sel, o1),
        is_order(cs, sel, o2),
    ensures
        o1 == o2,
{
    assert forall|x: usize| o1.contains(x) implies o2.contains(x) by {
        let k = choose|k: int| 0 <= k < o1.len() && o1[k] == x;
        assert(o1[k] < cs.len() && picks(sel, cs[o1[k] as int].kind));
    }
    assert forall|x: usize| o2.contains(x) implies o1.contains(x) by {
        let k = choose|k: int| 0 <= k < o2.len() && o2[k] == x;
        assert(o2[k] < cs.len() && picks(sel, cs[o2[k] as int].kind));
    }
    lemma_order_unique(cs, sel, o1, o2);
}

fn sim_step(
    cs: &Vec<Component>,
    nets: &Vec<Net>,
    tpl: &LevelTemplate,
    in_o: &Vec<usize>,
    out_o: &Vec<usize>,
    outf: &Vec<(Vec<char>, Vec<char>)>,
    keys: &mut Vec<(usize, Vec<char>)>,
    lines: &mut Vec<Vec<char>>,
    ci: usize,
) -> (r: Result<(), String>)
    requires
        ci < cs@.len(),
        placement_fits(cs@[ci as int]@),
        in_o@.len() <= tpl@.input_fields.len(),
        outf@.len() == out_o@.len(),
        forall|k: int|
            0 <= k < outf@.len() ==> (#[trigger] outf@[k].0@, outf@[k].1@) == out_field(
                component_views(cs@),
                out_o@,
                k,
                tpl@,
            ),
    ensures
        ({
            let st = SimState { keys: key_views(old(keys)@), lines: line_views(old(lines)@) };
            match step(component_views(cs@), net_views(nets@), tpl@, in_o@, out_o@, st, ci) {
                Ok(st2) => r is Ok && key_views(final(keys)@) == st2.keys && line_views(final(lines)@)
                    == st2.lines,
                Err(e) => r matches Err(x) && x@ == e,
            }
        }),
{
    let ghost cv = component_views(cs@);
    let ghost nv = net_views(nets@);
    let ghost st = SimState { keys: key_views(keys@), lines: line_views(lines@) };
    assert(cv[ci as int] == cs@[ci as int]@);
    reveal(step);
    let kind = cs[ci].kind;
    if is_level_input(kind) {
        assert(step(cv, nv, tpl@, in_o@, out_o@, st, ci) == step(cv, Seq::empty(), tpl@, in_o@, Seq::empty(), st, ci));
        input_block(cs, tpl, in_o, keys, lines, ci)
    } else if is_level_output(kind) {
        assert(step(cv, nv, tpl@, in_o@, out_o@, st, ci) == step(cv, nv, tpl@, Seq::empty(), out_o@, st, ci));
        output_block(cs, nets, tpl, out_o, outf, keys, lines, ci)
    } else {
        assert(step(cv, nv, tpl@, in_o@, out_o@, st, ci) == gate_step(cv, nv, st, ci));
        gate_block(cs, nets, keys, lines, ci)
    }
}

fn emit_circuit_sim(circuit: &Circuit, conn: &Connectivity, tpl: &LevelTemplate) -> (r: Result<Vec<char>, String>)
    requires
        forall|k: int| 0 <= k < conn.topo_order@.len() ==> #[trigger] conn.topo_order@[k] < circuit.components@.len(),
        forall|i: int| 0 <= i < circuit.components@.len() ==> placement_fits(#[trigger] circuit.components@[i]@),
    ensures
        forall|in_o: Seq<usize>, out_o: Seq<usize>|
            is_order(circuit@.components, 0, in_o) && is_order(circuit@.components, 1, out_o) ==> match sim_text(
                circuit@.components,
                net_views(conn.networks@),
                conn.topo_order@,
                tpl@,
                in_o,
                out_o,
            ) {
                Ok(t) => r matches Ok(v) && v@ == t,
                Err(e) => r matches Err(x) && x@ == e,
            },
{
    let cs = &circuit.components;
    let ghost cv = component_views(cs@);
    assert(cv == circuit@.components);
    let ghost nv = net_views(conn.networks@);
    let ghost topo = conn.topo_order@;
    let in_o = sorted_indices(cs, 0);
    let out_o = sorted_indices(cs, 1);
    assert forall|a: Seq<usize>, b: Seq<usize>| is_order(cv, 0, a) && is_order(cv, 1, b) implies a == in_o@ && b
        == out_o@ by {
        lemma_is_order_unique(cv, 0, a, in_o@);
        lemma_is_order_unique(cv, 1, b, out_o@);
    }
    if in_o.len() > tpl.input_fields.len() {
        return Err(chars_to_string(str_chars("MISSING_INPUT_FIELD").as_slice()));
    }
    let outf = assign_output_fields(cs, &out_o, tpl)?;
    let mut keys: Vec<(usize, Vec<char>)> = Vec::new();
    let mut lines: Vec<Vec<char>> = Vec::new();
    let ghost init = SimState { keys: Seq::empty(), lines: Seq::empty() };
    assert(key_views(keys@) =~= Seq::<(nat, Seq<char>)>::empty());
    assert(line_views(lines@) =~= Seq::<Seq<char>>::empty());
    assert(topo.skip(0) =~= topo);
    let mut i: usize = 0;
    while i < conn.topo_order.len()
        invariant
            i <= topo.len(),
            topo == conn.topo_order@,
            cv == component_views(cs@),
            nv == net_views(conn.networks@),
            forall|k: int| 0 <= k < topo.len() ==> #[trigger] topo[k] < cs@.len(),
            forall|m: int| 0 <= m < cs@.len() ==> placement_fits(#[trigger] cs@[m]@),
            in_o@.len() <= tpl@.input_fields.len(),
            cv == circuit@.components,
            init == (SimState { keys: Seq::empty(), lines: Seq::empty() }),
            forall|a: Seq<usize>, b: Seq<usize>| is_order(cv, 0, a) && is_order(cv, 1, b) ==> a == in_o@ && b == out_o@,
            out_fault(cv, out_o@, out_o@.len() as int, tpl@.output_fields.len(), tpl@.output_z_fields.len()) is None,
            outf@.len() == out_o@.len(),
            forall|k: int|
                0 <= k < outf@.len() ==> (#[trigger] outf@[k].0@, outf@[k].1@) == out_field(cv, out_o@, k, tpl@),
            sim_from(cv, nv, tpl@, in_o@, out_o@, topo, init) == sim_from(
                cv,
                nv,
                tpl@,
                in_o@,
                out_o@,
                topo.skip(i as int),
                SimState { keys: key_views(keys@), lines: line_views(lines@) },
            ),
        decreases topo.len() - i,
    {
        let ci = conn.topo_order[i];
        assert(topo.skip(i as int)[0] == ci);
        assert(topo.skip(i as int).drop_first() =~= topo.skip(i + 1));
        let ghost st = SimState { keys: key_views(keys@), lines: line_views(lines@) };
        match sim_step(cs, &conn.networks, tpl, &in_o, &out_o, &outf, &mut keys, &mut lines, ci) {
            Ok(()) => {},
            Err(e) => {
                assert(sim_from(cv, nv, tpl@, in_o@, out_o@, topo.skip(i as int), st) == Err::<SimState, Seq<char>>(e@));
                return Err(e);
            },
        }
        i = i + 1;
    }
    let ghost fin = SimState { keys: key_views(keys@), lines: line_views(lines@) };
    assert(topo.skip(topo.len() as int).len() == 0);
    let mut all: Vec<Vec<char>> = Vec::new();
    let mut j: usize = 0;
    while j < lines.len()
        invariant
            j <= lines@.len(),
            all@.len() == j,
            forall|k: int| 0 <= k < j ==> #[trigger] all@[k]@ == indented(lines@[k]@),
        decreases lines@.len() - j,
    {
        let mut l: Vec<char> = Vec::new();
        push_str(&mut l, "            ");
        push_chars(&mut l, lines[j].as_slice());
        all.push(l);
        j = j + 1;
    }
    let ghost zs = tpl@.output_z_fields;
    let mut z: usize = 0;
    while z < tpl.output_z_fields.len()
        invariant
            z <= zs.len(),
            zs == tpl@.output_z_fields,
            all@.len() == lines@.len() + z,
            forall|k: int| 0 <= k < lines@.len() ==> #[trigger] all@[k]@ == indented(lines@[k]@),
            forall|k: int| 0 <= k < z ==> #[trigger] all@[lines@.len() + k]@ == indented(z_line(zs[k])),
        decreases zs.len() - z,
    {
        let mut l: Vec<char> = Vec::new();
        push_str(&mut l, "            ");
        push_str(&mut l, ".level_output.");
        push_str(&mut l, tpl.output_z_fields[z].as_str());
        push_str(&mut l, " = false");
        assert(l@ =~= indented(z_line(zs[z as int])));
        all.push(l);
        z = z + 1;
    }
    let text = join_vecs(&all, "\n");
    let ghost want = (fin.lines + zs.map_values(|z: Seq<char>| z_line(z))).map_values(|l: Seq<char>| indented(l));
    assert forall|k: int| 0 <= k < all@.len() implies #[trigger] all@[k]@ == want[k] by {
        if k < lines@.len() {
            assert(fin.lines[k] == lines@[k]@);
        } else {
            assert(all@[lines@.len() + (k - lines@.len())]@ == indented(z_line(zs[k - lines@.len()])));
        }
    }
    assert(Seq::new(all@.len(), |k: int| all@[k]@) =~= (fin.lines + zs.map_values(|z: Seq<char>| z_line(z))).map_values(
        |l: Seq<char>| indented(l),
    ));
    Ok(text)
}


// ───────────────────────── counts ─────────────────────────

/// Number of entries of the DSL's `ComponentType` enum.
pub const COUNTS_LEN: usize = 101;

/// Per-`ComponentType` counts of the components other than level outputs, or
/// the first kind without a `ComponentType`.
pub open spec fn counts_of(cs: Seq<ComponentV>) -> Result<Seq<nat>, Seq<char>>
    decreases cs.len(),
{
    if cs.len() == 0 {
        Ok(Seq::new(COUNTS_LEN as nat, |i: int| 0nat))
    } else {
        match counts_of(cs.drop_last()) {
            Err(e) => Err(e),
            Ok(c) => {
                let k = cs.last().kind;
                if is_output_kind(k) {
                    Ok(c)
                } else {
                    match enum_index(k) {
                        None => Err("UNSUPPORTED_KIND|"@ + dec_nat(k as nat)),
                        Some(e) => Ok(c.update(e as int, c[e as int] + 1)),
                    }
                }
            },
        }
    }
}

/// The counts as the body of the `#COUNTS` array.
pub open spec fn counts_text(cs: Seq<ComponentV>) -> Result<Seq<char>, Seq<char>> {
    match counts_of(cs) {
        Err(e) => Err(e),
        Ok(c) => Ok(join_sep(c.map_values(|n: nat| dec_nat(n)), ", "@)),
    }
}

proof fn lemma_counts_shape(cs: Seq<ComponentV>)
    ensures
        counts_of(cs) matches Ok(c) ==> c.len() == COUNTS_LEN && forall|e: int| 0 <= e < c.len() ==> #[trigger] c[e]
            <= cs.len(),
    decreases cs.len(),
{
    if cs.len() > 0 {
        lemma_counts_shape(cs.drop_last());
    }
}

proof fn lemma_counts_err_sticks(cs: Seq<ComponentV>, n: int)
    requires
        0 <= n <= cs.len(),
        counts_of(cs.take(n)) is Err,
    ensures
        counts_of(cs) == counts_of(cs.take(n)),
    decreases cs.len() - n,
{
    if n < cs.len() {
        assert(cs.take(n + 1).drop_last() =~= cs.take(n));
        lemma_counts_err_sticks(cs, n + 1);
    } else {
        assert(cs.take(n) =~= cs);
    }
}

fn counts_array(circuit: &Circuit) -> (r: Result<Vec<char>, String>)
    ensures
        match counts_text(circuit@.components) {
            Ok(t) => r matches Ok(v) && v@ == t,
            Err(e) => r matches Err(x) && x@ == e,
        },
{
    let cs = &circuit.components;
    let ghost cv = circuit@.components;
    assert(cv == component_views(cs@));
    let mut counts: Vec<u64> = Vec::new();
    let mut z: usize = 0;
    while z < COUNTS_LEN
        invariant
            z <= COUNTS_LEN,
            counts@.len() == z,
            forall|k: int| 0 <= k < z ==> #[trigger] counts@[k] == 0,
        decreases COUNTS_LEN - z,
    {
        counts.push(0);
        z = z + 1;
    }
    assert(cv.take(0) =~= Seq::<ComponentV>::empty());
    let mut i: usize = 0;
    while i < cs.len()
        invariant
            i <= cs@.len(),
            cv == circuit@.components,
            cv == component_views(cs@),
            counts@.len() == COUNTS_LEN,
            counts_of(cv.take(i as int)) is Ok,
            forall|k: int|
                0 <= k < COUNTS_LEN ==> #[trigger] counts@[k] as nat == counts_of(cv.take(i as int))->Ok_0[k],
        decreases cs@.len() - i,
    {
        proof {
            lemma_counts_shape(cv.take(i as int));
        }
        assert(cv.take(i + 1).drop_last() =~= cv.take(i as int));
        assert(cv.take(i + 1).last() == cs@[i as int]@);
        let kind = cs[i].kind;
        if !is_level_output(kind) {
            match kind_to_enum(kind) {
                None => {
                    let mut v: Vec<char> = Vec::new();
                    push_str(&mut v, "UNSUPPORTED_KIND|");
                    push_u64(&mut v, kind as u64);
                    proof {
                        lemma_counts_err_sticks(cv, i + 1);
                    }
                    return Err(chars_to_string(v.as_slice()));
                },
                Some(e) => {
                    let c = counts[e];
                    assert(c <= i);
                    counts.set(e, c + 1);
                },
            }
        }
        i = i + 1;
    }
    assert(cv.take(cs@.len() as int) =~= cv);
    let mut parts: Vec<Vec<char>> = Vec::new();
    let mut k: usize = 0;
    while k < counts.len()
        invariant
            k <= counts@.len(),
            parts@.len() == k,
            forall|m: int| 0 <= m < k ==> #[trigger] parts@[m]@ == dec_nat(counts@[m] as nat),
        decreases counts@.len() - k,
    {
        let mut v: Vec<char> = Vec::new();
        push_u64(&mut v, counts[k]);
        assert(v@ =~= dec_nat(counts@[k as int] as nat));
        parts.push(v);
        k = k + 1;
    }
    let joined = join_vecs(&parts, ", ");
    proof {
        lemma_counts_shape(cv);
        let c = counts_of(cv)->Ok_0;
        assert(Seq::new(parts@.len(), |m: int| parts@[m]@) =~= c.map_values(|n: nat| dec_nat(n)));
    }
    Ok(joined)
}

/// Number of components that are neither level inputs nor level outputs.
pub open spec fn gate_count(cs: Seq<ComponentV>) -> nat
    decreases cs.len(),
{
    if cs.len() == 0 {
        0
    } else {
        gate_count(cs.drop_last()) + if !is_input_kind(cs.last().kind) && !is_output_kind(cs.last().kind) {
            1nat
        } else {
            0nat
        }
    }
}

fn gate_components(circuit: &Circuit) -> (r: usize)
    ensures
        r == gate_count(circuit@.components),
{
    let cs = &circuit.components;
    let ghost cv = circuit@.components;
    assert(cv == component_views(cs@));
    let mut n: usize = 0;
    let mut i: usize = 0;
    assert(cv.take(0) =~= Seq::<ComponentV>::empty());
    while i < cs.len()
        invariant
            i <= cs@.len(),
            cv == circuit@.components,
            cv == component_views(cs@),
            n == gate_count(cv.take(i as int)),
            n <= i,
        decreases cs@.len() - i,
    {
        assert(cv.take(i + 1).drop_last() =~= cv.take(i as int));
        assert(cv.take(i + 1).last() == cs@[i as int]@);
        if !is_level_input(cs[i].kind) && !is_level_output(cs[i].kind) {
            n = n + 1;
        }
        i = i + 1;
    }
    assert(cv.take(cs@.len() as int) =~= cv);
    n
}

// ───────────────────────── output types ─────────────────────────

/// Number of high-impedance probes (kind 112).
pub open spec fn z_count(cs: Seq<ComponentV>) -> nat
    decreases cs.len(),
{
    if cs.len() == 0 {
        0
    } else {
        z_count(cs.drop_last()) + if cs.last().kind == 112 {
            1nat
        } else {
            0nat
        }
    }
}

/// The type of a value output: `U1` for a one-pin output, else `U<word size>`
/// (at least one bit).
pub open spec fn value_type(c: ComponentV) -> Seq<char> {
    if c.kind == 68 {
        "U1"@
    } else {
        "U"@ + dec_int(if c.word_size < 1 {
            1
        } else {
            c.word_size as int
        })
    }
}

/// The template with its value fields typed by the circuit's value outputs,
/// taken in order `vo`, and its Output struct rebuilt.
pub open spec fn corrected(cs: Seq<ComponentV>, tpl: LevelTemplateV, vo: Seq<usize>) -> Result<LevelTemplateV, Seq<char>> {
    if vo.len() != tpl.output_fields.len() {
        Err(
            "OUTPUT_FIELD_COUNT_MISMATCH|value circuit="@ + dec_nat(vo.len()) + " tpl="@ + dec_nat(
                tpl.output_fields.len(),
            ),
        )
    } else if z_count(cs) > tpl.output_z_fields.len() {
        Err(
            "OUTPUT_FIELD_COUNT_MISMATCH|z circuit="@ + dec_nat(z_count(cs)) + " tpl="@ + dec_nat(
                tpl.output_z_fields.len(),
            ),
        )
    } else {
        let of = Seq::new(vo.len(), |k: int| (tpl.output_fields[k].0, value_type(cs[vo[k] as int])));
        Ok(
            LevelTemplateV {
                input_struct: tpl.input_struct,
                output_struct: output_struct_text(of, tpl.output_z_fields),
                test_defs: tpl.test_defs,
                input_fields: tpl.input_fields,
                output_fields: of,
                output_z_fields: tpl.output_z_fields,
            },
        )
    }
}

fn copy_string(s: &String) -> (r: String)
    ensures
        r@ == s@,
{
    let v = str_chars(s.as_str());
    chars_to_string(v.as_slice())
}

fn copy_fields(v: &Vec<(String, String)>) -> (r: Vec<(String, String)>)
    ensures
        field_views(r@) == field_views(v@),
{
    let mut r: Vec<(String, String)> = Vec::new();
    let mut i: usize = 0;
    while i < v.len()
        invariant
            i <= v@.len(),
            r@.len() == i,
            forall|k: int| 0 <= k < i ==> (#[trigger] r@[k].0@, r@[k].1@) == (v@[k].0@, v@[k].1@),
        decreases v@.len() - i,
    {
        r.push((copy_string(&v[i].0), copy_string(&v[i].1)));
        i = i + 1;
    }
    assert(field_views(r@) =~= field_views(v@));
    r
}

fn copy_strings(v: &Vec<String>) -> (r: Vec<String>)
    ensures
        string_views(r@) == string_views(v@),
{
    let mut r: Vec<String> = Vec::new();
    let mut i: usize = 0;
    while i < v.len()
        invariant
            i <= v@.len(),
            r@.len() == i,
            forall|k: int| 0 <= k < i ==> #[trigger] r@[k]@ == v@[k]@,
        decreases v@.len() - i,
    {
        r.push(copy_string(&v[i]));
        i = i + 1;
    }
    assert(string_views(r@) =~= string_views(v@));
    r
}

fn count_z(cs: &Vec<Component>) -> (r: usize)
    ensures
        r == z_count(component_views(cs@)),
{
    let ghost cv = component_views(cs@);
    let mut n: usize = 0;
    let mut i: usize = 0;
    assert(cv.take(0) =~= Seq::<ComponentV>::empty());
    while i < cs.len()
        invariant
            i <= cs@.len(),
            cv == component_views(cs@),
            n == z_count(cv.take(i as int)),
            n <= i,
        decreases cs@.len() - i,
    {
        assert(cv.take(i + 1).drop_last() =~= cv.take(i as int));
        assert(cv.take(i + 1).last() == cs@[i as int]@);
        if cs[i].kind == 112 {
            n = n + 1;
        }
        i = i + 1;
    }
    assert(cv.take(cs@.len() as int) =~= cv);
    n
}

fn mismatch_message(which: &str, circuit_n: usize, tpl_n: usize) -> (r: String)
    ensures
        r@ == "OUTPUT_FIELD_COUNT_MISMATCH|"@ + which@ + " circuit="@ + dec_nat(circuit_n as nat) + " tpl="@
            + dec_nat(tpl_n as nat),
{
    let mut v: Vec<char> = Vec::new();
    push_str(&mut v, "OUTPUT_FIELD_COUNT_MISMATCH|");
    push_str(&mut v, which);
    push_str(&mut v, " circuit=");
    push_u64(&mut v, circuit_n as u64);
    push_str(&mut v, " tpl=");
    push_u64(&mut v, tpl_n as u64);
    chars_to_string(v.as_slice())
}

/// Type the template's value output fields by the circuit's value outputs
/// (taken by word size, then position) and rebuild its Output struct.
pub fn correct_output_types(tpl: &LevelTemplate, circuit: &Circuit) -> (r: Result<LevelTemplate, String>)
    ensures
        forall|vo: Seq<usize>|
            is_order(circuit@.components, 2, vo) ==> match corrected(circuit@.components, tpl@, vo) {
                Ok(t) => r matches Ok(x) && x@ == t,
                Err(e) => r matches Err(x) && x@ == e,
            },
{
    let cs = &circuit.components;
    let ghost cv = circuit@.components;
    let vo = sorted_indices(cs, 2);
    assert forall|a: Seq<usize>| is_order(cv, 2, a) implies a == vo@ by {
        lemma_is_order_unique(cv, 2, a, vo@);
    }
    if vo.len() != tpl.output_fields.len() {
        proof {
            reveal_strlit("value");
            reveal_strlit("OUTPUT_FIELD_COUNT_MISMATCH|value circuit=");
            reveal_strlit("OUTPUT_FIELD_COUNT_MISMATCH|");
            reveal_strlit(" circuit=");
        }
        return Err(mismatch_message("value", vo.len(), tpl.output_fields.len()));
    }
    let zc = count_z(cs);
    if zc > tpl.output_z_fields.len() {
        proof {
            reveal_strlit("z");
            reveal_strlit("OUTPUT_FIELD_COUNT_MISMATCH|z circuit=");
            reveal_strlit("OUTPUT_FIELD_COUNT_MISMATCH|");
            reveal_strlit(" circuit=");
        }
        return Err(mismatch_message("z", zc, tpl.output_z_fields.len()));
    }
    let mut of: Vec<(String, String)> = Vec::new();
    let mut k: usize = 0;
    while k < vo.len()
        invariant
            k <= vo@.len(),
            vo@.len() == tpl@.output_fields.len(),
            cv == component_views(cs@),
            forall|m: int| 0 <= m < vo@.len() ==> #[trigger] vo@[m] < cs@.len(),
            of@.len() == k,
            forall|m: int|
                0 <= m < k ==> (#[trigger] of@[m].0@, of@[m].1@) == (
                    tpl@.output_fields[m].0,
                    value_type(cv[vo@[m] as int]),
                ),
        decreases vo@.len() - k,
    {
        let c = &cs[vo[k]];
        assert(cv[vo@[k as int] as int] == cs@[vo@[k as int] as int]@);
        let mut t: Vec<char> = Vec::new();
        if c.kind == 68 {
            push_str(&mut t, "U1");
            proof {
                reveal_strlit("U1");
                reveal_strlit("U");
            }
        } else {
            push_str(&mut t, "U");
            let w = if c.word_size < 1 {
                1
            } else {
                c.word_size
            };
            push_i64(&mut t, w);
        }
        assert(t@ =~= value_type(cv[vo@[k as int] as int]));
        of.push((copy_string(&tpl.output_fields[k].0), chars_to_string(t.as_slice())));
        k = k + 1;
    }
    let ghost ofv = Seq::new(vo@.len(), |m: int| (tpl@.output_fields[m].0, value_type(cv[vo@[m] as int])));
    assert(field_views(of@) =~= ofv);
    let z = copy_strings(&tpl.output_z_fields);
    let output_struct = build_output_struct(&of, &z);
    Ok(
        LevelTemplate {
            input_struct: copy_string(&tpl.input_struct),
            output_struct,
            test_defs: copy_string(&tpl.test_defs),
            input_fields: copy_fields(&tpl.input_fields),
            output_fields: of,
            output_z_fields: z,
        },
    )
}

// ───────────────────────── assembly ─────────────────────────

/// Whether `s` holds an empty line (two consecutive newlines).
pub open spec fn has_blank_line(s: Seq<char>) -> bool {
    exists|i: int| 0 <= i && i + 1 < s.len() && s[i] == '\n' && #[trigger] s[i + 1] == '\n'
}

fn blank_line_in(s: &[char]) -> (r: bool)
    ensures
        r == has_blank_line(s@),
{
    let mut i: usize = 0;
    while s.len() > 0 && i < s.len() - 1
        invariant
            forall|k: int| 0 <= k < i && k + 1 < s@.len() ==> !(s@[k] == '\n' && #[trigger] s@[k + 1] == '\n'),
        decreases s@.len() - i,
    {
        if s[i] == '\n' && s[i + 1] == '\n' {
            return true;
        }
        i = i + 1;
    }
    false
}

/// The simulation source skeleton; `__MARKERS__` stand where the level and
/// circuit sections go.
pub const SKELETON: &'static str = r#"// Generated by turing-complete-manager DSL generator.
type SimCommand Enum[run, refresh, mode_reset, quit_simulation]
type CommandIndex Enum[ctl_command, ctl_command_id, ctl_cycle_speed_ms, ctl_exit, ctl_level_manual_input, ctl_level_manual_input_id, ctl_test]
type StateIndex Enum[sim_address, sim_cycle, sim_target_cycle, sim_test_result, sim_last_command_id, sim_error_component, sim_short_circuit_component_id_1, sim_short_circuit_component_id_2, sim_short_circuit_pin_1, sim_short_circuit_pin_2, sim_short_circuit_top_level_permanent_id_1, sim_short_circuit_top_level_permanent_id_2, sim_short_circuit_value_1, sim_short_circuit_value_2, sim_short_circuit_any_top_level_wire_id, sim_running]
type TestResult Enum[pass, win, fail]
__INPUT_OUTPUT_STRUCTS__
def get_command(idx: CommandIndex) U64 {
    return load(<U64>, .commands + (Int idx) * 8)
}
def get_setting(idx: StateIndex) U64 {
    return load(<U64>, .settings + (Int idx) * 8)
}
def set_setting(idx: StateIndex, value: U64) {
    store(.settings + (Int idx) * 8, value)
}
def max(a: TestResult, b: TestResult) TestResult {
    return TestResult max(U64 a, U64 b)
}
def set_text(text: String, offset: Int) {
    let length = text.len()
    store(.ui_buffer + offset, length)
    var i = 0
    while i < length {
        store(.ui_buffer + offset + 8 + i, U8 text[i])
        i += 1
    }
}
const #CYCLE_PAST_FAIL = 0
__TEST_DEFS__
var commands = Ptr 0x1000000
var settings = Ptr 0x1000010
var input_replay = [U64] 0x1000020
var output_history_pins = Ptr 0x1000030
var error_buffer = Ptr 0x1000040
var ui_buffer = Ptr 0x1000050
const #SIMULATION_STATE = Ptr 0x1000060
const #SIMULATION_KEYBOARD_CHARACTER = Ptr 0x1000070
const #SIMULATION_KEYBOARD_COORDINATE = Ptr 0x1000080
var cycle = -1
var last_command_id = U64 0
var level_input = Input {}
var level_output = Output {}
def mode_run(target_cycle: Int) {
    if get_setting(sim_test_result) == U64 win { return }
    if (get_setting(sim_test_result) == U64 fail && .cycle + 1 >= #CYCLE_PAST_FAIL) { return }
    if get_setting(sim_short_circuit_component_id_1) != 0 { return }
    var halt_run = false
    var original_start_time = Time 0
    var orig_start_cycle = U64 .cycle
    var last_time = original_start_time
    var burst_cycles = 1
    var nanos_per_cycle = U64 0
    var i = 0
    var last_target_speed = U64 0
    var speed = U64 1
    while get_command(ctl_command_id) == .last_command_id && !halt_run && target_cycle > .cycle {
        i += 1
        let target_speed = max(1, get_command(ctl_cycle_speed_ms))
        if target_speed != last_target_speed {
            original_start_time = get_time()
            orig_start_cycle = U64 .cycle
            last_time = original_start_time
            speed = min(U64 get_command(ctl_cycle_speed_ms), 10000000000000) // Cap at 10 ghz to avoid overflow
            last_target_speed = target_speed
        }
        let cycles_at_start = .cycle
        let burst_target = .cycle + burst_cycles
        var burst_target_cycle = min(target_cycle, burst_target)
        def halt() {
            .burst_target_cycle = .cycle
            .halt_run = true
        }
        def handle_test_result(result: TestResult) {
            if result != pass {
                var res = result
                halt() // Halt regardless of wether we are above '#CYCLE_PAST_FAIL'
                set_setting(sim_test_result, U64 res)
            }
        }
        while .cycle < burst_target_cycle {
            .level_input = get_input(.cycle + 1)
__CIRCUIT_SIM__
            let result = check_output(.cycle + 1, .level_input, .level_output)
            handle_test_result(result)
            .cycle += 1 // Do this late as it signals to the front end that it can update
        }
        set_setting(sim_cycle, U64 .cycle)
        let time_now = get_time()
        let time_diff = U64 (time_now - last_time)
        nanos_per_cycle = time_diff / U64 burst_cycles
        if time_now - last_time > 33.ms() {
            // Burst took too long
            burst_cycles = max(1, burst_cycles - 1)
        } else {
            // Burst was too fast
            burst_cycles = burst_cycles + 1
        }
        last_time = time_now
        def get_target_cycle(time_now: Time) U64 {
            let time_diff = U64 (time_now - .original_start_time)
            return .orig_start_cycle + ((time_diff / 1000000) * .speed) / 1000000 // Double divide to prevent overflow
        }
        var run_target_cycle = get_target_cycle(time_now)
        // Sleep any ahead of time away
        while .cycle > Int run_target_cycle && get_command(ctl_command_id) == .last_command_id {
            sleep(1.ms())
            .cycle -= 1
            mode_refresh()
            .cycle += 1
            run_target_cycle = get_target_cycle(get_time())
        }
    }
}
def mode_refresh() {
    // Stub: check_output consumes .level_output (set in mode_run) directly;
    // #SIMULATION_STATE writes only feed the game's UI display, not the test result.
}
def set_error(input: @Type) {
    // No-op: error messages only feed the game's UI display, never the test
    // result. @Type accepts both the i18n tuple `(id, text)` (used by test.si
    // check_outputs) and a plain String.
}
def reset_sim() {
    .time_component_last = U64 0
    set_error("")
    .global_seed = Seed (get_command(ctl_test) + 1) // 0 can't be seed
    .last_level_manual_input = 0
    set_setting(sim_cycle, U64 -1)
    set_setting(sim_short_circuit_component_id_1, U64 0)
    set_setting(sim_short_circuit_component_id_2, U64 0)
    set_setting(sim_test_result, U64 pass)
    .cycle = -1
    memory_clear(#SIMULATION_KEYBOARD_CHARACTER, 8192)
    memory_clear(#SIMULATION_KEYBOARD_COORDINATE, 8192)
    memory_clear(#SIMULATION_STATE, 268)
}
type ComponentType Enum[com_off, com_on, com_not_bit, com_and_bit, com_and_3_bit, com_nand_bit, com_or_bit, com_or_3_bit, com_nor_bit, com_xor_bit, com_xnor_bit, com_switch_bit, com_delay_line_bit, com_register_bit, com_full_adder, com_maker_bit_8, com_splitter_bit_8, com_not_word, com_or_word, com_and_word, com_nand_word, com_nor_word, com_xor_word, com_xnor_word, com_switch_word, com_equal, com_less_u, com_less_s, com_neg, com_add, com_mul, com_div, com_lsl, com_lsr, com_rol, com_ror, com_asr, com_counter, com_register_word, com_level_output_8_pin, com_mux, com_decoder_1, com_decoder_2, com_decoder_3, com_constant, com_splitter_word_2, com_maker_word_2, com_clz, com_register_word_config, com_delay_line_word_asm, com_load_port, com_delay_line_word, com_store_port, com_ctz, com_cc_level_output, com_level_gate, com_level_input_1_pin, com_level_input_word, com_level_input_switched, com_level_input_2_pin, com_level_input_3_pin, com_level_input_4_pin, com_level_output_1_pin, com_level_output_word, com_level_output_switched, com_level_output_2_pin, com_level_output_3_pin, com_level_output_4_pin, com_level_output_counter, com_custom, com_cc_input, com_cc_output, com_probe_memory_bit, com_probe_memory_word, com_probe_wire_bit, com_probe_wire_word, com_halt, com_segment_display, com_static_value, com_screen, com_time, com_keyboard, com_static_eval, com_verilog_input, com_verilog_output, com_maker_word_4, com_maker_word_8, com_splitter_word_4, com_splitter_word_8, com_static_indexer, com_inc, com_cc_level_input, com_mod, com_splitter_bit_2, com_splitter_bit_4, com_maker_bit_2, com_maker_bit_4, com_concatenator_2, com_concatenator_4, com_concatenator_8, com_static_indexer_config, com_ram, com_delay_line_word_config]
def get_tick() Int { return .cycle }
def get_test() Int { return Int get_command(ctl_test) }
def get_gate_score() Int { return __GATE_SCORE__}
def get_delay_score() Int { return 0 }
def get_component_count() Int { return __COMPONENT_COUNT__ }
def get_component_count(component_type: ComponentType) Int {
    const #COUNTS = [__COUNTS__]
    return #COUNTS[Int component_type]
}
def ui_set_position(id: String, x: Int, y: Int) {
    switch id
        case "table" { store(.ui_buffer + 8, U64 (x << 16 | (y & 0xffff))) }
}
def ui_set_width(id: String, value: Int) {
    switch id
}
def ui_set_hidden(id: String, value: Bool) {
    switch id
        case "table[0][0]" { store(.ui_buffer + 88, U64 value) }
        case "table[0][1]" { store(.ui_buffer + 96, U64 value) }
        case "table[1][0]" { store(.ui_buffer + 104, U64 value) }
        case "table[1][1]" { store(.ui_buffer + 112, U64 value) }
        case "table[2][0]" { store(.ui_buffer + 120, U64 value) }
        case "table[2][1]" { store(.ui_buffer + 128, U64 value) }
        case "table[3][0]" { store(.ui_buffer + 136, U64 value) }
        case "table[3][1]" { store(.ui_buffer + 144, U64 value) }
        case "table[4][0]" { store(.ui_buffer + 152, U64 value) }
        case "table[4][1]" { store(.ui_buffer + 160, U64 value) }
        case "table" { store(.ui_buffer + 0, U64 value) }
}
def ui_set_size(id: String, value: Int) {
    switch id
        case "table" { store(.ui_buffer + 40, U64 value) }
}
def ui_set_column_header_size(id: String, value: Int) {
    switch id
}
def ui_set_row_header_size(id: String, value: Int) {
    switch id
        case "table" { store(.ui_buffer + 56, U64 value) }
}
def ui_set_color(id: String, value: Int) {
    switch id
        case "table" { store(.ui_buffer + 48, U64 value) }
}
def ui_set_address_color(id: String, value: Int) {
    switch id
}
def ui_set_instruction_color(id: String, value: Int) {
    switch id
}
def ui_set_description_color(id: String, value: Int) {
    switch id
}
def ui_set_column_header_color(id: String, value: Int) {
    switch id
}
def ui_set_row_header_color(id: String, value: Int) {
    switch id
        case "table" { store(.ui_buffer + 64, U64 value) }
}
def ui_set_text(id: String, text: String) {
    switch id
        case "table[0][0]" { set_text(text, 10000) }
        case "table[0][1]" { set_text(text, 20000) }
        case "table[1][0]" { set_text(text, 30000) }
        case "table[1][1]" { set_text(text, 40000) }
        case "table[2][0]" { set_text(text, 50000) }
        case "table[2][1]" { set_text(text, 60000) }
        case "table[3][0]" { set_text(text, 70000) }
        case "table[3][1]" { set_text(text, 80000) }
        case "table[4][0]" { set_text(text, 90000) }
        case "table[4][1]" { set_text(text, 100000) }
}
def ui_set_image_name(id: String, text: String) {
    switch id
}
def ui_set_instruction(index: Int, code: Int, pointer: Int) {
    switch index
}
def add_keyboard_value(key_down: Bool, key: U8) {
    let value = U16 key_down | (U16 key) << 8
    var index = load(<U16>, #SIMULATION_KEYBOARD_CHARACTER + 4098)
    store(#SIMULATION_KEYBOARD_CHARACTER + index, value)
    store(#SIMULATION_KEYBOARD_CHARACTER + 4098, (index + 8) % 4096)
}
def get_last_time() Int { return Int .time_component_last }
def get_screen_connection(screen_name: String) String {
}
def get_memory(label: String) Int {
}
def get_load_port_input(label: String) Int {
}
def get_screen_settings(label: String, index: Int) Int {
}
def get_output(user_label: String, index: Int) Int {
}
def get_ram_value(label: String, address: Int, size: @Size) @Size {
}
def set_ram_value(label: String, offset: Int, value: @Type) {
}
var last_level_manual_input = U64 0
var time_component_last = U64 0
var manual_input_seen = false
run_sim: while true {
    reset_sim()
    while true {
        mode_refresh()
        #if in_scope(on_ui_update){
            on_ui_update(.level_input, .level_output)
        }
        while get_command(ctl_command_id) == last_command_id {
            #if in_scope(on_manual_input){
                if last_level_manual_input != get_command(ctl_level_manual_input_id) {
                    last_level_manual_input = get_command(ctl_level_manual_input_id)
                    on_manual_input(Int get_command(ctl_level_manual_input))
                    manual_input_seen = true
                }
            }
            sleep(1.ms())
        }
        if manual_input_seen {
            manual_input_seen = false
            break
        }
        last_command_id = get_command(ctl_command_id) // Read this before the command in case of race condition
        set_setting(sim_last_command_id, last_command_id)
        var command = SimCommand get_command(ctl_command)
        switch command
            case run {
                var target_cycle = Int get_setting(sim_target_cycle)
                set_setting(sim_running, U64 1)
                mode_run(target_cycle)
                set_setting(sim_running, U64 0)
            }
            case refresh {}
            case mode_reset {
                var i = 0
                while i < 1024 {
                    input_replay[i] = 0
                    i += 1
                }
                break
            }
            case quit_simulation {
                break run_sim // We need to break out instead of thread_exit() to make sure everything is cleaned up
            }
    }
}"#;

/// The full source for a circuit, given the template after output typing,
/// the networks and the evaluation order, and the port orders.
pub open spec fn generated(
    c: CircuitV,
    tpl: LevelTemplateV,
    nets: Seq<NetV>,
    topo: Seq<usize>,
    in_o: Seq<usize>,
    out_o: Seq<usize>,
    vo: Seq<usize>,
) -> Result<Seq<char>, Seq<char>> {
    let cs = c.components;
    match corrected(cs, tpl, vo) {
        Err(e) => Err(e),
        Ok(t) => if unsupported_kinds(cs).len() > 0 {
            Err("UNSUPPORTED_COMPONENT_KINDS|"@ + join_kinds(unsupported_kinds(cs)))
        } else {
            match sim_text(cs, nets, topo, t, in_o, out_o) {
                Err(e) => Err(e),
                Ok(sim) => match counts_text(cs) {
                    Err(e) => Err(e),
                    Ok(counts) => {
                        let out = replace_all(
                            replace_all(
                                replace_all(
                                    replace_all(
                                        replace_all(
                                            replace_all(
                                                SKELETON@,
                                                "__INPUT_OUTPUT_STRUCTS__"@,
                                                t.input_struct + "\n"@ + t.output_struct,
                                            ),
                                            "__TEST_DEFS__"@,
                                            t.test_defs,
                                        ),
                                        "__CIRCUIT_SIM__"@,
                                        sim,
                                    ),
                                    "__GATE_SCORE__"@,
                                    dec_nat(gate_count(cs)),
                                ),
                                "__COMPONENT_COUNT__"@,
                                dec_nat(cs.len()),
                            ),
                            "__COUNTS__"@,
                            counts,
                        );
                        if has_blank_line(out) {
                            Err("GENERATED_DIALECT_VIOLATION|blank line"@)
                        } else {
                            Ok(out)
                        }
                    },
                },
            }
        }
    }
}

/// The template's output fields fit the circuit's outputs, which generation
/// checks before it places any pin.
pub open spec fn outputs_match(cs: Seq<ComponentV>, tpl: LevelTemplateV) -> bool {
    forall|vo: Seq<usize>| #[trigger] is_order(cs, 2, vo) ==> corrected(cs, tpl, vo) is Ok
}

/// What connectivity resolution guarantees of `nets` and `topo`: the
/// networks of the circuit's pins and the evaluation order (Kahn's
/// first-in-first-out order) of the graph they induce.
pub open spec fn resolution(c: CircuitV, nets: Seq<NetV>, topo: Seq<usize>) -> bool {
    &&& nets_ok(c.wires, pins_of(c.components), nets)
    &&& exists|es: Seq<(nat, nat)>|
        (forall|x: (nat, nat)| es.contains(x) <==> #[trigger] is_edge(nets, x)) && #[trigger] topo_ok(
            c.components.len(),
            es,
            usize_seq_nat(topo),
        ) && fifo_order(es, usize_seq_nat(topo))
}

/// `r` is what generation gives for `c` under `tpl` when resolution yields
/// `nets` and `topo` (which it guarantees to be a resolution of `c`).
pub open spec fn generates(c: CircuitV, tpl: LevelTemplateV, nets: Seq<NetV>, topo: Seq<usize>, r: Result<String, String>) -> bool {
    forall|in_o: Seq<usize>, out_o: Seq<usize>, vo: Seq<usize>|
        is_order(c.components, 0, in_o) && is_order(c.components, 1, out_o) && is_order(c.components, 2, vo) ==> {
            &&& (corrected(c.components, tpl, vo) is Ok && unsupported_kinds(c.components).len() == 0 ==> resolution(
                c,
                nets,
                topo,
            ))
            &&& match generated(c, tpl, nets, topo, in_o, out_o, vo) {
                Ok(t) => r matches Ok(x) && x@ == t,
                Err(e) => r matches Err(x) && x@ == e,
            }
        }
}

/// Generate the full simulation source for `circuit` under `tpl`.
///
/// The value output fields are typed by the circuit's outputs and the Output
/// struct rebuilt; the circuit's wiring is resolved; each component, in
/// evaluation order, gets its block of the per-cycle simulation. The result
/// may hold no empty line.
pub fn generate(circuit: &Circuit, tpl: &LevelTemplate) -> (r: Result<String, String>)
    requires
        outputs_match(circuit@.components, tpl@) ==> resolve_fits(circuit@),
    ensures
        exists|nets: Seq<NetV>, topo: Seq<usize>| #[trigger] generates(circuit@, tpl@, nets, topo, r),
        r matches Ok(s) ==> !has_blank_line(s@),
{
    let ghost cv = circuit@.components;
    let ghost empty_n = Seq::<NetV>::empty();
    let ghost empty_t = Seq::<usize>::empty();
    let t = match correct_output_types(tpl, circuit) {
        Ok(t) => t,
        Err(e) => {
            let res: Result<String, String> = Err(e);
            assert(generates(circuit@, tpl@, empty_n, empty_t, res));
            return res;
        },
    };
    assert(outputs_match(circuit@.components, tpl@));
    let conn = match resolve(circuit) {
        Ok(c) => c,
        Err(e) => {
            let res: Result<String, String> = Err(e);
            assert(generates(circuit@, tpl@, empty_n, empty_t, res));
            return res;
        },
    };
    let ghost nets = net_views(conn.networks@);
    let ghost topo = conn.topo_order@;
    proof {
        let es = crate::pins::edge_views(conn.edges@);
        assert(topo_ok(cv.len(), es, usize_seq_nat(topo)));
        assert(fifo_order(es, usize_seq_nat(topo)));
        assert(resolution(circuit@, nets, topo));
        assert forall|k: int| 0 <= k < topo.len() implies #[trigger] topo[k] < circuit.components@.len() by {
            assert(usize_seq_nat(topo)[k] < cv.len());
        }
        assert forall|i: int| 0 <= i < circuit.components@.len() implies placement_fits(
            #[trigger] circuit.components@[i]@,
        ) by {
            assert(cv[i] == circuit.components@[i]@);
        }
    }
    let sim = match emit_circuit_sim(circuit, &conn, &t) {
        Ok(s) => s,
        Err(e) => {
            let res: Result<String, String> = Err(e);
            assert(generates(circuit@, tpl@, nets, topo, res));
            return res;
        },
    };
    let counts = match counts_array(circuit) {
        Ok(c) => c,
        Err(e) => {
            let res: Result<String, String> = Err(e);
            assert(generates(circuit@, tpl@, nets, topo, res));
            return res;
        },
    };
    let gates = gate_components(circuit);
    let mut structs = str_chars(t.input_struct.as_str());
    structs.push('\n');
    push_str(&mut structs, t.output_struct.as_str());
    let mut gate_text: Vec<char> = Vec::new();
    push_u64(&mut gate_text, gates as u64);
    let mut count_text: Vec<char> = Vec::new();
    push_u64(&mut count_text, circuit.components.len() as u64);
    let defs = str_chars(t.test_defs.as_str());
    let skeleton = str_chars(SKELETON);
    let a = replace_chars(skeleton.as_slice(), "__INPUT_OUTPUT_STRUCTS__", structs.as_slice());
    let b = replace_chars(a.as_slice(), "__TEST_DEFS__", defs.as_slice());
    let c = replace_chars(b.as_slice(), "__CIRCUIT_SIM__", sim.as_slice());
    let d = replace_chars(c.as_slice(), "__GATE_SCORE__", gate_text.as_slice());
    let e = replace_chars(d.as_slice(), "__COMPONENT_COUNT__", count_text.as_slice());
    let out = replace_chars(e.as_slice(), "__COUNTS__", counts.as_slice());
    assert(structs@ =~= t@.input_struct + "\n"@ + t@.output_struct) by {
        reveal_strlit("\n");
    }
    if blank_line_in(out.as_slice()) {
        let res: Result<String, String> = Err(
            chars_to_string(str_chars("GENERATED_DIALECT_VIOLATION|blank line").as_slice()),
        );
        assert(generates(circuit@, tpl@, nets, topo, res));
        return res;
    }
    let res: Result<String, String> = Ok(chars_to_string(out.as_slice()));
    assert(generates(circuit@, tpl@, nets, topo, res));
    res
}

} // verus!
