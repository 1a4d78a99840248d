//! Data of the game's compile/run interface, the preamble address rewrite,
//! and the built-in test templates of the first three levels.
use vstd::prelude::*;
use crate::gen::{field_views, string_views, LevelTemplate, LevelTemplateV};
use crate::text::{chars_to_string, push_chars, push_str, replace_all, replace_chars, str_chars};

verus! {

// ───────────────────────── compile output ─────────────────────────

/// The 40-byte buffer that `compile()` fills: five little-endian fields.
#[derive(Debug, Clone, Copy)]
pub struct CompileOutput {
    pub field_0: u64,
    pub field_1: u64,
    pub field_2: u32,
    pub field_3: u64,
    pub field_4: u64,
}

impl CompileOutput {
    /// A buffer of zeros.
    pub fn zeroed() -> (r: Self)
        ensures
            r.field_0 == 0 && r.field_1 == 0 && r.field_2 == 0 && r.field_3 == 0 && r.field_4 == 0,
    {
        CompileOutput { field_0: 0, field_1: 0, field_2: 0, field_3: 0, field_4: 0 }
    }

    /// Whether `compile()` wrote anything: some field is non-zero.
    pub fn is_populated(&self) -> (r: bool)
        ensures
            r == (self.field_0 != 0 || self.field_1 != 0 || self.field_2 != 0 || self.field_3 != 0
                || self.field_4 != 0),
    {
        self.field_0 != 0 || self.field_1 != 0 || self.field_2 != 0 || self.field_3 != 0 || self.field_4 != 0
    }
}

/// The report of one circuit run.
#[derive(Debug, Clone)]
pub struct CircuitRunReport {
    pub compiled_ok: bool,
    pub output: CompileOutput,
    /// The DSL's `TestResult` when the compiled code ran.
    pub test_result: Option<u64>,
    pub cycles_run: i64,
    pub error: Option<String>,
}

/// The outcome of executing a compiled circuit: the DSL's `TestResult`
/// (0 pass, 1 win, 2 fail) and the number of simulated cycles.
#[derive(Debug, Clone, Copy)]
pub struct RunOutcome {
    pub test_result: u64,
    pub cycles_run: i64,
}

// ───────────────────────── driving a run ─────────────────────────

/// `TestResult` of a run that passed.
pub const TR_PASS: u64 = 0;

/// `TestResult` of a run that won.
pub const TR_WIN: u64 = 1;

/// `TestResult` of a run that failed.
pub const TR_FAIL: u64 = 2;

/// One look at the arena's state while the compiled code runs.
#[derive(Debug, Clone, Copy)]
pub struct ArenaPoll {
    /// `settings[sim_cycle]`.
    pub cycle: u64,
    /// `settings[sim_test_result]`.
    pub test_result: u64,
    /// `settings[sim_running]`.
    pub running: u64,
}

/// After one look at the arena: whether the run has been seen running so
/// far, and whether it is over. It is over once it was seen running and has
/// stopped, or has reached the target cycle, or has failed.
pub fn poll_step(saw_running: bool, poll: ArenaPoll, target_cycle: u64) -> (r: (bool, bool))
    ensures
        r.0 == (saw_running || poll.running == 1),
        r.1 == ((r.0 && poll.running == 0) || poll.cycle == target_cycle || poll.test_result == TR_FAIL),
{
    let seen = saw_running || poll.running == 1;
    let over = (seen && poll.running == 0) || poll.cycle == target_cycle || poll.test_result == TR_FAIL;
    (seen, over)
}

/// The outcome of a finished run: only a written fail counts as a fail (on a
/// pass the result slot holds the last input instead); the cycle count is the
/// final `sim_cycle` read as a signed number.
pub fn interpret_run(last_test_result: u64, final_cycle: u64) -> (r: RunOutcome)
    ensures
        r.test_result == (if last_test_result == TR_FAIL { TR_FAIL } else { TR_PASS }),
        r.cycles_run == final_cycle as i64,
{
    let test_result = if last_test_result == TR_FAIL { TR_FAIL } else { TR_PASS };
    RunOutcome { test_result, cycles_run: final_cycle as i64 }
}

/// The report when `compile()` refused the source: its status field is not
/// zero. `None` when the machine code can be run.
pub fn compile_failure(out: CompileOutput) -> (r: Option<CircuitRunReport>)
    ensures
        out.field_3 == 0 <==> r is None,
        r matches Some(rep) ==> (!rep.compiled_ok && rep.output == out && rep.test_result is None
            && rep.cycles_run == 0 && (rep.error matches Some(e) && e@ == "COMPILER_ERROR"@)),
{
    if out.field_3 != 0 {
        Some(CircuitRunReport {
            compiled_ok: false,
            output: out,
            test_result: None,
            cycles_run: 0,
            error: Some(chars_to_string(str_chars("COMPILER_ERROR").as_slice())),
        })
    } else {
        None
    }
}

/// The report of a compiled and executed run.
pub fn run_report(out: CompileOutput, outcome: RunOutcome) -> (r: CircuitRunReport)
    ensures
        r.compiled_ok && r.output == out && r.test_result == Some(outcome.test_result)
            && r.cycles_run == outcome.cycles_run && r.error is None,
{
    CircuitRunReport {
        compiled_ok: true,
        output: out,
        test_result: Some(outcome.test_result),
        cycles_run: outcome.cycles_run,
        error: None,
    }
}

// ───────────────────────── preamble addresses ─────────────────────────

/// Where the simulation arena sits in the fixed-address preamble.
pub const ARENA_BASE: usize = 0x1000000;

/// Lower-case hexadecimal digit `d` (below 16).
pub open spec fn hex_digit(d: nat) -> char {
    if d < 10 {
        ((48 + d) as u8) as char
    } else {
        ((87 + d) as u8) as char
    }
}

/// Lower-case hexadecimal representation of `n`.
pub open spec fn hex_nat(n: nat) -> Seq<char>
    decreases n,
{
    if n < 16 {
        seq![hex_digit(n)]
    } else {
        hex_nat(n / 16).push(hex_digit(n % 16))
    }
}

/// `0x` followed by the hexadecimal representation of `n`.
pub open spec fn hex_text(n: nat) -> Seq<char> {
    seq!['0', 'x'] + hex_nat(n)
}

fn push_hex(out: &mut Vec<char>, n: u64)
    ensures
        final(out)@ == old(out)@ + hex_nat(n as nat),
    decreases n,
{
    if n >= 16 {
        push_hex(out, n / 16);
    }
    let d: u8 = (n % 16) as u8;
    let c: char = if d < 10 {
        (48u8 + d) as char
    } else {
        (87u8 + d) as char
    };
    out.push(c);
}

fn hex_chars(n: u64) -> (r: Vec<char>)
    ensures
        r@ == hex_text(n as nat),
{
    let mut v: Vec<char> = Vec::new();
    v.push('0');
    v.push('x');
    push_hex(&mut v, n);
    assert(v@ =~= hex_text(n as nat));
    v
}

/// `dsl` with the preamble's fixed arena addresses, the first `k` of the nine
/// 16 bytes apart, moved to `base`, in that order.
pub open spec fn moved(dsl: Seq<char>, base: nat, k: nat) -> Seq<char>
    decreases k,
{
    if k == 0 {
        dsl
    } else {
        let off: nat = (16 * (k - 1)) as nat;
        replace_all(moved(dsl, base, (k - 1) as nat), hex_text(ARENA_BASE as nat + off), hex_text(base + off))
    }
}

/// Rewrite the nine fixed arena addresses of the preamble
/// (`0x1000000`, `0x1000010`, ... `0x1000080`) to the same offsets from
/// `base`, one address after the other.
pub fn inject_preamble_addresses(dsl: &str, base: usize) -> (r: String)
    requires
        base + 0x80 <= usize::MAX,
    ensures
        r@ == moved(dsl@, base as nat, 9),
{
    let mut out = str_chars(dsl);
    let mut k: usize = 0;
    while k < 9
        invariant
            k <= 9,
            base + 0x80 <= usize::MAX,
            out@ == moved(dsl@, base as nat, k as nat),
        decreases 9 - k,
    {
        let off = 16 * k;
        let fixed = hex_chars((ARENA_BASE + off) as u64);
        let injected = hex_chars((base + off) as u64);
        let fixed_str = chars_to_string(fixed.as_slice());
        out = replace_chars(out.as_slice(), fixed_str.as_str(), injected.as_slice());
        k = k + 1;
    }
    chars_to_string(out.as_slice())
}

// ───────────────────────── built-in templates ─────────────────────────

pub const TWO_INPUT_STRUCT: &'static str = "type Input {\n    a: U1,\n    b: U1,\n}";
pub const ONE_INPUT_STRUCT: &'static str = "type Input {\n    a: U1,\n}";
pub const RESULT_OUTPUT_STRUCT: &'static str = "type Output {\n    result: U1,\n    result_is_z: Bool,\n}";
pub const TWO_INPUT_GET: &'static str = "def get_input(tick: Int) Input {\n    var a = U1 (tick & 1)\n    var b = U1 ((tick >> 1) & 1)\n    return Input {a: U1 a, b: U1 b}\n}";
pub const ONE_INPUT_GET: &'static str = "def get_input(tick: Int) Input {\n    var a = U1 (tick & 1)\n    return Input {a: U1 a}\n}";
pub const AND_CHECK: &'static str = "def check_output(tick: Int, input: Input, output: Output) TestResult {\n    var expected = false\n    if (U64 input.a & U64 input.b) != 0 {\n        expected = true\n    }\n    if expected {\n        if output.result == 0 {\n            return fail\n        }\n    } else {\n        if output.result != 0 {\n            return fail\n        }\n    }\n    if tick == 2047 {\n        return win\n    }\n    return pass\n}";
pub const OR_CHECK: &'static str = "def check_output(tick: Int, input: Input, output: Output) TestResult {\n    var expected = false\n    if (U64 input.a | U64 input.b) != 0 {\n        expected = true\n    }\n    if expected {\n        if output.result == 0 {\n            return fail\n        }\n    } else {\n        if output.result != 0 {\n            return fail\n        }\n    }\n    if tick == 2047 {\n        return win\n    }\n    return pass\n}";
pub const NOT_CHECK: &'static str = "def check_output(tick: Int, input: Input, output: Output) TestResult {\n    var expected = false\n    if (U64 input.a) == 0 {\n        expected = true\n    }\n    if expected {\n        if output.result == 0 {\n            return fail\n        }\n    } else {\n        if output.result != 0 {\n            return fail\n        }\n    }\n    if tick == 2047 {\n        return win\n    }\n    return pass\n}";

/// The built-in template of a level: its structs, its test definitions
/// (`get_input` then `check_output`), its `a` (and `b`) input bits, its one
/// `result` bit and the `result_is_z` flag.
pub open spec fn builtin_template(id: Seq<char>) -> Option<LevelTemplateV> {
    let two = seq![("a"@, "U1"@), ("b"@, "U1"@)];
    let one = seq![("a"@, "U1"@)];
    let outs = seq![("result"@, "U1"@)];
    let z = seq!["result_is_z"@];
    if id == "and_gate"@ || id == "or_gate"@ {
        Some(
            LevelTemplateV {
                input_struct: TWO_INPUT_STRUCT@,
                output_struct: RESULT_OUTPUT_STRUCT@,
                test_defs: TWO_INPUT_GET@ + "\n"@ + if id == "and_gate"@ {
                    AND_CHECK@
                } else {
                    OR_CHECK@
                },
                input_fields: two,
                output_fields: outs,
                output_z_fields: z,
            },
        )
    } else if id == "not_gate"@ {
        Some(
            LevelTemplateV {
                input_struct: ONE_INPUT_STRUCT@,
                output_struct: RESULT_OUTPUT_STRUCT@,
                test_defs: ONE_INPUT_GET@ + "\n"@ + NOT_CHECK@,
                input_fields: one,
                output_fields: outs,
                output_z_fields: z,
            },
        )
    } else {
        None
    }
}

fn same_str(a: &str, b: &str) -> (r: bool)
    ensures
        r == (a@ == b@),
{
    let x = str_chars(a);
    let y = str_chars(b);
    if x.len() != y.len() {
        return false;
    }
    let mut i: usize = 0;
    while i < x.len()
        invariant
            x@.len() == y@.len(),
            x@ == a@,
            y@ == b@,
            i <= x@.len(),
            forall|k: int| 0 <= k < i ==> x@[k] == y@[k],
        decreases x@.len() - i,
    {
        if x[i] != y[i] {
            assert(a@[i as int] != b@[i as int]);
            return false;
        }
        i = i + 1;
    }
    assert(x@ =~= y@);
    true
}

fn owned(s: &str) -> (r: String)
    ensures
        r@ == s@,
{
    chars_to_string(str_chars(s).as_slice())
}

fn defs_text(get: &str, check: &str) -> (r: String)
    ensures
        r@ == get@ + "\n"@ + check@,
{
    let mut v = str_chars(get);
    push_str(&mut v, "\n");
    push_str(&mut v, check);
    chars_to_string(v.as_slice())
}

/// The built-in template of `and_gate`, `or_gate` or `not_gate`.
pub fn template_for_level(level_id: &str) -> (r: Option<LevelTemplate>)
    ensures
        match builtin_template(level_id@) {
            Some(t) => r matches Some(x) && x@ == t,
            None => r is None,
        },
{
    let is_and = same_str(level_id, "and_gate");
    let is_or = same_str(level_id, "or_gate");
    let is_not = same_str(level_id, "not_gate");
    if !is_and && !is_or && !is_not {
        return None;
    }
    let mut input_fields: Vec<(String, String)> = Vec::new();
    input_fields.push((owned("a"), owned("U1")));
    if !is_not {
        input_fields.push((owned("b"), owned("U1")));
    }
    let mut output_fields: Vec<(String, String)> = Vec::new();
    output_fields.push((owned("result"), owned("U1")));
    let mut z: Vec<String> = Vec::new();
    z.push(owned("result_is_z"));
    let t = if is_not {
        LevelTemplate {
            input_struct: owned(ONE_INPUT_STRUCT),
            output_struct: owned(RESULT_OUTPUT_STRUCT),
            test_defs: defs_text(ONE_INPUT_GET, NOT_CHECK),
            input_fields,
            output_fields,
            output_z_fields: z,
        }
    } else {
        LevelTemplate {
            input_struct: owned(TWO_INPUT_STRUCT),
            output_struct: owned(RESULT_OUTPUT_STRUCT),
            test_defs: defs_text(TWO_INPUT_GET, if is_and { AND_CHECK } else { OR_CHECK }),
            input_fields,
            output_fields,
            output_z_fields: z,
        }
    };
    proof {
        reveal_strlit("and_gate");
        reveal_strlit("or_gate");
        reveal_strlit("not_gate");
    }
    assert("and_gate"@[0] != "not_gate"@[0]);
    assert("or_gate"@.len() != "not_gate"@.len());
    if is_not {
        assert(field_views(t.input_fields@) =~= seq![("a"@, "U1"@)]);
    } else {
        assert(field_views(t.input_fields@) =~= seq![("a"@, "U1"@), ("b"@, "U1"@)]);
    }
    assert(field_views(t.input_fields@) =~= builtin_template(level_id@)->0.input_fields);
    assert(field_views(t.output_fields@) =~= builtin_template(level_id@)->0.output_fields);
    assert(string_views(t.output_z_fields@) =~= builtin_template(level_id@)->0.output_z_fields);
    Some(t)
}

} // verus!
