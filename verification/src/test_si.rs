//! The game's per-level test specification (`test.si`) turned into a
//! `LevelTemplate`: the level's Input/Output structs and its test oracle.
use vstd::prelude::*;
use crate::gen::{field_views, string_views, LevelTemplate, LevelTemplateV};
use crate::text::{
    chars_to_string, find_chars, find_from, join_sep, join_vecs, last_pos, lines, occurs_at, prefix_at, push_chars,
    push_str, rfind_char, slice_to_vec, split_lines, str_chars, trim, trim_bounds, trimmed, total_len,
    lemma_lines_total, lemma_total_subrange, trim_start, is_space_char,
};

verus! {

/// `type <name> {` + one `    <field>: <type>,` line per field + `}`.
pub open spec fn struct_text(name: Seq<char>, fields: Seq<(Seq<char>, Seq<char>)>) -> Seq<char> {
    if fields.len() == 0 {
        "type "@ + name + " {\n}"@
    } else {
        "type "@ + name + " {\n"@ + join_sep(
            fields.map_values(|f: (Seq<char>, Seq<char>)| "    "@ + f.0 + ": "@ + f.1 + ","@),
            "\n"@,
        ) + "\n}"@
    }
}

/// The Output struct: the value fields, then the high-impedance flags typed `Bool`.
pub open spec fn output_struct_text(fields: Seq<(Seq<char>, Seq<char>)>, z: Seq<Seq<char>>) -> Seq<char> {
    struct_text("Output"@, fields + z.map_values(|n: Seq<char>| (n, "Bool"@)))
}

fn field_line(name: &Vec<char>, ty: &Vec<char>) -> (r: Vec<char>)
    ensures
        r@ == "    "@ + name@ + ": "@ + ty@ + ","@,
{
    let mut v: Vec<char> = Vec::new();
    push_str(&mut v, "    ");
    push_chars(&mut v, name.as_slice());
    push_str(&mut v, ": ");
    push_chars(&mut v, ty.as_slice());
    push_str(&mut v, ",");
    assert(v@ =~= "    "@ + name@ + ": "@ + ty@ + ","@);
    v
}

/// The struct declaration for `fields`, given as character vectors.
pub fn struct_chars(name: &str, fields: &Vec<(Vec<char>, Vec<char>)>) -> (r: Vec<char>)
    ensures
        r@ == struct_text(name@, Seq::new(fields@.len(), |k: int| (fields@[k].0@, fields@[k].1@))),
{
    let ghost fv = Seq::new(fields@.len(), |k: int| (fields@[k].0@, fields@[k].1@));
    let mut v: Vec<char> = Vec::new();
    push_str(&mut v, "type ");
    push_str(&mut v, name);
    if fields.len() == 0 {
        push_str(&mut v, " {\n}");
        assert(v@ =~= struct_text(name@, fv));
        return v;
    }
    push_str(&mut v, " {\n");
    let mut ls: Vec<Vec<char>> = Vec::new();
    let mut i: usize = 0;
    while i < fields.len()
        invariant
            i <= fields@.len(),
            fv == Seq::new(fields@.len(), |k: int| (fields@[k].0@, fields@[k].1@)),
            ls@.len() == i,
            forall|k: int| 0 <= k < i ==> #[trigger] ls@[k]@ == "    "@ + fv[k].0 + ": "@ + fv[k].1 + ","@,
        decreases fields@.len() - i,
    {
        ls.push(field_line(&fields[i].0, &fields[i].1));
        i = i + 1;
    }
    let joined = join_vecs(&ls, "\n");
    assert(Seq::new(ls@.len(), |k: int| ls@[k]@) =~= fv.map_values(
        |f: (Seq<char>, Seq<char>)| "    "@ + f.0 + ": "@ + f.1 + ","@,
    ));
    push_chars(&mut v, joined.as_slice());
    push_str(&mut v, "\n}");
    assert(v@ =~= struct_text(name@, fv));
    v
}

/// The struct declaration `type <name> { ... }` for `fields`.
pub fn build_struct(name: &str, fields: &Vec<(String, String)>) -> (r: String)
    ensures
        r@ == struct_text(name@, field_views(fields@)),
{
    let mut fs: Vec<(Vec<char>, Vec<char>)> = Vec::new();
    let mut i: usize = 0;
    while i < fields.len()
        invariant
            i <= fields@.len(),
            fs@.len() == i,
            forall|k: int| 0 <= k < i ==> (#[trigger] fs@[k].0@, fs@[k].1@) == (fields@[k].0@, fields@[k].1@),
        decreases fields@.len() - i,
    {
        fs.push((str_chars(fields[i].0.as_str()), str_chars(fields[i].1.as_str())));
        i = i + 1;
    }
    let v = struct_chars(name, &fs);
    assert(Seq::new(fs@.len(), |k: int| (fs@[k].0@, fs@[k].1@)) =~= field_views(fields@));
    chars_to_string(v.as_slice())
}

/// The Output struct declaration: value fields, then `Bool` flag fields.
pub fn build_output_struct(fields: &Vec<(String, String)>, z_fields: &Vec<String>) -> (r: String)
    ensures
        r@ == output_struct_text(field_views(fields@), string_views(z_fields@)),
{
    let mut fs: Vec<(Vec<char>, Vec<char>)> = Vec::new();
    let mut i: usize = 0;
    while i < fields.len()
        invariant
            i <= fields@.len(),
            fs@.len() == i,
            forall|k: int| 0 <= k < i ==> (#[trigger] fs@[k].0@, fs@[k].1@) == (fields@[k].0@, fields@[k].1@),
        decreases fields@.len() - i,
    {
        fs.push((str_chars(fields[i].0.as_str()), str_chars(fields[i].1.as_str())));
        i = i + 1;
    }
    let mut j: usize = 0;
    while j < z_fields.len()
        invariant
            j <= z_fields@.len(),
            fs@.len() == fields@.len() + j,
            forall|k: int| 0 <= k < fields@.len() ==> (#[trigger] fs@[k].0@, fs@[k].1@) == (fields@[k].0@, fields@[k].1@),
            forall|k: int| 0 <= k < j ==> (#[trigger] fs@[fields@.len() + k].0@, fs@[fields@.len() + k].1@) == (z_fields@[k]@, "Bool"@),
        decreases z_fields@.len() - j,
    {
        fs.push((str_chars(z_fields[j].as_str()), str_chars("Bool")));
        j = j + 1;
    }
    let v = struct_chars("Output", &fs);
    let ghost all = field_views(fields@) + string_views(z_fields@).map_values(|n: Seq<char>| (n, "Bool"@));
    assert forall|k: int| 0 <= k < fs@.len() implies (#[trigger] fs@[k].0@, fs@[k].1@) == all[k] by {
        if k >= fields@.len() {
            assert(fs@[fields@.len() + (k - fields@.len())] == fs@[k]);
        }
    }
    assert(Seq::new(fs@.len(), |k: int| (fs@[k].0@, fs@[k].1@)) =~= all);
    chars_to_string(v.as_slice())
}


// ───────────────────────── lexical scanning ─────────────────────────
//
// The scanners below skip string literals: a `"` or a backquote opens one, a
// backslash escapes the next character, and the same quote closes it.

/// The string state after character `c`: `q` the open quote (if any) and
/// `esc` whether the previous character was an escaping backslash.
pub open spec fn in_string_after(q: Option<char>, esc: bool, c: char) -> (Option<char>, bool) {
    match q {
        Some(qc) => if esc {
            (q, false)
        } else if c == '\\' {
            (q, true)
        } else if c == qc {
            (None, false)
        } else {
            (q, false)
        },
        None => if c == '"' || c == '`' {
            (Some(c), false)
        } else {
            (None, false)
        },
    }
}

/// Whether `c` is read as code (outside any string) in state `q`.
pub open spec fn is_code(q: Option<char>, c: char) -> bool {
    q is None && c != '"' && c != '`'
}

/// The index of the `cc` that closes the `oc` opened at or after `i`, given
/// the string state and the nesting depth so far.
pub open spec fn close_from(s: Seq<char>, i: int, q: Option<char>, esc: bool, depth: nat, oc: char, cc: char) -> Option<nat>
    decreases s.len() - i,
{
    if i < 0 || i >= s.len() {
        None
    } else {
        let c = s[i];
        let (q2, e2) = in_string_after(q, esc, c);
        if is_code(q, c) && c == oc {
            close_from(s, i + 1, q2, e2, depth + 1, oc, cc)
        } else if is_code(q, c) && c == cc {
            if depth == 0 {
                None
            } else if depth == 1 {
                Some(i as nat)
            } else {
                close_from(s, i + 1, q2, e2, (depth - 1) as nat, oc, cc)
            }
        } else {
            close_from(s, i + 1, q2, e2, depth, oc, cc)
        }
    }
}

/// The index of the `cc` matching the `oc` at `open`.
pub open spec fn matching(s: Seq<char>, open: int, oc: char, cc: char) -> Option<nat> {
    close_from(s, open, None, false, 0, oc, cc)
}

fn string_step(q: Option<char>, esc: bool, c: char) -> (r: (Option<char>, bool))
    ensures
        r == in_string_after(q, esc, c),
{
    match q {
        Some(qc) => if esc {
            (q, false)
        } else if c == '\\' {
            (q, true)
        } else if c == qc {
            (None, false)
        } else {
            (q, false)
        },
        None => if c == '"' || c == '`' {
            (Some(c), false)
        } else {
            (None, false)
        },
    }
}

/// The index of the `cc` matching the `oc` at `open`.
fn matching_close(s: &[char], open: usize, oc: char, cc: char) -> (r: Option<usize>)
    ensures
        match matching(s@, open as int, oc, cc) {
            Some(k) => r matches Some(x) && x == k && x < s@.len(),
            None => r is None,
        },
{
    let mut i = open;
    let mut q: Option<char> = None;
    let mut esc = false;
    let mut depth: usize = 0;
    while i < s.len()
        invariant
            open <= i,
            depth <= i - open,
            matching(s@, open as int, oc, cc) == close_from(s@, i as int, q, esc, depth as nat, oc, cc),
        decreases s@.len() - i,
    {
        let c = s[i];
        let code = q.is_none() && c != '"' && c != '`';
        let (q2, e2) = string_step(q, esc, c);
        if code && c == oc {
            depth = depth + 1;
        } else if code && c == cc {
            if depth == 0 {
                return None;
            } else if depth == 1 {
                return Some(i);
            }
            depth = depth - 1;
        }
        q = q2;
        esc = e2;
        i = i + 1;
    }
    None
}

/// The index of the first `,` outside strings and brackets at or after `i`.
pub open spec fn comma_from(s: Seq<char>, i: int, q: Option<char>, esc: bool, depth: int) -> Option<nat>
    decreases s.len() - i,
{
    if i < 0 || i >= s.len() {
        None
    } else {
        let c = s[i];
        let (q2, e2) = in_string_after(q, esc, c);
        if is_code(q, c) && (c == '(' || c == '[' || c == '{') {
            comma_from(s, i + 1, q2, e2, depth + 1)
        } else if is_code(q, c) && (c == ')' || c == ']' || c == '}') {
            comma_from(s, i + 1, q2, e2, depth - 1)
        } else if is_code(q, c) && c == ',' && depth <= 0 {
            Some(i as nat)
        } else {
            comma_from(s, i + 1, q2, e2, depth)
        }
    }
}

/// The index of the first top-level `,` of `s`.
pub open spec fn top_comma(s: Seq<char>) -> Option<nat> {
    comma_from(s, 0, None, false, 0)
}

fn top_level_comma(s: &[char]) -> (r: Option<usize>)
    ensures
        match top_comma(s@) {
            Some(k) => r matches Some(x) && x == k && x < s@.len(),
            None => r is None,
        },
{
    let mut i: usize = 0;
    let mut q: Option<char> = None;
    let mut esc = false;
    let mut depth: i128 = 0;
    while i < s.len()
        invariant
            -(i as int) <= depth <= i,
            top_comma(s@) == comma_from(s@, i as int, q, esc, depth as int),
        decreases s@.len() - i,
    {
        let c = s[i];
        let code = q.is_none() && c != '"' && c != '`';
        let (q2, e2) = string_step(q, esc, c);
        if code && (c == '(' || c == '[' || c == '{') {
            depth = depth + 1;
        } else if code && (c == ')' || c == ']' || c == '}') {
            depth = depth - 1;
        } else if code && c == ',' && depth <= 0 {
            return Some(i);
        }
        q = q2;
        esc = e2;
        i = i + 1;
    }
    None
}

/// `{` minus `}` outside strings in `s[i..]`, given the string state.
pub open spec fn delta_from(s: Seq<char>, i: int, q: Option<char>, esc: bool) -> int
    decreases s.len() - i,
{
    if i < 0 || i >= s.len() {
        0
    } else {
        let c = s[i];
        let (q2, e2) = in_string_after(q, esc, c);
        delta_from(s, i + 1, q2, e2) + if is_code(q, c) && c == '{' {
            1int
        } else if is_code(q, c) && c == '}' {
            -1int
        } else {
            0int
        }
    }
}

/// The net brace depth change of a line, strings skipped.
pub open spec fn brace_delta(s: Seq<char>) -> int {
    delta_from(s, 0, None, false)
}

proof fn lemma_delta_bound(s: Seq<char>, i: int, q: Option<char>, esc: bool)
    requires
        0 <= i <= s.len(),
    ensures
        -(s.len() - i) <= delta_from(s, i, q, esc) <= s.len() - i,
    decreases s.len() - i,
{
    if i < s.len() {
        let (q2, e2) = in_string_after(q, esc, s[i]);
        lemma_delta_bound(s, i + 1, q2, e2);
    }
}

fn line_brace_delta(s: &[char]) -> (r: i128)
    ensures
        r == brace_delta(s@),
        -(s@.len() as int) <= r <= s@.len(),
{
    let mut i: usize = 0;
    let mut q: Option<char> = None;
    let mut esc = false;
    let mut acc: i128 = 0;
    proof {
        lemma_delta_bound(s@, 0, None, false);
    }
    while i < s.len()
        invariant
            i <= s@.len(),
            -(i as int) <= acc <= i,
            brace_delta(s@) == acc + delta_from(s@, i as int, q, esc),
        decreases s@.len() - i,
    {
        let c = s[i];
        let code = q.is_none() && c != '"' && c != '`';
        let (q2, e2) = string_step(q, esc, c);
        if code && c == '{' {
            acc = acc + 1;
        } else if code && c == '}' {
            acc = acc - 1;
        }
        q = q2;
        esc = e2;
        i = i + 1;
    }
    acc
}


// ───────────────────────── compact form ─────────────────────────

/// `l` without its trailing carriage returns.
pub open spec fn strip_crs(l: Seq<char>) -> Seq<char>
    decreases l.len(),
{
    if l.len() > 0 && l.last() == '\r' {
        strip_crs(l.drop_last())
    } else {
        l
    }
}

/// The non-blank lines of `ls`, trailing carriage returns removed.
pub open spec fn kept_lines(ls: Seq<Seq<char>>) -> Seq<Seq<char>>
    decreases ls.len(),
{
    if ls.len() == 0 {
        Seq::empty()
    } else {
        let r = kept_lines(ls.drop_last());
        let l = strip_crs(ls.last());
        if trim(l).len() > 0 {
            r.push(l)
        } else {
            r
        }
    }
}

/// The compact form of a `test.si`: its non-blank lines joined by `\n`.
pub open spec fn compacted(content: Seq<char>) -> Seq<char> {
    join_sep(kept_lines(lines(content)), "\n"@)
}

fn strip_crs_exec(l: &Vec<char>) -> (r: Vec<char>)
    ensures
        r@ == strip_crs(l@),
{
    let mut n = l.len();
    assert(l@.take(l@.len() as int) =~= l@);
    while n > 0 && l[n - 1] == '\r'
        invariant
            n <= l@.len(),
            strip_crs(l@) == strip_crs(l@.take(n as int)),
        decreases n,
    {
        assert(l@.take(n as int).drop_last() =~= l@.take(n - 1));
        n = n - 1;
    }
    let r = slice_to_vec(l.as_slice(), 0, n);
    assert(r@ =~= l@.take(n as int));
    r
}

fn compact(content: &str) -> (r: Vec<char>)
    ensures
        r@ == compacted(content@),
{
    let chars = str_chars(content);
    let ls = split_lines(chars.as_slice());
    let ghost lv = lines(content@);
    let mut kept: Vec<Vec<char>> = Vec::new();
    let mut i: usize = 0;
    assert(lv.take(0) =~= Seq::<Seq<char>>::empty());
    while i < ls.len()
        invariant
            i <= ls@.len(),
            lv == lines(content@),
            ls@.len() == lv.len(),
            forall|k: int| 0 <= k < ls@.len() ==> #[trigger] ls@[k]@ == lv[k],
            Seq::new(kept@.len(), |k: int| kept@[k]@) == kept_lines(lv.take(i as int)),
        decreases ls@.len() - i,
    {
        let ghost before = Seq::new(kept@.len(), |k: int| kept@[k]@);
        assert(lv.take(i + 1).drop_last() =~= lv.take(i as int));
        assert(lv.take(i + 1).last() == ls@[i as int]@);
        let l = strip_crs_exec(&ls[i]);
        let (a, b) = trim_bounds(l.as_slice());
        if a < b {
            kept.push(l);
            assert(Seq::new(kept@.len(), |k: int| kept@[k]@) =~= before.push(strip_crs(lv[i as int])));
        }
        i = i + 1;
    }
    assert(lv.take(ls@.len() as int) =~= lv);
    join_vecs(&kept, "\n")
}

// ───────────────────────── localized tuples ─────────────────────────

/// The tag that opens a localized text tuple `(31337_<id>, <text>)`.
pub open spec fn l10n_tag() -> Seq<char> {
    seq!['3', '1', '3', '3', '7', '_']
}

pub proof fn lemma_close_after(s: Seq<char>, i: int, q: Option<char>, esc: bool, depth: nat, oc: char, cc: char)
    ensures
        close_from(s, i, q, esc, depth, oc, cc) matches Some(k) ==> k >= i,
    decreases s.len() - i,
{
    if 0 <= i < s.len() {
        let (q2, e2) = in_string_after(q, esc, s[i]);
        lemma_close_after(s, i + 1, q2, e2, depth + 1, oc, cc);
        lemma_close_after(s, i + 1, q2, e2, depth, oc, cc);
        if depth > 1 {
            lemma_close_after(s, i + 1, q2, e2, (depth - 1) as nat, oc, cc);
        }
    }
}

/// The text of a localized tuple's inside: what follows its first top-level
/// comma, trimmed (nothing when there is no comma).
pub open spec fn tuple_text(inner: Seq<char>) -> Seq<char> {
    match top_comma(inner) {
        Some(k) => trim(inner.skip(k + 1 as int)),
        None => Seq::empty(),
    }
}

/// `s[i..]` with each localized tuple `(31337_<id>, <text>)` replaced by its
/// text, as the game's own code generation does.
pub open spec fn strip_tuples_from(s: Seq<char>, i: int) -> Seq<char>
    decreases s.len() - i,
{
    if i < 0 || i >= s.len() {
        Seq::empty()
    } else if s[i] == '(' && prefix_at(s, i + 1, l10n_tag()) && matching(s, i, '(', ')') is Some {
        let close = matching(s, i, '(', ')')->0;
        if close <= i || close >= s.len() {
            Seq::empty()
        } else {
            tuple_text(s.subrange(i + 1, close as int)) + strip_tuples_from(s, close + 1 as int)
        }
    } else {
        seq![s[i]] + strip_tuples_from(s, i + 1)
    }
}

pub open spec fn strip_tuples(s: Seq<char>) -> Seq<char> {
    strip_tuples_from(s, 0)
}

fn strip_localized_tuples(s: &[char]) -> (r: Vec<char>)
    ensures
        r@ == strip_tuples(s@),
{
    let tag = ['3', '1', '3', '3', '7', '_'];
    assert(tag@ =~= l10n_tag());
    let mut out: Vec<char> = Vec::new();
    let mut i: usize = 0;
    while i < s.len()
        invariant
            i <= s@.len(),
            tag@ == l10n_tag(),
            out@ + strip_tuples_from(s@, i as int) == strip_tuples(s@),
        decreases s@.len() - i,
    {
        if s[i] == '(' && occurs_at(s, i + 1, &tag) {
            match matching_close(s, i, '(', ')') {
                Some(close) => {
                    proof {
                        assert(matching(s@, i as int, '(', ')') == close_from(s@, i + 1, None, false, 1, '(', ')'));
                        lemma_close_after(s@, i + 1, None, false, 1, '(', ')');
                    }
                    let inner = slice_to_vec(s, i + 1, close);
                    let ghost text = tuple_text(inner@);
                    match top_level_comma(inner.as_slice()) {
                        Some(k) => {
                            let tail = slice_to_vec(inner.as_slice(), k + 1, inner.len());
                            assert(tail@ =~= inner@.skip(k + 1 as int));
                            let piece = trimmed(tail.as_slice());
                            push_chars(&mut out, piece.as_slice());
                        },
                        None => {},
                    }
                    let ghost o = out@;
                    assert(strip_tuples_from(s@, i as int) == text + strip_tuples_from(s@, close + 1));
                    i = close + 1;
                    continue;
                },
                None => {},
            }
        }
        out.push(s[i]);
        i = i + 1;
    }
    out
}


// ───────────────────────── top-level definitions ─────────────────────────

pub open spec fn def_kw() -> Seq<char> {
    seq!['d', 'e', 'f', ' ']
}

/// Where the definition that starts at line `j` (with brace depth `depth`
/// before it) ends: after the first line that brings the depth to zero or
/// below, or at the end.
pub open spec fn def_end(ls: Seq<Seq<char>>, j: int, depth: int) -> int
    decreases ls.len() - j,
{
    if j < 0 || j >= ls.len() {
        j
    } else if depth + brace_delta(ls[j]) <= 0 {
        j + 1
    } else {
        def_end(ls, j + 1, depth + brace_delta(ls[j]))
    }
}

/// The name of a definition: what follows `def ` up to the first `(`, trimmed.
pub open spec fn def_name(full: Seq<char>) -> Seq<char> {
    let after = if prefix_at(full, 0, def_kw()) {
        full.skip(4)
    } else {
        full
    };
    let end = match find_from(after, seq!['('], 0) {
        Some(k) => k as int,
        None => after.len() as int,
    };
    trim(after.take(end))
}

/// The definitions (name, text) and the other lines of `ls[i..]`.
pub open spec fn split_from(ls: Seq<Seq<char>>, i: int) -> (Seq<(Seq<char>, Seq<char>)>, Seq<Seq<char>>)
    decreases ls.len() - i,
{
    if i < 0 || i >= ls.len() {
        (Seq::empty(), Seq::empty())
    } else if prefix_at(ls[i], 0, def_kw()) {
        let e = def_end(ls, i, 0);
        if e <= i || e > ls.len() {
            (Seq::empty(), Seq::empty())
        } else {
            let full = join_sep(ls.subrange(i, e), "\n"@);
            let rest = split_from(ls, e);
            (seq![(def_name(full), full)] + rest.0, rest.1)
        }
    } else {
        let rest = split_from(ls, i + 1);
        (rest.0, seq![ls[i]] + rest.1)
    }
}

/// The top-level definitions of compact source `s` and its other lines,
/// joined by `\n`.
pub open spec fn top_level(s: Seq<char>) -> (Seq<(Seq<char>, Seq<char>)>, Seq<char>) {
    let r = split_from(lines(s), 0);
    (r.0, join_sep(r.1, "\n"@))
}

proof fn lemma_def_end_range(ls: Seq<Seq<char>>, j: int, depth: int)
    requires
        0 <= j < ls.len(),
    ensures
        j < def_end(ls, j, depth) <= ls.len(),
    decreases ls.len() - j,
{
    if depth + brace_delta(ls[j]) > 0 {
        if j + 1 < ls.len() {
            lemma_def_end_range(ls, j + 1, depth + brace_delta(ls[j]));
        } else {
            assert(def_end(ls, j + 1, depth + brace_delta(ls[j])) == j + 1);
        }
    }
}

fn extract_def_name(full: &Vec<char>) -> (r: Vec<char>)
    ensures
        r@ == def_name(full@),
{
    let kw = ['d', 'e', 'f', ' '];
    assert(kw@ =~= def_kw());
    let after = if occurs_at(full.as_slice(), 0, &kw) {
        slice_to_vec(full.as_slice(), 4, full.len())
    } else {
        slice_to_vec(full.as_slice(), 0, full.len())
    };
    assert(full@.subrange(0, full@.len() as int) =~= full@);
    let paren = ['('];
    assert(paren@ =~= seq!['(']);
    let end = match find_chars(after.as_slice(), &paren, 0) {
        Some(k) => k,
        None => after.len(),
    };
    let head = slice_to_vec(after.as_slice(), 0, end);
    assert(head@ =~= after@.take(end as int));
    trimmed(head.as_slice())
}

fn copy_line(v: &Vec<char>) -> (r: Vec<char>)
    ensures
        r@ == v@,
{
    let r = slice_to_vec(v.as_slice(), 0, v.len());
    assert(r@ =~= v@);
    r
}

/// Split compact source into its top-level definitions `(name, text)` and
/// the remaining module-level lines joined by `\n`.
fn split_top_level(compact: &Vec<char>) -> (r: (Vec<(Vec<char>, Vec<char>)>, Vec<char>))
    ensures
        Seq::new(r.0@.len(), |k: int| (r.0@[k].0@, r.0@[k].1@)) == top_level(compact@).0,
        r.1@ == top_level(compact@).1,
{
    let ls = split_lines(compact.as_slice());
    let n = compact.len();
    let ghost lv = lines(compact@);
    assert(Seq::new(ls@.len(), |k: int| ls@[k]@) =~= lv);
    proof {
        lemma_lines_total(compact@);
    }
    let mut defs: Vec<(Vec<char>, Vec<char>)> = Vec::new();
    let mut decls: Vec<Vec<char>> = Vec::new();
    let mut i: usize = 0;
    while i < ls.len()
        invariant
            i <= ls@.len(),
            lv == lines(compact@),
            ls@.len() == lv.len(),
            n == compact@.len(),
            total_len(lv) <= compact@.len(),
            forall|k: int| 0 <= k < ls@.len() ==> #[trigger] ls@[k]@ == lv[k],
            split_from(lv, 0) == ({
                let rest = split_from(lv, i as int);
                (
                    Seq::new(defs@.len(), |k: int| (defs@[k].0@, defs@[k].1@)) + rest.0,
                    Seq::new(decls@.len(), |k: int| decls@[k]@) + rest.1,
                )
            }),
        decreases ls@.len() - i,
    {
        let ghost d0 = Seq::new(defs@.len(), |k: int| (defs@[k].0@, defs@[k].1@));
        let ghost c0 = Seq::new(decls@.len(), |k: int| decls@[k]@);
        let kw = ['d', 'e', 'f', ' '];
        assert(kw@ =~= def_kw());
        if occurs_at(ls[i].as_slice(), 0, &kw) {
            let mut depth: i128 = 0;
            let mut j: usize = i;
            let mut done = false;
            let mut def_lines: Vec<Vec<char>> = Vec::new();
            proof {
                lemma_def_end_range(lv, i as int, 0);
                lemma_total_subrange(lv, i as int, i as int);
            }
            assert(Seq::new(def_lines@.len(), |k: int| def_lines@[k]@) =~= lv.subrange(i as int, j as int));
            while !done && j < ls.len()
                invariant
                    i <= j <= ls@.len(),
                    i < ls@.len(),
                    n == compact@.len(),
                    lv == lines(compact@),
                    ls@.len() == lv.len(),
                    total_len(lv) <= compact@.len(),
                    forall|k: int| 0 <= k < ls@.len() ==> #[trigger] ls@[k]@ == lv[k],
                    -(total_len(lv.subrange(i as int, j as int)) as int) <= depth <= total_len(
                        lv.subrange(i as int, j as int),
                    ),
                    done ==> j > i && def_end(lv, i as int, 0) == j,
                    !done ==> (j == i || depth > 0) && def_end(lv, i as int, 0) == def_end(
                        lv,
                        j as int,
                        depth as int,
                    ),
                    Seq::new(def_lines@.len(), |k: int| def_lines@[k]@) == lv.subrange(i as int, j as int),
                decreases ls@.len() - j,
            {
                proof {
                    lemma_total_subrange(lv, i as int, j as int);
                    lemma_total_subrange(lv, i as int, (j + 1) as int);
                }
                let d = line_brace_delta(ls[j].as_slice());
                def_lines.push(copy_line(&ls[j]));
                depth = depth + d;
                j = j + 1;
                assert(Seq::new(def_lines@.len(), |k: int| def_lines@[k]@) =~= lv.subrange(i as int, j as int));
                if depth <= 0 {
                    done = true;
                }
            }
            let ghost e = def_end(lv, i as int, 0);
            assert(e == j as int);
            let full = join_vecs(&def_lines, "\n");
            let name = extract_def_name(&full);
            defs.push((name, full));
            assert(Seq::new(defs@.len(), |k: int| (defs@[k].0@, defs@[k].1@)) =~= d0.push(
                (def_name(join_sep(lv.subrange(i as int, e), "\n"@)), join_sep(lv.subrange(i as int, e), "\n"@)),
            ));
            i = j;
        } else {
            decls.push(copy_line(&ls[i]));
            assert(Seq::new(decls@.len(), |k: int| decls@[k]@) =~= c0.push(lv[i as int]));
            i = i + 1;
        }
    }
    let joined = join_vecs(&decls, "\n");
    (defs, joined)
}

/// The text of the first definition named `name`.
pub open spec fn find_def(defs: Seq<(Seq<char>, Seq<char>)>, name: Seq<char>) -> Option<Seq<char>>
    decreases defs.len(),
{
    if defs.len() == 0 {
        None
    } else if defs[0].0 == name {
        Some(defs[0].1)
    } else {
        find_def(defs.drop_first(), name)
    }
}

fn chars_eq(a: &[char], b: &[char]) -> (r: bool)
    ensures
        r == (a@ == b@),
{
    if a.len() != b.len() {
        return false;
    }
    let mut i: usize = 0;
    while i < a.len()
        invariant
            a@.len() == b@.len(),
            i <= a@.len(),
            forall|k: int| 0 <= k < i ==> a@[k] == b@[k],
        decreases a@.len() - i,
    {
        if a[i] != b[i] {
            return false;
        }
        i = i + 1;
    }
    assert(a@ =~= b@);
    true
}

fn find_def_index(defs: &Vec<(Vec<char>, Vec<char>)>, name: &str) -> (r: Option<usize>)
    ensures
        match find_def(Seq::new(defs@.len(), |k: int| (defs@[k].0@, defs@[k].1@)), name@) {
            Some(t) => r matches Some(x) && x < defs@.len() && defs@[x as int].1@ == t && defs@[x as int].0@ == name@,
            None => r is None,
        },
{
    let ghost dv = Seq::new(defs@.len(), |k: int| (defs@[k].0@, defs@[k].1@));
    let n = str_chars(name);
    let mut i: usize = 0;
    assert(dv.skip(0) =~= dv);
    while i < defs.len()
        invariant
            i <= defs@.len(),
            dv == Seq::new(defs@.len(), |k: int| (defs@[k].0@, defs@[k].1@)),
            n@ == name@,
            find_def(dv, name@) == find_def(dv.skip(i as int), name@),
        decreases defs@.len() - i,
    {
        assert(dv.skip(i as int)[0] == dv[i as int]);
        if chars_eq(defs[i].0.as_slice(), n.as_slice()) {
            return Some(i);
        }
        assert(dv.skip(i as int).drop_first() =~= dv.skip(i + 1));
        i = i + 1;
    }
    None
}


// ───────────────────────── struct fields ─────────────────────────

pub open spec fn is_alnum(c: char) -> bool {
    ('0' <= c && c <= '9') || ('a' <= c && c <= 'z') || ('A' <= c && c <= 'Z')
}

/// The index of the first character at or after `i` that is not an ASCII
/// letter or digit (or, with `underscore`, `_`).
pub open spec fn word_end(s: Seq<char>, i: int, underscore: bool) -> int
    decreases s.len() - i,
{
    if i < 0 || i >= s.len() {
        i
    } else if is_alnum(s[i]) || (underscore && s[i] == '_') {
        word_end(s, i + 1, underscore)
    } else {
        i
    }
}

proof fn lemma_word_end(s: Seq<char>, i: int, underscore: bool)
    requires
        0 <= i <= s.len(),
    ensures
        i <= word_end(s, i, underscore) <= s.len(),
    decreases s.len() - i,
{
    if i < s.len() {
        lemma_word_end(s, i + 1, underscore);
    }
}

fn is_alnum_char(c: char) -> (r: bool)
    ensures
        r == is_alnum(c),
{
    ('0' <= c && c <= '9') || ('a' <= c && c <= 'z') || ('A' <= c && c <= 'Z')
}

fn word_end_exec(s: &[char], i: usize, underscore: bool) -> (r: usize)
    requires
        i <= s@.len(),
    ensures
        r == word_end(s@, i as int, underscore),
        i <= r <= s@.len(),
{
    let mut j = i;
    proof {
        lemma_word_end(s@, i as int, underscore);
    }
    while j < s.len() && (is_alnum_char(s[j]) || (underscore && s[j] == '_'))
        invariant
            i <= j <= s@.len(),
            word_end(s@, i as int, underscore) == word_end(s@, j as int, underscore),
        decreases s@.len() - j,
    {
        j = j + 1;
    }
    j
}

/// `name: Type ...` read as `(name, Type)`: the name before the first `:`,
/// the type the letters and digits after it.
pub open spec fn field_of(f: Seq<char>) -> Option<(Seq<char>, Seq<char>)> {
    if f.len() == 0 {
        None
    } else {
        match find_from(f, seq![':'], 0) {
            None => None,
            Some(c) => {
                let name = trim(f.take(c as int));
                let after = trim(f.skip(c + 1 as int));
                let ty = trim(after.take(word_end(after, 0, false)));
                if name.len() == 0 || ty.len() == 0 {
                    None
                } else {
                    Some((name, ty))
                }
            },
        }
    }
}

pub open spec fn opt_seq<A>(o: Option<A>) -> Seq<A> {
    match o {
        Some(x) => seq![x],
        None => Seq::empty(),
    }
}

fn parse_field(f: &Vec<char>) -> (r: Option<(Vec<char>, Vec<char>)>)
    ensures
        match field_of(f@) {
            Some(x) => r matches Some(y) && y.0@ == x.0 && y.1@ == x.1,
            None => r is None,
        },
{
    if f.len() == 0 {
        return None;
    }
    let colon = [':'];
    assert(colon@ =~= seq![':']);
    let c = match find_chars(f.as_slice(), &colon, 0) {
        Some(c) => c,
        None => {
            return None;
        },
    };
    let head = slice_to_vec(f.as_slice(), 0, c);
    assert(head@ =~= f@.take(c as int));
    let name = trimmed(head.as_slice());
    let tail = slice_to_vec(f.as_slice(), c + 1, f.len());
    assert(tail@ =~= f@.skip(c + 1 as int));
    let after = trimmed(tail.as_slice());
    let e = word_end_exec(after.as_slice(), 0, false);
    let tyv = slice_to_vec(after.as_slice(), 0, e);
    assert(tyv@ =~= after@.take(e as int));
    let ty = trimmed(tyv.as_slice());
    if name.len() == 0 || ty.len() == 0 {
        return None;
    }
    Some((name, ty))
}

/// The fields of the `,`-separated list `b[start..]`, scanning from `i`.
pub open spec fn fields_from(b: Seq<char>, i: int, q: Option<char>, esc: bool, depth: int, start: int) -> Seq<
    (Seq<char>, Seq<char>),
>
    decreases b.len() - i,
{
    if i < 0 || i >= b.len() {
        opt_seq(field_of(trim(b.subrange(start, b.len() as int))))
    } else {
        let c = b[i];
        let (q2, e2) = in_string_after(q, esc, c);
        if is_code(q, c) && (c == '{' || c == '[' || c == '(') {
            fields_from(b, i + 1, q2, e2, depth + 1, start)
        } else if is_code(q, c) && (c == '}' || c == ']' || c == ')') {
            fields_from(b, i + 1, q2, e2, depth - 1, start)
        } else if is_code(q, c) && c == ',' && depth <= 0 {
            opt_seq(field_of(trim(b.subrange(start, i)))) + fields_from(b, i + 1, q2, e2, depth, i + 1)
        } else {
            fields_from(b, i + 1, q2, e2, depth, start)
        }
    }
}

/// The `(name, type)` fields of a `{ ... }` body.
pub open spec fn parsed_fields(b: Seq<char>) -> Seq<(Seq<char>, Seq<char>)> {
    if trim(b).len() == 0 {
        Seq::empty()
    } else {
        fields_from(b, 0, None, false, 0, 0)
    }
}

pub open spec fn pair_views(v: Seq<(Vec<char>, Vec<char>)>) -> Seq<(Seq<char>, Seq<char>)> {
    Seq::new(v.len(), |k: int| (v[k].0@, v[k].1@))
}

fn push_field(out: &mut Vec<(Vec<char>, Vec<char>)>, b: &[char], start: usize, end: usize)
    requires
        start <= end <= b@.len(),
    ensures
        pair_views(final(out)@) == pair_views(old(out)@) + opt_seq(field_of(trim(b@.subrange(start as int, end as int)))),
{
    let piece = slice_to_vec(b, start, end);
    let f = trimmed(piece.as_slice());
    let ghost before = pair_views(out@);
    match parse_field(&f) {
        Some(x) => {
            out.push(x);
            assert(pair_views(out@) =~= before + opt_seq(field_of(trim(b@.subrange(start as int, end as int)))));
        },
        None => {
            assert(pair_views(out@) =~= before + opt_seq(field_of(trim(b@.subrange(start as int, end as int)))));
        },
    }
}

fn parse_fields(b: &[char]) -> (r: Vec<(Vec<char>, Vec<char>)>)
    ensures
        pair_views(r@) == parsed_fields(b@),
{
    let mut out: Vec<(Vec<char>, Vec<char>)> = Vec::new();
    let (ta, tb) = trim_bounds(b);
    if ta == tb {
        assert(pair_views(out@) =~= Seq::<(Seq<char>, Seq<char>)>::empty());
        return out;
    }
    let mut start: usize = 0;
    let mut i: usize = 0;
    let mut q: Option<char> = None;
    let mut esc = false;
    let mut depth: i128 = 0;
    assert(pair_views(out@) =~= Seq::<(Seq<char>, Seq<char>)>::empty());
    while i < b.len()
        invariant
            start <= i <= b@.len(),
            -(i as int) <= depth <= i,
            parsed_fields(b@) == pair_views(out@) + fields_from(b@, i as int, q, esc, depth as int, start as int),
        decreases b@.len() - i,
    {
        let c = b[i];
        let code = q.is_none() && c != '"' && c != '`';
        let (q2, e2) = string_step(q, esc, c);
        if code && (c == '{' || c == '[' || c == '(') {
            depth = depth + 1;
        } else if code && (c == '}' || c == ']' || c == ')') {
            depth = depth - 1;
        } else if code && c == ',' && depth <= 0 {
            let ghost before = pair_views(out@);
            push_field(&mut out, b, start, i);
            assert(before + (opt_seq(field_of(trim(b@.subrange(start as int, i as int)))) + fields_from(
                b@,
                i + 1,
                q2,
                e2,
                depth as int,
                i + 1,
            )) =~= pair_views(out@) + fields_from(b@, i + 1, q2, e2, depth as int, i + 1));
            start = i + 1;
        }
        q = q2;
        esc = e2;
        i = i + 1;
    }
    let ghost before = pair_views(out@);
    push_field(&mut out, b, start, b.len());
    assert(pair_views(out@) =~= before + fields_from(b@, i as int, q, esc, depth as int, start as int));
    out
}

pub open spec fn input_open() -> Seq<char> {
    seq!['I', 'n', 'p', 'u', 't', ' ', '{']
}

/// The fields of the `Input { ... }` literal in `get_input`'s body.
pub open spec fn input_fields_of(g: Seq<char>) -> Seq<(Seq<char>, Seq<char>)> {
    match find_from(g, seq!['{'], 0) {
        None => Seq::empty(),
        Some(bs) => match find_from(g, input_open(), bs as int) {
            None => Seq::empty(),
            Some(m) => match matching(g, m + 6 as int, '{', '}') {
                None => Seq::empty(),
                Some(close) => if close < m + 7 {
                    Seq::empty()
                } else {
                    parsed_fields(g.subrange(m + 7 as int, close as int))
                },
            },
        },
    }
}

fn derive_input_fields(g: &Vec<char>) -> (r: Vec<(Vec<char>, Vec<char>)>)
    ensures
        pair_views(r@) == input_fields_of(g@),
{
    let brace = ['{'];
    assert(brace@ =~= seq!['{']);
    let pat = ['I', 'n', 'p', 'u', 't', ' ', '{'];
    assert(pat@ =~= input_open());
    let empty: Vec<(Vec<char>, Vec<char>)> = Vec::new();
    assert(pair_views(empty@) =~= Seq::<(Seq<char>, Seq<char>)>::empty());
    let bs = match find_chars(g.as_slice(), &brace, 0) {
        Some(x) => x,
        None => {
            return empty;
        },
    };
    let m = match find_chars(g.as_slice(), &pat, bs) {
        Some(x) => x,
        None => {
            return empty;
        },
    };
    let glen = g.len();
    assert(m + 7 <= glen);
    let close = match matching_close(g.as_slice(), m + 6, '{', '}') {
        Some(x) => x,
        None => {
            return empty;
        },
    };
    if close < m + 7 {
        return empty;
    }
    let body = slice_to_vec(g.as_slice(), m + 7, close);
    parse_fields(body.as_slice())
}

// ───────────────────────── output fields ─────────────────────────

pub open spec fn correct_output_marker() -> Seq<char> {
    "#CORRECT_OUTPUT = ["@
}

/// The element type of the `#CORRECT_OUTPUT` array, when there is one.
pub open spec fn correct_output_type_of(s: Seq<char>) -> Option<Seq<char>> {
    match find_from(s, correct_output_marker(), 0) {
        None => None,
        Some(k) => {
            let rest = s.skip(k + correct_output_marker().len() as int);
            let ty = rest.take(word_end(rest, 0, false));
            if ty.len() == 0 {
                None
            } else {
                Some(ty)
            }
        },
    }
}

fn correct_output_type(s: &Vec<char>) -> (r: Option<Vec<char>>)
    ensures
        match correct_output_type_of(s@) {
            Some(t) => r matches Some(v) && v@ == t,
            None => r is None,
        },
{
    let marker = str_chars("#CORRECT_OUTPUT = [");
    let k = match find_chars(s.as_slice(), marker.as_slice(), 0) {
        Some(k) => k,
        None => {
            return None;
        },
    };
    let slen = s.len();
    assert(k + marker@.len() <= slen);
    let rest = slice_to_vec(s.as_slice(), k + marker.len(), slen);
    assert(rest@ =~= s@.skip(k + correct_output_marker().len() as int));
    let e = word_end_exec(rest.as_slice(), 0, false);
    let ty = slice_to_vec(rest.as_slice(), 0, e);
    assert(ty@ =~= rest@.take(e as int));
    if ty.len() == 0 {
        None
    } else {
        Some(ty)
    }
}

pub open spec fn ends_with(s: Seq<char>, suf: Seq<char>) -> bool {
    s.len() >= suf.len() && s.skip(s.len() - suf.len()) == suf
}

/// The value and flag fields that `check_output` reads from `output.`,
/// each once, in order of first use.
pub open spec fn outputs_from(s: Seq<char>, i: int, vals: Seq<Seq<char>>, zs: Seq<Seq<char>>) -> (Seq<Seq<char>>, Seq<Seq<char>>)
    decreases s.len() - i,
{
    if i < 0 || i >= s.len() {
        (vals, zs)
    } else if prefix_at(s, i, "output."@) {
        let st = i + 7;
        let e = word_end(s, st, true);
        if e <= i || e > s.len() {
            (vals, zs)
        } else {
            let id = s.subrange(st, e);
            if ends_with(id, "_is_z"@) {
                outputs_from(s, e, vals, if zs.contains(id) { zs } else { zs.push(id) })
            } else if !ends_with(id, "_enabled"@) && id.len() > 0 {
                outputs_from(s, e, if vals.contains(id) { vals } else { vals.push(id) }, zs)
            } else {
                outputs_from(s, e, vals, zs)
            }
        }
    } else {
        outputs_from(s, i + 1, vals, zs)
    }
}

fn ends_with_chars(s: &[char], suf: &str) -> (r: bool)
    ensures
        r == ends_with(s@, suf@),
{
    let p = str_chars(suf);
    if p.len() > s.len() {
        return false;
    }
    let k = occurs_at(s, s.len() - p.len(), p.as_slice());
    assert(s@.subrange(s@.len() - p@.len(), s@.len() as int) =~= s@.skip(s@.len() - p@.len()));
    k
}

fn contains_name(v: &Vec<Vec<char>>, x: &Vec<char>) -> (r: bool)
    ensures
        r == Seq::new(v@.len(), |k: int| v@[k]@).contains(x@),
{
    let ghost vv = Seq::new(v@.len(), |k: int| v@[k]@);
    let mut i: usize = 0;
    while i < v.len()
        invariant
            i <= v@.len(),
            vv == Seq::new(v@.len(), |k: int| v@[k]@),
            forall|k: int| 0 <= k < i ==> vv[k] != x@,
        decreases v@.len() - i,
    {
        if chars_eq(v[i].as_slice(), x.as_slice()) {
            assert(vv[i as int] == x@);
            return true;
        }
        i = i + 1;
    }
    false
}

fn derive_output_names(s: &Vec<char>) -> (r: (Vec<Vec<char>>, Vec<Vec<char>>))
    ensures
        (Seq::new(r.0@.len(), |k: int| r.0@[k]@), Seq::new(r.1@.len(), |k: int| r.1@[k]@)) == outputs_from(
            s@,
            0,
            Seq::empty(),
            Seq::empty(),
        ),
{
    let pat = str_chars("output.");
    let mut vals: Vec<Vec<char>> = Vec::new();
    let mut zs: Vec<Vec<char>> = Vec::new();
    let mut i: usize = 0;
    assert(Seq::new(vals@.len(), |k: int| vals@[k]@) =~= Seq::<Seq<char>>::empty());
    assert(Seq::new(zs@.len(), |k: int| zs@[k]@) =~= Seq::<Seq<char>>::empty());
    while i < s.len()
        invariant
            i <= s@.len(),
            pat@ == "output."@,
            outputs_from(s@, 0, Seq::empty(), Seq::empty()) == outputs_from(
                s@,
                i as int,
                Seq::new(vals@.len(), |k: int| vals@[k]@),
                Seq::new(zs@.len(), |k: int| zs@[k]@),
            ),
        decreases s@.len() - i,
    {
        let ghost vv = Seq::new(vals@.len(), |k: int| vals@[k]@);
        let ghost zv = Seq::new(zs@.len(), |k: int| zs@[k]@);
        if occurs_at(s.as_slice(), i, pat.as_slice()) {
            proof {
                reveal_strlit("output.");
            }
            let st = i + 7;
            let e = word_end_exec(s.as_slice(), st, true);
            let id = slice_to_vec(s.as_slice(), st, e);
            if ends_with_chars(id.as_slice(), "_is_z") {
                if !contains_name(&zs, &id) {
                    zs.push(id);
                    assert(Seq::new(zs@.len(), |k: int| zs@[k]@) =~= zv.push(s@.subrange(st as int, e as int)));
                }
            } else if !ends_with_chars(id.as_slice(), "_enabled") && id.len() > 0 {
                if !contains_name(&vals, &id) {
                    vals.push(id);
                    assert(Seq::new(vals@.len(), |k: int| vals@[k]@) =~= vv.push(s@.subrange(st as int, e as int)));
                }
            }
            i = e;
        } else {
            i = i + 1;
        }
    }
    (vals, zs)
}

// ───────────────────────── check_output ─────────────────────────

/// The last non-blank line of `ls`.
pub open spec fn last_nonblank(ls: Seq<Seq<char>>) -> Option<Seq<char>>
    decreases ls.len(),
{
    if ls.len() == 0 {
        None
    } else if trim(ls.last()).len() > 0 {
        Some(ls.last())
    } else {
        last_nonblank(ls.drop_last())
    }
}

pub open spec fn return_kw() -> Seq<char> {
    seq!['r', 'e', 't', 'u', 'r', 'n']
}

/// `check_output` given an explicit `return pass` before its closing brace
/// unless its last statement already returns.
pub open spec fn with_return_pass(co: Seq<char>) -> Seq<char> {
    match last_pos(co, '}') {
        None => co,
        Some(close) => {
            let body = co.take(close as int);
            let ends_with_return = match last_nonblank(lines(body)) {
                Some(l) => prefix_at(trim_start(l), 0, return_kw()),
                None => false,
            };
            if ends_with_return {
                co
            } else {
                body + "    return pass\n}"@
            }
        },
    }
}

fn trim_start_bound(s: &[char]) -> (r: usize)
    ensures
        r <= s@.len(),
        s@.skip(r as int) == trim_start(s@),
{
    let mut i: usize = 0;
    assert(s@.skip(0) =~= s@);
    while i < s.len() && is_space_char(s[i])
        invariant
            i <= s@.len(),
            trim_start(s@) == trim_start(s@.skip(i as int)),
        decreases s@.len() - i,
    {
        assert(s@.skip(i as int).drop_first() =~= s@.skip(i + 1));
        i = i + 1;
    }
    i
}

fn is_blank(l: &Vec<char>) -> (r: bool)
    ensures
        r == (trim(l@).len() == 0),
{
    let (a, b) = trim_bounds(l.as_slice());
    a == b
}

fn ensure_return_pass(co: &Vec<char>) -> (r: Vec<char>)
    ensures
        r@ == with_return_pass(co@),
{
    let close = match rfind_char(co.as_slice(), '}') {
        Some(c) => c,
        None => {
            return copy_line(co);
        },
    };
    let body = slice_to_vec(co.as_slice(), 0, close);
    assert(body@ =~= co@.take(close as int));
    let ls = split_lines(body.as_slice());
    let ghost lv = lines(body@);
    let mut k = ls.len();
    assert(lv.take(lv.len() as int) =~= lv);
    while k > 0 && is_blank(&ls[k - 1])
        invariant
            k <= ls@.len(),
            ls@.len() == lv.len(),
            forall|m: int| 0 <= m < ls@.len() ==> #[trigger] ls@[m]@ == lv[m],
            last_nonblank(lv) == last_nonblank(lv.take(k as int)),
        decreases k,
    {
        assert(lv.take(k as int).drop_last() =~= lv.take(k - 1));
        assert(lv.take(k as int).last() == lv[k - 1]);
        k = k - 1;
    }
    let mut ends_with_return = false;
    if k > 0 {
        assert(lv.take(k as int).last() == lv[k - 1]);
        let l = &ls[k - 1];
        let t = trim_start_bound(l.as_slice());
        let rest = slice_to_vec(l.as_slice(), t, l.len());
        assert(rest@ =~= l@.skip(t as int));
        let kw = ['r', 'e', 't', 'u', 'r', 'n'];
        assert(kw@ =~= return_kw());
        ends_with_return = occurs_at(rest.as_slice(), 0, &kw);
    } else {
        assert(lv.take(0).len() == 0);
    }
    if ends_with_return {
        copy_line(co)
    } else {
        let mut out = body;
        push_str(&mut out, "    return pass\n}");
        out
    }
}


// ───────────────────────── the template ─────────────────────────

/// The texts of the definitions other than `get_input` and `check_output`.
pub open spec fn helper_texts(defs: Seq<(Seq<char>, Seq<char>)>) -> Seq<Seq<char>>
    decreases defs.len(),
{
    if defs.len() == 0 {
        Seq::empty()
    } else {
        let r = helper_texts(defs.drop_last());
        let d = defs.last();
        if d.0 != "get_input"@ && d.0 != "check_output"@ {
            r.push(d.1)
        } else {
            r
        }
    }
}

/// The template that `test.si` content `content` describes for level `id`,
/// or the error for it.
pub open spec fn template_of(content: Seq<char>, id: Seq<char>) -> Result<LevelTemplateV, Seq<char>> {
    let c0 = compacted(content);
    if c0.len() == 0 {
        Err("EMPTY_TEST_SI|"@ + id)
    } else {
        let c = strip_tuples(c0);
        if find_from(c, "def get_input(cycle"@, 0) is None {
            Err("UNSUPPORTED_HARNESS|"@ + id)
        } else {
            let (defs, decls) = top_level(c);
            match find_def(defs, "get_input"@) {
                None => Err("NO_GET_INPUT|"@ + id),
                Some(gi) => match find_def(defs, "check_output"@) {
                    None => Err("NO_CHECK_OUTPUT|"@ + id),
                    Some(co0) => {
                        let co = with_return_pass(co0);
                        let inf = input_fields_of(gi);
                        let ty = match correct_output_type_of(c) {
                            Some(t) => t,
                            None => "U1"@,
                        };
                        let names = outputs_from(co, 0, Seq::empty(), Seq::empty());
                        let of = names.0.map_values(|n: Seq<char>| (n, ty));
                        let parts = (if decls.len() > 0 {
                            seq![decls]
                        } else {
                            Seq::empty()
                        }) + helper_texts(defs) + seq![gi, co];
                        Ok(
                            LevelTemplateV {
                                input_struct: struct_text("Input"@, inf),
                                output_struct: output_struct_text(of, names.1),
                                test_defs: join_sep(parts, "\n"@),
                                input_fields: inf,
                                output_fields: of,
                                output_z_fields: names.1,
                            },
                        )
                    },
                },
            }
        }
    }
}

fn coded_error(code: &str, id: &str) -> (r: String)
    ensures
        r@ == code@ + id@,
{
    let mut v = str_chars(code);
    push_str(&mut v, id);
    chars_to_string(v.as_slice())
}

fn to_strings(v: &Vec<Vec<char>>) -> (r: Vec<String>)
    ensures
        string_views(r@) == Seq::new(v@.len(), |k: int| v@[k]@),
{
    let mut r: Vec<String> = Vec::new();
    let mut i: usize = 0;
    while i < v.len()
        invariant
            i <= v@.len(),
            r@.len() == i,
            forall|k: int| 0 <= k < i ==> #[trigger] r@[k]@ == v@[k]@,
        decreases v@.len() - i,
    {
        r.push(chars_to_string(v[i].as_slice()));
        i = i + 1;
    }
    assert(string_views(r@) =~= Seq::new(v@.len(), |k: int| v@[k]@));
    r
}

fn to_field_strings(v: &Vec<(Vec<char>, Vec<char>)>) -> (r: Vec<(String, String)>)
    ensures
        field_views(r@) == pair_views(v@),
{
    let mut r: Vec<(String, String)> = Vec::new();
    let mut i: usize = 0;
    while i < v.len()
        invariant
            i <= v@.len(),
            r@.len() == i,
            forall|k: int| 0 <= k < i ==> (#[trigger] r@[k].0@, r@[k].1@) == (v@[k].0@, v@[k].1@),
        decreases v@.len() - i,
    {
        r.push((chars_to_string(v[i].0.as_slice()), chars_to_string(v[i].1.as_slice())));
        i = i + 1;
    }
    assert(field_views(r@) =~= pair_views(v@));
    r
}

/// Parse the content of a level's `test.si` into its template.
///
/// The content is compacted (blank lines dropped), localized text tuples are
/// reduced to their text, and the top-level definitions are split out.
/// Errors, each followed by `|` and the level id: `EMPTY_TEST_SI` for content
/// without a non-blank line, `UNSUPPORTED_HARNESS` for a level whose
/// `get_input` does not take the cycle, `NO_GET_INPUT` / `NO_CHECK_OUTPUT`
/// when that definition is missing.
pub fn parse(content: &str, level_id: &str) -> (r: Result<LevelTemplate, String>)
    ensures
        match template_of(content@, level_id@) {
            Ok(t) => r matches Ok(x) && x@ == t,
            Err(e) => r matches Err(x) && x@ == e,
        },
{
    let c0 = compact(content);
    if c0.len() == 0 {
        return Err(coded_error("EMPTY_TEST_SI|", level_id));
    }
    let c = strip_localized_tuples(c0.as_slice());
    let harness = str_chars("def get_input(cycle");
    if find_chars(c.as_slice(), harness.as_slice(), 0).is_none() {
        return Err(coded_error("UNSUPPORTED_HARNESS|", level_id));
    }
    let (defs, decls) = split_top_level(&c);
    let ghost dv = pair_views(defs@);
    assert(dv == Seq::new(defs@.len(), |k: int| (defs@[k].0@, defs@[k].1@)));
    let gi_at = match find_def_index(&defs, "get_input") {
        Some(x) => x,
        None => {
            return Err(coded_error("NO_GET_INPUT|", level_id));
        },
    };
    let co_at = match find_def_index(&defs, "check_output") {
        Some(x) => x,
        None => {
            return Err(coded_error("NO_CHECK_OUTPUT|", level_id));
        },
    };
    let gi = &defs[gi_at].1;
    let co = ensure_return_pass(&defs[co_at].1);
    let mut helpers: Vec<Vec<char>> = Vec::new();
    let mut i: usize = 0;
    assert(dv.take(0) =~= Seq::<(Seq<char>, Seq<char>)>::empty());
    while i < defs.len()
        invariant
            i <= defs@.len(),
            dv == pair_views(defs@),
            Seq::new(helpers@.len(), |k: int| helpers@[k]@) == helper_texts(dv.take(i as int)),
        decreases defs@.len() - i,
    {
        let ghost before = Seq::new(helpers@.len(), |k: int| helpers@[k]@);
        assert(dv.take(i + 1).drop_last() =~= dv.take(i as int));
        assert(dv.take(i + 1).last() == dv[i as int]);
        let gname = str_chars("get_input");
        let cname = str_chars("check_output");
        if !chars_eq(defs[i].0.as_slice(), gname.as_slice()) && !chars_eq(defs[i].0.as_slice(), cname.as_slice()) {
            helpers.push(copy_line(&defs[i].1));
            assert(Seq::new(helpers@.len(), |k: int| helpers@[k]@) =~= before.push(dv[i as int].1));
        }
        i = i + 1;
    }
    assert(dv.take(defs@.len() as int) =~= dv);
    let inf = derive_input_fields(gi);
    let input_struct = struct_chars("Input", &inf);
    let ty = match correct_output_type(&c) {
        Some(t) => t,
        None => str_chars("U1"),
    };
    let (vals, zs) = derive_output_names(&co);
    let mut of: Vec<(Vec<char>, Vec<char>)> = Vec::new();
    let mut j: usize = 0;
    while j < vals.len()
        invariant
            j <= vals@.len(),
            of@.len() == j,
            forall|k: int| 0 <= k < j ==> (#[trigger] of@[k].0@, of@[k].1@) == (vals@[k]@, ty@),
        decreases vals@.len() - j,
    {
        of.push((copy_line(&vals[j]), copy_line(&ty)));
        j = j + 1;
    }
    let ghost names = outputs_from(co@, 0, Seq::empty(), Seq::empty());
    assert(pair_views(of@) =~= names.0.map_values(|n: Seq<char>| (n, ty@)));
    let mut all_out: Vec<(Vec<char>, Vec<char>)> = Vec::new();
    let mut m: usize = 0;
    while m < of.len()
        invariant
            m <= of@.len(),
            all_out@.len() == m,
            forall|k: int| 0 <= k < m ==> (#[trigger] all_out@[k].0@, all_out@[k].1@) == (of@[k].0@, of@[k].1@),
        decreases of@.len() - m,
    {
        all_out.push((copy_line(&of[m].0), copy_line(&of[m].1)));
        m = m + 1;
    }
    let mut z: usize = 0;
    while z < zs.len()
        invariant
            z <= zs@.len(),
            all_out@.len() == of@.len() + z,
            forall|k: int| 0 <= k < of@.len() ==> (#[trigger] all_out@[k].0@, all_out@[k].1@) == (of@[k].0@, of@[k].1@),
            forall|k: int| 0 <= k < z ==> (#[trigger] all_out@[of@.len() + k].0@, all_out@[of@.len() + k].1@) == (zs@[k]@, "Bool"@),
        decreases zs@.len() - z,
    {
        all_out.push((copy_line(&zs[z]), str_chars("Bool")));
        z = z + 1;
    }
    let output_struct = struct_chars("Output", &all_out);
    let ghost zv = Seq::new(zs@.len(), |k: int| zs@[k]@);
    assert(Seq::new(all_out@.len(), |k: int| (all_out@[k].0@, all_out@[k].1@)) =~= pair_views(of@) + zv.map_values(
        |n: Seq<char>| (n, "Bool"@),
    )) by {
        assert forall|k: int| 0 <= k < all_out@.len() implies (#[trigger] all_out@[k].0@, all_out@[k].1@) == (
            pair_views(of@) + zv.map_values(|n: Seq<char>| (n, "Bool"@)))[k] by {
            if k >= of@.len() {
                assert(all_out@[of@.len() + (k - of@.len())] == all_out@[k]);
            }
        }
    }
    let mut parts: Vec<Vec<char>> = Vec::new();
    if decls.len() > 0 {
        parts.push(copy_line(&decls));
    }
    assert(Seq::new(parts@.len(), |k: int| parts@[k]@) =~= (if decls@.len() > 0 {
        seq![decls@]
    } else {
        Seq::<Seq<char>>::empty()
    }));
    let mut h: usize = 0;
    let ghost p0 = Seq::new(parts@.len(), |k: int| parts@[k]@);
    while h < helpers.len()
        invariant
            h <= helpers@.len(),
            parts@.len() == p0.len() + h,
            forall|k: int| 0 <= k < p0.len() ==> #[trigger] parts@[k]@ == p0[k],
            forall|k: int| 0 <= k < h ==> #[trigger] parts@[p0.len() + k]@ == helpers@[k]@,
        decreases helpers@.len() - h,
    {
        parts.push(copy_line(&helpers[h]));
        h = h + 1;
    }
    parts.push(copy_line(gi));
    parts.push(copy_line(&co));
    let ghost hv = Seq::new(helpers@.len(), |k: int| helpers@[k]@);
    assert(Seq::new(parts@.len(), |k: int| parts@[k]@) =~= p0 + hv + seq![gi@, co@]) by {
        assert forall|k: int| 0 <= k < parts@.len() implies #[trigger] parts@[k]@ == (p0 + hv + seq![gi@, co@])[k] by {
            if p0.len() <= k < p0.len() + hv.len() {
                assert(parts@[p0.len() + (k - p0.len())] == parts@[k]);
            }
        }
    }
    let test_defs = join_vecs(&parts, "\n");
    let ghost tv = template_of(content@, level_id@);
    assert(tv is Ok);
    assert(tv->Ok_0.input_fields == pair_views(inf@));
    assert(tv->Ok_0.input_struct == input_struct@);
    assert(tv->Ok_0.output_fields == pair_views(of@));
    assert(tv->Ok_0.output_z_fields == zv);
    assert(tv->Ok_0.output_struct == output_struct@);
    assert(tv->Ok_0.test_defs == test_defs@);
    Ok(
        LevelTemplate {
            input_struct: chars_to_string(input_struct.as_slice()),
            output_struct: chars_to_string(output_struct.as_slice()),
            test_defs: chars_to_string(test_defs.as_slice()),
            input_fields: to_field_strings(&inf),
            output_fields: to_field_strings(&of),
            output_z_fields: to_strings(&zs),
        },
    )
}

} // verus!
