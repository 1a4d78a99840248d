//! The game's `levels.txt` progress file: one row per level,
//! `"id",true|false,"solution","score&...|score&..."` (the fourth column optional).
use vstd::prelude::*;
use crate::text::{
    chars_to_string, join_lines, join_with_newlines, lines, push_chars, push_str, push_u64,
    slice_to_vec, split_chars, split_lines, split_on, str_chars, trim, trim_bounds, trimmed, lemma_split_concat,
    lemma_split_free, lemma_split_nonempty, lemma_trim_nonblank, is_space, trim_start, trim_end,
};

verus! {

/// One parsed row of `levels.txt`.
#[derive(Debug, Clone)]
pub struct LevelRow {
    /// Level id (first column), such as `introduction`.
    pub id: String,
    /// Solution name (third column).
    pub solution: String,
    /// Completion flag (second column).
    pub completed: bool,
    /// Number of non-empty `|`-separated records in the fourth column.
    pub records: u32,
    /// 0-based line number in the file, used to write the row back.
    pub line_index: usize,
}

/// A requested change: set the completion flag of one line.
#[derive(Debug, Clone, Copy)]
pub struct LevelUpdate {
    pub line_index: usize,
    pub completed: bool,
}

pub struct LevelRowV {
    pub id: Seq<char>,
    pub solution: Seq<char>,
    pub completed: bool,
    pub records: u32,
    pub line_index: nat,
}

impl View for LevelRow {
    type V = LevelRowV;

    open spec fn view(&self) -> LevelRowV {
        LevelRowV {
            id: self.id@,
            solution: self.solution@,
            completed: self.completed,
            records: self.records,
            line_index: self.line_index as nat,
        }
    }
}

pub open spec fn row_views(v: Seq<LevelRow>) -> Seq<LevelRowV> {
    v.map_values(|r: LevelRow| r@)
}

// ───────────────────────── columns ─────────────────────────

/// ASCII letters folded to lower case, other characters kept.
pub open spec fn ascii_lower(c: char) -> char {
    if 'A' <= c && c <= 'Z' {
        ((c as u32) + 32) as char
    } else {
        c
    }
}

/// `s` equals `word` ignoring ASCII case (`word` being lower-case ASCII).
pub open spec fn eq_ignore_case(s: Seq<char>, word: Seq<char>) -> bool {
    s.len() == word.len() && forall|i: int| 0 <= i < s.len() ==> ascii_lower(#[trigger] s[i]) == word[i]
}

pub open spec fn true_word() -> Seq<char> {
    seq!['t', 'r', 'u', 'e']
}

pub open spec fn false_word() -> Seq<char> {
    seq!['f', 'a', 'l', 's', 'e']
}

/// The flag a column spells (`true` / `false` in any ASCII case, with
/// surrounding whitespace), if it spells one.
pub open spec fn bool_of(s: Seq<char>) -> Option<bool> {
    if eq_ignore_case(trim(s), true_word()) {
        Some(true)
    } else if eq_ignore_case(trim(s), false_word()) {
        Some(false)
    } else {
        None
    }
}

fn lower_char(c: char) -> (r: char)
    ensures
        r == ascii_lower(c),
{
    if 'A' <= c && c <= 'Z' {
        let v: u8 = (c as u8) + 32;
        v as char
    } else {
        c
    }
}

fn matches_ignore_case(s: &[char], word: &[char]) -> (r: bool)
    ensures
        r == eq_ignore_case(s@, word@),
{
    if s.len() != word.len() {
        return false;
    }
    let mut i: usize = 0;
    while i < s.len()
        invariant
            s@.len() == word@.len(),
            i <= s@.len(),
            forall|k: int| 0 <= k < i ==> ascii_lower(#[trigger] s@[k]) == word@[k],
        decreases s@.len() - i,
    {
        if lower_char(s[i]) != word[i] {
            return false;
        }
        i = i + 1;
    }
    true
}

fn parse_flag(s: &[char]) -> (r: Option<bool>)
    ensures
        r == bool_of(s@),
{
    let t = trimmed(s);
    let tw = ['t', 'r', 'u', 'e'];
    let fw = ['f', 'a', 'l', 's', 'e'];
    assert(tw@ =~= true_word());
    assert(fw@ =~= false_word());
    if matches_ignore_case(t.as_slice(), &tw) {
        Some(true)
    } else if matches_ignore_case(t.as_slice(), &fw) {
        Some(false)
    } else {
        None
    }
}

/// Parse a completion flag: `true` or `false` in any ASCII case, surrounding
/// whitespace ignored.
pub fn parse_bool(s: &str) -> (r: Option<bool>)
    ensures
        r == bool_of(s@),
{
    let v = str_chars(s);
    parse_flag(v.as_slice())
}

/// A column without surrounding whitespace and, where it is wrapped in double
/// quotes, without them.
pub open spec fn unquoted(s: Seq<char>) -> Seq<char> {
    let t = trim(s);
    if t.len() >= 2 && t[0] == '"' && t.last() == '"' {
        t.subrange(1, t.len() - 1)
    } else {
        t
    }
}

fn unquote_chars(s: &[char]) -> (r: Vec<char>)
    ensures
        r@ == unquoted(s@),
{
    let (a, b) = trim_bounds(s);
    if b - a >= 2 && s[a] == '"' && s[b - 1] == '"' {
        slice_to_vec(s, a + 1, b - 1)
    } else {
        slice_to_vec(s, a, b)
    }
}

/// Strip surrounding whitespace and one pair of enclosing double quotes.
pub fn unquote(s: &str) -> (r: String)
    ensures
        r@ == unquoted(s@),
{
    let v = str_chars(s);
    let u = unquote_chars(v.as_slice());
    chars_to_string(u.as_slice())
}

/// How many of `ps` are non-empty.
pub open spec fn count_nonempty(ps: Seq<Seq<char>>) -> nat
    decreases ps.len(),
{
    if ps.len() == 0 {
        0
    } else {
        count_nonempty(ps.drop_last()) + if ps.last().len() > 0 {
            1nat
        } else {
            0nat
        }
    }
}

/// The number of non-empty `|`-separated records in `s`.
pub open spec fn record_count(s: Seq<char>) -> nat {
    count_nonempty(split_on(s, '|'))
}

proof fn lemma_count_le(ps: Seq<Seq<char>>)
    ensures
        count_nonempty(ps) <= ps.len(),
    decreases ps.len(),
{
    if ps.len() > 0 {
        lemma_count_le(ps.drop_last());
    }
}

fn count_records_chars(s: &[char]) -> (r: usize)
    ensures
        r == record_count(s@),
{
    let pieces = split_chars(s, '|');
    let ghost ps = split_on(s@, '|');
    let mut n: usize = 0;
    let mut i: usize = 0;
    while i < pieces.len()
        invariant
            pieces@.len() == ps.len(),
            forall|k: int| 0 <= k < pieces@.len() ==> #[trigger] pieces@[k]@ == ps[k],
            i <= ps.len(),
            n == count_nonempty(ps.take(i as int)),
            n <= i,
        decreases ps.len() - i,
    {
        assert(ps.take(i + 1).drop_last() =~= ps.take(i as int));
        if pieces[i].len() > 0 {
            n = n + 1;
        }
        i = i + 1;
    }
    assert(ps.take(ps.len() as int) =~= ps);
    n
}

/// Count the non-empty `|`-separated records of a fourth column.
pub fn count_records(s: &str) -> (r: u32)
    ensures
        r == record_count(s@) as u32,
{
    let v = str_chars(s);
    let n = count_records_chars(v.as_slice());
    n as u32
}

// ───────────────────────── rows ─────────────────────────

pub open spec fn row_format_error(line: nat) -> Seq<char> {
    "LEVELS_ROW_FORMAT|"@ + crate::text::dec_nat(line)
}

pub open spec fn bad_bool_error(line: nat) -> Seq<char> {
    "LEVELS_BAD_BOOL|"@ + crate::text::dec_nat(line)
}

/// The row that line `i` (`l`) holds: `None` for a blank line, else the
/// parsed row or the error naming the 1-based line.
pub open spec fn row_of(l: Seq<char>, i: nat) -> Option<Result<LevelRowV, Seq<char>>> {
    let parts = split_on(l, ',');
    if trim(l).len() == 0 {
        None
    } else if parts.len() < 3 {
        Some(Err(row_format_error(i + 1)))
    } else if bool_of(parts[1]) is None {
        Some(Err(bad_bool_error(i + 1)))
    } else {
        Some(
            Ok(
                LevelRowV {
                    id: unquoted(parts[0]),
                    solution: unquoted(parts[2]),
                    completed: bool_of(parts[1])->0,
                    records: if parts.len() >= 4 {
                        record_count(unquoted(parts[3])) as u32
                    } else {
                        0
                    },
                    line_index: i,
                },
            ),
        )
    }
}

/// The rows of lines `i..` of `ls`, or the first error among them.
pub open spec fn rows_from(ls: Seq<Seq<char>>, i: nat) -> Result<Seq<LevelRowV>, Seq<char>>
    decreases ls.len() - i,
{
    if i >= ls.len() {
        Ok(Seq::empty())
    } else {
        match row_of(ls[i as int], i) {
            None => rows_from(ls, i + 1),
            Some(Err(e)) => Err(e),
            Some(Ok(r)) => match rows_from(ls, i + 1) {
                Ok(rs) => Ok(seq![r] + rs),
                Err(e) => Err(e),
            },
        }
    }
}

/// What `levels.txt` holding `text` parses to.
pub open spec fn parsed_levels(text: Seq<char>) -> Result<Seq<LevelRowV>, Seq<char>> {
    rows_from(lines(text), 0)
}

pub open spec fn prepend_rows(acc: Seq<LevelRowV>, r: Result<Seq<LevelRowV>, Seq<char>>) -> Result<
    Seq<LevelRowV>,
    Seq<char>,
> {
    match r {
        Ok(rs) => Ok(acc + rs),
        Err(e) => Err(e),
    }
}

fn line_error(code: &str, line: usize) -> (r: String)
    requires
        line < usize::MAX,
    ensures
        r@ == code@ + crate::text::dec_nat((line + 1) as nat),
{
    let mut v: Vec<char> = Vec::new();
    push_str(&mut v, code);
    push_u64(&mut v, (line + 1) as u64);
    chars_to_string(v.as_slice())
}

fn parse_row(l: &[char], i: usize) -> (r: Option<Result<LevelRow, String>>)
    requires
        i < usize::MAX,
    ensures
        match row_of(l@, i as nat) {
            None => r is None,
            Some(Err(e)) => r matches Some(Err(x)) && x@ == e,
            Some(Ok(v)) => r matches Some(Ok(x)) && x@ == v,
        },
{
    let (a, b) = trim_bounds(l);
    if a == b {
        return None;
    }
    let parts = split_chars(l, ',');
    if parts.len() < 3 {
        return Some(Err(line_error("LEVELS_ROW_FORMAT|", i)));
    }
    let completed = match parse_flag(parts[1].as_slice()) {
        Some(b) => b,
        None => {
            return Some(Err(line_error("LEVELS_BAD_BOOL|", i)));
        },
    };
    let id = unquote_chars(parts[0].as_slice());
    let solution = unquote_chars(parts[2].as_slice());
    let records: u32 = if parts.len() >= 4 {
        let q = unquote_chars(parts[3].as_slice());
        let n = count_records_chars(q.as_slice());
        n as u32
    } else {
        0
    };
    Some(
        Ok(
            LevelRow {
                id: chars_to_string(id.as_slice()),
                solution: chars_to_string(solution.as_slice()),
                completed,
                records,
                line_index: i,
            },
        ),
    )
}

/// Parse the text of `levels.txt` into rows, skipping blank lines.
///
/// Errors: `LEVELS_ROW_FORMAT|n` for a line with fewer than three columns and
/// `LEVELS_BAD_BOOL|n` for an unreadable flag, `n` the 1-based line number;
/// the first such line decides.
pub fn parse_levels(text: &str) -> (r: Result<Vec<LevelRow>, String>)
    ensures
        match parsed_levels(text@) {
            Ok(rows) => r matches Ok(v) && row_views(v@) == rows,
            Err(e) => r matches Err(x) && x@ == e,
        },
{
    let chars = str_chars(text);
    let ls = split_lines(chars.as_slice());
    let ghost lv = lines(text@);
    let mut rows: Vec<LevelRow> = Vec::new();
    let mut i: usize = 0;
    while i < ls.len()
        invariant
            ls@.len() == lv.len(),
            lv == lines(text@),
            forall|k: int| 0 <= k < ls@.len() ==> #[trigger] ls@[k]@ == lv[k],
            i <= lv.len(),
            rows_from(lv, 0) == prepend_rows(row_views(rows@), rows_from(lv, i as nat)),
        decreases lv.len() - i,
    {
        let ghost before = row_views(rows@);
        match parse_row(ls[i].as_slice(), i) {
            None => {},
            Some(Err(e)) => {
                return Err(e);
            },
            Some(Ok(row)) => {
                rows.push(row);
                assert(row_views(rows@) =~= before.push(row@));
                assert(forall|rs: Seq<LevelRowV>| #![auto] before + (seq![row@] + rs) =~= before.push(row@) + rs);
            },
        }
        i = i + 1;
    }
    assert(row_views(rows@) + Seq::<LevelRowV>::empty() =~= row_views(rows@));
    Ok(rows)
}

// ───────────────────────── writing back ─────────────────────────

/// The index of the first `c` in `s`.
pub open spec fn first_index(s: Seq<char>, c: char) -> Option<nat>
    decreases s.len(),
{
    if s.len() == 0 {
        None
    } else if s[0] == c {
        Some(0)
    } else {
        match first_index(s.drop_first(), c) {
            Some(k) => Some(k + 1),
            None => None,
        }
    }
}

pub open spec fn flag_word(b: bool) -> Seq<char> {
    if b {
        true_word()
    } else {
        false_word()
    }
}

/// Line `l` with its second comma-separated column replaced by `b`; unchanged
/// when it has fewer than two commas.
pub open spec fn with_flag(l: Seq<char>, b: bool) -> Seq<char> {
    match first_index(l, ',') {
        None => l,
        Some(f) => match first_index(l.skip((f + 1) as int), ',') {
            None => l,
            Some(g) => l.take((f + 1) as int) + flag_word(b) + l.skip((f + 1 + g) as int),
        },
    }
}

/// `ls` after the updates `ups`, applied in order; an update naming a line
/// that does not exist is ignored.
pub open spec fn apply_all(ls: Seq<Seq<char>>, ups: Seq<(usize, bool)>) -> Seq<Seq<char>>
    decreases ups.len(),
{
    if ups.len() == 0 {
        ls
    } else {
        let prev = apply_all(ls, ups.drop_last());
        let (i, b) = ups.last();
        if (i as int) < prev.len() {
            prev.update(i as int, with_flag(prev[i as int], b))
        } else {
            prev
        }
    }
}

/// The file text after `ups`: its `\n`-separated pieces (line endings and
/// a final newline included), updated, joined again by `\n`.
pub open spec fn updated_text(raw: Seq<char>, ups: Seq<(usize, bool)>) -> Seq<char> {
    join_lines(apply_all(split_on(raw, '\n'), ups))
}

/// No piece holds a `\n`.
pub open spec fn no_newline(ls: Seq<Seq<char>>) -> bool {
    forall|k: int, i: int| 0 <= k < ls.len() && 0 <= i < ls[k].len() ==> #[trigger] ls[k][i] != '\n'
}

proof fn lemma_join_push(ls: Seq<Seq<char>>, x: char)
    requires
        ls.len() >= 1,
    ensures
        join_lines(ls.update(ls.len() - 1, ls.last().push(x))) == join_lines(ls).push(x),
{
    let u = ls.update(ls.len() - 1, ls.last().push(x));
    if ls.len() > 1 {
        assert(u.drop_last() =~= ls.drop_last());
        assert(join_lines(u) =~= join_lines(ls).push(x));
    }
}

/// Joining the `\n`-separated pieces of a text gives the text back.
proof fn lemma_join_split(s: Seq<char>)
    ensures
        join_lines(split_on(s, '\n')) == s,
        no_newline(split_on(s, '\n')),
    decreases s.len(),
{
    if s.len() == 0 {
        assert(join_lines(split_on(s, '\n')) =~= s);
    } else {
        let p = split_on(s.drop_last(), '\n');
        lemma_join_split(s.drop_last());
        lemma_split_nonempty(s.drop_last(), '\n');
        if s.last() == '\n' {
            let q = p.push(Seq::<char>::empty());
            assert(q.drop_last() =~= p);
            assert(join_lines(q) =~= s);
        } else {
            lemma_join_push(p, s.last());
            assert(join_lines(split_on(s, '\n')) =~= s);
            let q = split_on(s, '\n');
            assert forall|k: int, i: int| 0 <= k < q.len() && 0 <= i < q[k].len() implies #[trigger] q[k][i] != '\n' by {
                if k == p.len() - 1 {
                    if i < p[k].len() {
                        assert(q[k][i] == p[k][i]);
                    }
                } else {
                    assert(q[k] == p[k]);
                }
            }
        }
    }
}

/// Splitting joined pieces that hold no `\n` gives the pieces back.
proof fn lemma_split_join(ls: Seq<Seq<char>>)
    requires
        ls.len() >= 1,
        no_newline(ls),
    ensures
        split_on(join_lines(ls), '\n') == ls,
    decreases ls.len(),
{
    if ls.len() == 1 {
        assert forall|i: int| 0 <= i < ls[0].len() implies ls[0][i] != '\n' by {
            assert(ls[0][i] != '\n');
        }
        lemma_split_free(ls[0], '\n');
        assert(seq![ls[0]] =~= ls);
    } else {
        let d = ls.drop_last();
        assert forall|k: int, i: int| 0 <= k < d.len() && 0 <= i < d[k].len() implies #[trigger] d[k][i] != '\n' by {
            assert(d[k] == ls[k]);
        }
        lemma_split_join(d);
        assert forall|i: int| 0 <= i < ls.last().len() implies ls.last()[i] != '\n' by {
            assert(ls[ls.len() - 1][i] != '\n');
        }
        lemma_split_free(ls.last(), '\n');
        lemma_split_concat(join_lines(d), ls.last(), '\n');
        assert(d + seq![ls.last()] =~= ls);
    }
}

/// Setting a flag brings in no `\n`.
proof fn lemma_flag_no_newline(l: Seq<char>, b: bool)
    requires
        forall|i: int| 0 <= i < l.len() ==> l[i] != '\n',
    ensures
        forall|i: int| 0 <= i < with_flag(l, b).len() ==> with_flag(l, b)[i] != '\n',
{
    let w = flag_word(b);
    assert forall|i: int| 0 <= i < w.len() implies w[i] != '\n' by {}
    match first_index(l, ',') {
        None => {},
        Some(f) => match first_index(l.skip((f + 1) as int), ',') {
            None => {},
            Some(g) => {
                let a = l.take((f + 1) as int);
                let c = l.skip((f + 1 + g) as int);
                lemma_first_bound(l, ',');
                lemma_first_bound(l.skip((f + 1) as int), ',');
                assert forall|i: int| 0 <= i < (a + w + c).len() implies (a + w + c)[i] != '\n' by {
                    if i < a.len() {
                        assert((a + w + c)[i] == l[i]);
                    } else if i < a.len() + w.len() {
                        assert((a + w + c)[i] == w[i - a.len()]);
                    } else {
                        assert((a + w + c)[i] == l[i - a.len() - w.len() + f + 1 + g]);
                    }
                }
            },
        },
    }
}

proof fn lemma_first_bound(s: Seq<char>, c: char)
    ensures
        first_index(s, c) matches Some(k) ==> k < s.len(),
    decreases s.len(),
{
    if s.len() > 0 {
        lemma_first_bound(s.drop_first(), c);
    }
}

/// Updates keep the pieces free of `\n`.
proof fn lemma_apply_no_newline(ls: Seq<Seq<char>>, ups: Seq<(usize, bool)>)
    requires
        no_newline(ls),
    ensures
        no_newline(apply_all(ls, ups)),
    decreases ups.len(),
{
    if ups.len() > 0 {
        lemma_apply_no_newline(ls, ups.drop_last());
        let prev = apply_all(ls, ups.drop_last());
        let (i, b) = ups.last();
        if (i as int) < prev.len() {
            assert forall|j: int| 0 <= j < prev[i as int].len() implies prev[i as int][j] != '\n' by {}
            lemma_flag_no_newline(prev[i as int], b);
            let q = prev.update(i as int, with_flag(prev[i as int], b));
            assert forall|k: int, j: int| 0 <= k < q.len() && 0 <= j < q[k].len() implies #[trigger] q[k][j] != '\n' by {
                if k == i as int {
                    assert(q[k] == with_flag(prev[i as int], b));
                } else {
                    assert(q[k] == prev[k]);
                }
            }
        }
    }
}

proof fn lemma_apply_len(ls: Seq<Seq<char>>, ups: Seq<(usize, bool)>)
    ensures
        apply_all(ls, ups).len() == ls.len(),
    decreases ups.len(),
{
    if ups.len() > 0 {
        lemma_apply_len(ls, ups.drop_last());
    }
}

fn find_char(s: &[char], from: usize, c: char) -> (r: Option<usize>)
    requires
        from <= s@.len(),
    ensures
        match first_index(s@.skip(from as int), c) {
            None => r is None,
            Some(k) => r matches Some(x) && x == from + k,
        },
        r matches Some(x) ==> from <= x < s@.len() && s@[x as int] == c,
{
    let mut i: usize = from;
    while i < s.len()
        invariant
            from <= i <= s@.len(),
            forall|k: int| from <= k < i ==> s@[k] != c,
            first_index(s@.skip(from as int), c) == match first_index(s@.skip(i as int), c) {
                None => None,
                Some(k) => Some((k + i - from) as nat),
            },
        decreases s@.len() - i,
    {
        assert(s@.skip(i as int)[0] == s@[i as int]);
        if s[i] == c {
            return Some(i);
        }
        assert(s@.skip(i as int).drop_first() =~= s@.skip(i + 1));
        i = i + 1;
    }
    None
}

fn set_flag(l: &Vec<char>, b: bool) -> (r: Vec<char>)
    ensures
        r@ == with_flag(l@, b),
{
    let s = l.as_slice();
    let n = s.len();
    assert(s@.skip(0) =~= s@);
    assert(s@.subrange(0, s@.len() as int) =~= s@);
    match find_char(s, 0, ',') {
        None => slice_to_vec(s, 0, n),
        Some(f) => {
            assert(first_index(l@, ',') == Some(f as nat));
            match find_char(s, f + 1, ',') {
                None => {
                    assert(first_index(l@.skip((f + 1) as int), ',') is None);
                    slice_to_vec(s, 0, n)
                },
                Some(g) => {
                    let ghost gr = (g - (f + 1)) as nat;
                    assert(first_index(l@.skip((f + 1) as int), ',') == Some(gr));
                    let mut out = slice_to_vec(s, 0, f + 1);
                    if b {
                        push_str(&mut out, "true");
                    } else {
                        push_str(&mut out, "false");
                    }
                    let tail = slice_to_vec(s, g, n);
                    push_chars(&mut out, tail.as_slice());
                    proof {
                        reveal_strlit("true");
                        reveal_strlit("false");
                        assert("true"@ =~= true_word());
                        assert("false"@ =~= false_word());
                    }
                    assert(out@ =~= l@.take((f + 1) as int) + flag_word(b) + l@.skip((f + 1 + gr) as int));
                    out
                },
            }
        },
    }
}

/// The text of `levels.txt` with the second column (between the first and
/// second comma) of each updated line set to `true` / `false`. Everything
/// else is kept character for character, line endings and a final newline
/// included; an update of a missing line, or of a line with fewer than two
/// commas, changes nothing. Updates apply in order.
pub fn apply_updates_to_text(raw: &str, updates: &[(usize, bool)]) -> (r: String)
    ensures
        r@ == updated_text(raw@, updates@),
        split_on(r@, '\n') == apply_all(split_on(raw@, '\n'), updates@),
        updates@.len() == 0 ==> r@ == raw@,
{
    let chars = str_chars(raw);
    let mut out = split_chars(chars.as_slice(), '\n');
    let ghost ls = split_on(raw@, '\n');
    let mut j: usize = 0;
    while j < updates.len()
        invariant
            j <= updates@.len(),
            ls == split_on(raw@, '\n'),
            out@.len() == apply_all(ls, updates@.take(j as int)).len(),
            forall|k: int| 0 <= k < out@.len() ==> #[trigger] out@[k]@ == apply_all(ls, updates@.take(j as int))[k],
        decreases updates@.len() - j,
    {
        let (idx, b) = updates[j];
        let ghost prev = apply_all(ls, updates@.take(j as int));
        assert(updates@.take(j + 1).drop_last() =~= updates@.take(j as int));
        assert(updates@.take(j + 1).last() == updates@[j as int]);
        if idx < out.len() {
            let line = set_flag(&out[idx], b);
            out.set(idx, line);
        }
        j = j + 1;
    }
    assert(updates@.take(updates@.len() as int) =~= updates@);
    let joined = join_with_newlines(&out);
    let ghost fin = apply_all(ls, updates@);
    assert(Seq::new(out@.len(), |k: int| out@[k]@) =~= fin);
    proof {
        lemma_join_split(raw@);
        lemma_split_nonempty(raw@, '\n');
        lemma_apply_len(ls, updates@);
        lemma_apply_no_newline(ls, updates@);
        lemma_split_join(fin);
        if updates@.len() == 0 {
            assert(fin == ls);
        }
    }
    chars_to_string(joined.as_slice())
}

/// The `(line, flag)` pairs that a save applies, or `NO_LEVEL_CHANGES` when
/// there is nothing to save.
pub fn update_pairs(updates: &[LevelUpdate]) -> (r: Result<Vec<(usize, bool)>, String>)
    ensures
        updates@.len() == 0 <==> r is Err,
        r matches Err(e) ==> e@ == "NO_LEVEL_CHANGES"@,
        r matches Ok(v) ==> v@.len() == updates@.len() && forall|k: int|
            0 <= k < v@.len() ==> #[trigger] v@[k] == (updates@[k].line_index, updates@[k].completed),
{
    if updates.len() == 0 {
        return Err(chars_to_string(str_chars("NO_LEVEL_CHANGES").as_slice()));
    }
    let mut v: Vec<(usize, bool)> = Vec::new();
    let mut i: usize = 0;
    while i < updates.len()
        invariant
            i <= updates@.len(),
            v@.len() == i,
            forall|k: int| 0 <= k < i ==> #[trigger] v@[k] == (updates@[k].line_index, updates@[k].completed),
        decreases updates@.len() - i,
    {
        v.push((updates[i].line_index, updates[i].completed));
        i = i + 1;
    }
    Ok(v)
}


// ───────────────────────── laws ─────────────────────────

proof fn lemma_first_index(s: Seq<char>, c: char)
    ensures
        match first_index(s, c) {
            Some(k) => k < s.len() && s[k as int] == c && forall|i: int| 0 <= i < k ==> s[i] != c,
            None => forall|i: int| 0 <= i < s.len() ==> s[i] != c,
        },
    decreases s.len(),
{
    if s.len() > 0 && s[0] != c {
        lemma_first_index(s.drop_first(), c);
        assert forall|i: int| 0 <= i < s.len() && (first_index(s.drop_first(), c) is None || i < first_index(s, c)->0) implies s[i] != c by {
            if i > 0 {
                assert(s[i] == s.drop_first()[i - 1]);
            }
        }
    }
}

/// A line with at least three columns has its first comma at `f` and its
/// second `g` characters later; its columns are then those of `x0`, `x1`
/// and the rest.
proof fn lemma_two_commas(l: Seq<char>) -> (r: (int, int))
    requires
        split_on(l, ',').len() >= 3,
    ensures
        r.0 >= 0 && r.1 >= 0,
        first_index(l, ',') == Some(r.0 as nat),
        first_index(l.skip(r.0 + 1), ',') == Some(r.1 as nat),
        l == l.take(r.0) + seq![','] + (l.subrange(r.0 + 1, r.0 + 1 + r.1) + seq![','] + l.skip(r.0 + 2 + r.1)),
        forall|i: int| 0 <= i < r.0 ==> l[i] != ',',
        forall|i: int| r.0 + 1 <= i < r.0 + 1 + r.1 ==> l[i] != ',',
        r.0 + 2 + r.1 <= l.len(),
{
    lemma_first_index(l, ',');
    if first_index(l, ',') is None {
        lemma_split_free(l, ',');
        assert(false);
    }
    let f = first_index(l, ',')->0 as int;
    let x0 = l.take(f);
    let rest = l.skip(f + 1);
    assert(l =~= x0 + seq![','] + rest);
    lemma_split_concat(x0, rest, ',');
    lemma_split_free(x0, ',');
    lemma_first_index(rest, ',');
    if first_index(rest, ',') is None {
        lemma_split_free(rest, ',');
        assert(false);
    }
    let g = first_index(rest, ',')->0 as int;
    assert(l =~= l.take(f) + seq![','] + (l.subrange(f + 1, f + 1 + g) + seq![','] + l.skip(f + 2 + g)));
    assert forall|i: int| f + 1 <= i < f + 1 + g implies l[i] != ',' by {
        assert(l[i] == rest[i - f - 1]);
    }
    (f, g)
}

/// Setting the completion flag of a line with at least three columns changes
/// its second column to `true` / `false` and leaves every other column as it was.
pub proof fn lemma_flag_only_second_column(l: Seq<char>, b: bool)
    requires
        split_on(l, ',').len() >= 3,
    ensures
        split_on(with_flag(l, b), ',') == split_on(l, ',').update(1, flag_word(b)),
{
    let (f, g) = lemma_two_commas(l);
    let x0 = l.take(f);
    let x1 = l.subrange(f + 1, f + 1 + g);
    let x2 = l.skip(f + 2 + g);
    let w = flag_word(b);
    assert(with_flag(l, b) == l.take(f + 1) + w + l.skip(f + 1 + g));
    assert(l.take(f + 1) =~= x0 + seq![',']);
    assert(l.skip(f + 1 + g) =~= seq![','] + x2);
    assert(with_flag(l, b) =~= x0 + seq![','] + (w + seq![','] + x2));
    lemma_split_concat(x0, x1 + seq![','] + x2, ',');
    lemma_split_concat(x1, x2, ',');
    lemma_split_concat(x0, w + seq![','] + x2, ',');
    lemma_split_concat(w, x2, ',');
    lemma_split_free(x0, ',');
    assert forall|i: int| 0 <= i < x1.len() implies x1[i] != ',' by {
        assert(x1[i] == l[f + 1 + i]);
    }
    lemma_split_free(x1, ',');
    assert forall|i: int| 0 <= i < w.len() implies w[i] != ',' by {}
    lemma_split_free(w, ',');
    assert(split_on(with_flag(l, b), ',') =~= split_on(l, ',').update(1, w));
}

proof fn lemma_word_reads(b: bool)
    ensures
        bool_of(flag_word(b)) == Some(b),
{
    let w = flag_word(b);
    assert(w[0] != ' ' && !is_space(w[0]));
    assert(!is_space(w.last()));
    assert(trim_start(w) == w);
    assert(trim_end(w) == w);
    assert(trim(w) == w);
    if b {
        assert(eq_ignore_case(w, true_word()));
    } else {
        assert(!eq_ignore_case(w, true_word()));
        assert(eq_ignore_case(w, false_word()));
    }
}

/// Writing back a flag then reading the line gives the row as it was, with
/// the new flag: an update changes nothing else of a row.
pub proof fn lemma_update_reads_back(l: Seq<char>, i: nat, b: bool)
    requires
        row_of(l, i) matches Some(Ok(_)),
    ensures
        row_of(with_flag(l, b), i) == Some(
            Ok::<LevelRowV, Seq<char>>(
                LevelRowV { completed: b, ..row_of(l, i)->Some_0->Ok_0 },
            ),
        ),
{
    let parts = split_on(l, ',');
    lemma_flag_only_second_column(l, b);
    let (f, g) = lemma_two_commas(l);
    let l2 = with_flag(l, b);
    assert(l2 == l.take(f + 1) + flag_word(b) + l.skip(f + 1 + g));
    assert(l2[f as int] == ',');
    lemma_trim_nonblank(l2, f as int);
    lemma_word_reads(b);
}

} // verus!
