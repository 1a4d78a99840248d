//! Level titles: the English title from a level's `meta.txt`, the Chinese
//! one from the game's translation table, and the Steam library list.
use vstd::prelude::*;
use crate::levels::first_index;
use crate::text::{
    chars_to_string, find_chars, find_from, is_space, is_space_char, lines, prefix_at, replace_all, replace_chars, slice_to_vec, split_lines, str_chars, trim,
    trim_bounds, trim_start, trimmed,
};

verus! {

/// The title of a level in each language the game ships.
#[derive(Debug, Clone)]
pub struct LevelName {
    pub en: String,
    pub zh_cn: String,
}

// ───────────────────────── Steam library folders ─────────────────────────

pub open spec fn path_key() -> Seq<char> {
    seq!['"', 'p', 'a', 't', 'h', '"']
}

/// `s` without leading `"` characters.
pub open spec fn strip_leading_quotes(s: Seq<char>) -> Seq<char>
    decreases s.len(),
{
    if s.len() > 0 && s[0] == '"' {
        strip_leading_quotes(s.drop_first())
    } else {
        s
    }
}

/// `s` without trailing `"` characters.
pub open spec fn strip_trailing_quotes(s: Seq<char>) -> Seq<char>
    decreases s.len(),
{
    if s.len() > 0 && s.last() == '"' {
        strip_trailing_quotes(s.drop_last())
    } else {
        s
    }
}

/// The library path a line of `libraryfolders.vdf` gives, if it is a `"path"`
/// line with a non-empty value; doubled backslashes are undone.
pub open spec fn library_path_of(line: Seq<char>) -> Option<Seq<char>> {
    let t = trim(line);
    if !prefix_at(t, 0, path_key()) {
        None
    } else {
        let value = strip_trailing_quotes(strip_leading_quotes(trim(t.skip(6))));
        if value.len() == 0 {
            None
        } else {
            Some(replace_all(value, seq!['\\', '\\'], seq!['\\']))
        }
    }
}

/// The library paths listed in `libraryfolders.vdf`, in order.
pub open spec fn library_paths_from(ls: Seq<Seq<char>>) -> Seq<Seq<char>>
    decreases ls.len(),
{
    if ls.len() == 0 {
        Seq::empty()
    } else {
        let r = library_paths_from(ls.drop_last());
        match library_path_of(ls.last()) {
            Some(p) => r.push(p),
            None => r,
        }
    }
}

fn unquoted_bounds(s: &[char]) -> (r: (usize, usize))
    ensures
        r.0 <= r.1 <= s@.len(),
        s@.subrange(r.0 as int, r.1 as int) == strip_trailing_quotes(strip_leading_quotes(s@)),
{
    let mut a: usize = 0;
    assert(s@.skip(0) =~= s@);
    while a < s.len() && s[a] == '"'
        invariant
            a <= s@.len(),
            strip_leading_quotes(s@) == strip_leading_quotes(s@.skip(a as int)),
        decreases s@.len() - a,
    {
        assert(s@.skip(a as int).drop_first() =~= s@.skip(a + 1));
        a = a + 1;
    }
    let ghost u = s@.skip(a as int);
    assert(strip_leading_quotes(u) == u);
    let mut b: usize = s.len();
    assert(u.take(u.len() as int) =~= u);
    while b > a && s[b - 1] == '"'
        invariant
            a <= b <= s@.len(),
            u == s@.skip(a as int),
            strip_trailing_quotes(u) == strip_trailing_quotes(u.take(b - a)),
        decreases b,
    {
        assert(u.take(b - a).drop_last() =~= u.take(b - a - 1));
        assert(u.take(b - a).last() == s@[b - 1]);
        b = b - 1;
    }
    assert(u.take(b - a) =~= s@.subrange(a as int, b as int));
    proof {
        let v = u.take(b - a);
        if v.len() > 0 {
            assert(v.last() == s@[b - 1]);
        }
    }
    (a, b)
}

fn library_path(line: &Vec<char>) -> (r: Option<Vec<char>>)
    ensures
        match library_path_of(line@) {
            Some(p) => r matches Some(v) && v@ == p,
            None => r is None,
        },
{
    let t = trimmed(line.as_slice());
    let key = ['"', 'p', 'a', 't', 'h', '"'];
    assert(key@ =~= path_key());
    if !crate::text::occurs_at(t.as_slice(), 0, &key) {
        return None;
    }
    let rest = slice_to_vec(t.as_slice(), 6, t.len());
    assert(rest@ =~= t@.skip(6));
    let rt = trimmed(rest.as_slice());
    let (a, b) = unquoted_bounds(rt.as_slice());
    let value = slice_to_vec(rt.as_slice(), a, b);
    if value.len() == 0 {
        return None;
    }
    let one = ['\\'];
    assert(one@ =~= seq!['\\']);
    proof {
        reveal_strlit("\\\\");
    }
    let out = replace_chars(value.as_slice(), "\\\\", &one);
    assert("\\\\"@ =~= seq!['\\', '\\']);
    Some(out)
}

/// The library paths that the text of Steam's `libraryfolders.vdf` lists:
/// the value of each `"path"` line, quotes removed and `\\` read as `\`.
pub fn library_paths(text: &str) -> (r: Vec<String>)
    ensures
        r@.len() == library_paths_from(lines(text@)).len(),
        forall|k: int| 0 <= k < r@.len() ==> #[trigger] r@[k]@ == library_paths_from(lines(text@))[k],
{
    let chars = str_chars(text);
    let ls = split_lines(chars.as_slice());
    let ghost lv = lines(text@);
    let mut out: Vec<String> = Vec::new();
    let mut i: usize = 0;
    assert(lv.take(0) =~= Seq::<Seq<char>>::empty());
    while i < ls.len()
        invariant
            i <= ls@.len(),
            lv == lines(text@),
            ls@.len() == lv.len(),
            forall|k: int| 0 <= k < ls@.len() ==> #[trigger] ls@[k]@ == lv[k],
            out@.len() == library_paths_from(lv.take(i as int)).len(),
            forall|k: int| 0 <= k < out@.len() ==> #[trigger] out@[k]@ == library_paths_from(lv.take(i as int))[k],
        decreases ls@.len() - i,
    {
        assert(lv.take(i + 1).drop_last() =~= lv.take(i as int));
        assert(lv.take(i + 1).last() == ls@[i as int]@);
        match library_path(&ls[i]) {
            Some(p) => out.push(chars_to_string(p.as_slice())),
            None => {},
        }
        i = i + 1;
    }
    assert(lv.take(ls@.len() as int) =~= lv);
    out
}

// ───────────────────────── level titles ─────────────────────────

pub open spec fn title_key() -> Seq<char> {
    "title = "@
}

pub open spec fn hash_tag() -> Seq<char> {
    seq!['3', '1', '3', '3', '7', '_']
}

/// `(hash, English title)` from the value of a `title = ` line:
/// `(31337_<hash>, `<title>`)`.
pub open spec fn title_value(rest: Seq<char>) -> Option<(Seq<char>, Seq<char>)> {
    let r = trim(rest);
    if !(r.len() > 0 && r[0] == '(') {
        None
    } else {
        let r1 = r.skip(1);
        match first_index(r1, ',') {
            None => None,
            Some(c) => {
                let hp = trim(r1.take(c as int));
                let after = trim(r1.skip(c + 1 as int));
                if !prefix_at(hp, 0, hash_tag()) {
                    None
                } else if !(after.len() > 0 && after[0] == '`') {
                    None
                } else {
                    let a1 = after.skip(1);
                    if !(a1.len() > 0 && a1.last() == ')') {
                        None
                    } else {
                        let a2 = a1.drop_last();
                        if !(a2.len() > 0 && a2.last() == '`') {
                            None
                        } else {
                            Some((trim(hp.skip(6)), a2.drop_last()))
                        }
                    }
                }
            },
        }
    }
}

/// The title that the first `title = ` line of `ls` gives.
pub open spec fn title_from(ls: Seq<Seq<char>>) -> Option<(Seq<char>, Seq<char>)>
    decreases ls.len(),
{
    if ls.len() == 0 {
        None
    } else if prefix_at(trim_start(ls[0]), 0, title_key()) {
        title_value(trim_start(ls[0]).skip(8))
    } else {
        title_from(ls.drop_first())
    }
}

fn find_comma(s: &[char]) -> (r: Option<usize>)
    ensures
        match first_index(s@, ',') {
            None => r is None,
            Some(k) => r matches Some(x) && x == k && x < s@.len(),
        },
{
    let mut i: usize = 0;
    assert(s@.skip(0) =~= s@);
    while i < s.len()
        invariant
            i <= s@.len(),
            first_index(s@, ',') == match first_index(s@.skip(i as int), ',') {
                None => None,
                Some(k) => Some((k + i) as nat),
            },
        decreases s@.len() - i,
    {
        assert(s@.skip(i as int)[0] == s@[i as int]);
        if s[i] == ',' {
            return Some(i);
        }
        assert(s@.skip(i as int).drop_first() =~= s@.skip(i + 1));
        i = i + 1;
    }
    None
}

fn parse_title_value(rest: &Vec<char>) -> (r: Option<(Vec<char>, Vec<char>)>)
    ensures
        match title_value(rest@) {
            Some(x) => r matches Some(y) && y.0@ == x.0 && y.1@ == x.1,
            None => r is None,
        },
{
    let r = trimmed(rest.as_slice());
    if !(r.len() > 0 && r[0] == '(') {
        return None;
    }
    let r1 = slice_to_vec(r.as_slice(), 1, r.len());
    assert(r1@ =~= r@.skip(1));
    let c = match find_comma(r1.as_slice()) {
        Some(c) => c,
        None => {
            return None;
        },
    };
    let hv = slice_to_vec(r1.as_slice(), 0, c);
    assert(hv@ =~= r1@.take(c as int));
    let hp = trimmed(hv.as_slice());
    let av = slice_to_vec(r1.as_slice(), c + 1, r1.len());
    assert(av@ =~= r1@.skip(c + 1 as int));
    let after = trimmed(av.as_slice());
    let tag = ['3', '1', '3', '3', '7', '_'];
    assert(tag@ =~= hash_tag());
    if !crate::text::occurs_at(hp.as_slice(), 0, &tag) {
        return None;
    }
    if !(after.len() > 0 && after[0] == '`') {
        return None;
    }
    let a1 = slice_to_vec(after.as_slice(), 1, after.len());
    assert(a1@ =~= after@.skip(1));
    if !(a1.len() > 0 && a1[a1.len() - 1] == ')') {
        return None;
    }
    let a2 = slice_to_vec(a1.as_slice(), 0, a1.len() - 1);
    assert(a2@ =~= a1@.drop_last());
    if !(a2.len() > 0 && a2[a2.len() - 1] == '`') {
        return None;
    }
    let en = slice_to_vec(a2.as_slice(), 0, a2.len() - 1);
    assert(en@ =~= a2@.drop_last());
    let hs = slice_to_vec(hp.as_slice(), 6, hp.len());
    assert(hs@ =~= hp@.skip(6));
    let hash = trimmed(hs.as_slice());
    Some((hash, en))
}

fn trim_start_chars(s: &Vec<char>) -> (r: Vec<char>)
    ensures
        r@ == trim_start(s@),
{
    let mut i: usize = 0;
    assert(s@.skip(0) =~= s@);
    while i < s.len() && crate::text::is_space_char(s[i])
        invariant
            i <= s@.len(),
            trim_start(s@) == trim_start(s@.skip(i as int)),
        decreases s@.len() - i,
    {
        assert(s@.skip(i as int).drop_first() =~= s@.skip(i + 1));
        i = i + 1;
    }
    let r = slice_to_vec(s.as_slice(), i, s.len());
    assert(r@ =~= s@.skip(i as int));
    r
}

/// `(hash, English title)` from the text of a level's `meta.txt`: the first
/// `title = (31337_<hash>, `<title>`)` line decides; `None` when there is no
/// such line or it is malformed.
pub fn parse_title(text: &str) -> (r: Option<(String, String)>)
    ensures
        match title_from(lines(text@)) {
            Some(x) => r matches Some(y) && y.0@ == x.0 && y.1@ == x.1,
            None => r is None,
        },
{
    let chars = str_chars(text);
    let ls = split_lines(chars.as_slice());
    let ghost lv = lines(text@);
    let key = str_chars("title = ");
    let mut i: usize = 0;
    assert(lv.skip(0) =~= lv);
    while i < ls.len()
        invariant
            i <= ls@.len(),
            lv == lines(text@),
            key@ == title_key(),
            ls@.len() == lv.len(),
            forall|k: int| 0 <= k < ls@.len() ==> #[trigger] ls@[k]@ == lv[k],
            title_from(lv) == title_from(lv.skip(i as int)),
        decreases ls@.len() - i,
    {
        assert(lv.skip(i as int)[0] == lv[i as int]);
        let t = trim_start_chars(&ls[i]);
        if crate::text::occurs_at(t.as_slice(), 0, key.as_slice()) {
            proof {
                reveal_strlit("title = ");
            }
            let rest = slice_to_vec(t.as_slice(), 8, t.len());
            assert(rest@ =~= t@.skip(8));
            return match parse_title_value(&rest) {
                Some((h, e)) => Some((chars_to_string(h.as_slice()), chars_to_string(e.as_slice()))),
                None => None,
            };
        }
        assert(lv.skip(i as int).drop_first() =~= lv.skip(i + 1));
        i = i + 1;
    }
    None
}

// ───────────────────────── the Chinese table ─────────────────────────

pub open spec fn is_digit(c: char) -> bool {
    '0' <= c && c <= '9'
}

/// `(hash, text)` from a `$<hash>* <text>` line of the translation table,
/// if the hash is all digits and the text is not blank.
pub open spec fn zh_entry(line: Seq<char>) -> Option<(Seq<char>, Seq<char>)> {
    let t = trim(line);
    if !(t.len() > 0 && t[0] == '$') {
        None
    } else {
        let a = t.skip(1);
        match first_index(a, '*') {
            None => None,
            Some(k) => {
                let hash = trim(a.take(k as int));
                let text = trim(a.skip(k + 1 as int));
                if hash.len() == 0 || !(forall|i: int| 0 <= i < hash.len() ==> is_digit(#[trigger] hash[i])) {
                    None
                } else if text.len() == 0 {
                    None
                } else {
                    Some((hash, text))
                }
            },
        }
    }
}

pub open spec fn has_key(m: Seq<(Seq<char>, Seq<char>)>, k: Seq<char>) -> bool {
    exists|i: int| 0 <= i < m.len() && (#[trigger] m[i]).0 == k
}

/// The table of the lines `ls`: each hash with the text of its first entry,
/// in order of first appearance.
pub open spec fn zh_table(ls: Seq<Seq<char>>) -> Seq<(Seq<char>, Seq<char>)>
    decreases ls.len(),
{
    if ls.len() == 0 {
        Seq::empty()
    } else {
        let r = zh_table(ls.drop_last());
        match zh_entry(ls.last()) {
            Some(e) => if has_key(r, e.0) {
                r
            } else {
                r.push(e)
            },
            None => r,
        }
    }
}

fn find_star(s: &[char]) -> (r: Option<usize>)
    ensures
        match first_index(s@, '*') {
            None => r is None,
            Some(k) => r matches Some(x) && x == k && x < s@.len(),
        },
{
    let mut i: usize = 0;
    assert(s@.skip(0) =~= s@);
    while i < s.len()
        invariant
            i <= s@.len(),
            first_index(s@, '*') == match first_index(s@.skip(i as int), '*') {
                None => None,
                Some(k) => Some((k + i) as nat),
            },
        decreases s@.len() - i,
    {
        assert(s@.skip(i as int)[0] == s@[i as int]);
        if s[i] == '*' {
            return Some(i);
        }
        assert(s@.skip(i as int).drop_first() =~= s@.skip(i + 1));
        i = i + 1;
    }
    None
}

fn all_digits(s: &[char]) -> (r: bool)
    ensures
        r == (forall|i: int| 0 <= i < s@.len() ==> is_digit(#[trigger] s@[i])),
{
    let mut i: usize = 0;
    while i < s.len()
        invariant
            i <= s@.len(),
            forall|k: int| 0 <= k < i ==> is_digit(#[trigger] s@[k]),
        decreases s@.len() - i,
    {
        if !('0' <= s[i] && s[i] <= '9') {
            return false;
        }
        i = i + 1;
    }
    true
}

fn parse_zh_entry(line: &Vec<char>) -> (r: Option<(Vec<char>, Vec<char>)>)
    ensures
        match zh_entry(line@) {
            Some(x) => r matches Some(y) && y.0@ == x.0 && y.1@ == x.1,
            None => r is None,
        },
{
    let t = trimmed(line.as_slice());
    if !(t.len() > 0 && t[0] == '$') {
        return None;
    }
    let a = slice_to_vec(t.as_slice(), 1, t.len());
    assert(a@ =~= t@.skip(1));
    let k = match find_star(a.as_slice()) {
        Some(k) => k,
        None => {
            return None;
        },
    };
    let hv = slice_to_vec(a.as_slice(), 0, k);
    assert(hv@ =~= a@.take(k as int));
    let hash = trimmed(hv.as_slice());
    let tv = slice_to_vec(a.as_slice(), k + 1, a.len());
    assert(tv@ =~= a@.skip(k + 1 as int));
    let text = trimmed(tv.as_slice());
    if hash.len() == 0 || !all_digits(hash.as_slice()) {
        return None;
    }
    if text.len() == 0 {
        return None;
    }
    Some((hash, text))
}

fn same_chars(a: &[char], b: &[char]) -> (r: bool)
    ensures
        r == (a@ == b@),
{
    if a.len() != b.len() {
        return false;
    }
    let mut i: usize = 0;
    while i < a.len()
        invariant
            a@.len() == b@.len(),
            i <= a@.len(),
            forall|k: int| 0 <= k < i ==> a@[k] == b@[k],
        decreases a@.len() - i,
    {
        if a[i] != b[i] {
            return false;
        }
        i = i + 1;
    }
    assert(a@ =~= b@);
    true
}

pub open spec fn table_views(v: Seq<(Vec<char>, Vec<char>)>) -> Seq<(Seq<char>, Seq<char>)> {
    Seq::new(v.len(), |k: int| (v[k].0@, v[k].1@))
}

fn table_has(v: &Vec<(Vec<char>, Vec<char>)>, key: &Vec<char>) -> (r: bool)
    ensures
        r == has_key(table_views(v@), key@),
{
    let ghost tv = table_views(v@);
    let mut i: usize = 0;
    while i < v.len()
        invariant
            i <= v@.len(),
            tv == table_views(v@),
            forall|k: int| 0 <= k < i ==> (#[trigger] tv[k]).0 != key@,
        decreases v@.len() - i,
    {
        if same_chars(v[i].0.as_slice(), key.as_slice()) {
            assert(tv[i as int].0 == key@);
            return true;
        }
        i = i + 1;
    }
    false
}

/// The hash → text table of the game's `Chinese (Simplified).txt`: each
/// `$<hash>* <text>` line with a digit hash and a non-blank text, the first
/// entry of a hash winning; in order of first appearance.
pub fn parse_zh_translations(text: &str) -> (r: Vec<(String, String)>)
    ensures
        r@.len() == zh_table(lines(text@)).len(),
        forall|k: int| 0 <= k < r@.len() ==> (#[trigger] r@[k].0@, r@[k].1@) == zh_table(lines(text@))[k],
{
    let chars = str_chars(text);
    let ls = split_lines(chars.as_slice());
    let ghost lv = lines(text@);
    let mut table: Vec<(Vec<char>, Vec<char>)> = Vec::new();
    let mut i: usize = 0;
    assert(lv.take(0) =~= Seq::<Seq<char>>::empty());
    assert(table_views(table@) =~= Seq::<(Seq<char>, Seq<char>)>::empty());
    while i < ls.len()
        invariant
            i <= ls@.len(),
            lv == lines(text@),
            ls@.len() == lv.len(),
            forall|k: int| 0 <= k < ls@.len() ==> #[trigger] ls@[k]@ == lv[k],
            table_views(table@) == zh_table(lv.take(i as int)),
        decreases ls@.len() - i,
    {
        assert(lv.take(i + 1).drop_last() =~= lv.take(i as int));
        assert(lv.take(i + 1).last() == ls@[i as int]@);
        let ghost before = table_views(table@);
        match parse_zh_entry(&ls[i]) {
            Some((h, t)) => {
                if !table_has(&table, &h) {
                    table.push((h, t));
                    assert(table_views(table@) =~= before.push(zh_entry(lv[i as int])->0));
                }
            },
            None => {},
        }
        i = i + 1;
    }
    assert(lv.take(ls@.len() as int) =~= lv);
    let mut out: Vec<(String, String)> = Vec::new();
    let mut j: usize = 0;
    while j < table.len()
        invariant
            j <= table@.len(),
            out@.len() == j,
            forall|k: int| 0 <= k < j ==> (#[trigger] out@[k].0@, out@[k].1@) == (table@[k].0@, table@[k].1@),
        decreases table@.len() - j,
    {
        out.push((chars_to_string(table[j].0.as_slice()), chars_to_string(table[j].1.as_slice())));
        j = j + 1;
    }
    out
}

/// The text of `hash` in `table`, if it has one.
pub open spec fn lookup(table: Seq<(Seq<char>, Seq<char>)>, hash: Seq<char>) -> Option<Seq<char>>
    decreases table.len(),
{
    if table.len() == 0 {
        None
    } else if table[0].0 == hash {
        Some(table[0].1)
    } else {
        lookup(table.drop_first(), hash)
    }
}

/// A level's names: its English title and the Chinese text of its title
/// hash (empty when the table has none).
pub fn level_name(hash: &str, en: &str, table: &Vec<(String, String)>) -> (r: LevelName)
    ensures
        r.en@ == en@,
        r.zh_cn@ == match lookup(Seq::new(table@.len(), |k: int| (table@[k].0@, table@[k].1@)), hash@) {
            Some(t) => t,
            None => Seq::empty(),
        },
{
    let ghost tv = Seq::new(table@.len(), |k: int| (table@[k].0@, table@[k].1@));
    let h = str_chars(hash);
    let mut i: usize = 0;
    assert(tv.skip(0) =~= tv);
    while i < table.len()
        invariant
            i <= table@.len(),
            tv == Seq::new(table@.len(), |k: int| (table@[k].0@, table@[k].1@)),
            h@ == hash@,
            lookup(tv, hash@) == lookup(tv.skip(i as int), hash@),
        decreases table@.len() - i,
    {
        assert(tv.skip(i as int)[0] == tv[i as int]);
        let key = str_chars(table[i].0.as_str());
        if same_chars(key.as_slice(), h.as_slice()) {
            let zh = str_chars(table[i].1.as_str());
            return LevelName { en: chars_to_string(str_chars(en).as_slice()), zh_cn: chars_to_string(zh.as_slice()) };
        }
        assert(tv.skip(i as int).drop_first() =~= tv.skip(i + 1));
        i = i + 1;
    }
    let empty: Vec<char> = Vec::new();
    assert(empty@ =~= Seq::<char>::empty());
    LevelName { en: chars_to_string(str_chars(en).as_slice()), zh_cn: chars_to_string(empty.as_slice()) }
}


// ───────────────────────── the Steam path in the registry ─────────────────────────

/// The words of `s` (its maximal runs of non-whitespace) after those in
/// `acc`, with `cur` the part of a word already read.
pub open spec fn words_from(s: Seq<char>, cur: Seq<char>, acc: Seq<Seq<char>>) -> Seq<Seq<char>>
    decreases s.len(),
{
    let flushed = if cur.len() > 0 { acc.push(cur) } else { acc };
    if s.len() == 0 {
        flushed
    } else if is_space(s[0]) {
        words_from(s.drop_first(), Seq::empty(), flushed)
    } else {
        words_from(s.drop_first(), cur.push(s[0]), acc)
    }
}

/// The words of `s`, as `str::split_whitespace` gives them.
pub open spec fn words(s: Seq<char>) -> Seq<Seq<char>> {
    words_from(s, Seq::empty(), Seq::empty())
}

/// The last of `ls` that contains `pat`.
pub open spec fn last_containing(ls: Seq<Seq<char>>, pat: Seq<char>) -> Option<Seq<char>>
    decreases ls.len(),
{
    if ls.len() == 0 {
        None
    } else if find_from(ls.last(), pat, 0) is Some {
        Some(ls.last())
    } else {
        last_containing(ls.drop_last(), pat)
    }
}

/// The Steam directory in what `reg query HKCU\Software\Valve\Steam /v
/// SteamPath` prints: the third word of the last line naming `SteamPath`.
pub open spec fn steam_path_in(text: Seq<char>) -> Option<Seq<char>> {
    match last_containing(lines(text), "SteamPath"@) {
        None => None,
        Some(l) => if words(l).len() > 2 { Some(words(l)[2]) } else { None },
    }
}

fn words_of(s: &[char]) -> (r: Vec<Vec<char>>)
    ensures
        r@.len() == words(s@).len(),
        forall|k: int| 0 <= k < r@.len() ==> #[trigger] r@[k]@ == words(s@)[k],
{
    let mut acc: Vec<Vec<char>> = Vec::new();
    let mut cur: Vec<char> = Vec::new();
    let mut i: usize = 0;
    assert(s@.skip(0) =~= s@);
    assert(Seq::new(acc@.len(), |k: int| acc@[k]@) =~= Seq::<Seq<char>>::empty());
    while i < s.len()
        invariant
            i <= s@.len(),
            words(s@) == words_from(s@.skip(i as int), cur@, Seq::new(acc@.len(), |k: int| acc@[k]@)),
        decreases s@.len() - i,
    {
        let ghost av = Seq::new(acc@.len(), |k: int| acc@[k]@);
        assert(s@.skip(i as int)[0] == s@[i as int]);
        assert(s@.skip(i as int).drop_first() =~= s@.skip(i + 1));
        let c = s[i];
        if is_space_char(c) {
            if cur.len() > 0 {
                let w = cur;
                acc.push(w);
                assert(Seq::new(acc@.len(), |k: int| acc@[k]@) =~= av.push(w@));
            }
            cur = Vec::new();
            assert(cur@ =~= Seq::<char>::empty());
        } else {
            cur.push(c);
        }
        i = i + 1;
    }
    assert(s@.skip(i as int) =~= Seq::<char>::empty());
    let ghost av = Seq::new(acc@.len(), |k: int| acc@[k]@);
    if cur.len() > 0 {
        let w = cur;
        acc.push(w);
        assert(Seq::new(acc@.len(), |k: int| acc@[k]@) =~= av.push(w@));
    }
    acc
}

/// The Steam directory that the registry query printed, if a line names it.
pub fn steam_path_from_query(text: &str) -> (r: Option<String>)
    ensures
        match steam_path_in(text@) {
            Some(p) => r matches Some(x) && x@ == p,
            None => r is None,
        },
{
    let v = str_chars(text);
    let ls = split_lines(v.as_slice());
    let key = str_chars("SteamPath");
    let ghost all = lines(text@);
    let mut n: usize = ls.len();
    assert(all.take(n as int) =~= all);
    while n > 0
        invariant
            n <= ls@.len() == all.len(),
            all == lines(text@),
            key@ == "SteamPath"@,
            forall|k: int| 0 <= k < ls@.len() ==> #[trigger] ls@[k]@ == all[k],
            last_containing(all, "SteamPath"@) == last_containing(all.take(n as int), "SteamPath"@),
        decreases n,
    {
        let l = &ls[n - 1];
        assert(all.take(n as int).last() == all[n - 1]);
        if find_chars(l.as_slice(), key.as_slice(), 0).is_some() {
            let w = words_of(l.as_slice());
            if w.len() > 2 {
                return Some(chars_to_string(w[2].as_slice()));
            }
            return None;
        }
        assert(all.take(n as int).drop_last() =~= all.take(n - 1));
        n = n - 1;
    }
    None
}

} // verus!
