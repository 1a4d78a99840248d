//! The mentor character library: preinstalled (read-only) characters and the
//! user's own, the custom index, and the rules for names, ids and slots.
//!
//! A character id is `default:<dir>` for a preinstalled character and
//! `custom:<uuid>` for a user one.
use vstd::prelude::*;
use crate::pins::{chars_le, lemma_chars_le_total, lemma_chars_le_trans, name_le};
use crate::text::{chars_to_string, prefix_at, push_str, slice_to_vec, str_chars, trim, trimmed};

verus! {

#[derive(Debug, Clone, Copy, PartialEq, Eq, Structural)]
pub enum CharacterKind {
    Default,
    Custom,
}

/// A character as the library lists it.
#[derive(Debug, Clone)]
pub struct Character {
    pub id: String,
    pub name: String,
    pub kind: CharacterKind,
    pub has_neutral: bool,
    pub has_smile: bool,
    pub created_at: Option<String>,
}

/// What the character page shows about the installation.
#[derive(Debug, Clone)]
pub struct CharacterStatus {
    pub install_dir: String,
    pub install_dir_writable: bool,
    pub game_available: bool,
    pub game_dialogue_dir: Option<String>,
    pub snapshot_taken: bool,
    pub active_id: Option<String>,
}

/// A user character in the custom index.
#[derive(Debug, Clone)]
pub struct CustomEntry {
    pub id: String,
    pub name: String,
    pub has_neutral: bool,
    pub has_smile: bool,
    pub created_at: String,
}

/// The custom index: the user characters and the applied character's id.
#[derive(Debug, Clone)]
pub struct CustomIndex {
    pub active: Option<String>,
    pub characters: Vec<CustomEntry>,
}

/// A preinstalled character's manifest.
#[derive(Debug, Clone)]
pub struct DefaultManifest {
    pub id: String,
    pub name_zh: String,
    pub name_en: String,
    pub has_neutral: bool,
    pub has_smile: bool,
}

pub struct CharacterV {
    pub id: Seq<char>,
    pub name: Seq<char>,
    pub kind: CharacterKind,
    pub has_neutral: bool,
    pub has_smile: bool,
    pub created_at: Option<Seq<char>>,
}

impl View for Character {
    type V = CharacterV;

    open spec fn view(&self) -> CharacterV {
        CharacterV {
            id: self.id@,
            name: self.name@,
            kind: self.kind,
            has_neutral: self.has_neutral,
            has_smile: self.has_smile,
            created_at: match self.created_at {
                Some(s) => Some(s@),
                None => None,
            },
        }
    }
}

pub struct EntryV {
    pub id: Seq<char>,
    pub name: Seq<char>,
    pub has_neutral: bool,
    pub has_smile: bool,
    pub created_at: Seq<char>,
}

impl View for CustomEntry {
    type V = EntryV;

    open spec fn view(&self) -> EntryV {
        EntryV {
            id: self.id@,
            name: self.name@,
            has_neutral: self.has_neutral,
            has_smile: self.has_smile,
            created_at: self.created_at@,
        }
    }
}

pub open spec fn entry_views(v: Seq<CustomEntry>) -> Seq<EntryV> {
    v.map_values(|e: CustomEntry| e@)
}

pub open spec fn character_views(v: Seq<Character>) -> Seq<CharacterV> {
    v.map_values(|c: Character| c@)
}

pub open spec fn opt_view(o: Option<String>) -> Option<Seq<char>> {
    match o {
        Some(s) => Some(s@),
        None => None,
    }
}

fn copy_str(s: &String) -> (r: String)
    ensures
        r@ == s@,
{
    chars_to_string(str_chars(s.as_str()).as_slice())
}

fn copy_opt(o: &Option<String>) -> (r: Option<String>)
    ensures
        opt_view(r) == opt_view(*o),
{
    match o {
        Some(s) => Some(copy_str(s)),
        None => None,
    }
}

fn joined(prefix: &str, s: &String) -> (r: String)
    ensures
        r@ == prefix@ + s@,
{
    let mut v = str_chars(prefix);
    push_str(&mut v, s.as_str());
    chars_to_string(v.as_slice())
}

fn text(s: &str) -> (r: String)
    ensures
        r@ == s@,
{
    chars_to_string(str_chars(s).as_slice())
}

// ───────────────────────── names ─────────────────────────

pub open spec fn is_ascii_letter(c: char) -> bool {
    ('a' <= c && c <= 'z') || ('A' <= c && c <= 'Z')
}

/// A character that may follow the first of a name.
pub open spec fn name_char(c: char) -> bool {
    is_ascii_letter(c) || ('0' <= c && c <= '9') || c == '_' || c == '-'
}

/// Why `name` is not an acceptable character name, if it is not: it must
/// start with an ASCII letter, followed by letters, digits, `_` or `-`.
pub open spec fn name_fault(name: Seq<char>) -> Option<Seq<char>> {
    if name.len() == 0 {
        Some("CHARACTER_NAME_EMPTY"@)
    } else if !is_ascii_letter(name[0]) || exists|i: int| 1 <= i < name.len() && !name_char(#[trigger] name[i]) {
        Some("CHARACTER_NAME_INVALID"@)
    } else {
        None
    }
}

/// Check a character name: an ASCII letter, then letters, digits, `_`, `-`.
pub fn validate_character_name(name: &str) -> (r: Result<(), String>)
    ensures
        match name_fault(name@) {
            Some(e) => r matches Err(x) && x@ == e,
            None => r is Ok,
        },
{
    let v = str_chars(name);
    if v.len() == 0 {
        return Err(text("CHARACTER_NAME_EMPTY"));
    }
    let c0 = v[0];
    if !(('a' <= c0 && c0 <= 'z') || ('A' <= c0 && c0 <= 'Z')) {
        return Err(text("CHARACTER_NAME_INVALID"));
    }
    let mut i: usize = 1;
    while i < v.len()
        invariant
            1 <= i <= v@.len(),
            v@ == name@,
            forall|k: int| 1 <= k < i ==> name_char(#[trigger] v@[k]),
        decreases v@.len() - i,
    {
        let c = v[i];
        if !(('a' <= c && c <= 'z') || ('A' <= c && c <= 'Z') || ('0' <= c && c <= '9') || c == '_' || c == '-') {
            assert(!name_char(v@[i as int]));
            return Err(text("CHARACTER_NAME_INVALID"));
        }
        i = i + 1;
    }
    Ok(())
}

/// The name a preinstalled character shows under `locale`: the name in that
/// language (English for `en-US`, Chinese otherwise), else the other one,
/// else its id.
pub open spec fn localized(m_id: Seq<char>, zh: Seq<char>, en: Seq<char>, locale: Seq<char>) -> Seq<char> {
    let (primary, fallback) = if locale == "en-US"@ {
        (en, zh)
    } else {
        (zh, en)
    };
    if primary.len() > 0 {
        primary
    } else if fallback.len() > 0 {
        fallback
    } else {
        m_id
    }
}

fn same_text(a: &str, b: &str) -> (r: bool)
    ensures
        r == (a@ == b@),
{
    let x = str_chars(a);
    let y = str_chars(b);
    if x.len() != y.len() {
        return false;
    }
    let mut i: usize = 0;
    while i < x.len()
        invariant
            x@.len() == y@.len(),
            x@ == a@,
            y@ == b@,
            i <= x@.len(),
            forall|k: int| 0 <= k < i ==> x@[k] == y@[k],
        decreases x@.len() - i,
    {
        if x[i] != y[i] {
            assert(a@[i as int] != b@[i as int]);
            return false;
        }
        i = i + 1;
    }
    assert(x@ =~= y@);
    true
}

/// The display name of a preinstalled character under `locale`.
pub fn localize_name(m: &DefaultManifest, locale: &str) -> (r: String)
    ensures
        r@ == localized(m.id@, m.name_zh@, m.name_en@, locale@),
{
    let en_first = same_text(locale, "en-US");
    let (primary, fallback) = if en_first {
        (&m.name_en, &m.name_zh)
    } else {
        (&m.name_zh, &m.name_en)
    };
    if str_chars(primary.as_str()).len() > 0 {
        copy_str(primary)
    } else if str_chars(fallback.as_str()).len() > 0 {
        copy_str(fallback)
    } else {
        copy_str(&m.id)
    }
}

// ───────────────────────── listing ─────────────────────────

/// The listing of a preinstalled character whose image files exist as told.
pub open spec fn default_view(m_id: Seq<char>, name: Seq<char>, has_neutral: bool, has_smile: bool) -> CharacterV {
    CharacterV {
        id: "default:"@ + m_id,
        name,
        kind: CharacterKind::Default,
        has_neutral,
        has_smile,
        created_at: None,
    }
}

/// A preinstalled character as listed: an image counts only when the
/// manifest lists it and its file exists.
pub fn default_character(m: &DefaultManifest, neutral_file: bool, smile_file: bool, locale: &str) -> (r: Character)
    ensures
        r@ == default_view(
            m.id@,
            localized(m.id@, m.name_zh@, m.name_en@, locale@),
            m.has_neutral && neutral_file,
            m.has_smile && smile_file,
        ),
{
    Character {
        id: joined("default:", &m.id),
        name: localize_name(m, locale),
        kind: CharacterKind::Default,
        has_neutral: m.has_neutral && neutral_file,
        has_smile: m.has_smile && smile_file,
        created_at: None,
    }
}

/// The listing of a user character.
pub open spec fn custom_view(e: EntryV) -> CharacterV {
    CharacterV {
        id: "custom:"@ + e.id,
        name: e.name,
        kind: CharacterKind::Custom,
        has_neutral: e.has_neutral,
        has_smile: e.has_smile,
        created_at: Some(e.created_at),
    }
}

fn custom_character(e: &CustomEntry) -> (r: Character)
    ensures
        r@ == custom_view(e@),
{
    Character {
        id: joined("custom:", &e.id),
        name: copy_str(&e.name),
        kind: CharacterKind::Custom,
        has_neutral: e.has_neutral,
        has_smile: e.has_smile,
        created_at: Some(copy_str(&e.created_at)),
    }
}

fn copy_character(c: &Character) -> (r: Character)
    ensures
        r@ == c@,
{
    Character {
        id: copy_str(&c.id),
        name: copy_str(&c.name),
        kind: c.kind,
        has_neutral: c.has_neutral,
        has_smile: c.has_smile,
        created_at: copy_opt(&c.created_at),
    }
}

pub open spec fn as_ints(v: Seq<usize>) -> Seq<int> {
    v.map_values(|x: usize| x as int)
}

/// Character `a` (at index `i`) before `b` (at `j`): by id, ties by index.
pub open spec fn id_lt(cs: Seq<CharacterV>, i: int, j: int) -> bool {
    (chars_le(cs[i].id, cs[j].id) && cs[i].id != cs[j].id) || (cs[i].id == cs[j].id && i < j)
}

/// `o` lists every index of `cs` once, ordered by id (a stable sort).
pub open spec fn is_id_order(cs: Seq<CharacterV>, o: Seq<int>) -> bool {
    &&& o.len() == cs.len()
    &&& forall|k: int| 0 <= k < o.len() ==> 0 <= #[trigger] o[k] < cs.len()
    &&& forall|i: int| 0 <= i < cs.len() ==> o.contains(i)
    &&& forall|k: int, l: int| 0 <= k < l < o.len() ==> id_lt(cs, #[trigger] o[k], #[trigger] o[l])
}

proof fn lemma_chars_le_antisym(a: Seq<char>, b: Seq<char>)
    requires
        chars_le(a, b),
        chars_le(b, a),
    ensures
        a == b,
    decreases a.len(),
{
    if a.len() > 0 && b.len() > 0 {
        lemma_chars_le_antisym(a.drop_first(), b.drop_first());
        assert(a =~= seq![a[0]] + a.drop_first());
        assert(b =~= seq![b[0]] + b.drop_first());
    }
}

proof fn lemma_id_lt_facts(cs: Seq<CharacterV>, i: int, j: int, k: int)
    requires
        0 <= i < cs.len(),
        0 <= j < cs.len(),
        0 <= k < cs.len(),
    ensures
        i != j ==> id_lt(cs, i, j) || id_lt(cs, j, i),
        !(id_lt(cs, i, j) && id_lt(cs, j, i)),
        !id_lt(cs, i, i),
        id_lt(cs, i, j) && id_lt(cs, j, k) ==> id_lt(cs, i, k),
{
    lemma_chars_le_total(cs[i].id, cs[j].id);
    if chars_le(cs[i].id, cs[j].id) && chars_le(cs[j].id, cs[i].id) {
        lemma_chars_le_antisym(cs[i].id, cs[j].id);
    }
    if id_lt(cs, i, j) && id_lt(cs, j, k) {
        if chars_le(cs[i].id, cs[j].id) && chars_le(cs[j].id, cs[k].id) {
            lemma_chars_le_trans(cs[i].id, cs[j].id, cs[k].id);
            if chars_le(cs[k].id, cs[i].id) {
                lemma_chars_le_trans(cs[j].id, cs[k].id, cs[i].id);
                lemma_chars_le_antisym(cs[i].id, cs[j].id);
                lemma_chars_le_antisym(cs[j].id, cs[k].id);
            }
        }
    }
}

proof fn lemma_id_order_unique(cs: Seq<CharacterV>, o1: Seq<int>, o2: Seq<int>)
    requires
        forall|k: int| 0 <= k < o1.len() ==> 0 <= #[trigger] o1[k] < cs.len(),
        forall|k: int| 0 <= k < o2.len() ==> 0 <= #[trigger] o2[k] < cs.len(),
        forall|x: int| o1.contains(x) <==> o2.contains(x),
        forall|k: int, l: int| 0 <= k < l < o1.len() ==> id_lt(cs, #[trigger] o1[k], #[trigger] o1[l]),
        forall|k: int, l: int| 0 <= k < l < o2.len() ==> id_lt(cs, #[trigger] o2[k], #[trigger] o2[l]),
    ensures
        o1 == o2,
    decreases o1.len(),
{
    if o1.len() == 0 {
        if o2.len() > 0 {
            assert(o2.contains(o2[0]));
        }
        assert(o1 =~= o2);
    } else {
        assert(o1.contains(o1[0]));
        assert(o2.contains(o2[0]));
        let a = o1[0];
        let b = o2[0];
        if a != b {
            let p = choose|p: int| 0 <= p < o2.len() && o2[p] == a;
            let q = choose|q: int| 0 <= q < o1.len() && o1[q] == b;
            assert(id_lt(cs, o2[0], o2[p]));
            assert(id_lt(cs, o1[0], o1[q]));
            lemma_id_lt_facts(cs, a, b, a);
        }
        let t1 = o1.drop_first();
        let t2 = o2.drop_first();
        assert forall|x: int| t1.contains(x) implies t2.contains(x) by {
            let k = choose|k: int| 0 <= k < t1.len() && t1[k] == x;
            assert(o1[k + 1] == x);
            assert(id_lt(cs, o1[0], o1[k + 1]));
            lemma_id_lt_facts(cs, a, x, a);
            assert(o2.contains(x));
            let m = choose|m: int| 0 <= m < o2.len() && o2[m] == x;
            assert(t2[m - 1] == x);
        }
        assert forall|x: int| t2.contains(x) implies t1.contains(x) by {
            let k = choose|k: int| 0 <= k < t2.len() && t2[k] == x;
            assert(o2[k + 1] == x);
            assert(id_lt(cs, o2[0], o2[k + 1]));
            lemma_id_lt_facts(cs, b, x, b);
            assert(o1.contains(x));
            let m = choose|m: int| 0 <= m < o1.len() && o1[m] == x;
            assert(t1[m - 1] == x);
        }
        assert forall|k: int, l: int| 0 <= k < l < t1.len() implies id_lt(cs, #[trigger] t1[k], #[trigger] t1[l]) by {
            assert(t1[k] == o1[k + 1] && t1[l] == o1[l + 1]);
        }
        assert forall|k: int, l: int| 0 <= k < l < t2.len() implies id_lt(cs, #[trigger] t2[k], #[trigger] t2[l]) by {
            assert(t2[k] == o2[k + 1] && t2[l] == o2[l + 1]);
        }
        lemma_id_order_unique(cs, t1, t2);
        assert(o1 =~= seq![a] + t1);
        assert(o2 =~= seq![b] + t2);
    }
}

fn id_less(cs: &Vec<Character>, i: usize, j: usize) -> (r: bool)
    requires
        i < cs@.len(),
        j < cs@.len(),
    ensures
        r == id_lt(character_views(cs@), i as int, j as int),
{
    let le = name_le(&cs[i].id, &cs[j].id);
    let eq = same_text(cs[i].id.as_str(), cs[j].id.as_str());
    (le && !eq) || (eq && i < j)
}

/// The characters: the preinstalled ones sorted by id (equal ids keep their
/// order), then the user ones in index order.
pub fn list_characters_impl(defaults: &Vec<Character>, index: &CustomIndex) -> (r: Vec<Character>)
    ensures
        forall|o: Seq<int>|
            is_id_order(character_views(defaults@), o) ==> character_views(r@) == o.map_values(
                |i: int| character_views(defaults@)[i],
            ) + entry_views(index.characters@).map_values(|e: EntryV| custom_view(e)),
{
    let ghost cv = character_views(defaults@);
    let mut order: Vec<usize> = Vec::new();
    let mut i: usize = 0;
    while i < defaults.len()
        invariant
            i <= defaults@.len(),
            cv == character_views(defaults@),
            order@.len() == i,
            forall|k: int| 0 <= k < order@.len() ==> #[trigger] order@[k] < i,
            forall|j: int| 0 <= j < i ==> #[trigger] as_ints(order@).contains(j),
            forall|k: int, l: int| 0 <= k < l < order@.len() ==> id_lt(cv, #[trigger] order@[k] as int, #[trigger] order@[l] as int),
        decreases defaults@.len() - i,
    {
        let mut p: usize = 0;
        while p < order.len() && !id_less(defaults, i, order[p])
            invariant
                p <= order@.len(),
                i < defaults@.len(),
                cv == character_views(defaults@),
                forall|k: int| 0 <= k < order@.len() ==> #[trigger] order@[k] < i,
                forall|k: int| 0 <= k < p ==> !id_lt(cv, i as int, #[trigger] order@[k] as int),
            decreases order@.len() - p,
        {
            p = p + 1;
        }
        let ghost old_o = order@;
        let ghost om = as_ints(old_o);
        order.insert(p, i);
        assert(order@ == old_o.insert(p as int, i));
        assert forall|k: int, l: int| 0 <= k < l < order@.len() implies id_lt(cv, #[trigger] order@[k] as int, #[trigger] order@[l] as int) by {
            if k < p && l < p {
                assert(order@[k] == old_o[k] && order@[l] == old_o[l]);
            } else if k < p && l == p {
                lemma_id_lt_facts(cv, old_o[k] as int, i as int, i as int);
            } else if k < p {
                assert(order@[l] == old_o[l - 1]);
                lemma_id_lt_facts(cv, old_o[k] as int, i as int, old_o[p as int] as int);
                if l - 1 > p {
                    assert(id_lt(cv, old_o[p as int] as int, old_o[l - 1] as int));
                    lemma_id_lt_facts(cv, old_o[k] as int, old_o[p as int] as int, old_o[l - 1] as int);
                }
            } else if k == p {
                assert(order@[l] == old_o[l - 1]);
                if l - 1 > p {
                    assert(id_lt(cv, old_o[p as int] as int, old_o[l - 1] as int));
                    lemma_id_lt_facts(cv, i as int, old_o[p as int] as int, old_o[l - 1] as int);
                }
            } else {
                assert(order@[k] == old_o[k - 1] && order@[l] == old_o[l - 1]);
            }
        }
        assert forall|j: int| 0 <= j < i + 1 implies #[trigger] as_ints(order@).contains(j) by {
            if j == i {
                assert(as_ints(order@)[p as int] == j);
            } else {
                assert(om.contains(j));
                let m = choose|m: int| 0 <= m < om.len() && #[trigger] om[m] == j;
                if m < p {
                    assert(as_ints(order@)[m] == j);
                } else {
                    assert(as_ints(order@)[m + 1] == j);
                }
            }
        }
        i = i + 1;
    }
    let ghost oi = as_ints(order@);
    assert(is_id_order(cv, oi));
    let mut out: Vec<Character> = Vec::new();
    let mut k: usize = 0;
    while k < order.len()
        invariant
            k <= order@.len(),
            cv == character_views(defaults@),
            forall|m: int| 0 <= m < order@.len() ==> #[trigger] order@[m] < defaults@.len(),
            out@.len() == k,
            forall|m: int| 0 <= m < k ==> #[trigger] out@[m]@ == cv[order@[m] as int],
        decreases order@.len() - k,
    {
        out.push(copy_character(&defaults[order[k]]));
        k = k + 1;
    }
    let ghost n0 = out@.len();
    let mut e: usize = 0;
    while e < index.characters.len()
        invariant
            e <= index.characters@.len(),
            out@.len() == n0 + e,
            forall|m: int| 0 <= m < n0 ==> #[trigger] out@[m]@ == cv[order@[m] as int],
            n0 == order@.len(),
            forall|m: int| 0 <= m < e ==> #[trigger] out@[n0 + m]@ == custom_view(index.characters@[m]@),
        decreases index.characters@.len() - e,
    {
        out.push(custom_character(&index.characters[e]));
        e = e + 1;
    }
    assert forall|o: Seq<int>| is_id_order(cv, o) implies character_views(out@) == o.map_values(|i: int| cv[i])
        + entry_views(index.characters@).map_values(|e: EntryV| custom_view(e)) by {
        assert forall|x: int| o.contains(x) implies oi.contains(x) by {
            let k = choose|k: int| 0 <= k < o.len() && o[k] == x;
            assert(0 <= o[k] < cv.len());
        }
        assert forall|x: int| oi.contains(x) implies o.contains(x) by {
            let k = choose|k: int| 0 <= k < oi.len() && oi[k] == x;
            assert(0 <= oi[k] < cv.len());
        }
        lemma_id_order_unique(cv, o, oi);
        let want = o.map_values(|i: int| cv[i]) + entry_views(index.characters@).map_values(|e: EntryV| custom_view(e));
        assert forall|m: int| 0 <= m < out@.len() implies #[trigger] character_views(out@)[m] == want[m] by {
            if m >= n0 {
                assert(out@[n0 + (m - n0)] == out@[m]);
            }
        }
        assert(character_views(out@) =~= want);
    }
    out
}

// ───────────────────────── ids and slots ─────────────────────────

/// Where a character's images come from.
#[derive(Debug, Clone)]
pub enum CharacterSource {
    /// A preinstalled character, by directory name.
    Default(String),
    /// A user character, by uuid.
    Custom(String),
}

pub open spec fn default_prefix() -> Seq<char> {
    "default:"@
}

pub open spec fn custom_prefix() -> Seq<char> {
    "custom:"@
}

/// `Some(rest)` when `s` starts with `p`.
pub open spec fn strip_prefix(s: Seq<char>, p: Seq<char>) -> Option<Seq<char>> {
    if prefix_at(s, 0, p) {
        Some(s.skip(p.len() as int))
    } else {
        None
    }
}

fn strip_prefix_exec(s: &str, p: &str) -> (r: Option<String>)
    ensures
        match strip_prefix(s@, p@) {
            Some(x) => r matches Some(y) && y@ == x,
            None => r is None,
        },
{
    let v = str_chars(s);
    let q = str_chars(p);
    if crate::text::occurs_at(v.as_slice(), 0, q.as_slice()) {
        let rest = slice_to_vec(v.as_slice(), q.len(), v.len());
        assert(rest@ =~= v@.skip(q@.len() as int));
        Some(chars_to_string(rest.as_slice()))
    } else {
        None
    }
}

/// The source that a character id names, or `CHARACTER_NOT_FOUND` for an id
/// of neither form.
pub fn character_source(id: &str) -> (r: Result<CharacterSource, String>)
    ensures
        match strip_prefix(id@, default_prefix()) {
            Some(name) => r matches Ok(CharacterSource::Default(x)) && x@ == name,
            None => match strip_prefix(id@, custom_prefix()) {
                Some(u) => r matches Ok(CharacterSource::Custom(x)) && x@ == u,
                None => r matches Err(e) && e@ == "CHARACTER_NOT_FOUND"@,
            },
        },
{
    if let Some(name) = strip_prefix_exec(id, "default:") {
        return Ok(CharacterSource::Default(name));
    }
    if let Some(u) = strip_prefix_exec(id, "custom:") {
        return Ok(CharacterSource::Custom(u));
    }
    Err(text("CHARACTER_NOT_FOUND"))
}

/// The image file of a slot.
pub open spec fn slot_file(slot: Seq<char>) -> Option<Seq<char>> {
    if slot == "neutral"@ {
        Some("neutral.png"@)
    } else if slot == "smile"@ {
        Some("smile.png"@)
    } else {
        None
    }
}

/// Where an uploaded image goes: the user character's uuid and the slot's
/// file. Errors, in this order: `CHARACTER_READONLY` for a preinstalled
/// character, `CHARACTER_NOT_FOUND` for an id that is not `custom:`,
/// `CHARACTER_INVALID_SLOT` for a slot other than `neutral` / `smile`.
pub open spec fn upload_target(id: Seq<char>, slot: Seq<char>) -> Result<(Seq<char>, Seq<char>), Seq<char>> {
    if prefix_at(id, 0, default_prefix()) {
        Err("CHARACTER_READONLY"@)
    } else {
        match strip_prefix(id, custom_prefix()) {
            None => Err("CHARACTER_NOT_FOUND"@),
            Some(u) => match slot_file(slot) {
                None => Err("CHARACTER_INVALID_SLOT"@),
                Some(f) => Ok((u, f)),
            },
        }
    }
}

/// Where an uploaded image goes (see `upload_target`).
pub fn image_target(id: &str, slot: &str) -> (r: Result<(String, String), String>)
    ensures
        match upload_target(id@, slot@) {
            Ok((u, f)) => r matches Ok((x, y)) && x@ == u && y@ == f,
            Err(e) => r matches Err(x) && x@ == e,
        },
{
    let v = str_chars(id);
    let d = str_chars("default:");
    if crate::text::occurs_at(v.as_slice(), 0, d.as_slice()) {
        return Err(text("CHARACTER_READONLY"));
    }
    let u = match strip_prefix_exec(id, "custom:") {
        Some(u) => u,
        None => {
            return Err(text("CHARACTER_NOT_FOUND"));
        },
    };
    let file = if same_text(slot, "neutral") {
        "neutral.png"
    } else if same_text(slot, "smile") {
        "smile.png"
    } else {
        return Err(text("CHARACTER_INVALID_SLOT"));
    };
    Ok((u, text(file)))
}

/// What the `base64` crate's standard engine decodes `text` (read as UTF-8)
/// into: the bytes, or the display text of the `DecodeError` it reports.
pub uninterp spec fn base64_standard(text: Seq<char>) -> Result<Seq<u8>, Seq<char>>;

/// Calls `base64::engine::general_purpose::STANDARD.decode`. The contract
/// claims: the result is `base64_standard(text)`, the decoded bytes or the
/// `DecodeError`'s display text.
#[verifier::external_body]
fn base64_decode(text: &str) -> (r: Result<Vec<u8>, String>)
    ensures
        match base64_standard(text@) {
            Ok(b) => r matches Ok(x) && x@ == b,
            Err(e) => r matches Err(x) && x@ == e,
        },
{
    base64::Engine::decode(&base64::engine::general_purpose::STANDARD, text).map_err(|e| e.to_string())
}

/// An uploaded image: where it goes (the user character's uuid and the
/// slot's file) and its bytes, decoded from standard base64. Errors: those of
/// `upload_target`, then `CHARACTER_WRITE_FAILED|` and the decoder's message
/// for text that does not decode.
pub fn image_upload(id: &str, slot: &str, png_base64: &str) -> (r: Result<(String, String, Vec<u8>), String>)
    ensures
        match upload_target(id@, slot@) {
            Err(e) => r matches Err(x) && x@ == e,
            Ok((u, f)) => match base64_standard(png_base64@) {
                Err(d) => r matches Err(x) && x@ == "CHARACTER_WRITE_FAILED|"@ + d,
                Ok(b) => r matches Ok((x, y, z)) && x@ == u && y@ == f && z@ == b,
            },
        },
{
    let (uuid, file) = image_target(id, slot)?;
    match base64_decode(png_base64) {
        Ok(bytes) => Ok((uuid, file, bytes)),
        Err(detail) => Err(crate::snappy::prefixed("CHARACTER_WRITE_FAILED|", detail.as_str())),
    }
}

// ───────────────────────── the custom index ─────────────────────────

/// Whether a user character already has `name`.
pub open spec fn name_taken(entries: Seq<EntryV>, name: Seq<char>) -> bool {
    exists|i: int| 0 <= i < entries.len() && (#[trigger] entries[i]).name == name
}

/// Whether a user character already has `name`.
pub fn is_name_taken(index: &CustomIndex, name: &str) -> (r: bool)
    ensures
        r == name_taken(entry_views(index.characters@), name@),
{
    let ghost ev = entry_views(index.characters@);
    let mut i: usize = 0;
    while i < index.characters.len()
        invariant
            i <= index.characters@.len(),
            ev == entry_views(index.characters@),
            forall|k: int| 0 <= k < i ==> (#[trigger] ev[k]).name != name@,
        decreases index.characters@.len() - i,
    {
        if same_text(index.characters[i].name.as_str(), name) {
            assert(ev[i as int].name == name@);
            return true;
        }
        i = i + 1;
    }
    false
}

/// The position of the user character with uuid `uuid`.
pub open spec fn entry_pos(entries: Seq<EntryV>, uuid: Seq<char>) -> Option<nat>
    decreases entries.len(),
{
    if entries.len() == 0 {
        None
    } else if entries[0].id == uuid {
        Some(0)
    } else {
        match entry_pos(entries.drop_first(), uuid) {
            Some(k) => Some(k + 1),
            None => None,
        }
    }
}

fn find_entry(index: &CustomIndex, uuid: &str) -> (r: Option<usize>)
    ensures
        match entry_pos(entry_views(index.characters@), uuid@) {
            Some(k) => r matches Some(x) && x == k && x < index.characters@.len(),
            None => r is None,
        },
{
    let ghost ev = entry_views(index.characters@);
    let mut i: usize = 0;
    assert(ev.skip(0) =~= ev);
    while i < index.characters.len()
        invariant
            i <= index.characters@.len(),
            ev == entry_views(index.characters@),
            entry_pos(ev, uuid@) == match entry_pos(ev.skip(i as int), uuid@) {
                Some(k) => Some((k + i) as nat),
                None => None,
            },
        decreases index.characters@.len() - i,
    {
        assert(ev.skip(i as int)[0] == ev[i as int]);
        if same_text(index.characters[i].id.as_str(), uuid) {
            return Some(i);
        }
        assert(ev.skip(i as int).drop_first() =~= ev.skip(i + 1));
        i = i + 1;
    }
    None
}

/// Remove user character `id` from the index, clearing the applied
/// character when it was this one; gives its uuid. Errors:
/// `CHARACTER_READONLY` for a preinstalled id, `CHARACTER_NOT_FOUND` for an
/// id that is not `custom:` or not in the index (the index is then unchanged).
pub fn delete_from_index(index: &mut CustomIndex, id: &str) -> (r: Result<String, String>)
    ensures
        prefix_at(id@, 0, default_prefix()) ==> (r matches Err(e) && e@ == "CHARACTER_READONLY"@),
        r is Err ==> entry_views(final(index).characters@) == entry_views(old(index).characters@)
            && opt_view(final(index).active) == opt_view(old(index).active),
        !prefix_at(id@, 0, default_prefix()) ==> match strip_prefix(id@, custom_prefix()) {
            None => r matches Err(e) && e@ == "CHARACTER_NOT_FOUND"@,
            Some(u) => match entry_pos(entry_views(old(index).characters@), u) {
                None => r matches Err(e) && e@ == "CHARACTER_NOT_FOUND"@,
                Some(k) => r matches Ok(x) && x@ == u && entry_views(final(index).characters@) == entry_views(
                    old(index).characters@,
                ).remove(k as int) && opt_view(final(index).active) == (if opt_view(old(index).active) == Some(
                    id@,
                ) {
                    None
                } else {
                    opt_view(old(index).active)
                }),
            },
        },
{
    let v = str_chars(id);
    let d = str_chars("default:");
    if crate::text::occurs_at(v.as_slice(), 0, d.as_slice()) {
        return Err(text("CHARACTER_READONLY"));
    }
    let u = match strip_prefix_exec(id, "custom:") {
        Some(u) => u,
        None => {
            return Err(text("CHARACTER_NOT_FOUND"));
        },
    };
    let pos = match find_entry(index, u.as_str()) {
        Some(p) => p,
        None => {
            return Err(text("CHARACTER_NOT_FOUND"));
        },
    };
    let ghost before = entry_views(index.characters@);
    let _removed = index.characters.remove(pos);
    assert(entry_views(index.characters@) =~= before.remove(pos as int));
    let clear = match &index.active {
        Some(a) => same_text(a.as_str(), id),
        None => false,
    };
    if clear {
        index.active = None;
    }
    Ok(u)
}

/// Mark slot `slot` (`neutral` / `smile`) of user character `uuid` as having
/// an image; other slots and characters are unchanged.
pub fn mark_image(index: &mut CustomIndex, uuid: &str, slot: &str)
    ensures
        opt_view(final(index).active) == opt_view(old(index).active),
        final(index).characters@.len() == old(index).characters@.len(),
        forall|k: int|
            0 <= k < old(index).characters@.len() ==> {
                let e = old(index).characters@[k]@;
                let f = #[trigger] final(index).characters@[k]@;
                if entry_pos(entry_views(old(index).characters@), uuid@) == Some(k as nat) {
                    f == (EntryV {
                        has_neutral: e.has_neutral || slot@ == "neutral"@,
                        has_smile: e.has_smile || slot@ == "smile"@,
                        ..e
                    })
                } else {
                    f == e
                }
            },
{
    let ghost old_v = entry_views(index.characters@);
    match find_entry(index, uuid) {
        None => {},
        Some(p) => {
            let neutral = same_text(slot, "neutral");
            let smile = same_text(slot, "smile");
            let e = &index.characters[p];
            let updated = CustomEntry {
                id: copy_str(&e.id),
                name: copy_str(&e.name),
                has_neutral: e.has_neutral || neutral,
                has_smile: e.has_smile || smile,
                created_at: copy_str(&e.created_at),
            };
            index.characters.set(p, updated);
        },
    }
    assert forall|k: int| 0 <= k < old(index).characters@.len() implies old(index).characters@[k]@ == old_v[k] by {}
}

/// What the user typed as a character name, without surrounding whitespace,
/// or the name's fault (`CHARACTER_NAME_EMPTY` / `CHARACTER_NAME_INVALID`).
pub fn checked_character_name(name: &str) -> (r: Result<String, String>)
    ensures
        match name_fault(trim(name@)) {
            Some(e) => r matches Err(x) && x@ == e,
            None => r matches Ok(t) && t@ == trim(name@),
        },
{
    let v = str_chars(name);
    let t = chars_to_string(trimmed(v.as_slice()).as_slice());
    validate_character_name(t.as_str())?;
    Ok(t)
}

/// The name a new user character gets from what the user typed: `name`
/// without surrounding whitespace. Errors, in this order: the name's fault
/// (`CHARACTER_NAME_EMPTY` / `CHARACTER_NAME_INVALID`), then
/// `CHARACTER_NAME_DUP` when a user character already has it.
pub fn new_character_name(index: &CustomIndex, name: &str) -> (r: Result<String, String>)
    ensures
        match name_fault(trim(name@)) {
            Some(e) => r matches Err(x) && x@ == e,
            None => if name_taken(entry_views(index.characters@), trim(name@)) {
                r matches Err(x) && x@ == "CHARACTER_NAME_DUP"@
            } else {
                r matches Ok(t) && t@ == trim(name@)
            },
        },
{
    let t = checked_character_name(name)?;
    if is_name_taken(index, t.as_str()) {
        return Err(text("CHARACTER_NAME_DUP"));
    }
    Ok(t)
}

/// Add user character `uuid` to the index and give it as listed. Its images
/// are the ones the caller already put in its directory.
pub fn add_custom_character(
    index: &mut CustomIndex,
    uuid: String,
    name: String,
    has_neutral: bool,
    has_smile: bool,
    created_at: String,
) -> (r: Character)
    ensures
        entry_views(final(index).characters@) == entry_views(old(index).characters@).push(
            EntryV { id: uuid@, name: name@, has_neutral, has_smile, created_at: created_at@ },
        ),
        opt_view(final(index).active) == opt_view(old(index).active),
        r@ == custom_view(EntryV { id: uuid@, name: name@, has_neutral, has_smile, created_at: created_at@ }),
{
    let entry = CustomEntry { id: uuid, name, has_neutral, has_smile, created_at };
    let c = custom_character(&entry);
    let ghost before = entry_views(index.characters@);
    index.characters.push(entry);
    assert(entry_views(index.characters@) =~= before.push(entry@));
    c
}

/// No two user characters share a name.
pub open spec fn names_distinct(es: Seq<EntryV>) -> bool {
    forall|i: int, j: int| 0 <= i < j < es.len() ==> (#[trigger] es[i]).name != (#[trigger] es[j]).name
}

/// The user characters' names stay distinct: adding one under a name that no
/// user character has, or removing one, keeps them so.
pub proof fn lemma_names_stay_distinct(es: Seq<EntryV>, e: EntryV, k: int)
    requires
        names_distinct(es),
    ensures
        !name_taken(es, e.name) ==> names_distinct(es.push(e)),
        0 <= k < es.len() ==> names_distinct(es.remove(k)),
{
    if !name_taken(es, e.name) {
        let p = es.push(e);
        assert forall|i: int, j: int| 0 <= i < j < p.len() implies (#[trigger] p[i]).name != (#[trigger] p[j]).name by {
            if j == es.len() {
                assert(p[i] == es[i]);
                if es[i].name == e.name {
                    assert(name_taken(es, e.name));
                }
            } else {
                assert(p[i] == es[i] && p[j] == es[j]);
            }
        }
    }
    if 0 <= k < es.len() {
        let r = es.remove(k);
        assert forall|i: int, j: int| 0 <= i < j < r.len() implies (#[trigger] r[i]).name != (#[trigger] r[j]).name by {
            let i2 = if i < k { i } else { i + 1 };
            let j2 = if j < k { j } else { j + 1 };
            assert(r[i] == es[i2] && r[j] == es[j2]);
            assert(i2 < j2);
        }
    }
}

/// Record character `id` as the applied one.
pub fn apply_character_impl(index: &mut CustomIndex, id: &str)
    ensures
        opt_view(final(index).active) == Some(id@),
        entry_views(final(index).characters@) == entry_views(old(index).characters@),
{
    index.active = Some(text(id));
}

/// Record that no character is applied (the game's own images are back).
pub fn restore_default_impl(index: &mut CustomIndex)
    ensures
        final(index).active is None,
        entry_views(final(index).characters@) == entry_views(old(index).characters@),
{
    index.active = None;
}

/// The status shown for an installation: the directory (empty when
/// unknown), whether it is writable, whether the game's dialogue directory
/// exists, whether the original images were saved, and the applied character.
pub fn status_impl(
    install_dir: Option<String>,
    install_dir_writable: bool,
    game_dialogue_dir: Option<String>,
    dialogue_dir_exists: bool,
    snapshot_taken: bool,
    index: &CustomIndex,
) -> (r: CharacterStatus)
    ensures
        r.install_dir@ == match install_dir {
            Some(d) => d@,
            None => Seq::empty(),
        },
        r.install_dir_writable == install_dir_writable,
        r.game_available == (game_dialogue_dir is Some && dialogue_dir_exists),
        opt_view(r.game_dialogue_dir) == opt_view(game_dialogue_dir),
        r.snapshot_taken == snapshot_taken,
        opt_view(r.active_id) == opt_view(index.active),
{
    let game_available = game_dialogue_dir.is_some() && dialogue_dir_exists;
    let dir = match install_dir {
        Some(d) => d,
        None => {
            let e: Vec<char> = Vec::new();
            assert(e@ =~= Seq::<char>::empty());
            chars_to_string(e.as_slice())
        },
    };
    CharacterStatus {
        install_dir: dir,
        install_dir_writable,
        game_available,
        game_dialogue_dir,
        snapshot_taken,
        active_id: copy_opt(&index.active),
    }
}

} // verus!
