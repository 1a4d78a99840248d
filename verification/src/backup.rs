//! Save-directory backups: how entries are named inside a backup archive,
//! where they go back on restore, and the order backups are listed in.
use vstd::prelude::*;
use crate::pins::{chars_le, lemma_chars_le_total, lemma_chars_le_trans, name_le};
use crate::text::{chars_to_string, push_str, replace_all, replace_chars, slice_to_vec, str_chars};

verus! {

/// A backup archive as listed.
#[derive(Debug, Clone)]
pub struct BackupInfo {
    pub name: String,
    /// Local time of the last change, `YYYY-MM-DDTHH:MM:SS`.
    pub created_at: String,
    pub size_bytes: u64,
}

pub struct BackupV {
    pub name: Seq<char>,
    pub created_at: Seq<char>,
    pub size_bytes: u64,
}

impl View for BackupInfo {
    type V = BackupV;

    open spec fn view(&self) -> BackupV {
        BackupV { name: self.name@, created_at: self.created_at@, size_bytes: self.size_bytes }
    }
}

pub open spec fn backup_views(v: Seq<BackupInfo>) -> Seq<BackupV> {
    v.map_values(|b: BackupInfo| b@)
}

// ───────────────────────── archive entries ─────────────────────────

/// The archive entry of a file at `rel` (relative to the save directory,
/// which is archived under its own name `root`): `root/rel` with `/`
/// separators, or `root` itself for the directory.
pub open spec fn entry_name(root: Seq<char>, rel: Seq<char>) -> Seq<char> {
    let r = replace_all(rel, seq!['\\'], seq!['/']);
    if r.len() == 0 {
        root
    } else {
        root + seq!['/'] + r
    }
}

/// The archive entry of `rel` under `root`.
pub fn archive_entry_name(root: &str, rel: &str) -> (r: String)
    ensures
        r@ == entry_name(root@, rel@),
{
    let v = str_chars(rel);
    let slash = ['/'];
    proof {
        reveal_strlit("\\");
    }
    let r = replace_chars(v.as_slice(), "\\", &slash);
    assert("\\"@ =~= seq!['\\']);
    assert(slash@ =~= seq!['/']);
    if r.len() == 0 {
        return chars_to_string(str_chars(root).as_slice());
    }
    let mut out = str_chars(root);
    out.push('/');
    let ghost before = out@;
    crate::text::push_chars(&mut out, r.as_slice());
    assert(out@ =~= root@ + seq!['/'] + r@);
    chars_to_string(out.as_slice())
}

/// Where an archive entry goes back, relative to the save directory: what
/// follows its first `/` with `\` separators; nothing for an entry without
/// a `/` or with nothing after it.
pub open spec fn restore_target(name: Seq<char>) -> Option<Seq<char>> {
    match crate::levels::first_index(name, '/') {
        None => None,
        Some(k) => {
            let rest = name.skip(k + 1 as int);
            if rest.len() == 0 {
                None
            } else {
                Some(replace_all(rest, seq!['/'], seq!['\\']))
            }
        },
    }
}

fn find_slash(s: &[char]) -> (r: Option<usize>)
    ensures
        match crate::levels::first_index(s@, '/') {
            None => r is None,
            Some(k) => r matches Some(x) && x == k && x < s@.len(),
        },
{
    let mut i: usize = 0;
    assert(s@.skip(0) =~= s@);
    while i < s.len()
        invariant
            i <= s@.len(),
            crate::levels::first_index(s@, '/') == match crate::levels::first_index(s@.skip(i as int), '/') {
                None => None,
                Some(k) => Some((k + i) as nat),
            },
        decreases s@.len() - i,
    {
        assert(s@.skip(i as int)[0] == s@[i as int]);
        if s[i] == '/' {
            return Some(i);
        }
        assert(s@.skip(i as int).drop_first() =~= s@.skip(i + 1));
        i = i + 1;
    }
    None
}

/// Where archive entry `name` is restored, relative to the save directory.
pub fn restore_relative(name: &str) -> (r: Option<String>)
    ensures
        match restore_target(name@) {
            Some(t) => r matches Some(x) && x@ == t,
            None => r is None,
        },
{
    let v = str_chars(name);
    let k = match find_slash(v.as_slice()) {
        Some(k) => k,
        None => {
            return None;
        },
    };
    let n = v.len();
    let rest = slice_to_vec(v.as_slice(), k + 1, n);
    assert(rest@ =~= name@.skip(k + 1 as int));
    if rest.len() == 0 {
        return None;
    }
    let back = ['\\'];
    proof {
        reveal_strlit("/");
    }
    let out = replace_chars(rest.as_slice(), "/", &back);
    assert("/"@ =~= seq!['/']);
    assert(back@ =~= seq!['\\']);
    Some(chars_to_string(out.as_slice()))
}

proof fn lemma_swap_char(s: Seq<char>, a: char, b: char)
    ensures
        replace_all(s, seq![a], seq![b]).len() == s.len(),
        forall|i: int|
            0 <= i < s.len() ==> #[trigger] replace_all(s, seq![a], seq![b])[i] == if s[i] == a {
                b
            } else {
                s[i]
            },
    decreases s.len(),
{
    if s.len() > 0 {
        lemma_swap_char(s.drop_first(), a, b);
        assert(s.skip(1) =~= s.drop_first());
        if s[0] == a {
            assert(s.take(1) =~= seq![a]);
        } else {
            assert(s.take(1) != seq![a]) by {
                assert(s.take(1)[0] == s[0]);
            }
        }
    }
}

proof fn lemma_first_index_after(x: Seq<char>, y: Seq<char>, c: char)
    requires
        !x.contains(c),
    ensures
        crate::levels::first_index(x + y, c) == match crate::levels::first_index(y, c) {
            Some(k) => Some(k + x.len()),
            None => None::<nat>,
        },
    decreases x.len(),
{
    if x.len() > 0 {
        assert(!x.drop_first().contains(c)) by {
            if x.drop_first().contains(c) {
                let k = choose|k: int| 0 <= k < x.drop_first().len() && x.drop_first()[k] == c;
                assert(x[k + 1] == c);
            }
        }
        lemma_first_index_after(x.drop_first(), y, c);
        assert((x + y).drop_first() =~= x.drop_first() + y);
        assert((x + y)[0] == x[0]);
        assert(x[0] != c) by {
            if x[0] == c {
                assert(x.contains(c));
            }
        }
    } else {
        assert(x + y =~= y);
    }
}

/// Restoring a backup puts each file back where it was taken from: under a
/// root name without `/`, the archive entry of a file at a non-empty `rel`
/// with `\` separators (and no `/`) is restored to `rel`.
pub proof fn lemma_restore_undoes_archive(root: Seq<char>, rel: Seq<char>)
    requires
        rel.len() > 0,
        !rel.contains('/'),
        !root.contains('/'),
    ensures
        restore_target(entry_name(root, rel)) == Some(rel),
{
    let r = replace_all(rel, seq!['\\'], seq!['/']);
    lemma_swap_char(rel, '\\', '/');
    let e = entry_name(root, rel);
    assert(e == root + (seq!['/'] + r)) by {
        assert(root + seq!['/'] + r =~= root + (seq!['/'] + r));
    }
    lemma_first_index_after(root, seq!['/'] + r, '/');
    assert(crate::levels::first_index(seq!['/'] + r, '/') == Some(0nat));
    assert(e.skip(root.len() + 1 as int) =~= r);
    let back = replace_all(r, seq!['/'], seq!['\\']);
    lemma_swap_char(r, '/', '\\');
    assert forall|i: int| 0 <= i < rel.len() implies back[i] == rel[i] by {
        if rel[i] == '/' {
            assert(rel.contains('/'));
        }
    }
    assert(back =~= rel);
}

// ───────────────────────── listing order ─────────────────────────

/// Backup `i` before backup `j`: the newer (by `created_at`) first, equal
/// times in their given order.
pub open spec fn newer_first(bs: Seq<BackupV>, i: int, j: int) -> bool {
    (chars_le(bs[j].created_at, bs[i].created_at) && bs[i].created_at != bs[j].created_at) || (
    bs[i].created_at == bs[j].created_at && i < j)
}

/// `o` lists every index of `bs` once, newest first (a stable sort).
pub open spec fn is_listing_order(bs: Seq<BackupV>, o: Seq<int>) -> bool {
    &&& o.len() == bs.len()
    &&& forall|k: int| 0 <= k < o.len() ==> 0 <= #[trigger] o[k] < bs.len()
    &&& forall|i: int| 0 <= i < bs.len() ==> o.contains(i)
    &&& forall|k: int, l: int| 0 <= k < l < o.len() ==> newer_first(bs, #[trigger] o[k], #[trigger] o[l])
}

proof fn lemma_le_antisym(a: Seq<char>, b: Seq<char>)
    requires
        chars_le(a, b),
        chars_le(b, a),
    ensures
        a == b,
    decreases a.len(),
{
    if a.len() > 0 && b.len() > 0 {
        lemma_le_antisym(a.drop_first(), b.drop_first());
        assert(a =~= seq![a[0]] + a.drop_first());
        assert(b =~= seq![b[0]] + b.drop_first());
    }
}

proof fn lemma_newer_facts(bs: Seq<BackupV>, i: int, j: int, k: int)
    requires
        0 <= i < bs.len(),
        0 <= j < bs.len(),
        0 <= k < bs.len(),
    ensures
        i != j ==> newer_first(bs, i, j) || newer_first(bs, j, i),
        !(newer_first(bs, i, j) && newer_first(bs, j, i)),
        newer_first(bs, i, j) && newer_first(bs, j, k) ==> newer_first(bs, i, k),
{
    let (a, b, c) = (bs[i].created_at, bs[j].created_at, bs[k].created_at);
    lemma_chars_le_total(a, b);
    if chars_le(a, b) && chars_le(b, a) {
        lemma_le_antisym(a, b);
    }
    if newer_first(bs, i, j) && newer_first(bs, j, k) {
        if chars_le(c, b) && chars_le(b, a) {
            lemma_chars_le_trans(c, b, a);
            if a == c {
                lemma_le_antisym(b, c);
            }
        }
    }
}

proof fn lemma_listing_unique(bs: Seq<BackupV>, o1: Seq<int>, o2: Seq<int>)
    requires
        forall|k: int| 0 <= k < o1.len() ==> 0 <= #[trigger] o1[k] < bs.len(),
        forall|k: int| 0 <= k < o2.len() ==> 0 <= #[trigger] o2[k] < bs.len(),
        forall|x: int| o1.contains(x) <==> o2.contains(x),
        forall|k: int, l: int| 0 <= k < l < o1.len() ==> newer_first(bs, #[trigger] o1[k], #[trigger] o1[l]),
        forall|k: int, l: int| 0 <= k < l < o2.len() ==> newer_first(bs, #[trigger] o2[k], #[trigger] o2[l]),
    ensures
        o1 == o2,
    decreases o1.len(),
{
    if o1.len() == 0 {
        if o2.len() > 0 {
            assert(o2.contains(o2[0]));
        }
        assert(o1 =~= o2);
    } else {
        assert(o1.contains(o1[0]));
        assert(o2.contains(o2[0]));
        let a = o1[0];
        let b = o2[0];
        if a != b {
            let p = choose|p: int| 0 <= p < o2.len() && o2[p] == a;
            let q = choose|q: int| 0 <= q < o1.len() && o1[q] == b;
            assert(newer_first(bs, o2[0], o2[p]));
            assert(newer_first(bs, o1[0], o1[q]));
            lemma_newer_facts(bs, a, b, a);
        }
        let t1 = o1.drop_first();
        let t2 = o2.drop_first();
        assert forall|x: int| t1.contains(x) implies t2.contains(x) by {
            let k = choose|k: int| 0 <= k < t1.len() && t1[k] == x;
            assert(o1[k + 1] == x);
            assert(newer_first(bs, o1[0], o1[k + 1]));
            lemma_newer_facts(bs, a, x, a);
            assert(o2.contains(x));
            let m = choose|m: int| 0 <= m < o2.len() && o2[m] == x;
            assert(t2[m - 1] == x);
        }
        assert forall|x: int| t2.contains(x) implies t1.contains(x) by {
            let k = choose|k: int| 0 <= k < t2.len() && t2[k] == x;
            assert(o2[k + 1] == x);
            assert(newer_first(bs, o2[0], o2[k + 1]));
            lemma_newer_facts(bs, b, x, b);
            assert(o1.contains(x));
            let m = choose|m: int| 0 <= m < o1.len() && o1[m] == x;
            assert(t1[m - 1] == x);
        }
        assert forall|k: int, l: int| 0 <= k < l < t1.len() implies newer_first(bs, #[trigger] t1[k], #[trigger] t1[l]) by {
            assert(t1[k] == o1[k + 1] && t1[l] == o1[l + 1]);
        }
        assert forall|k: int, l: int| 0 <= k < l < t2.len() implies newer_first(bs, #[trigger] t2[k], #[trigger] t2[l]) by {
            assert(t2[k] == o2[k + 1] && t2[l] == o2[l + 1]);
        }
        lemma_listing_unique(bs, t1, t2);
        assert(o1 =~= seq![a] + t1);
        assert(o2 =~= seq![b] + t2);
    }
}

fn same_string(a: &String, b: &String) -> (r: bool)
    ensures
        r == (a@ == b@),
{
    let x = str_chars(a.as_str());
    let y = str_chars(b.as_str());
    if x.len() != y.len() {
        return false;
    }
    let mut i: usize = 0;
    while i < x.len()
        invariant
            x@.len() == y@.len(),
            x@ == a@,
            y@ == b@,
            i <= x@.len(),
            forall|k: int| 0 <= k < i ==> x@[k] == y@[k],
        decreases x@.len() - i,
    {
        if x[i] != y[i] {
            assert(a@[i as int] != b@[i as int]);
            return false;
        }
        i = i + 1;
    }
    assert(x@ =~= y@);
    true
}

fn newer(bs: &Vec<BackupInfo>, i: usize, j: usize) -> (r: bool)
    requires
        i < bs@.len(),
        j < bs@.len(),
    ensures
        r == newer_first(backup_views(bs@), i as int, j as int),
{
    let le = name_le(&bs[j].created_at, &bs[i].created_at);
    let eq = same_string(&bs[i].created_at, &bs[j].created_at);
    (le && !eq) || (eq && i < j)
}

pub open spec fn as_ints(v: Seq<usize>) -> Seq<int> {
    v.map_values(|x: usize| x as int)
}

fn copy_backup(b: &BackupInfo) -> (r: BackupInfo)
    ensures
        r@ == b@,
{
    BackupInfo {
        name: chars_to_string(str_chars(b.name.as_str()).as_slice()),
        created_at: chars_to_string(str_chars(b.created_at.as_str()).as_slice()),
        size_bytes: b.size_bytes,
    }
}

/// The backups newest first (by `created_at`); equal times keep their order.
pub fn sort_newest_first(bs: &Vec<BackupInfo>) -> (r: Vec<BackupInfo>)
    ensures
        forall|o: Seq<int>|
            is_listing_order(backup_views(bs@), o) ==> backup_views(r@) == o.map_values(
                |i: int| backup_views(bs@)[i],
            ),
{
    let ghost bv = backup_views(bs@);
    let mut order: Vec<usize> = Vec::new();
    let mut i: usize = 0;
    while i < bs.len()
        invariant
            i <= bs@.len(),
            bv == backup_views(bs@),
            order@.len() == i,
            forall|k: int| 0 <= k < order@.len() ==> #[trigger] order@[k] < i,
            forall|j: int| 0 <= j < i ==> #[trigger] as_ints(order@).contains(j),
            forall|k: int, l: int| 0 <= k < l < order@.len() ==> newer_first(bv, #[trigger] order@[k] as int, #[trigger] order@[l] as int),
        decreases bs@.len() - i,
    {
        let mut p: usize = 0;
        while p < order.len() && !newer(bs, i, order[p])
            invariant
                p <= order@.len(),
                i < bs@.len(),
                bv == backup_views(bs@),
                forall|k: int| 0 <= k < order@.len() ==> #[trigger] order@[k] < i,
                forall|k: int| 0 <= k < p ==> !newer_first(bv, i as int, #[trigger] order@[k] as int),
            decreases order@.len() - p,
        {
            p = p + 1;
        }
        let ghost old_o = order@;
        let ghost om = as_ints(old_o);
        order.insert(p, i);
        assert(order@ == old_o.insert(p as int, i));
        assert forall|k: int, l: int| 0 <= k < l < order@.len() implies newer_first(bv, #[trigger] order@[k] as int, #[trigger] order@[l] as int) by {
            if k < p && l < p {
                assert(order@[k] == old_o[k] && order@[l] == old_o[l]);
            } else if k < p && l == p {
                lemma_newer_facts(bv, old_o[k] as int, i as int, i as int);
            } else if k < p {
                assert(order@[l] == old_o[l - 1]);
                lemma_newer_facts(bv, old_o[k] as int, i as int, old_o[p as int] as int);
                if l - 1 > p {
                    assert(newer_first(bv, old_o[p as int] as int, old_o[l - 1] as int));
                    lemma_newer_facts(bv, old_o[k] as int, old_o[p as int] as int, old_o[l - 1] as int);
                }
            } else if k == p {
                assert(order@[l] == old_o[l - 1]);
                if l - 1 > p {
                    assert(newer_first(bv, old_o[p as int] as int, old_o[l - 1] as int));
                    lemma_newer_facts(bv, i as int, old_o[p as int] as int, old_o[l - 1] as int);
                }
            } else {
                assert(order@[k] == old_o[k - 1] && order@[l] == old_o[l - 1]);
            }
        }
        assert forall|j: int| 0 <= j < i + 1 implies #[trigger] as_ints(order@).contains(j) by {
            if j == i {
                assert(as_ints(order@)[p as int] == j);
            } else {
                assert(om.contains(j));
                let m = choose|m: int| 0 <= m < om.len() && #[trigger] om[m] == j;
                if m < p {
                    assert(as_ints(order@)[m] == j);
                } else {
                    assert(as_ints(order@)[m + 1] == j);
                }
            }
        }
        i = i + 1;
    }
    let ghost oi = as_ints(order@);
    assert(is_listing_order(bv, oi));
    let mut out: Vec<BackupInfo> = Vec::new();
    let mut k: usize = 0;
    while k < order.len()
        invariant
            k <= order@.len(),
            bv == backup_views(bs@),
            forall|m: int| 0 <= m < order@.len() ==> #[trigger] order@[m] < bs@.len(),
            out@.len() == k,
            forall|m: int| 0 <= m < k ==> #[trigger] out@[m]@ == bv[order@[m] as int],
        decreases order@.len() - k,
    {
        out.push(copy_backup(&bs[order[k]]));
        k = k + 1;
    }
    assert forall|o: Seq<int>| is_listing_order(bv, o) implies backup_views(out@) == o.map_values(|i: int| bv[i]) by {
        assert forall|x: int| o.contains(x) implies oi.contains(x) by {
            let k = choose|k: int| 0 <= k < o.len() && o[k] == x;
            assert(0 <= o[k] < bv.len());
        }
        assert forall|x: int| oi.contains(x) implies o.contains(x) by {
            let k = choose|k: int| 0 <= k < oi.len() && oi[k] == x;
            assert(0 <= oi[k] < bv.len());
        }
        lemma_listing_unique(bv, o, oi);
        assert(backup_views(out@) =~= o.map_values(|i: int| bv[i]));
    }
    out
}

/// The names of the backups past the newest `keep` of a newest-first list:
/// the ones an automatic backup removes.
pub fn prune_names(sorted: &Vec<BackupInfo>, keep: u32) -> (r: Vec<String>)
    ensures
        r@.len() == if sorted@.len() > keep { sorted@.len() - keep } else { 0 },
        forall|k: int| 0 <= k < r@.len() ==> #[trigger] r@[k]@ == sorted@[keep + k].name@,
{
    let mut r: Vec<String> = Vec::new();
    let mut i: usize = keep as usize;
    if i >= sorted.len() {
        return r;
    }
    while i < sorted.len()
        invariant
            keep <= i <= sorted@.len(),
            r@.len() == i - keep,
            forall|k: int| 0 <= k < r@.len() ==> #[trigger] r@[k]@ == sorted@[keep + k].name@,
        decreases sorted@.len() - i,
    {
        r.push(chars_to_string(str_chars(sorted[i].name.as_str()).as_slice()));
        i = i + 1;
    }
    r
}

} // verus!
