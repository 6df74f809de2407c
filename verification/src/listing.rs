use vstd::prelude::*;

use std::cmp::Ordering;

use crate::natural::{
    lemma_natural_antisymmetric, lemma_natural_transitive, natural_cmp_chars, natural_fits,
    natural_order,
};
use crate::text::{
    chars_less, chars_of, find_in, find_seq, lemma_find_seq, occurs_at, lemma_seq_less_total, lemma_seq_less_transitive,
    lowercase, seq_less, to_lower,
};
use crate::walk::{SortBy, WalkOpts};

verus! {

/// What the walk knows of one entry of a directory listing.
pub struct ChildEntry {
    /// The file name, lossily converted to text.
    pub name: String,
    /// The file name where it is valid UTF-8, else empty (sort key).
    pub sort_name: String,
    /// The directory entry's own type is a regular file.
    pub dirent_is_file: bool,
    /// The entry is a directory (through a symlink with `follow_links`).
    pub is_dir: bool,
    /// Device of the entry itself (0 where unreadable).
    pub dev: u64,
    /// Modification time in nanoseconds since the epoch (the epoch where
    /// unreadable).
    pub mtime: i128,
    /// Status change time in seconds (0 where unreadable).
    pub ctime: i64,
}

/// Whether a listing entry is shown: plain files are dropped up front
/// when only directories can show; hidden names (leading `.`) only with
/// `all`; only directories with `dirs_only`; names holding the ignore
/// pattern (both lowercased) never; with `one_fs`, only entries on the
/// root's device.
pub open spec fn keeps(opts: WalkOpts, e: ChildEntry) -> bool {
    &&& !((opts.match_dirs || opts.dirs_only) && e.dirent_is_file)
    &&& (opts.all || !(e.name@.len() > 0 && e.name@[0] == '.'))
    &&& (!opts.dirs_only || e.is_dir)
    &&& match opts.ignore {
        Some(ign) => find_seq(lowercase(e.name@), lowercase(ign@)) is None,
        None => true,
    }
    &&& (!opts.one_fs || e.dev == opts.root_dev)
}

/// Law (`-I`): the ignore pattern matches without regard to case.  Two
/// patterns with the same lowercase form keep the same entries, and an
/// entry whose lowercased name holds the lowercased pattern is never kept.
pub proof fn lemma_ignore_ignores_case(opts: WalkOpts, e: ChildEntry, p: String, q: String)
    requires
        opts.ignore == Some(p),
        lowercase(p@) == lowercase(q@),
    ensures
        keeps(opts, e) == keeps(WalkOpts { ignore: Some(q), ..opts }, e),
        (exists|i: int| occurs_at(lowercase(e.name@), lowercase(p@), i)) ==> !keeps(opts, e),
{
    lemma_find_seq(lowercase(e.name@), lowercase(p@));
}

/// Law: what each filter drops.  A hidden name (leading `.`) is kept only
/// with `all`; with `dirs_only` only directories are kept; with `one_fs`
/// only entries on the root's device; and with no filter at all every
/// entry is kept.
pub proof fn lemma_filters(opts: WalkOpts, e: ChildEntry)
    ensures
        (e.name@.len() > 0 && e.name@[0] == '.' && !opts.all) ==> !keeps(opts, e),
        (opts.dirs_only && !e.is_dir) ==> !keeps(opts, e),
        (opts.one_fs && e.dev != opts.root_dev) ==> !keeps(opts, e),
        (opts.all && !opts.dirs_only && !opts.match_dirs && !opts.one_fs && opts.ignore is None) ==> keeps(opts, e),
{
}

/// Law: how the sorts order two entries.  Every sort but "unsorted" puts
/// the entry of the first kind first where the second one is no
/// directory and the first is; the name sort ignores case, so names with
/// the same lowercase form are never ordered against each other; the
/// time sorts put the newer entry first; unsorted orders nothing.
pub proof fn lemma_sort_orders(a: ChildEntry, b: ChildEntry)
    ensures
        a.is_dir && !b.is_dir ==> precedes(SortBy::Name, a, b) && precedes(SortBy::Version, a, b),
        a.is_dir && !b.is_dir ==> !precedes(SortBy::Name, b, a) && !precedes(SortBy::Version, b, a),
        a.is_dir == b.is_dir && lowercase(a.sort_name@) == lowercase(b.sort_name@) ==> !precedes(
            SortBy::Name,
            a,
            b,
        ),
        precedes(SortBy::ModTime, a, b) <==> a.mtime > b.mtime,
        precedes(SortBy::ChangeTime, a, b) <==> a.ctime > b.ctime,
        !precedes(SortBy::Unsorted, a, b),
{
    lemma_seq_less_total(lowercase(a.sort_name@), lowercase(b.sort_name@));
}

/// Indices, in listing order, of the kept entries among the first `n`.
pub open spec fn kept_upto(es: Seq<ChildEntry>, opts: WalkOpts, n: nat) -> Seq<usize>
    decreases n,
{
    if n == 0 {
        Seq::empty()
    } else {
        kept_upto(es, opts, (n - 1) as nat) + (if keeps(opts, es[n - 1]) {
            seq![(n - 1) as usize]
        } else {
            Seq::empty()
        })
    }
}

/// Indices, in listing order, of the kept entries.
pub open spec fn kept(es: Seq<ChildEntry>, opts: WalkOpts) -> Seq<usize> {
    kept_upto(es, opts, es.len())
}

/// Whether `a` sorts strictly before `b`: by name, directories first,
/// then by lowercased name; by version, directories first, then by the
/// natural order of names; by modification or change time, newest first;
/// unsorted, never.
pub open spec fn precedes(sort: SortBy, a: ChildEntry, b: ChildEntry) -> bool {
    match sort {
        SortBy::Name => (a.is_dir && !b.is_dir) || (a.is_dir == b.is_dir && seq_less(
            lowercase(a.sort_name@),
            lowercase(b.sort_name@),
        )),
        SortBy::Version => (a.is_dir && !b.is_dir) || (a.is_dir == b.is_dir && natural_order(
            a.sort_name@,
            b.sort_name@,
        ) == Ordering::Less),
        SortBy::ModTime => a.mtime > b.mtime,
        SortBy::ChangeTime => a.ctime > b.ctime,
        SortBy::Unsorted => false,
    }
}

/// `r` holds the same indices as `k`, each once.
pub open spec fn same_indices(r: Seq<usize>, k: Seq<usize>) -> bool {
    &&& r.len() == k.len()
    &&& r.no_duplicates()
    &&& forall|x: usize| r.contains(x) <==> k.contains(x)
}

/// No entry of `r` sorts before an entry placed ahead of it.
pub open spec fn sorted_by(sort: SortBy, es: Seq<ChildEntry>, r: Seq<usize>) -> bool {
    forall|i: int, j: int|
        0 <= i < j < r.len() ==> !precedes(sort, #[trigger] es[r[j] as int], #[trigger] es[r[i] as int])
}

/// Entries that sort alike keep their listing order.
pub open spec fn stable_by(sort: SortBy, es: Seq<ChildEntry>, r: Seq<usize>) -> bool {
    forall|i: int, j: int|
        0 <= i < j < r.len() && !precedes(sort, #[trigger] es[r[i] as int], #[trigger] es[r[j] as int])
            ==> r[i] < r[j]
}

/// `r` is the stable sort of the indices `k` by the order `sort`.
pub open spec fn stable_sort_of(sort: SortBy, es: Seq<ChildEntry>, k: Seq<usize>, r: Seq<usize>) -> bool {
    &&& same_indices(r, k)
    &&& sorted_by(sort, es, r)
    &&& stable_by(sort, es, r)
}

/// Entries `x` and `y` are of the same kind (so a version sort compares
/// their names) and their digit runs do not fit in a `u64`.
pub open spec fn version_clash(es: Seq<ChildEntry>, x: usize, y: usize) -> bool {
    es[x as int].is_dir == es[y as int].is_dir && !natural_fits(es[x as int].sort_name@, es[y as int].sort_name@)
}

/// Two kept entries that a version sort compares (same kind) whose digit
/// runs do not fit in a `u64`.
pub open spec fn version_overflow(es: Seq<ChildEntry>, k: Seq<usize>) -> bool {
    exists|i: int, j: int| 0 <= i < k.len() && 0 <= j < k.len() && #[trigger] version_clash(es, k[i], k[j])
}

/// The order key that the sort of `sort` reads from an entry.
pub open spec fn key_of(sort: SortBy, e: ChildEntry, key: Seq<char>) -> bool {
    match sort {
        SortBy::Name => key == lowercase(e.sort_name@),
        SortBy::Version => key == e.sort_name@,
        _ => true,
    }
}

/// Asymmetry and transitivity of "does not sort before".
pub proof fn lemma_precedes_laws(sort: SortBy, a: ChildEntry, b: ChildEntry, c: ChildEntry)
    ensures
        !precedes(sort, a, a),
        precedes(sort, a, b) ==> !precedes(sort, b, a),
        !precedes(sort, b, a) && !precedes(sort, c, b) ==> !precedes(sort, c, a),
{
    match sort {
        SortBy::Name => {
            let la = lowercase(a.sort_name@);
            let lb = lowercase(b.sort_name@);
            let lc = lowercase(c.sort_name@);
            lemma_seq_less_total(la, la);
            lemma_seq_less_total(la, lb);
            lemma_seq_less_total(lb, lc);
            lemma_seq_less_total(la, lc);
            if seq_less(la, lb) && seq_less(lb, lc) {
                lemma_seq_less_transitive(la, lb, lc);
            }
        },
        SortBy::Version => {
            let na = a.sort_name@;
            let nb = b.sort_name@;
            let nc = c.sort_name@;
            crate::natural::lemma_natural_reflexive(na);
            lemma_natural_antisymmetric(na, nb);
            lemma_natural_antisymmetric(nb, nc);
            lemma_natural_antisymmetric(na, nc);
            if natural_order(na, nb) != Ordering::Greater && natural_order(nb, nc) != Ordering::Greater {
                lemma_natural_transitive(na, nb, nc);
            }
        },
        _ => {},
    }
}

proof fn lemma_kept_upto(es: Seq<ChildEntry>, opts: WalkOpts, n: nat)
    requires
        n <= es.len() <= usize::MAX,
    ensures
        forall|i: int| 0 <= i < kept_upto(es, opts, n).len() ==> #[trigger] kept_upto(es, opts, n)[i] < n,
        forall|i: int, j: int|
            0 <= i < j < kept_upto(es, opts, n).len() ==> #[trigger] kept_upto(es, opts, n)[i]
                < #[trigger] kept_upto(es, opts, n)[j],
    decreases n,
{
    if n > 0 {
        lemma_kept_upto(es, opts, (n - 1) as nat);
        let prev = kept_upto(es, opts, (n - 1) as nat);
        let cur = kept_upto(es, opts, n);
        assert forall|i: int| 0 <= i < prev.len() implies cur[i] == prev[i] by {}
        if keeps(opts, es[n - 1]) {
            assert(cur.len() == prev.len() + 1);
            assert(cur[prev.len() as int] == (n - 1) as usize);
            assert forall|i: int, j: int| 0 <= i < j < cur.len() implies #[trigger] cur[i] < #[trigger] cur[j] by {
                assert(cur[i] == prev[i]);
                if j == prev.len() {
                    assert(prev[i] < n - 1);
                } else {
                    assert(cur[j] == prev[j]);
                    assert(prev[i] < prev[j]);
                }
            }
        } else {
            assert(cur =~= prev);
        }
    }
}

/// The strict total order in which a stable sort places the indices `x`
/// and `y`: by `sort`, and, where neither sorts before the other, by
/// listing position.
pub open spec fn placed_before(sort: SortBy, es: Seq<ChildEntry>, x: usize, y: usize) -> bool {
    precedes(sort, es[x as int], es[y as int]) || (!precedes(sort, es[y as int], es[x as int]) && x < y)
}

proof fn lemma_placed_before_order(sort: SortBy, es: Seq<ChildEntry>, x: usize, y: usize, z: usize)
    ensures
        !placed_before(sort, es, x, x),
        placed_before(sort, es, x, y) && placed_before(sort, es, y, z) ==> placed_before(sort, es, x, z),
        x != y ==> placed_before(sort, es, x, y) || placed_before(sort, es, y, x),
        placed_before(sort, es, x, y) ==> !placed_before(sort, es, y, x),
{
    let (a, b, c) = (es[x as int], es[y as int], es[z as int]);
    lemma_precedes_laws(sort, a, b, c);
    lemma_precedes_laws(sort, a, c, b);
    lemma_precedes_laws(sort, b, a, c);
    lemma_precedes_laws(sort, b, c, a);
    lemma_precedes_laws(sort, c, a, b);
    lemma_precedes_laws(sort, c, b, a);
    lemma_precedes_laws(sort, a, b, a);
    lemma_precedes_laws(sort, b, a, b);
}

proof fn lemma_stable_sort_increasing(sort: SortBy, es: Seq<ChildEntry>, k: Seq<usize>, r: Seq<usize>)
    requires
        stable_sort_of(sort, es, k, r),
    ensures
        forall|i: int, j: int| 0 <= i < j < r.len() ==> placed_before(sort, es, #[trigger] r[i], #[trigger] r[j]),
{
    assert forall|i: int, j: int| 0 <= i < j < r.len() implies placed_before(sort, es, #[trigger] r[i], #[trigger] r[j]) by {
        assert(!precedes(sort, es[r[j] as int], es[r[i] as int]));
    }
}

proof fn lemma_increasing_unique(sort: SortBy, es: Seq<ChildEntry>, r1: Seq<usize>, r2: Seq<usize>)
    requires
        r1.len() == r2.len(),
        r1.no_duplicates(),
        r2.no_duplicates(),
        forall|x: usize| r1.contains(x) <==> r2.contains(x),
        forall|i: int, j: int| 0 <= i < j < r1.len() ==> placed_before(sort, es, #[trigger] r1[i], #[trigger] r1[j]),
        forall|i: int, j: int| 0 <= i < j < r2.len() ==> placed_before(sort, es, #[trigger] r2[i], #[trigger] r2[j]),
    ensures
        r1 == r2,
    decreases r1.len(),
{
    if r1.len() == 0 {
        assert(r1 =~= r2);
    } else {
        let a = r1[0];
        let b = r2[0];
        assert(r1.contains(a));
        assert(r2.contains(a));
        assert(r1.contains(b));
        let p = choose|p: int| 0 <= p < r2.len() && r2[p] == a;
        let m = choose|m: int| 0 <= m < r1.len() && r1[m] == b;
        if p > 0 && m > 0 {
            assert(placed_before(sort, es, b, a));
            assert(placed_before(sort, es, a, b));
            lemma_placed_before_order(sort, es, a, b, a);
        } else if p > 0 {
            assert(r1[m] == b && m == 0);
        }
        assert(a == b);
        let t1 = r1.drop_first();
        let t2 = r2.drop_first();
        assert forall|x: usize| t1.contains(x) <==> t2.contains(x) by {
            if t1.contains(x) {
                let i = choose|i: int| 0 <= i < t1.len() && t1[i] == x;
                assert(r1[i + 1] == x);
                assert(x != a);
                assert(r2.contains(x));
                let j = choose|j: int| 0 <= j < r2.len() && r2[j] == x;
                assert(j != 0);
                assert(t2[j - 1] == x);
            }
            if t2.contains(x) {
                let i = choose|i: int| 0 <= i < t2.len() && t2[i] == x;
                assert(r2[i + 1] == x);
                assert(x != b);
                assert(r1.contains(x));
                let j = choose|j: int| 0 <= j < r1.len() && r1[j] == x;
                assert(j != 0);
                assert(t1[j - 1] == x);
            }
        }
        assert forall|i: int, j: int| 0 <= i < j < t1.len() implies placed_before(sort, es, #[trigger] t1[i], #[trigger] t1[j]) by {
            assert(t1[i] == r1[i + 1] && t1[j] == r1[j + 1]);
        }
        assert forall|i: int, j: int| 0 <= i < j < t2.len() implies placed_before(sort, es, #[trigger] t2[i], #[trigger] t2[j]) by {
            assert(t2[i] == r2[i + 1] && t2[j] == r2[j + 1]);
        }
        assert(t1.no_duplicates()) by {
            assert forall|i: int, j: int| 0 <= i < t1.len() && 0 <= j < t1.len() && i != j implies t1[i] != t1[j] by {
                assert(t1[i] == r1[i + 1] && t1[j] == r1[j + 1]);
            }
        }
        assert(t2.no_duplicates()) by {
            assert forall|i: int, j: int| 0 <= i < t2.len() && 0 <= j < t2.len() && i != j implies t2[i] != t2[j] by {
                assert(t2[i] == r2[i + 1] && t2[j] == r2[j + 1]);
            }
        }
        lemma_increasing_unique(sort, es, t1, t2);
        assert(r1 =~= seq![a] + t1);
        assert(r2 =~= seq![b] + t2);
    }
}

/// Law: a stable sort is unique: two orders of the same indices that are
/// both sorted by `sort` and keep the listing order of entries that sort
/// alike are the same order.  So the order `order_children` returns is
/// the one any stable sort by the same comparison gives.
pub proof fn lemma_stable_sort_unique(sort: SortBy, es: Seq<ChildEntry>, k: Seq<usize>, r1: Seq<usize>, r2: Seq<usize>)
    requires
        stable_sort_of(sort, es, k, r1),
        stable_sort_of(sort, es, k, r2),
    ensures
        r1 == r2,
{
    lemma_stable_sort_increasing(sort, es, k, r1);
    lemma_stable_sort_increasing(sort, es, k, r2);
    lemma_increasing_unique(sort, es, r1, r2);
}

/// Law: `-r` reverses the order: for two option sets that keep the same
/// entries and sort alike, one without and one with `reverse`, the orders
/// that `order_children` may return (see its `ensures`) are each other
/// reversed.
pub proof fn lemma_reverse_reverses(es: Seq<ChildEntry>, o0: WalkOpts, o1: WalkOpts, r0: Seq<usize>, r1: Seq<usize>)
    requires
        !o0.reverse,
        o1.reverse,
        o0.sort == o1.sort,
        kept(es, o0) == kept(es, o1),
        stable_sort_of(o0.sort, es, kept(es, o0), r0),
        stable_sort_of(o1.sort, es, kept(es, o1), r1.reverse()),
    ensures
        r1 == r0.reverse(),
{
    lemma_stable_sort_unique(o0.sort, es, kept(es, o0), r0, r1.reverse());
    assert(r1.reverse().reverse() =~= r1);
}

/// Law: unsorted, the shown entries keep their listing order.
pub proof fn lemma_unsorted_keeps_order(es: Seq<ChildEntry>, opts: WalkOpts, r: Seq<usize>)
    requires
        es.len() <= usize::MAX,
        stable_sort_of(SortBy::Unsorted, es, kept(es, opts), r),
    ensures
        r == kept(es, opts),
{
    lemma_kept_upto(es, opts, es.len());
    lemma_increasing_is_order(es, kept(es, opts), r);
}

proof fn lemma_increasing_is_order(es: Seq<ChildEntry>, k: Seq<usize>, r: Seq<usize>)
    requires
        stable_sort_of(SortBy::Unsorted, es, k, r),
        forall|i: int, j: int| 0 <= i < j < k.len() ==> #[trigger] k[i] < #[trigger] k[j],
    ensures
        r == k,
{
    assert(stable_sort_of(SortBy::Unsorted, es, k, k)) by {
        assert(k.no_duplicates()) by {
            assert forall|i: int, j: int| 0 <= i < k.len() && 0 <= j < k.len() && i != j implies k[i] != k[j] by {
                if i < j {
                    assert(k[i] < k[j]);
                } else {
                    assert(k[j] < k[i]);
                }
            }
        }
    }
    lemma_stable_sort_unique(SortBy::Unsorted, es, k, r, k);
}

/// Whether an entry is kept (see `keeps`).
pub fn keep_entry(opts: &WalkOpts, e: &ChildEntry) -> (res: bool)
    ensures
        res == keeps(*opts, *e),
{
    if (opts.match_dirs || opts.dirs_only) && e.dirent_is_file {
        return false;
    }
    if !opts.all {
        let v = chars_of(e.name.as_str());
        if v.len() > 0 && v[0] == '.' {
            return false;
        }
    }
    if opts.dirs_only && !e.is_dir {
        return false;
    }
    match &opts.ignore {
        Some(ign) => {
            let lname = to_lower(e.name.as_str());
            let lign = to_lower(ign.as_str());
            let hv = chars_of(lname.as_str());
            let nv = chars_of(lign.as_str());
            if find_in(&hv, &nv).is_some() {
                return false;
            }
        },
        None => {},
    }
    if opts.one_fs && e.dev != opts.root_dev {
        return false;
    }
    true
}

/// The indices of the kept entries, in listing order.
pub fn kept_indices(entries: &Vec<ChildEntry>, opts: &WalkOpts) -> (res: Vec<usize>)
    ensures
        res@ == kept(entries@, *opts),
{
    let mut out: Vec<usize> = Vec::new();
    for i in 0..entries.len()
        invariant
            out@ == kept_upto(entries@, *opts, i as nat),
    {
        if keep_entry(opts, &entries[i]) {
            out.push(i);
        }
        assert(out@ =~= kept_upto(entries@, *opts, (i + 1) as nat));
    }
    out
}

fn sort_key(sort: SortBy, e: &ChildEntry) -> (res: Vec<char>)
    ensures
        key_of(sort, *e, res@),
{
    match sort {
        SortBy::Name => {
            let l = to_lower(e.sort_name.as_str());
            chars_of(l.as_str())
        },
        SortBy::Version => chars_of(e.sort_name.as_str()),
        _ => Vec::new(),
    }
}

/// Whether entry `a` sorts before entry `b` (given their keys); `None`
/// where a version comparison meets a digit run beyond `u64`.
fn entry_precedes(sort: SortBy, a: &ChildEntry, b: &ChildEntry, ka: &Vec<char>, kb: &Vec<char>) -> (res: Option<bool>)
    requires
        key_of(sort, *a, ka@),
        key_of(sort, *b, kb@),
    ensures
        res matches Some(p) ==> p == precedes(sort, *a, *b),
        res is None ==> sort == SortBy::Version && a.is_dir == b.is_dir && !natural_fits(
            a.sort_name@,
            b.sort_name@,
        ),
        (sort != SortBy::Version || a.is_dir != b.is_dir || natural_fits(a.sort_name@, b.sort_name@))
            ==> res is Some,
{
    match sort {
        SortBy::Name => {
            if a.is_dir != b.is_dir {
                Some(a.is_dir)
            } else {
                Some(chars_less(ka, kb))
            }
        },
        SortBy::Version => {
            if a.is_dir != b.is_dir {
                Some(a.is_dir)
            } else {
                match natural_cmp_chars(ka, kb) {
                    Some(Ordering::Less) => Some(true),
                    Some(_) => Some(false),
                    None => None,
                }
            }
        },
        SortBy::ModTime => Some(a.mtime > b.mtime),
        SortBy::ChangeTime => Some(a.ctime > b.ctime),
        SortBy::Unsorted => Some(false),
    }
}

/// Every index of `r` is placed before those after it (see
/// `placed_before`).
pub open spec fn placed_in_order(sort: SortBy, es: Seq<ChildEntry>, r: Seq<usize>) -> bool {
    forall|i: int, j: int| 0 <= i < j < r.len() ==> placed_before(sort, es, #[trigger] r[i], #[trigger] r[j])
}

proof fn lemma_in_order_is_stable_sort(sort: SortBy, es: Seq<ChildEntry>, k: Seq<usize>, r: Seq<usize>)
    requires
        placed_in_order(sort, es, r),
        r.len() == k.len(),
        forall|x: usize| r.contains(x) <==> k.contains(x),
    ensures
        stable_sort_of(sort, es, k, r),
{
    assert forall|i: int, j: int| 0 <= i < r.len() && 0 <= j < r.len() && i != j implies r[i] != r[j] by {
        if i < j {
            lemma_placed_before_order(sort, es, r[i], r[j], r[j]);
        } else {
            lemma_placed_before_order(sort, es, r[j], r[i], r[i]);
        }
    }
    assert forall|i: int, j: int| 0 <= i < j < r.len() implies !precedes(
        sort,
        #[trigger] es[r[j] as int],
        #[trigger] es[r[i] as int],
    ) && (!precedes(sort, es[r[i] as int], es[r[j] as int]) ==> r[i] < r[j]) by {
        assert(placed_before(sort, es, r[i], r[j]));
        lemma_precedes_laws(sort, es[r[i] as int], es[r[j] as int], es[r[i] as int]);
    }
}

/// Merges two runs placed in order, every index of `a` below every index
/// of `b`, into one run placed in order.  `None` where a version
/// comparison meets a digit run beyond `u64`.
fn merge(sort: SortBy, entries: &Vec<ChildEntry>, keys: &Vec<Vec<char>>, a: &Vec<usize>, b: &Vec<usize>) -> (res:
    Option<Vec<usize>>)
    requires
        keys@.len() == entries@.len(),
        forall|e: int| 0 <= e < entries@.len() ==> key_of(sort, #[trigger] entries@[e], keys@[e]@),
        forall|i: int| 0 <= i < a@.len() ==> #[trigger] a@[i] < entries@.len(),
        forall|i: int| 0 <= i < b@.len() ==> #[trigger] b@[i] < entries@.len(),
        forall|i: int, j: int| 0 <= i < a@.len() && 0 <= j < b@.len() ==> #[trigger] a@[i] < #[trigger] b@[j],
        placed_in_order(sort, entries@, a@),
        placed_in_order(sort, entries@, b@),
    ensures
        res matches Some(r) ==> {
            &&& placed_in_order(sort, entries@, r@)
            &&& r@.len() == a@.len() + b@.len()
            &&& forall|x: usize| r@.contains(x) <==> (a@.contains(x) || b@.contains(x))
        },
        res is None ==> sort == SortBy::Version && exists|i: int, j: int|
            0 <= i < a@.len() && 0 <= j < b@.len() && #[trigger] version_clash(entries@, b@[j], a@[i]),
{
    let ghost es = entries@;
    let mut out: Vec<usize> = Vec::new();
    let mut i: usize = 0;
    let mut j: usize = 0;
    while i < a.len() || j < b.len()
        invariant
            es == entries@,
            keys@.len() == entries@.len(),
            forall|e: int| 0 <= e < entries@.len() ==> key_of(sort, #[trigger] entries@[e], keys@[e]@),
            forall|q: int| 0 <= q < a@.len() ==> #[trigger] a@[q] < entries@.len(),
            forall|q: int| 0 <= q < b@.len() ==> #[trigger] b@[q] < entries@.len(),
            forall|p: int, q: int| 0 <= p < a@.len() && 0 <= q < b@.len() ==> #[trigger] a@[p] < #[trigger] b@[q],
            placed_in_order(sort, es, a@),
            placed_in_order(sort, es, b@),
            i <= a@.len(),
            j <= b@.len(),
            out@.len() == i + j,
            placed_in_order(sort, es, out@),
            forall|x: usize| out@.contains(x) <==> (a@.take(i as int).contains(x) || b@.take(j as int).contains(x)),
            forall|q: int, s: int|
                0 <= q < out@.len() && i <= s < a@.len() ==> placed_before(sort, es, #[trigger] out@[q], #[trigger] a@[s]),
            forall|q: int, s: int|
                0 <= q < out@.len() && j <= s < b@.len() ==> placed_before(sort, es, #[trigger] out@[q], #[trigger] b@[s]),
        decreases a@.len() + b@.len() - i - j,
    {
        let take_b = if i < a.len() && j < b.len() {
            let x = a[i];
            let y = b[j];
            match entry_precedes(sort, &entries[y], &entries[x], &keys[y], &keys[x]) {
                None => {
                    assert(version_clash(es, b@[j as int], a@[i as int]));
                    return None;
                },
                Some(p) => p,
            }
        } else {
            i >= a.len()
        };
        let ghost old_out = out@;
        let ghost old_at = a@.take(i as int);
        let ghost old_bt = b@.take(j as int);
        if take_b {
            let y = b[j];
            proof {
                if i < a@.len() {
                    assert(placed_before(sort, es, y, a@[i as int]));
                }
                assert forall|s: int| i <= s < a@.len() implies placed_before(sort, es, y, #[trigger] a@[s]) by {
                    if s > i {
                        assert(placed_before(sort, es, a@[i as int], a@[s]));
                        lemma_placed_before_order(sort, es, y, a@[i as int], a@[s]);
                    }
                }
                assert forall|s: int| j < s < b@.len() implies placed_before(sort, es, y, #[trigger] b@[s]) by {
                    assert(placed_before(sort, es, b@[j as int], b@[s]));
                }
                assert(b@.take(j + 1) =~= b@.take(j as int).push(y));
            }
            out.push(y);
            j = j + 1;
        } else {
            let x = a[i];
            proof {
                if j < b@.len() {
                    assert(x < b@[j as int]);
                    assert(placed_before(sort, es, x, b@[j as int]));
                }
                assert forall|s: int| j <= s < b@.len() implies placed_before(sort, es, x, #[trigger] b@[s]) by {
                    if s > j {
                        assert(placed_before(sort, es, b@[j as int], b@[s]));
                        lemma_placed_before_order(sort, es, x, b@[j as int], b@[s]);
                    }
                }
                assert forall|s: int| i < s < a@.len() implies placed_before(sort, es, x, #[trigger] a@[s]) by {
                    assert(placed_before(sort, es, a@[i as int], a@[s]));
                }
                assert(a@.take(i + 1) =~= a@.take(i as int).push(x));
            }
            out.push(x);
            i = i + 1;
        }
        proof {
            let n = out@;
            assert(n =~= old_out.push(n[n.len() - 1]));
            assert forall|p: int, q: int| 0 <= p < q < n.len() implies placed_before(
                sort,
                es,
                #[trigger] n[p],
                #[trigger] n[q],
            ) by {
                if q == n.len() - 1 {
                    assert(n[p] == old_out[p]);
                } else {
                    assert(n[p] == old_out[p] && n[q] == old_out[q]);
                }
            }
            let z = n[n.len() - 1];
            let at = a@.take(i as int);
            let bt = b@.take(j as int);
            assert((at == old_at.push(z) && bt == old_bt) || (at == old_at && bt == old_bt.push(z)));
            assert forall|x: usize| n.contains(x) <==> (at.contains(x) || bt.contains(x)) by {
                if at.contains(x) && x != z {
                    let w = choose|w: int| 0 <= w < at.len() && at[w] == x;
                    if at != old_at {
                        assert(old_at[w] == x);
                    }
                    assert(old_at.contains(x));
                }
                if bt.contains(x) && x != z {
                    let w = choose|w: int| 0 <= w < bt.len() && bt[w] == x;
                    if bt != old_bt {
                        assert(old_bt[w] == x);
                    }
                    assert(old_bt.contains(x));
                }
                if old_at.contains(x) {
                    let w = choose|w: int| 0 <= w < old_at.len() && old_at[w] == x;
                    assert(at[w] == x);
                }
                if old_bt.contains(x) {
                    let w = choose|w: int| 0 <= w < old_bt.len() && old_bt[w] == x;
                    assert(bt[w] == x);
                }
                if x == z {
                    assert(n[n.len() - 1] == x);
                    if at != old_at {
                        assert(at[at.len() - 1] == x);
                    } else {
                        assert(bt[bt.len() - 1] == x);
                    }
                }
                if n.contains(x) {
                    let w = choose|w: int| 0 <= w < n.len() && n[w] == x;
                    if w < old_out.len() {
                        assert(old_out[w] == x);
                        assert(old_out.contains(x));
                    }
                }
                if old_out.contains(x) {
                    let w = choose|w: int| 0 <= w < old_out.len() && old_out[w] == x;
                    assert(n[w] == x);
                }
            }
        }
    }
    assert(a@.take(a@.len() as int) =~= a@);
    assert(b@.take(b@.len() as int) =~= b@);
    Some(out)
}

/// The kept indices `k` (increasing) sorted stably by `sort`: a merge
/// sort.  `None` where a version comparison meets a digit run beyond
/// `u64`.
fn merge_sort(sort: SortBy, entries: &Vec<ChildEntry>, keys: &Vec<Vec<char>>, k: Vec<usize>) -> (res: Option<
    Vec<usize>,
>)
    requires
        keys@.len() == entries@.len(),
        forall|e: int| 0 <= e < entries@.len() ==> key_of(sort, #[trigger] entries@[e], keys@[e]@),
        forall|i: int| 0 <= i < k@.len() ==> #[trigger] k@[i] < entries@.len(),
        forall|i: int, j: int| 0 <= i < j < k@.len() ==> #[trigger] k@[i] < #[trigger] k@[j],
    ensures
        res matches Some(r) ==> {
            &&& placed_in_order(sort, entries@, r@)
            &&& r@.len() == k@.len()
            &&& forall|x: usize| r@.contains(x) <==> k@.contains(x)
        },
        res is None ==> sort == SortBy::Version && version_overflow(entries@, k@),
    decreases k@.len(),
{
    let ghost es = entries@;
    let ghost ks = k@;
    if k.len() <= 1 {
        return Some(k);
    }
    let mut left = k;
    let m = left.len() / 2;
    let right = left.split_off(m);
    assert(left@ =~= ks.take(m as int));
    assert(right@ =~= ks.skip(m as int));
    proof {
        assert forall|i: int, j: int| 0 <= i < j < left@.len() implies #[trigger] left@[i] < #[trigger] left@[j] by {
            assert(left@[i] == ks[i] && left@[j] == ks[j]);
        }
        assert forall|i: int, j: int| 0 <= i < j < right@.len() implies #[trigger] right@[i] < #[trigger] right@[j] by {
            assert(right@[i] == ks[i + m] && right@[j] == ks[j + m]);
        }
        assert forall|i: int| 0 <= i < left@.len() implies #[trigger] left@[i] < entries@.len() by {
            assert(left@[i] == ks[i]);
        }
        assert forall|i: int| 0 <= i < right@.len() implies #[trigger] right@[i] < entries@.len() by {
            assert(right@[i] == ks[i + m]);
        }
    }
    let ghost lv = left@;
    let ghost rv = right@;
    let ls = match merge_sort(sort, entries, keys, left) {
        None => {
            proof {
                let (i, j) = choose|i: int, j: int| 0 <= i < lv.len() && 0 <= j < lv.len() && #[trigger] version_clash(es, lv[i], lv[j]);
                assert(lv[i] == ks[i] && lv[j] == ks[j]);
                assert(version_clash(es, ks[i], ks[j]));
            }
            return None;
        },
        Some(r) => r,
    };
    let rs = match merge_sort(sort, entries, keys, right) {
        None => {
            proof {
                let (i, j) = choose|i: int, j: int| 0 <= i < rv.len() && 0 <= j < rv.len() && #[trigger] version_clash(es, rv[i], rv[j]);
                assert(rv[i] == ks[i + m] && rv[j] == ks[j + m]);
                assert(version_clash(es, ks[i + m], ks[j + m]));
            }
            return None;
        },
        Some(r) => r,
    };
    proof {
        assert forall|i: int| 0 <= i < ls@.len() implies #[trigger] ls@[i] < entries@.len() && exists|w: int| 0 <= w < m && ks[w] == ls@[i] by {
            assert(ls@.contains(ls@[i]));
            let w = choose|w: int| 0 <= w < lv.len() && lv[w] == ls@[i];
            assert(ks[w] == lv[w]);
        }
        assert forall|j: int| 0 <= j < rs@.len() implies #[trigger] rs@[j] < entries@.len() && exists|v: int| m <= v < ks.len() && ks[v] == rs@[j] by {
            assert(rs@.contains(rs@[j]));
            let w = choose|w: int| 0 <= w < rv.len() && rv[w] == rs@[j];
            assert(ks[w + m] == rv[w]);
        }
        assert forall|i: int, j: int| 0 <= i < ls@.len() && 0 <= j < rs@.len() implies #[trigger] ls@[i] < #[trigger] rs@[j] by {
            let w = choose|w: int| 0 <= w < m && ks[w] == ls@[i];
            let v = choose|v: int| m <= v < ks.len() && ks[v] == rs@[j];
        }
    }
    match merge(sort, entries, keys, &ls, &rs) {
        None => {
            proof {
                let (i, j) = choose|i: int, j: int| 0 <= i < ls@.len() && 0 <= j < rs@.len() && #[trigger] version_clash(es, rs@[j], ls@[i]);
                let w = choose|w: int| 0 <= w < m && ks[w] == ls@[i];
                let v = choose|v: int| m <= v < ks.len() && ks[v] == rs@[j];
                assert(version_clash(es, ks[v], ks[w]));
            }
            None
        },
        Some(r) => {
            proof {
                assert forall|x: usize| r@.contains(x) <==> ks.contains(x) by {
                    if lv.contains(x) {
                        let w = choose|w: int| 0 <= w < lv.len() && lv[w] == x;
                        assert(ks[w] == x);
                    }
                    if rv.contains(x) {
                        let w = choose|w: int| 0 <= w < rv.len() && rv[w] == x;
                        assert(ks[w + m] == x);
                    }
                    if ks.contains(x) {
                        let w = choose|w: int| 0 <= w < ks.len() && ks[w] == x;
                        if w < m {
                            assert(lv[w] == x);
                        } else {
                            assert(rv[w - m] == x);
                        }
                    }
                }
            }
            Some(r)
        },
    }
}

/// `s` in reverse order.
fn reversed_vec(s: &Vec<usize>) -> (res: Vec<usize>)
    ensures
        res@ == s@.reverse(),
{
    let mut out: Vec<usize> = Vec::new();
    let mut i = s.len();
    while i > 0
        invariant
            i <= s@.len(),
            out@ =~= s@.subrange(i as int, s@.len() as int).reverse(),
        decreases i,
    {
        i = i - 1;
        out.push(s[i]);
        assert(s@.subrange(i as int, s@.len() as int).reverse() =~= s@.subrange(
            i + 1,
            s@.len() as int,
        ).reverse().push(s@[i as int]));
    }
    assert(s@.subrange(0, s@.len() as int) =~= s@);
    out
}

/// The order in which the entries of a directory are shown: the indices
/// of the kept entries (see `keeps`), sorted stably by `opts.sort`, then
/// reversed with `opts.reverse`.  `None` only for a version sort that
/// meets two names whose digit runs exceed `u64`.
pub fn order_children(entries: &Vec<ChildEntry>, opts: &WalkOpts) -> (res: Option<Vec<usize>>)
    ensures
        res matches Some(r) ==> stable_sort_of(
            opts.sort,
            entries@,
            kept(entries@, *opts),
            if opts.reverse {
                r@.reverse()
            } else {
                r@
            },
        ),
        res is None ==> opts.sort == SortBy::Version && version_overflow(entries@, kept(entries@, *opts)),
        (opts.sort != SortBy::Version || !version_overflow(entries@, kept(entries@, *opts))) ==> res is Some,
{
    let k = kept_indices(entries, opts);
    proof {
        lemma_kept_upto(entries@, *opts, entries@.len());
    }
    let mut keys: Vec<Vec<char>> = Vec::new();
    for e in 0..entries.len()
        invariant
            keys@.len() == e,
            forall|j: int| 0 <= j < e ==> key_of(opts.sort, #[trigger] entries@[j], keys@[j]@),
    {
        keys.push(sort_key(opts.sort, &entries[e]));
    }
    match merge_sort(opts.sort, entries, &keys, k) {
        None => None,
        Some(r) => {
            proof {
                lemma_in_order_is_stable_sort(opts.sort, entries@, kept(entries@, *opts), r@);
            }
            if opts.reverse {
                let rr = reversed_vec(&r);
                assert(rr@.reverse() =~= r@);
                Some(rr)
            } else {
                Some(r)
            }
        },
    }
}

} // verus!
