use vstd::prelude::*;
use crate::records::FileMeta;
use crate::strutil::{is_prefix, path_join, strictly_under, under_root};

verus! {

/// One filesystem entry as the walker observed it: its name inside the
/// parent directory, its canonical absolute path, its metadata, and — when
/// it is a directory — its own listing.
pub struct SnapEntry {
    pub name: String,
    pub full_path: String,
    pub meta: FileMeta,
    pub entries: Vec<SnapEntry>,
}

/// A directory-entry name: nonempty and free of separators.
pub open spec fn name_ok(n: Seq<char>) -> bool {
    n.len() > 0 && forall|i: int| 0 <= i < n.len() ==> n[i] != '/'
}

/// Well-formed observation of one entry under the directory `parent_full`:
/// the absolute path continues the parent's, files and symbolic links carry
/// no listing, and the listing below is itself well formed.
pub open spec fn entry_wf(e: SnapEntry, parent_full: Seq<char>) -> bool
    decreases e,
{
    &&& name_ok(e.name@)
    &&& e.full_path@ == path_join(parent_full, e.name@)
    &&& (!e.meta.is_dir ==> e.entries@.len() == 0)
    &&& (e.meta.is_symlink ==> e.entries@.len() == 0)
    &&& entries_wf(e.entries@, e.full_path@)
}

/// Well-formed listing of the directory `parent_full`: every entry is well
/// formed and sibling names are pairwise distinct.
pub open spec fn entries_wf(es: Seq<SnapEntry>, parent_full: Seq<char>) -> bool
    decreases es,
{
    &&& forall|i: int| 0 <= i < es.len() ==> entry_wf(#[trigger] es[i], parent_full)
    &&& forall|i: int, j: int|
        0 <= i < j < es.len() ==> (#[trigger] es[i].name@) != (#[trigger] es[j].name@)
}

/// An observed entry that the indexer keeps: symbolic links are skipped, and
/// so is the thumbnail store itself.
pub open spec fn entry_live(e: SnapEntry, tdir: Seq<char>) -> bool {
    !e.meta.is_symlink && e.full_path@ != tdir
}

/// The table key of an entry named `name` under the relative prefix
/// `prefix` (empty at the served root).
pub open spec fn key_of(prefix: Seq<char>, name: Seq<char>) -> Seq<char> {
    if prefix.len() == 0 {
        name
    } else {
        path_join(prefix, name)
    }
}

/// How many live entries one observed entry contributes transitively:
/// itself plus everything below it.
pub open spec fn entry_contrib(e: SnapEntry, tdir: Seq<char>) -> int
    decreases e,
{
    if entry_live(e, tdir) {
        1 + subtree_count(e.entries@, tdir)
    } else {
        0
    }
}

/// Total number of live entries transitively contained in a listing.
pub open spec fn subtree_count(es: Seq<SnapEntry>, tdir: Seq<char>) -> int
    decreases es,
{
    if es.len() == 0 {
        0
    } else {
        subtree_count(es.drop_last(), tdir) + entry_contrib(es.last(), tdir)
    }
}

/// Number of live entries directly in a listing.
pub open spec fn live_count(es: Seq<SnapEntry>, tdir: Seq<char>) -> int
    decreases es,
{
    if es.len() == 0 {
        0
    } else {
        live_count(es.drop_last(), tdir) + if entry_live(es.last(), tdir) {
            1int
        } else {
            0int
        }
    }
}

/// The keys of the live entries directly in a listing, in order.
pub open spec fn live_child_keys(es: Seq<SnapEntry>, prefix: Seq<char>, tdir: Seq<char>) -> Seq<
    Seq<char>,
>
    decreases es,
{
    if es.len() == 0 {
        Seq::empty()
    } else {
        live_child_keys(es.drop_last(), prefix, tdir) + if entry_live(es.last(), tdir) {
            seq![key_of(prefix, es.last().name@)]
        } else {
            Seq::<Seq<char>>::empty()
        }
    }
}

/// All keys one live entry contributes: its own and its subtree's.
pub open spec fn entry_keys(e: SnapEntry, prefix: Seq<char>, tdir: Seq<char>) -> Set<Seq<char>>
    decreases e,
{
    if entry_live(e, tdir) {
        snap_keys(e.entries@, key_of(prefix, e.name@), tdir).insert(key_of(prefix, e.name@))
    } else {
        Set::empty()
    }
}

/// All keys a listing contributes transitively.
pub open spec fn snap_keys(es: Seq<SnapEntry>, prefix: Seq<char>, tdir: Seq<char>) -> Set<
    Seq<char>,
>
    decreases es,
{
    if es.len() == 0 {
        Set::empty()
    } else {
        snap_keys(es.drop_last(), prefix, tdir) + entry_keys(es.last(), prefix, tdir)
    }
}

pub proof fn lemma_entry_contrib_nonneg(e: SnapEntry, tdir: Seq<char>)
    ensures
        entry_contrib(e, tdir) >= 0,
    decreases e,
{
    if entry_live(e, tdir) {
        lemma_subtree_count_nonneg(e.entries@, tdir);
    }
}

pub proof fn lemma_subtree_count_nonneg(es: Seq<SnapEntry>, tdir: Seq<char>)
    ensures
        subtree_count(es, tdir) >= 0,
    decreases es,
{
    if es.len() > 0 {
        lemma_subtree_count_nonneg(es.drop_last(), tdir);
        lemma_entry_contrib_nonneg(es.last(), tdir);
    }
}

/// One element's contribution never exceeds the whole listing's count.
pub proof fn lemma_contrib_le(es: Seq<SnapEntry>, tdir: Seq<char>, i: int)
    requires
        0 <= i < es.len(),
    ensures
        entry_contrib(es[i], tdir) <= subtree_count(es, tdir),
    decreases es,
{
    if i == es.len() - 1 {
        lemma_subtree_count_nonneg(es.drop_last(), tdir);
    } else {
        lemma_contrib_le(es.drop_last(), tdir, i);
        lemma_entry_contrib_nonneg(es.last(), tdir);
        assert(es.drop_last()[i] == es[i]);
    }
}

/// Counts of prefixes of a listing never exceed the whole listing's count.
pub proof fn lemma_subtree_count_prefix(es: Seq<SnapEntry>, tdir: Seq<char>, i: int)
    requires
        0 <= i <= es.len(),
    ensures
        subtree_count(es.subrange(0, i), tdir) <= subtree_count(es, tdir),
    decreases es.len() - i,
{
    if i == es.len() {
        assert(es.subrange(0, i) =~= es);
    } else {
        lemma_subtree_count_prefix(es, tdir, i + 1);
        assert(es.subrange(0, i + 1).drop_last() =~= es.subrange(0, i));
        assert(es.subrange(0, i + 1).last() == es[i]);
        lemma_entry_contrib_nonneg(es[i], tdir);
    }
}

/// There are as many live child keys as live children.
pub proof fn lemma_live_child_keys_len(es: Seq<SnapEntry>, prefix: Seq<char>, tdir: Seq<char>)
    ensures
        live_child_keys(es, prefix, tdir).len() == live_count(es, tdir),
    decreases es,
{
    if es.len() > 0 {
        lemma_live_child_keys_len(es.drop_last(), prefix, tdir);
    }
}

/// A listing never holds fewer entries transitively than directly.
pub proof fn lemma_live_le_subtree(es: Seq<SnapEntry>, tdir: Seq<char>)
    ensures
        live_count(es, tdir) <= subtree_count(es, tdir),
        live_count(es, tdir) >= 0,
    decreases es,
{
    if es.len() > 0 {
        lemma_live_le_subtree(es.drop_last(), tdir);
        if entry_live(es.last(), tdir) {
            lemma_subtree_count_nonneg(es.last().entries@, tdir);
            assert(entry_contrib(es.last(), tdir) >= 1);
        } else {
            assert(entry_contrib(es.last(), tdir) == 0);
        }
        assert(live_count(es, tdir) == live_count(es.drop_last(), tdir) + if entry_live(
            es.last(),
            tdir,
        ) {
            1int
        } else {
            0int
        });
    }
}

/// Every live child key names one of the listing's live entries.
pub proof fn lemma_live_child_keys_mem(
    es: Seq<SnapEntry>,
    prefix: Seq<char>,
    tdir: Seq<char>,
    j: int,
)
    requires
        0 <= j < live_child_keys(es, prefix, tdir).len(),
    ensures
        exists|x: int|
            0 <= x < es.len() && entry_live(#[trigger] es[x], tdir) && live_child_keys(
                es,
                prefix,
                tdir,
            )[j] == key_of(prefix, es[x].name@),
    decreases es,
{
    let pre = live_child_keys(es.drop_last(), prefix, tdir);
    if j < pre.len() {
        lemma_live_child_keys_mem(es.drop_last(), prefix, tdir, j);
        let x = choose|x: int|
            0 <= x < es.drop_last().len() && entry_live(#[trigger] es.drop_last()[x], tdir)
                && pre[j] == key_of(prefix, es.drop_last()[x].name@);
        assert(es.drop_last()[x] == es[x]);
        assert(entry_live(es[x], tdir) && live_child_keys(es, prefix, tdir)[j] == key_of(
            prefix,
            es[x].name@,
        ));
    } else {
        assert(entry_live(es.last(), tdir));
        assert(es[es.len() - 1] == es.last());
        assert(entry_live(es[es.len() - 1], tdir) && live_child_keys(es, prefix, tdir)[j]
            == key_of(prefix, es[es.len() - 1].name@));
    }
}

/// The key sets a snapshot contributes are finite.
pub proof fn lemma_entry_keys_finite(e: SnapEntry, prefix: Seq<char>, tdir: Seq<char>)
    ensures
        entry_keys(e, prefix, tdir).finite(),
    decreases e,
{
    if entry_live(e, tdir) {
        lemma_snap_keys_finite(e.entries@, key_of(prefix, e.name@), tdir);
    }
}

pub proof fn lemma_snap_keys_finite(es: Seq<SnapEntry>, prefix: Seq<char>, tdir: Seq<char>)
    ensures
        snap_keys(es, prefix, tdir).finite(),
    decreases es,
{
    if es.len() > 0 {
        lemma_snap_keys_finite(es.drop_last(), prefix, tdir);
        lemma_entry_keys_finite(es.last(), prefix, tdir);
    }
}

/// Every key an entry contributes is the entry's own key or lies strictly
/// under it.
pub proof fn lemma_entry_keys_shape(e: SnapEntry, prefix: Seq<char>, tdir: Seq<char>, k: Seq<char>)
    requires
        entry_keys(e, prefix, tdir).contains(k),
        prefix.len() > 0 || e.name@.len() > 0,
    ensures
        under_root(key_of(prefix, e.name@), k),
    decreases e,
{
    let my = key_of(prefix, e.name@);
    assert(my.len() > 0);
    if k != my {
        lemma_snap_keys_shape(e.entries@, my, tdir, k);
        let i = choose|i: int|
            0 <= i < e.entries@.len() && entry_keys(#[trigger] e.entries@[i], my, tdir).contains(k);
        let ck = key_of(my, e.entries@[i].name@);
        lemma_entry_keys_shape(e.entries@[i], my, tdir, k);
        crate::strutil::lemma_prefix_extend(my + seq!['/'], e.entries@[i].name@);
        assert((my + seq!['/']) + e.entries@[i].name@ =~= path_join(my, e.entries@[i].name@));
        assert(strictly_under(my, ck));
        if k == ck {
        } else {
            crate::strutil::lemma_under_trans(my, ck, k);
        }
    }
}

/// Every key a listing contributes comes from one of its entries.
pub proof fn lemma_snap_keys_shape(
    es: Seq<SnapEntry>,
    prefix: Seq<char>,
    tdir: Seq<char>,
    k: Seq<char>,
)
    requires
        snap_keys(es, prefix, tdir).contains(k),
    ensures
        exists|i: int|
            0 <= i < es.len() && entry_keys(#[trigger] es[i], prefix, tdir).contains(k),
    decreases es,
{
    if es.len() > 0 {
        if entry_keys(es.last(), prefix, tdir).contains(k) {
            assert(entry_keys(es[es.len() - 1], prefix, tdir).contains(k));
        } else {
            lemma_snap_keys_shape(es.drop_last(), prefix, tdir, k);
            let i = choose|i: int|
                0 <= i < es.drop_last().len() && entry_keys(
                    #[trigger] es.drop_last()[i],
                    prefix,
                    tdir,
                ).contains(k);
            assert(es.drop_last()[i] == es[i]);
            assert(entry_keys(es[i], prefix, tdir).contains(k));
        }
    }
}

/// Keys under two differently named siblings never coincide.
pub proof fn lemma_sibling_keys_disjoint(
    prefix: Seq<char>,
    a: Seq<char>,
    b: Seq<char>,
    k: Seq<char>,
)
    requires
        name_ok(a),
        name_ok(b),
        a != b,
    ensures
        !(under_root(key_of(prefix, a), k) && under_root(key_of(prefix, b), k)),
{
    let ka = key_of(prefix, a);
    let kb = key_of(prefix, b);
    if !(under_root(ka, k) && under_root(kb, k)) {
    } else if ka.len() == kb.len() {
        assert(is_prefix(ka, k) && is_prefix(kb, k)) by {
            if k == ka {
                assert(k.subrange(0, ka.len() as int) =~= ka);
            } else {
                crate::strutil::lemma_prefix_shorter(ka, seq!['/'], k);
            }
            if k == kb {
                assert(k.subrange(0, kb.len() as int) =~= kb);
            } else {
                crate::strutil::lemma_prefix_shorter(kb, seq!['/'], k);
            }
        }
        assert(ka =~= kb);
        assert(a =~= b) by {
            assert forall|i: int| 0 <= i < a.len() implies a[i] == b[i] by {
                if prefix.len() > 0 {
                    assert(ka[prefix.len() + 1 + i] == a[i]);
                    assert(kb[prefix.len() + 1 + i] == b[i]);
                }
            }
        }
    } else {
        let (shorter, longer, sn, ln) = if ka.len() < kb.len() {
            (ka, kb, a, b)
        } else {
            (kb, ka, b, a)
        };
        // `k` continues `shorter` with a separator, and `longer` is a prefix
        // of `k` reaching past that separator; the separator then falls
        // inside the name of the longer key, which holds none.
        assert(k != shorter) by {
            if k == shorter {
                if k == longer {
                } else {
                    crate::strutil::lemma_prefix_shorter(longer, seq!['/'], k);
                }
            }
        }
        assert(is_prefix(shorter + seq!['/'], k));
        assert(k[shorter.len() as int] == '/') by {
            assert(k.subrange(0, shorter.len() as int + 1)[shorter.len() as int] == '/');
        }
        assert(is_prefix(longer, k)) by {
            if k == longer {
                assert(k.subrange(0, longer.len() as int) =~= longer);
            } else {
                crate::strutil::lemma_prefix_shorter(longer, seq!['/'], k);
            }
        }
        assert(longer[shorter.len() as int] == '/') by {
            assert(k.subrange(0, longer.len() as int)[shorter.len() as int] == longer[shorter.len() as int]);
        }
        if prefix.len() == 0 {
            assert(longer[shorter.len() as int] == ln[shorter.len() as int]);
        } else {
            assert(longer[prefix.len() + 1 + (shorter.len() - prefix.len() - 1)] == ln[shorter.len()
                - prefix.len() - 1]);
        }
    }
}

/// Whether the walker keeps this entry.
pub fn entry_live_exec(e: &SnapEntry, tdir: &String) -> (r: bool)
    ensures
        r == entry_live(*e, tdir@),
{
    !e.meta.is_symlink && !(e.full_path == *tdir)
}

/// Checks that a name is nonempty and free of separators.
fn check_name(n: &str) -> (r: bool)
    ensures
        r == name_ok(n@),
{
    let len = n.unicode_len();
    if len == 0 {
        return false;
    }
    let mut i: usize = 0;
    while i < len
        invariant
            i <= len,
            len == n@.len(),
            forall|k: int| 0 <= k < i ==> n@[k] != '/',
        decreases len - i,
    {
        if n.get_char(i) == '/' {
            return false;
        }
        i += 1;
    }
    true
}

/// Checks that a listing is a well-formed observation of the directory
/// `parent_full`.
pub fn snapshot_wf(es: &Vec<SnapEntry>, parent_full: &String) -> (r: bool)
    ensures
        r == entries_wf(es@, parent_full@),
    decreases es@,
{
    let n = es.len();
    let mut i: usize = 0;
    while i < n
        invariant
            i <= n,
            n == es@.len(),
            forall|a: int, b: int| 0 <= a < i && a < b < n ==> es@[a].name@ != es@[b].name@,
        decreases n - i,
    {
        let mut j: usize = i + 1;
        while j < n
            invariant
                i < j <= n,
                n == es@.len(),
                forall|b: int| i < b < j ==> es@[i as int].name@ != es@[b].name@,
            decreases n - j,
        {
            if es[i].name == es[j].name {
                return false;
            }
            j += 1;
        }
        i += 1;
    }
    assert(forall|a: int, b: int| 0 <= a < b < n ==> es@[a].name@ != es@[b].name@);
    let mut i: usize = 0;
    while i < n
        invariant
            i <= n,
            n == es@.len(),
            forall|a: int, b: int| 0 <= a < b < n ==> es@[a].name@ != es@[b].name@,
            forall|a: int| 0 <= a < i ==> entry_wf(#[trigger] es@[a], parent_full@),
        decreases n - i,
    {
        let e = &es[i];
        if !check_name(e.name.as_str()) {
            return false;
        }
        let expected = crate::strutil::join_path(parent_full.as_str(), e.name.as_str());
        if !(e.full_path == expected) {
            return false;
        }
        if !e.meta.is_dir && e.entries.len() > 0 {
            return false;
        }
        if e.meta.is_symlink && e.entries.len() > 0 {
            return false;
        }
        proof {
            assert(decreases_to!(es@ => es@[i as int]));
            assert(decreases_to!(es@[i as int] => es@[i as int].entries));
            assert(decreases_to!(es@[i as int].entries => es@[i as int].entries@));
        }
        if !snapshot_wf(&e.entries, &e.full_path) {
            return false;
        }
        i += 1;
    }
    true
}

/// Counts the live entries a snapshot holds transitively; `None` when the
/// count does not fit a machine word.
pub fn count_snapshot(es: &Vec<SnapEntry>, tdir: &String) -> (r: Option<u64>)
    ensures
        match r {
            Some(c) => c == subtree_count(es@, tdir@),
            None => subtree_count(es@, tdir@) > u64::MAX,
        },
    decreases es@,
{
    let n = es.len();
    let mut total: u64 = 0;
    let mut i: usize = 0;
    assert(es@.subrange(0, 0) =~= Seq::<SnapEntry>::empty());
    while i < n
        invariant
            i <= n,
            n == es@.len(),
            total == subtree_count(es@.subrange(0, i as int), tdir@),
        decreases n - i,
    {
        proof {
            assert(es@.subrange(0, i as int + 1).drop_last() =~= es@.subrange(0, i as int));
            assert(es@.subrange(0, i as int + 1).last() == es@[i as int]);
        }
        let e = &es[i];
        if entry_live_exec(e, tdir) {
            proof {
                assert(decreases_to!(es@ => es@[i as int]));
                assert(decreases_to!(es@[i as int] => es@[i as int].entries));
                assert(decreases_to!(es@[i as int].entries => es@[i as int].entries@));
            }
            let below = count_snapshot(&e.entries, tdir);
            match below {
                None => {
                    proof {
                        lemma_contrib_le(es@, tdir@, i as int);
                    }
                    return None;
                },
                Some(c) => {
                    proof {
                        lemma_contrib_le(es@, tdir@, i as int);
                    }
                    if c == u64::MAX {
                        return None;
                    }
                    let here: u64 = 1 + c;
                    proof {
                        lemma_subtree_count_prefix(es@, tdir@, i as int + 1);
                        lemma_subtree_count_nonneg(es@.subrange(0, i as int), tdir@);
                        crate::snapshot::lemma_prefix_plus_contrib(es@, tdir@, i as int);
                    }
                    if total > u64::MAX - here {
                        return None;
                    }
                    total = total + here;
                    assert(total == subtree_count(es@.subrange(0, i as int + 1), tdir@));
                },
            }
        } else {
            assert(entry_contrib(es@[i as int], tdir@) == 0);
            assert(total == subtree_count(es@.subrange(0, i as int + 1), tdir@));
        }
        i += 1;
    }
    assert(es@.subrange(0, n as int) =~= es@);
    Some(total)
}

/// A prefix's count plus the next element's contribution is the longer
/// prefix's count.
pub proof fn lemma_prefix_plus_contrib(es: Seq<SnapEntry>, tdir: Seq<char>, i: int)
    requires
        0 <= i < es.len(),
    ensures
        subtree_count(es.subrange(0, i + 1), tdir) == subtree_count(es.subrange(0, i), tdir)
            + entry_contrib(es[i], tdir),
{
    assert(es.subrange(0, i + 1).drop_last() =~= es.subrange(0, i));
    assert(es.subrange(0, i + 1).last() == es[i]);
}

} // verus!
