use vstd::prelude::*;
use crate::paths::request_key_view;
use crate::records::RecordView;
use crate::scan::{entry_ok, snap_failed_keys, subtree_ok, thumb_failed, ScanCtx};
use crate::snapshot::{
    entries_wf, entry_contrib, entry_keys, entry_live, entry_wf, key_of, snap_keys as keys_of,
    subtree_count, SnapEntry,
};
use crate::strutil::{strictly_under, under_root};

verus! {

/// Containment: however a request path is crafted — parent segments,
/// percent-encoded or not — resolution only produces a key to look up, and
/// a table whose records all point inside the served root can then only
/// answer with a path inside the served root. Keys are only ever inserted
/// by the indexer from canonicalized, prefix-verified paths, so the
/// hypothesis is exactly what a scan pass guarantees.
pub proof fn lemma_containment(
    m: Map<Seq<char>, RecordView>,
    file_dir: Seq<char>,
    page_root: Seq<char>,
    root_key: Seq<char>,
    uri_path: Seq<char>,
)
    requires
        forall|k: Seq<char>|
            m.contains_key(k) ==> under_root(file_dir, #[trigger] m[k].full_path),
    ensures
        match request_key_view(page_root, root_key, uri_path) {
            Some(key) => m.contains_key(key) ==> under_root(file_dir, m[key].full_path),
            None => true,
        },
{
}

/// A well-formed listing with the last entry dropped is still well formed.
proof fn lemma_wf_drop_last(es: Seq<SnapEntry>, parent_full: Seq<char>)
    requires
        entries_wf(es, parent_full),
        es.len() > 0,
    ensures
        entries_wf(es.drop_last(), parent_full),
{
    assert forall|i: int| 0 <= i < es.drop_last().len() implies entry_wf(
        #[trigger] es.drop_last()[i],
        parent_full,
    ) by {
        assert(es.drop_last()[i] == es[i]);
        assert(entry_wf(es[i], parent_full));
    }
    assert forall|i: int, j: int| 0 <= i < j < es.drop_last().len() implies (
    #[trigger] es.drop_last()[i].name@) != (#[trigger] es.drop_last()[j].name@) by {
        assert(es.drop_last()[i] == es[i] && es.drop_last()[j] == es[j]);
    }
}

/// An entry's own key never sits inside its subtree.
proof fn lemma_own_key_not_below(e: SnapEntry, prefix: Seq<char>, tdir: Seq<char>, k: Seq<char>)
    requires
        crate::snapshot::snap_keys(e.entries@, key_of(prefix, e.name@), tdir).contains(k),
        prefix.len() > 0 || e.name@.len() > 0,
    ensures
        k != key_of(prefix, e.name@),
{
    let my = key_of(prefix, e.name@);
    assert(my.len() > 0);
    crate::snapshot::lemma_snap_keys_shape(e.entries@, my, tdir, k);
    let i = choose|i: int|
        0 <= i < e.entries@.len() && entry_keys(#[trigger] e.entries@[i], my, tdir).contains(k);
    crate::snapshot::lemma_entry_keys_shape(e.entries@[i], my, tdir, k);
    let ck = key_of(my, e.entries@[i].name@);
    crate::strutil::lemma_prefix_extend(my + seq!['/'], e.entries@[i].name@);
    assert((my + seq!['/']) + e.entries@[i].name@ =~= ck);
    assert(strictly_under(my, ck));
    if k == ck {
    } else {
        crate::strutil::lemma_under_trans(my, ck, k);
    }
    assert(strictly_under(my, k));
}

/// How many keys one entry contributes: exactly itself and its live
/// descendants.
pub proof fn lemma_entry_keys_card(
    e: SnapEntry,
    prefix: Seq<char>,
    tdir: Seq<char>,
    parent_full: Seq<char>,
)
    requires
        entry_wf(e, parent_full),
    ensures
        entry_keys(e, prefix, tdir).finite(),
        entry_keys(e, prefix, tdir).len() == entry_contrib(e, tdir),
    decreases e,
{
    crate::snapshot::lemma_entry_keys_finite(e, prefix, tdir);
    if entry_live(e, tdir) {
        let my = key_of(prefix, e.name@);
        lemma_snap_keys_card(e.entries@, my, tdir, e.full_path@);
        assert(!crate::snapshot::snap_keys(e.entries@, my, tdir).contains(my)) by {
            if crate::snapshot::snap_keys(e.entries@, my, tdir).contains(my) {
                lemma_own_key_not_below(e, prefix, tdir, my);
            }
        }
    }
}

/// How many keys a listing contributes: exactly its transitive live count.
pub proof fn lemma_snap_keys_card(
    es: Seq<SnapEntry>,
    prefix: Seq<char>,
    tdir: Seq<char>,
    parent_full: Seq<char>,
)
    requires
        entries_wf(es, parent_full),
    ensures
        keys_of(es, prefix, tdir).finite(),
        keys_of(es, prefix, tdir).len() == subtree_count(es, tdir),
    decreases es,
{
    crate::snapshot::lemma_snap_keys_finite(es, prefix, tdir);
    if es.len() > 0 {
        lemma_wf_drop_last(es, parent_full);
        lemma_snap_keys_card(es.drop_last(), prefix, tdir, parent_full);
        assert(entry_wf(es.last(), parent_full));
        lemma_entry_keys_card(es.last(), prefix, tdir, parent_full);
        let a = keys_of(es.drop_last(), prefix, tdir);
        let b = entry_keys(es.last(), prefix, tdir);
        assert(a.disjoint(b)) by {
            assert forall|k: Seq<char>| a.contains(k) implies !b.contains(k) by {
                crate::snapshot::lemma_snap_keys_shape(es.drop_last(), prefix, tdir, k);
                let j = choose|j: int|
                    0 <= j < es.drop_last().len() && entry_keys(
                        #[trigger] es.drop_last()[j],
                        prefix,
                        tdir,
                    ).contains(k);
                assert(es.drop_last()[j] == es[j]);
                assert(es[j].name@ != es.last().name@);
                crate::scan::lemma_two_entries_keys_disjoint(es[j], es.last(), prefix, tdir, k);
            }
        }
        vstd::set_lib::lemma_set_disjoint_lens(a, b);
    }
}

/// Garbage collection is exact: removing one entry from a listing and
/// rescanning removes exactly that entry's key and its subtree's keys from
/// the observed key set — nothing of any sibling — and their number is one
/// more than the removed directory's transitive live count.
pub proof fn lemma_garbage_collection(
    es: Seq<SnapEntry>,
    parent_full: Seq<char>,
    prefix: Seq<char>,
    tdir: Seq<char>,
    i: int,
)
    requires
        entries_wf(es, parent_full),
        0 <= i < es.len(),
    ensures
        keys_of(es.remove(i), prefix, tdir) == keys_of(es, prefix, tdir).difference(
            entry_keys(es[i], prefix, tdir),
        ),
        entry_live(es[i], tdir) ==> entry_keys(es[i], prefix, tdir).len() == 1 + subtree_count(
            es[i].entries@,
            tdir,
        ),
    decreases es,
{
    assert(entry_wf(es[i], parent_full));
    lemma_entry_keys_card(es[i], prefix, tdir, parent_full);
    if i == es.len() - 1 {
        assert(es.remove(i) =~= es.drop_last());
        lemma_wf_drop_last(es, parent_full);
        assert(keys_of(es.remove(i), prefix, tdir) =~= keys_of(es, prefix, tdir).difference(
            entry_keys(es[i], prefix, tdir),
        )) by {
            assert forall|k: Seq<char>| keys_of(es.drop_last(), prefix, tdir).contains(k) implies !entry_keys(
                es[i],
                prefix,
                tdir,
            ).contains(k) by {
                crate::snapshot::lemma_snap_keys_shape(es.drop_last(), prefix, tdir, k);
                let j = choose|j: int|
                    0 <= j < es.drop_last().len() && entry_keys(
                        #[trigger] es.drop_last()[j],
                        prefix,
                        tdir,
                    ).contains(k);
                assert(es.drop_last()[j] == es[j]);
                crate::scan::lemma_two_entries_keys_disjoint(es[j], es[i], prefix, tdir, k);
            }
        }
    } else {
        lemma_wf_drop_last(es, parent_full);
        lemma_garbage_collection(es.drop_last(), parent_full, prefix, tdir, i);
        assert(es.drop_last()[i] == es[i]);
        assert(es.remove(i).drop_last() =~= es.drop_last().remove(i));
        assert(es.remove(i).last() == es.last());
        assert(keys_of(es.remove(i), prefix, tdir) == keys_of(es.drop_last().remove(i), prefix, tdir)
            + entry_keys(es.last(), prefix, tdir));
        assert(keys_of(es.remove(i), prefix, tdir) =~= keys_of(es, prefix, tdir).difference(
            entry_keys(es[i], prefix, tdir),
        )) by {
            assert forall|k: Seq<char>| entry_keys(es.last(), prefix, tdir).contains(k) implies !entry_keys(
                es[i],
                prefix,
                tdir,
            ).contains(k) by {
                crate::scan::lemma_two_entries_keys_disjoint(es.last(), es[i], prefix, tdir, k);
            }
        }
    }
}

/// Aggregate correctness: after a pass, a live directory's stored
/// descendant count equals both the recursive live count of the snapshot
/// below it and the number of table keys that lie strictly under its key.
pub proof fn lemma_aggregate_correct(
    m: Map<Seq<char>, RecordView>,
    es: Seq<SnapEntry>,
    parent_full: Seq<char>,
    prefix: Seq<char>,
    ctx: ScanCtx,
    i: int,
)
    requires
        entries_wf(es, parent_full),
        subtree_ok(m, es, prefix, ctx),
        0 <= i < es.len(),
        entry_live(es[i], ctx.tdir),
        subtree_count(es, ctx.tdir) <= u64::MAX,
    ensures
        ({
            let k = key_of(prefix, es[i].name@);
            m.contains_key(k) && m[k].descendant_count() == subtree_count(
                es[i].entries@,
                ctx.tdir,
            ) && m[k].descendant_count() == crate::snapshot::snap_keys(
                es[i].entries@,
                k,
                ctx.tdir,
            ).len()
        }),
{
    let k = key_of(prefix, es[i].name@);
    assert(entry_ok(m, es[i], prefix, ctx));
    assert(entry_wf(es[i], parent_full));
    crate::snapshot::lemma_contrib_le(es, ctx.tdir, i);
    crate::snapshot::lemma_live_le_subtree(es[i].entries@, ctx.tdir);
    crate::snapshot::lemma_live_child_keys_len(es[i].entries@, k, ctx.tdir);
    lemma_snap_keys_card(es[i].entries@, k, ctx.tdir, es[i].full_path@);
}

/// No dangling children: every key a pass puts into a children list — the
/// served root's included — is itself a live key of the table.
pub proof fn lemma_children_live(
    m: Map<Seq<char>, RecordView>,
    es: Seq<SnapEntry>,
    prefix: Seq<char>,
    ctx: ScanCtx,
    j: int,
)
    requires
        subtree_ok(m, es, prefix, ctx),
        0 <= j < crate::snapshot::live_child_keys(es, prefix, ctx.tdir).len(),
    ensures
        m.contains_key(crate::snapshot::live_child_keys(es, prefix, ctx.tdir)[j]),
{
    crate::snapshot::lemma_live_child_keys_mem(es, prefix, ctx.tdir, j);
    let x = choose|x: int|
        0 <= x < es.len() && entry_live(#[trigger] es[x], ctx.tdir) && crate::snapshot::live_child_keys(
            es,
            prefix,
            ctx.tdir,
        )[j] == key_of(prefix, es[x].name@);
    assert(entry_ok(m, es[x], prefix, ctx));
}

/// A thumbnail name is only ever attached to a record when the store
/// already held that file or this very pass reported writing it: a name,
/// once set, is backed by the store or its key is marked broken — never
/// silently absent.
pub proof fn lemma_thumbnail_backed(e: SnapEntry, k: Seq<char>, ctx: ScanCtx, n: Seq<char>)
    requires
        crate::scan::thumb_for(e, k, ctx) == Some(n),
    ensures
        n == crate::thumbs::thumb_name_of(e.full_path@),
        (!ctx.rebuild && ctx.existing.contains(n)) || (ctx.results.contains_key(k)
            && ctx.results[k]),
{
}

/// The resolver's two directions invert each other: a canonical location
/// inside the served root is served under a request path that strips back
/// to exactly that location.
pub proof fn lemma_path_round_trip(file_dir: Seq<char>, page_root: Seq<char>, lp: Seq<char>)
    requires
        page_root.len() > 0,
        page_root[0] == '/',
        under_root(file_dir, lp),
        lp == file_dir || lp.len() > file_dir.len() + 1,
    ensures
        ({
            let sp = if lp == file_dir {
                page_root
            } else if page_root == seq!['/'] {
                seq!['/'] + lp.skip(file_dir.len() as int + 1)
            } else {
                crate::strutil::path_join(page_root, lp.skip(file_dir.len() as int + 1))
            };
            match crate::paths::strip_page_root(page_root, sp) {
                Some(rest) => lp == (if rest.len() == 0 {
                    file_dir
                } else {
                    crate::strutil::path_join(file_dir, rest)
                }),
                None => false,
            }
        }),
{
    if lp == file_dir {
    } else {
        let rest0 = lp.skip(file_dir.len() as int + 1);
        assert(rest0.len() > 0);
        assert(crate::strutil::path_join(file_dir, rest0) =~= lp) by {
            assert(lp.subrange(0, file_dir.len() as int + 1) =~= file_dir + seq!['/']);
        }
        if page_root == seq!['/'] {
            let sp = seq!['/'] + rest0;
            assert(sp != page_root);
            assert(crate::strutil::is_prefix(page_root, sp)) by {
                assert(sp.subrange(0, 1) =~= page_root);
            }
            assert(sp.skip(1) =~= rest0);
        } else {
            let sp = crate::strutil::path_join(page_root, rest0);
            assert(sp != page_root) by {
                assert(sp.len() == page_root.len() + 1 + rest0.len());
            }
            assert(crate::strutil::strictly_under(page_root, sp)) by {
                crate::strutil::lemma_prefix_extend(page_root + seq!['/'], rest0);
            }
            assert(sp.skip(page_root.len() as int + 1) =~= rest0);
        }
    }
}

/// Idempotence: a second pass over an unchanged tree — with the broken
/// markers and the thumbnail store exactly as the first pass left them, and
/// no forced rebuild — assigns every entry the very record the first pass
/// did: every key, thumbnail name and descendant count stays.
#[verifier::rlimit(40)]
pub proof fn lemma_scan_idempotent(
    m: Map<Seq<char>, RecordView>,
    es: Seq<SnapEntry>,
    parent_full: Seq<char>,
    prefix: Seq<char>,
    ctx1: ScanCtx,
    ctx2: ScanCtx,
)
    requires
        entries_wf(es, parent_full),
        subtree_ok(m, es, prefix, ctx1),
        ctx2.tdir == ctx1.tdir,
        !ctx2.rebuild,
        forall|k: Seq<char>|
            #[trigger] keys_of(es, prefix, ctx1.tdir).contains(k) ==> (ctx2.broken.contains(k)
                <==> (ctx1.broken.contains(k) || snap_failed_keys(es, prefix, ctx1).contains(k))),
        forall|n: Seq<char>| #[trigger] ctx1.existing.contains(n) ==> ctx2.existing.contains(n),
        forall|n: Seq<char>|
            #[trigger] crate::scan::snap_success_names(es, prefix, ctx1).contains(n)
                ==> ctx2.existing.contains(n),
    ensures
        subtree_ok(m, es, prefix, ctx2),
    decreases es,
{
    let tdir = ctx1.tdir;
    assert forall|i: int| 0 <= i < es.len() implies entry_ok(m, #[trigger] es[i], prefix, ctx2) by {
        assert(entry_ok(m, es[i], prefix, ctx1));
        assert(entry_wf(es[i], parent_full));
        if entry_live(es[i], tdir) {
            let e = es[i];
            let k = key_of(prefix, e.name@);
            crate::scan::lemma_entry_sub_snap(es, prefix, tdir, i);
            assert(entry_keys(es[i], prefix, tdir).contains(k));
            assert(keys_of(es, prefix, tdir).contains(k));
            assert(snap_failed_keys(es, prefix, ctx1).contains(k) <==> thumb_failed(
                e,
                k,
                ctx1,
            )) by {
                if thumb_failed(e, k, ctx1) {
                    assert(crate::scan::entry_failed_keys(e, prefix, ctx1).contains(k));
                    crate::scan::lemma_entry_failed_sub_snap(es, prefix, ctx1, i);
                }
                if snap_failed_keys(es, prefix, ctx1).contains(k) && !thumb_failed(e, k, ctx1) {
                    crate::scan::lemma_snap_failed_shape(es, prefix, ctx1, k);
                    let j = choose|j: int|
                        0 <= j < es.len() && crate::scan::entry_failed_keys(
                            #[trigger] es[j],
                            prefix,
                            ctx1,
                        ).contains(k);
                    crate::scan::lemma_entry_failed_sub(es[j], prefix, ctx1, k);
                    if j != i {
                        assert(entry_wf(es[j], parent_full));
                        crate::scan::lemma_two_entries_keys_disjoint(
                            es[j],
                            es[i],
                            prefix,
                            tdir,
                            k,
                        );
                    } else {
                        if crate::scan::snap_failed_keys(e.entries@, k, ctx1).contains(k) {
                            crate::scan::lemma_snap_failed_sub(e.entries@, k, ctx1, k);
                            lemma_own_key_not_below(e, prefix, tdir, k);
                        }
                    }
                }
            }
            assert(crate::scan::thumb_for(e, k, ctx2) == crate::scan::thumb_for(e, k, ctx1)) by {
                if !e.meta.is_dir && crate::thumbs::is_thumbnailable_name(e.full_path@) {
                    let nm = crate::thumbs::thumb_name_of(e.full_path@);
                    if ctx1.broken.contains(k) {
                        assert(ctx2.broken.contains(k));
                    } else if thumb_failed(e, k, ctx1) {
                        assert(ctx2.broken.contains(k));
                    } else {
                        assert(!ctx2.broken.contains(k));
                        if !crate::scan::planned_thumb(e, k, ctx1) {
                            assert(ctx1.existing.contains(nm));
                            assert(ctx2.existing.contains(nm));
                        } else {
                            assert(ctx1.results.contains_key(k) && ctx1.results[k]);
                            assert(crate::scan::entry_success_names(e, prefix, ctx1).contains(nm));
                            crate::scan::lemma_entry_success_sub_snap(es, prefix, ctx1, i);
                            assert(crate::scan::snap_success_names(es, prefix, ctx1).contains(nm));
                            assert(ctx2.existing.contains(nm));
                        }
                    }
                }
            }
            assert(crate::scan::entry_rec(e, k, ctx2) == crate::scan::entry_rec(e, k, ctx1));
            assert forall|k2: Seq<char>| #[trigger] keys_of(e.entries@, k, tdir).contains(
                k2,
            ) implies (ctx2.broken.contains(k2) <==> (ctx1.broken.contains(k2)
                || snap_failed_keys(e.entries@, k, ctx1).contains(k2))) by {
                assert(entry_keys(es[i], prefix, tdir).contains(k2));
                assert(keys_of(es, prefix, tdir).contains(k2));
                if snap_failed_keys(e.entries@, k, ctx1).contains(k2) {
                    assert(crate::scan::entry_failed_keys(e, prefix, ctx1).contains(k2));
                    crate::scan::lemma_entry_failed_sub_snap(es, prefix, ctx1, i);
                }
                if snap_failed_keys(es, prefix, ctx1).contains(k2) && !snap_failed_keys(
                    e.entries@,
                    k,
                    ctx1,
                ).contains(k2) {
                    crate::scan::lemma_snap_failed_shape(es, prefix, ctx1, k2);
                    let j = choose|j: int|
                        0 <= j < es.len() && crate::scan::entry_failed_keys(
                            #[trigger] es[j],
                            prefix,
                            ctx1,
                        ).contains(k2);
                    crate::scan::lemma_entry_failed_sub(es[j], prefix, ctx1, k2);
                    if j != i {
                        assert(entry_wf(es[j], parent_full));
                        crate::scan::lemma_two_entries_keys_disjoint(
                            es[j],
                            es[i],
                            prefix,
                            tdir,
                            k2,
                        );
                    } else {
                        lemma_own_key_not_below(e, prefix, tdir, k2);
                    }
                }
            }
            assert forall|n: Seq<char>| #[trigger] crate::scan::snap_success_names(
                e.entries@,
                k,
                ctx1,
            ).contains(n) implies ctx2.existing.contains(n) by {
                assert(crate::scan::entry_success_names(e, prefix, ctx1).contains(n));
                crate::scan::lemma_entry_success_sub_snap(es, prefix, ctx1, i);
                assert(crate::scan::snap_success_names(es, prefix, ctx1).contains(n));
            }
            assert(decreases_to!(es => es[i]));
            assert(decreases_to!(es[i] => es[i].entries));
            assert(decreases_to!(es[i].entries => es[i].entries@));
            lemma_scan_idempotent(m, e.entries@, e.full_path@, k, ctx1, ctx2);
            assert(entry_ok(m, es[i], prefix, ctx2));
        }
    }
}

} // verus!
