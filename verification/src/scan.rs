use vstd::prelude::*;
use crate::config::Config;
use crate::db::{
    dash_map_insert, dash_map_keys, dash_map_remove, dash_map_view, dash_set_clear,
    dash_set_contains, dash_set_insert, dash_set_view, Database,
};
use crate::records::{FileMeta, FileRecord, RecordView};
use crate::snapshot::{
    entries_wf, entry_contrib, entry_keys, entry_live, entry_live_exec, entry_wf, key_of,
    live_child_keys, live_count, snap_keys, subtree_count, SnapEntry,
};
use crate::strutil::under_root;
use crate::thumbs::{ext_thumbnailable, is_thumbnailable_name, thumb_name_of, thumbnail_filename};

verus! {

/// What the surrounding program reports back for one planned thumbnail: the
/// table key of the source file, and whether decode, resize, encode and
/// write all succeeded.
pub struct ThumbOutcome {
    pub key: String,
    pub ok: bool,
}

/// The fixed facts one scan pass decides against: the broken markers as the
/// pass began (after a forced rebuild cleared them), the names present in
/// the thumbnail store, the reported generation outcomes, the rebuild flag,
/// and the thumbnail store's own path.
#[verifier::ext_equal]
pub struct ScanCtx {
    pub broken: Set<Seq<char>>,
    pub existing: Set<Seq<char>>,
    pub results: Map<Seq<char>, bool>,
    pub rebuild: bool,
    pub tdir: Seq<char>,
}

/// The outcomes list as a lookup table; a later report for the same key
/// wins.
pub open spec fn outcomes_map(rs: Seq<ThumbOutcome>) -> Map<Seq<char>, bool>
    decreases rs,
{
    if rs.len() == 0 {
        Map::empty()
    } else {
        outcomes_map(rs.drop_last()).insert(rs.last().key@, rs.last().ok)
    }
}

/// Looks a key up among the reported outcomes.
fn outcome_for(rs: &Vec<ThumbOutcome>, k: &String) -> (r: Option<bool>)
    ensures
        match r {
            Some(b) => outcomes_map(rs@).contains_key(k@) && outcomes_map(rs@)[k@] == b,
            None => !outcomes_map(rs@).contains_key(k@),
        },
{
    let mut found: Option<bool> = None;
    let mut i: usize = 0;
    assert(rs@.subrange(0, 0) =~= Seq::<ThumbOutcome>::empty());
    while i < rs.len()
        invariant
            i <= rs@.len(),
            match found {
                Some(b) => outcomes_map(rs@.subrange(0, i as int)).contains_key(k@)
                    && outcomes_map(rs@.subrange(0, i as int))[k@] == b,
                None => !outcomes_map(rs@.subrange(0, i as int)).contains_key(k@),
            },
        decreases rs@.len() - i,
    {
        proof {
            assert(rs@.subrange(0, i as int + 1).drop_last() =~= rs@.subrange(0, i as int));
            assert(rs@.subrange(0, i as int + 1).last() == rs@[i as int]);
        }
        if rs[i].key == *k {
            found = Some(rs[i].ok);
        }
        i += 1;
    }
    assert(rs@.subrange(0, rs@.len() as int) =~= rs@);
    found
}

/// Whether a scan pass would attempt a preview for this entry at all: a
/// file with a thumbnailable extension whose key is not marked broken.
pub open spec fn wants_thumb(e: SnapEntry, k: Seq<char>, ctx: ScanCtx) -> bool {
    &&& !e.meta.is_dir
    &&& is_thumbnailable_name(e.full_path@)
    &&& !ctx.broken.contains(k)
}

/// Whether the pass asks the surrounding program to encode this entry: it
/// wants a preview and no stored thumbnail can be reused.
pub open spec fn planned_thumb(e: SnapEntry, k: Seq<char>, ctx: ScanCtx) -> bool {
    wants_thumb(e, k, ctx) && (ctx.rebuild || !ctx.existing.contains(thumb_name_of(e.full_path@)))
}

/// The thumbnail name the entry's record carries after the pass.
pub open spec fn thumb_for(e: SnapEntry, k: Seq<char>, ctx: ScanCtx) -> Option<Seq<char>> {
    if !wants_thumb(e, k, ctx) {
        None
    } else if !planned_thumb(e, k, ctx) {
        Some(thumb_name_of(e.full_path@))
    } else if ctx.results.contains_key(k) && ctx.results[k] {
        Some(thumb_name_of(e.full_path@))
    } else {
        None
    }
}

/// Whether the pass marks this entry's key broken: a preview was planned
/// and no success was reported for it.
pub open spec fn thumb_failed(e: SnapEntry, k: Seq<char>, ctx: ScanCtx) -> bool {
    planned_thumb(e, k, ctx) && !(ctx.results.contains_key(k) && ctx.results[k])
}

/// The record one live observed entry carries after the pass.
pub open spec fn entry_rec(e: SnapEntry, k: Seq<char>, ctx: ScanCtx) -> RecordView {
    RecordView {
        full_path: e.full_path@,
        meta: e.meta,
        thumbnail_name: thumb_for(e, k, ctx),
        items_in_subdirs: (subtree_count(e.entries@, ctx.tdir) - live_count(
            e.entries@,
            ctx.tdir,
        )) as u64,
        child_items: live_child_keys(e.entries@, k, ctx.tdir),
    }
}

/// The table holds exactly the records the pass assigns to one live entry
/// and everything below it.
pub open spec fn entry_ok(
    m: Map<Seq<char>, RecordView>,
    e: SnapEntry,
    prefix: Seq<char>,
    ctx: ScanCtx,
) -> bool
    decreases e,
{
    entry_live(e, ctx.tdir) ==> {
        let k = key_of(prefix, e.name@);
        &&& m.contains_key(k)
        &&& m[k] == entry_rec(e, k, ctx)
        &&& subtree_ok(m, e.entries@, k, ctx)
    }
}

/// The table holds the records the pass assigns to a whole listing.
pub open spec fn subtree_ok(
    m: Map<Seq<char>, RecordView>,
    es: Seq<SnapEntry>,
    prefix: Seq<char>,
    ctx: ScanCtx,
) -> bool
    decreases es,
{
    forall|i: int| 0 <= i < es.len() ==> entry_ok(m, #[trigger] es[i], prefix, ctx)
}

/// The keys one live entry's subtree gets marked broken in this pass.
pub open spec fn entry_failed_keys(e: SnapEntry, prefix: Seq<char>, ctx: ScanCtx) -> Set<Seq<char>>
    decreases e,
{
    if entry_live(e, ctx.tdir) {
        let k = key_of(prefix, e.name@);
        snap_failed_keys(e.entries@, k, ctx) + if thumb_failed(e, k, ctx) {
            Set::<Seq<char>>::empty().insert(k)
        } else {
            Set::<Seq<char>>::empty()
        }
    } else {
        Set::empty()
    }
}

/// The keys a listing's subtree gets marked broken in this pass.
pub open spec fn snap_failed_keys(es: Seq<SnapEntry>, prefix: Seq<char>, ctx: ScanCtx) -> Set<
    Seq<char>,
>
    decreases es,
{
    if es.len() == 0 {
        Set::empty()
    } else {
        snap_failed_keys(es.drop_last(), prefix, ctx) + entry_failed_keys(es.last(), prefix, ctx)
    }
}

/// The thumbnail names one live entry's subtree successfully writes into
/// the store in this pass.
pub open spec fn entry_success_names(e: SnapEntry, prefix: Seq<char>, ctx: ScanCtx) -> Set<
    Seq<char>,
>
    decreases e,
{
    if entry_live(e, ctx.tdir) {
        let k = key_of(prefix, e.name@);
        snap_success_names(e.entries@, k, ctx) + if planned_thumb(e, k, ctx)
            && ctx.results.contains_key(k) && ctx.results[k] {
            Set::<Seq<char>>::empty().insert(thumb_name_of(e.full_path@))
        } else {
            Set::<Seq<char>>::empty()
        }
    } else {
        Set::empty()
    }
}

/// The thumbnail names a listing's subtree successfully writes in this
/// pass.
pub open spec fn snap_success_names(es: Seq<SnapEntry>, prefix: Seq<char>, ctx: ScanCtx) -> Set<
    Seq<char>,
>
    decreases es,
{
    if es.len() == 0 {
        Set::empty()
    } else {
        snap_success_names(es.drop_last(), prefix, ctx) + entry_success_names(
            es.last(),
            prefix,
            ctx,
        )
    }
}

/// One entry's failed keys are among its listing's.
pub proof fn lemma_entry_failed_sub_snap(es: Seq<SnapEntry>, prefix: Seq<char>, ctx: ScanCtx, i: int)
    requires
        0 <= i < es.len(),
    ensures
        forall|k: Seq<char>|
            entry_failed_keys(es[i], prefix, ctx).contains(k) ==> #[trigger] snap_failed_keys(
                es,
                prefix,
                ctx,
            ).contains(k),
    decreases es,
{
    assert forall|k: Seq<char>| entry_failed_keys(es[i], prefix, ctx).contains(k) implies #[trigger] snap_failed_keys(
        es,
        prefix,
        ctx,
    ).contains(k) by {
        if i == es.len() - 1 {
            assert(es.last() == es[i]);
        } else {
            lemma_entry_failed_sub_snap(es.drop_last(), prefix, ctx, i);
            assert(es.drop_last()[i] == es[i]);
            assert(snap_failed_keys(es.drop_last(), prefix, ctx).contains(k));
        }
    }
}

/// One entry's successful names are among its listing's.
pub proof fn lemma_entry_success_sub_snap(
    es: Seq<SnapEntry>,
    prefix: Seq<char>,
    ctx: ScanCtx,
    i: int,
)
    requires
        0 <= i < es.len(),
    ensures
        forall|n: Seq<char>|
            entry_success_names(es[i], prefix, ctx).contains(n) ==> #[trigger] snap_success_names(
                es,
                prefix,
                ctx,
            ).contains(n),
    decreases es,
{
    assert forall|n: Seq<char>| entry_success_names(es[i], prefix, ctx).contains(n) implies #[trigger] snap_success_names(
        es,
        prefix,
        ctx,
    ).contains(n) by {
        if i == es.len() - 1 {
            assert(es.last() == es[i]);
        } else {
            lemma_entry_success_sub_snap(es.drop_last(), prefix, ctx, i);
            assert(es.drop_last()[i] == es[i]);
            assert(snap_success_names(es.drop_last(), prefix, ctx).contains(n));
        }
    }
}

/// Every failed key of a listing is some entry's.
pub proof fn lemma_snap_failed_shape(es: Seq<SnapEntry>, prefix: Seq<char>, ctx: ScanCtx, k: Seq<char>)
    requires
        snap_failed_keys(es, prefix, ctx).contains(k),
    ensures
        exists|i: int|
            0 <= i < es.len() && entry_failed_keys(#[trigger] es[i], prefix, ctx).contains(k),
    decreases es,
{
    if es.len() > 0 {
        if entry_failed_keys(es.last(), prefix, ctx).contains(k) {
            assert(entry_failed_keys(es[es.len() - 1], prefix, ctx).contains(k));
        } else {
            lemma_snap_failed_shape(es.drop_last(), prefix, ctx, k);
            let i = choose|i: int|
                0 <= i < es.drop_last().len() && entry_failed_keys(
                    #[trigger] es.drop_last()[i],
                    prefix,
                    ctx,
                ).contains(k);
            assert(es.drop_last()[i] == es[i]);
            assert(entry_failed_keys(es[i], prefix, ctx).contains(k));
        }
    }
}

/// Failed keys come from the subtree's own keys.
pub proof fn lemma_entry_failed_sub(e: SnapEntry, prefix: Seq<char>, ctx: ScanCtx, k: Seq<char>)
    requires
        entry_failed_keys(e, prefix, ctx).contains(k),
    ensures
        entry_keys(e, prefix, ctx.tdir).contains(k),
    decreases e,
{
    if entry_live(e, ctx.tdir) {
        let my = key_of(prefix, e.name@);
        if k != my {
            lemma_snap_failed_sub(e.entries@, my, ctx, k);
        }
    }
}

pub proof fn lemma_snap_failed_sub(es: Seq<SnapEntry>, prefix: Seq<char>, ctx: ScanCtx, k: Seq<char>)
    requires
        snap_failed_keys(es, prefix, ctx).contains(k),
    ensures
        snap_keys(es, prefix, ctx.tdir).contains(k),
    decreases es,
{
    if es.len() > 0 {
        if entry_failed_keys(es.last(), prefix, ctx).contains(k) {
            lemma_entry_failed_sub(es.last(), prefix, ctx, k);
        } else {
            lemma_snap_failed_sub(es.drop_last(), prefix, ctx, k);
        }
    }
}

/// One entry's keys are among its listing's keys.
pub proof fn lemma_entry_sub_snap(es: Seq<SnapEntry>, prefix: Seq<char>, tdir: Seq<char>, i: int)
    requires
        0 <= i < es.len(),
    ensures
        forall|k: Seq<char>|
            entry_keys(es[i], prefix, tdir).contains(k) ==> #[trigger] snap_keys(
                es,
                prefix,
                tdir,
            ).contains(k),
    decreases es,
{
    assert forall|k: Seq<char>| entry_keys(es[i], prefix, tdir).contains(k) implies #[trigger] snap_keys(
        es,
        prefix,
        tdir,
    ).contains(k) by {
        if i == es.len() - 1 {
            assert(es.last() == es[i]);
        } else {
            lemma_entry_sub_snap(es.drop_last(), prefix, tdir, i);
            assert(es.drop_last()[i] == es[i]);
            assert(snap_keys(es.drop_last(), prefix, tdir).contains(k));
        }
    }
}

/// Keys of differently named siblings never meet.
pub proof fn lemma_two_entries_keys_disjoint(
    e1: SnapEntry,
    e2: SnapEntry,
    prefix: Seq<char>,
    tdir: Seq<char>,
    k: Seq<char>,
)
    requires
        crate::snapshot::name_ok(e1.name@),
        crate::snapshot::name_ok(e2.name@),
        e1.name@ != e2.name@,
        entry_keys(e1, prefix, tdir).contains(k),
    ensures
        !entry_keys(e2, prefix, tdir).contains(k),
{
    if entry_keys(e2, prefix, tdir).contains(k) {
        crate::snapshot::lemma_entry_keys_shape(e1, prefix, tdir, k);
        crate::snapshot::lemma_entry_keys_shape(e2, prefix, tdir, k);
        crate::snapshot::lemma_sibling_keys_disjoint(prefix, e1.name@, e2.name@, k);
    }
}

/// What the pass wrote for an entry stays written in any table that agrees
/// with this one on the entry's keys.
pub proof fn lemma_entry_ok_agree(
    m1: Map<Seq<char>, RecordView>,
    m2: Map<Seq<char>, RecordView>,
    e: SnapEntry,
    prefix: Seq<char>,
    ctx: ScanCtx,
)
    requires
        entry_ok(m1, e, prefix, ctx),
        forall|k: Seq<char>|
            #[trigger] entry_keys(e, prefix, ctx.tdir).contains(k) ==> m2.contains_key(k)
                && m2[k] == m1[k],
    ensures
        entry_ok(m2, e, prefix, ctx),
    decreases e,
{
    if entry_live(e, ctx.tdir) {
        let my = key_of(prefix, e.name@);
        assert(entry_keys(e, prefix, ctx.tdir).contains(my));
        assert forall|k: Seq<char>|
            #[trigger] snap_keys(e.entries@, my, ctx.tdir).contains(k) implies m2.contains_key(k)
            && m2[k] == m1[k] by {
            assert(entry_keys(e, prefix, ctx.tdir).contains(k));
        }
        lemma_subtree_ok_agree(m1, m2, e.entries@, my, ctx);
    }
}

/// What the pass wrote for a listing stays written in any table that agrees
/// with this one on the listing's keys.
pub proof fn lemma_subtree_ok_agree(
    m1: Map<Seq<char>, RecordView>,
    m2: Map<Seq<char>, RecordView>,
    es: Seq<SnapEntry>,
    prefix: Seq<char>,
    ctx: ScanCtx,
)
    requires
        subtree_ok(m1, es, prefix, ctx),
        forall|k: Seq<char>|
            #[trigger] snap_keys(es, prefix, ctx.tdir).contains(k) ==> m2.contains_key(k)
                && m2[k] == m1[k],
    ensures
        subtree_ok(m2, es, prefix, ctx),
    decreases es,
{
    assert forall|i: int| 0 <= i < es.len() implies entry_ok(m2, #[trigger] es[i], prefix, ctx) by {
        lemma_entry_sub_snap(es, prefix, ctx.tdir, i);
        assert forall|k: Seq<char>|
            #[trigger] entry_keys(es[i], prefix, ctx.tdir).contains(k) implies m2.contains_key(k)
            && m2[k] == m1[k] by {
            assert(snap_keys(es, prefix, ctx.tdir).contains(k));
        }
        assert(entry_ok(m1, es[i], prefix, ctx));
        lemma_entry_ok_agree(m1, m2, es[i], prefix, ctx);
    }
}

/// Pushing onto a list of strings grows its set of members by the pushed
/// one.
pub proof fn lemma_push_to_set(s: Seq<Seq<char>>, x: Seq<char>)
    ensures
        s.push(x).to_set() == s.to_set().insert(x),
{
    assert forall|y: Seq<char>| s.push(x).to_set().contains(y) implies s.to_set().insert(
        x,
    ).contains(y) by {
        let idx = choose|idx: int| 0 <= idx < s.push(x).len() && s.push(x)[idx] == y;
        if idx < s.len() {
            assert(s[idx] == y);
        }
    }
    assert forall|y: Seq<char>| s.to_set().insert(x).contains(y) implies s.push(x).to_set().contains(
        y,
    ) by {
        if y == x {
            assert(s.push(x)[s.len() as int] == y);
        } else {
            let idx = choose|idx: int| 0 <= idx < s.len() && s[idx] == y;
            assert(s.push(x)[idx] == y);
        }
    }
    assert(s.push(x).to_set() =~= s.to_set().insert(x));
}

/// Membership of a string among a list of strings.
pub fn vec_contains_string(v: &Vec<String>, s: &String) -> (r: bool)
    ensures
        r == v.deep_view().contains(s@),
{
    let mut i: usize = 0;
    while i < v.len()
        invariant
            i <= v@.len(),
            forall|j: int| 0 <= j < i ==> v.deep_view()[j] != s@,
        decreases v@.len() - i,
    {
        if v[i] == *s {
            assert(v.deep_view()[i as int] == s@);
            return true;
        }
        i += 1;
    }
    false
}

/// Decides the thumbnail outcome for one observed entry: the name its
/// record will carry, and whether its key must be marked broken.
fn decide_thumb(
    broken: &dashmap::DashSet<String>,
    e: &SnapEntry,
    k: &String,
    existing: &Vec<String>,
    outcomes: &Vec<ThumbOutcome>,
    rebuild: bool,
    Ghost(ctx): Ghost<ScanCtx>,
) -> (r: (Option<String>, bool))
    requires
        ctx.broken == dash_set_view(*broken),
        ctx.existing == existing.deep_view().to_set(),
        ctx.results == outcomes_map(outcomes@),
        ctx.rebuild == rebuild,
    ensures
        match r.0 {
            Some(n) => thumb_for(*e, k@, ctx) == Some(n@),
            None => thumb_for(*e, k@, ctx) is None,
        },
        r.1 == thumb_failed(*e, k@, ctx),
{
    if e.meta.is_dir {
        return (None, false);
    }
    if !ext_thumbnailable(e.full_path.as_str()) {
        return (None, false);
    }
    if dash_set_contains(broken, k) {
        return (None, false);
    }
    let name = thumbnail_filename(e.full_path.as_str());
    let on_disk = vec_contains_string(existing, &name);
    if on_disk && !rebuild {
        return (Some(name), false);
    }
    assert(planned_thumb(*e, k@, ctx));
    match outcome_for(outcomes, k) {
        Some(ok) => {
            if ok {
                (Some(name), false)
            } else {
                (None, true)
            }
        },
        None => (None, true),
    }
}

/// One directory level of a scan pass: inserts or overwrites the record of
/// every live entry of the listing, depth first, collecting every written
/// key and every key to mark broken, and returns the level's child keys and
/// its transitive live count.
#[verifier::rlimit(30)]
fn walk_entries(
    files: &mut dashmap::DashMap<String, FileRecord>,
    broken: &dashmap::DashSet<String>,
    es: &Vec<SnapEntry>,
    prefix: &String,
    Ghost(parent_full): Ghost<Seq<char>>,
    cfg: &Config,
    existing: &Vec<String>,
    outcomes: &Vec<ThumbOutcome>,
    rebuild: bool,
    live_acc: &mut Vec<String>,
    failed_acc: &mut Vec<String>,
    Ghost(ctx): Ghost<ScanCtx>,
) -> (r: (Vec<String>, u64))
    requires
        ctx.broken == dash_set_view(*broken),
        ctx.existing == existing.deep_view().to_set(),
        ctx.results == outcomes_map(outcomes@),
        ctx.rebuild == rebuild,
        ctx.tdir == cfg.thumbnail_dir@,
        entries_wf(es@, parent_full),
        subtree_count(es@, ctx.tdir) <= u64::MAX,
        under_root(cfg.file_dir@, parent_full),
        dash_map_view(*old(files)).dom().finite(),
    ensures
        dash_map_view(*final(files)).dom() == dash_map_view(*old(files)).dom() + snap_keys(
            es@,
            prefix@,
            ctx.tdir,
        ),
        dash_map_view(*final(files)).dom().finite(),
        forall|k: Seq<char>|
            dash_map_view(*old(files)).contains_key(k) && !snap_keys(
                es@,
                prefix@,
                ctx.tdir,
            ).contains(k) ==> #[trigger] dash_map_view(*final(files))[k] == dash_map_view(
                *old(files),
            )[k],
        subtree_ok(dash_map_view(*final(files)), es@, prefix@, ctx),
        r.0.deep_view() == live_child_keys(es@, prefix@, ctx.tdir),
        r.1 == subtree_count(es@, ctx.tdir),
        final(live_acc).deep_view().to_set() == old(live_acc).deep_view().to_set() + snap_keys(
            es@,
            prefix@,
            ctx.tdir,
        ),
        final(failed_acc).deep_view().to_set() == old(failed_acc).deep_view().to_set()
            + snap_failed_keys(es@, prefix@, ctx),
        forall|k: Seq<char>|
            snap_keys(es@, prefix@, ctx.tdir).contains(k) ==> under_root(
                cfg.file_dir@,
                #[trigger] dash_map_view(*final(files))[k].full_path,
            ),
    decreases es@,
{
    let ghost tdir = ctx.tdir;
    let ghost es0 = es@;
    let ghost m0 = dash_map_view(*files);
    let ghost la0 = live_acc.deep_view().to_set();
    let ghost fa0 = failed_acc.deep_view().to_set();
    let n = es.len();
    let mut child_keys: Vec<String> = Vec::new();
    let mut count: u64 = 0;
    let mut i: usize = 0;
    proof {
        assert(es0.subrange(0, 0) =~= Seq::<SnapEntry>::empty());
        assert(snap_keys(es0.subrange(0, 0), prefix@, tdir) =~= Set::<Seq<char>>::empty());
        assert(m0.dom() + snap_keys(es0.subrange(0, 0), prefix@, tdir) =~= m0.dom());
        assert(la0 + snap_keys(es0.subrange(0, 0), prefix@, tdir) =~= la0);
        assert(fa0 + snap_failed_keys(es0.subrange(0, 0), prefix@, ctx) =~= fa0);
    }
    while i < n
        invariant
            i <= n,
            n == es0.len(),
            es@ == es0,
            ctx.broken == dash_set_view(*broken),
            ctx.existing == existing.deep_view().to_set(),
            ctx.results == outcomes_map(outcomes@),
            ctx.rebuild == rebuild,
            ctx.tdir == cfg.thumbnail_dir@,
            tdir == ctx.tdir,
            entries_wf(es0, parent_full),
            subtree_count(es0, tdir) <= u64::MAX,
            under_root(cfg.file_dir@, parent_full),
            m0.dom().finite(),
            dash_map_view(*files).dom() == m0.dom() + snap_keys(
                es0.subrange(0, i as int),
                prefix@,
                tdir,
            ),
            dash_map_view(*files).dom().finite(),
            forall|k: Seq<char>|
                m0.contains_key(k) && !snap_keys(es0.subrange(0, i as int), prefix@, tdir).contains(
                    k,
                ) ==> #[trigger] dash_map_view(*files)[k] == m0[k],
            subtree_ok(dash_map_view(*files), es0.subrange(0, i as int), prefix@, ctx),
            child_keys.deep_view() == live_child_keys(es0.subrange(0, i as int), prefix@, tdir),
            count == subtree_count(es0.subrange(0, i as int), tdir),
            live_acc.deep_view().to_set() == la0 + snap_keys(
                es0.subrange(0, i as int),
                prefix@,
                tdir,
            ),
            failed_acc.deep_view().to_set() == fa0 + snap_failed_keys(
                es0.subrange(0, i as int),
                prefix@,
                ctx,
            ),
            forall|k: Seq<char>|
                snap_keys(es0.subrange(0, i as int), prefix@, tdir).contains(k) ==> under_root(
                    cfg.file_dir@,
                    #[trigger] dash_map_view(*files)[k].full_path,
                ),
        decreases n - i,
    {
        let ghost pre = es0.subrange(0, i as int);
        let ghost m_prev = dash_map_view(*files);
        proof {
            assert(es0.subrange(0, i as int + 1).drop_last() =~= pre);
            assert(es0.subrange(0, i as int + 1).last() == es0[i as int]);
            assert(entry_wf(es0[i as int], parent_full));
            crate::snapshot::lemma_contrib_le(es0, tdir, i as int);
            crate::snapshot::lemma_subtree_count_prefix(es0, tdir, i as int + 1);
            crate::snapshot::lemma_prefix_plus_contrib(es0, tdir, i as int);
            crate::snapshot::lemma_subtree_count_nonneg(pre, tdir);
        }
        let e = &es[i];
        if entry_live_exec(e, &cfg.thumbnail_dir) {
            let k: String = if prefix.as_str().is_empty() {
                crate::strutil::copy_string(&e.name)
            } else {
                crate::strutil::join_path(prefix.as_str(), e.name.as_str())
            };
            assert(k@ == key_of(prefix@, e.name@));
            proof {
                crate::snapshot::lemma_subtree_count_nonneg(e.entries@, tdir);
                crate::strutil::lemma_prefix_extend(parent_full + seq!['/'], e.name@);
                assert((parent_full + seq!['/']) + e.name@ =~= e.full_path@);
                assert(crate::strutil::strictly_under(parent_full, e.full_path@));
                crate::strutil::lemma_under_trans(cfg.file_dir@, parent_full, e.full_path@);
                assert(decreases_to!(es0 => es0[i as int]));
                assert(decreases_to!(es0[i as int] => es0[i as int].entries));
                assert(decreases_to!(es0[i as int].entries => es0[i as int].entries@));
            }
            let ghost la_before = live_acc.deep_view().to_set();
            let ghost fa_before = failed_acc.deep_view().to_set();
            let walked = walk_entries(
                files,
                broken,
                &e.entries,
                &k,
                Ghost(e.full_path@),
                cfg,
                existing,
                outcomes,
                rebuild,
                live_acc,
                failed_acc,
                Ghost(ctx),
            );
            let ck = walked.0;
            let below = walked.1;
            let ghost m_rec = dash_map_view(*files);
            let (thumb, fail) = decide_thumb(
                broken,
                e,
                &k,
                existing,
                outcomes,
                rebuild,
                Ghost(ctx),
            );
            proof {
                crate::snapshot::lemma_live_child_keys_len(e.entries@, k@, tdir);
                crate::snapshot::lemma_live_le_subtree(e.entries@, tdir);
                assert(ck.deep_view().len() == ck@.len());
            }
            let kids: u64 = ck.len() as u64;
            let rec = FileRecord {
                full_path: crate::strutil::copy_string(&e.full_path),
                meta: e.meta,
                thumbnail_name: thumb,
                items_in_subdirs: below - kids,
                child_items: ck,
            };
            assert(rec@ == entry_rec(es0[i as int], k@, ctx));
            dash_map_insert(files, crate::strutil::copy_string(&k), rec);
            let ghost live_deep = live_acc.deep_view();
            live_acc.push(crate::strutil::copy_string(&k));
            proof {
                assert(live_acc.deep_view() =~= live_deep.push(k@));
                lemma_push_to_set(live_deep, k@);
            }
            if fail {
                let ghost failed_deep = failed_acc.deep_view();
                failed_acc.push(crate::strutil::copy_string(&k));
                proof {
                    assert(failed_acc.deep_view() =~= failed_deep.push(k@));
                    lemma_push_to_set(failed_deep, k@);
                }
            }
            child_keys.push(k);
            count = count + (1 + below);
            proof {
                let ghost ki = snap_keys(pre, prefix@, tdir);
                let ghost ek = entry_keys(es0[i as int], prefix@, tdir);
                let ghost kk = key_of(prefix@, es0[i as int].name@);
                let ghost m_now = dash_map_view(*files);
                assert(ek == snap_keys(es0[i as int].entries@, kk, tdir).insert(kk));
                assert(snap_keys(es0.subrange(0, i as int + 1), prefix@, tdir) == ki + ek);
                // the new table's keys
                assert(m_now.dom() =~= m0.dom() + snap_keys(
                    es0.subrange(0, i as int + 1),
                    prefix@,
                    tdir,
                ));
                // records of earlier siblings are untouched: their keys never
                // meet this entry's
                assert forall|k2: Seq<char>| ki.contains(k2) implies !ek.contains(k2)
                    && m_now.contains_key(k2) && #[trigger] m_now[k2] == m_prev[k2] by {
                    crate::snapshot::lemma_snap_keys_shape(pre, prefix@, tdir, k2);
                    let j = choose|j: int|
                        0 <= j < pre.len() && entry_keys(#[trigger] pre[j], prefix@, tdir).contains(
                            k2,
                        );
                    assert(pre[j] == es0[j]);
                    assert(entry_wf(es0[j], parent_full));
                    lemma_two_entries_keys_disjoint(es0[j], es0[i as int], prefix@, tdir, k2);
                    assert(!ek.contains(k2));
                    assert(m_rec[k2] == m_prev[k2]);
                    assert(m_now[k2] == m_rec[k2]);
                }
                lemma_subtree_ok_agree(m_prev, m_now, pre, prefix@, ctx);
                // this entry's own subtree survives its record's insertion
                assert forall|k2: Seq<char>|
                    #[trigger] snap_keys(es0[i as int].entries@, kk, tdir).contains(k2) implies m_now.contains_key(
                    k2,
                ) && m_now[k2] == m_rec[k2] by {
                    crate::snapshot::lemma_snap_keys_shape(es0[i as int].entries@, kk, tdir, k2);
                    let j = choose|j: int|
                        0 <= j < es0[i as int].entries@.len() && entry_keys(
                            #[trigger] es0[i as int].entries@[j],
                            kk,
                            tdir,
                        ).contains(k2);
                    crate::snapshot::lemma_entry_keys_shape(es0[i as int].entries@[j], kk, tdir, k2);
                    assert(crate::strutil::under_root(
                        key_of(kk, es0[i as int].entries@[j].name@),
                        k2,
                    ));
                    assert(k2 != kk) by {
                        let ck2 = key_of(kk, es0[i as int].entries@[j].name@);
                        crate::strutil::lemma_prefix_extend(kk + seq!['/'], es0[i as int].entries@[j].name@);
                        assert((kk + seq!['/']) + es0[i as int].entries@[j].name@ =~= ck2);
                        if k2 == ck2 {
                        } else {
                            crate::strutil::lemma_under_trans(kk, ck2, k2);
                        }
                        assert(crate::strutil::strictly_under(kk, k2));
                    }
                }
                lemma_subtree_ok_agree(m_rec, m_now, es0[i as int].entries@, kk, ctx);
                assert(m_now.contains_key(kk) && m_now[kk] == entry_rec(es0[i as int], kk, ctx));
                assert(entry_ok(m_now, es0[i as int], prefix@, ctx));
                assert(subtree_ok(m_now, es0.subrange(0, i as int + 1), prefix@, ctx)) by {
                    assert forall|j: int|
                        0 <= j < i as int + 1 implies entry_ok(
                        m_now,
                        #[trigger] es0.subrange(0, i as int + 1)[j],
                        prefix@,
                        ctx,
                    ) by {
                        if j < i as int {
                            assert(es0.subrange(0, i as int + 1)[j] == pre[j]);
                            assert(entry_ok(m_now, pre[j], prefix@, ctx));
                        } else {
                            assert(es0.subrange(0, i as int + 1)[j] == es0[i as int]);
                        }
                    }
                }
                // child keys, counts, accumulators
                assert(child_keys.deep_view() =~= live_child_keys(
                    es0.subrange(0, i as int + 1),
                    prefix@,
                    tdir,
                ));
                assert(live_acc.deep_view().to_set() =~= la0 + snap_keys(
                    es0.subrange(0, i as int + 1),
                    prefix@,
                    tdir,
                ));
                assert(snap_failed_keys(es0.subrange(0, i as int + 1), prefix@, ctx)
                    == snap_failed_keys(pre, prefix@, ctx) + entry_failed_keys(
                    es0[i as int],
                    prefix@,
                    ctx,
                ));
                assert(entry_failed_keys(es0[i as int], prefix@, ctx) == snap_failed_keys(
                    es0[i as int].entries@,
                    kk,
                    ctx,
                ) + if thumb_failed(es0[i as int], kk, ctx) {
                    Set::<Seq<char>>::empty().insert(kk)
                } else {
                    Set::<Seq<char>>::empty()
                });
                assert(failed_acc.deep_view().to_set() =~= fa0 + snap_failed_keys(
                    es0.subrange(0, i as int + 1),
                    prefix@,
                    ctx,
                ));
                // containment of the fresh records
                assert forall|k2: Seq<char>|
                    snap_keys(es0.subrange(0, i as int + 1), prefix@, tdir).contains(k2) implies under_root(
                    cfg.file_dir@,
                    #[trigger] m_now[k2].full_path,
                ) by {
                    if ki.contains(k2) {
                    } else {
                        assert(ek.contains(k2));
                        if k2 == kk {
                        } else {
                            assert(snap_keys(es0[i as int].entries@, kk, tdir).contains(k2));
                        }
                    }
                }
            }
        } else {
            proof {
                assert(entry_keys(es0[i as int], prefix@, tdir) =~= Set::<Seq<char>>::empty());
                assert(entry_failed_keys(es0[i as int], prefix@, ctx) =~= Set::<Seq<char>>::empty());
                assert(snap_keys(es0.subrange(0, i as int + 1), prefix@, tdir) =~= snap_keys(
                    pre,
                    prefix@,
                    tdir,
                ));
                assert(snap_failed_keys(es0.subrange(0, i as int + 1), prefix@, ctx)
                    =~= snap_failed_keys(pre, prefix@, ctx));
                assert(live_child_keys(es0.subrange(0, i as int + 1), prefix@, tdir)
                    =~= live_child_keys(pre, prefix@, tdir));
                assert(entry_contrib(es0[i as int], tdir) == 0);
                assert(subtree_ok(dash_map_view(*files), es0.subrange(0, i as int + 1), prefix@, ctx))
                    by {
                    assert forall|j: int|
                        0 <= j < i as int + 1 implies entry_ok(
                        dash_map_view(*files),
                        #[trigger] es0.subrange(0, i as int + 1)[j],
                        prefix@,
                        ctx,
                    ) by {
                        if j < i as int {
                            assert(es0.subrange(0, i as int + 1)[j] == pre[j]);
                            assert(entry_ok(dash_map_view(*files), pre[j], prefix@, ctx));
                        } else {
                            assert(es0.subrange(0, i as int + 1)[j] == es0[i as int]);
                            assert(!entry_live(es0[i as int], tdir));
                        }
                    }
                }
            }
        }
        i += 1;
    }
    proof {
        assert(es0.subrange(0, n as int) =~= es0);
    }
    (child_keys, count)
}

/// One preview the surrounding program is asked to produce: decode the
/// source, resize, encode, and write the result into the thumbnail store
/// under the given name.
pub struct ThumbJob {
    pub key: String,
    pub source: String,
    pub thumbnail_name: String,
}

/// Mathematical image of a planned preview.
pub struct JobView {
    pub key: Seq<char>,
    pub source: Seq<char>,
    pub thumbnail_name: Seq<char>,
}

impl View for ThumbJob {
    type V = JobView;

    open spec fn view(&self) -> JobView {
        JobView { key: self.key@, source: self.source@, thumbnail_name: self.thumbnail_name@ }
    }
}

impl DeepView for ThumbJob {
    type V = JobView;

    open spec fn deep_view(&self) -> JobView {
        self.view()
    }
}

/// The previews one live entry and its subtree ask for, the entry's own
/// first.
pub open spec fn entry_jobs(e: SnapEntry, prefix: Seq<char>, ctx: ScanCtx) -> Seq<JobView>
    decreases e,
{
    if entry_live(e, ctx.tdir) {
        let k = key_of(prefix, e.name@);
        (if planned_thumb(e, k, ctx) {
            seq![
                JobView {
                    key: k,
                    source: e.full_path@,
                    thumbnail_name: thumb_name_of(e.full_path@),
                },
            ]
        } else {
            Seq::<JobView>::empty()
        }) + snap_jobs(e.entries@, k, ctx)
    } else {
        Seq::empty()
    }
}

/// The previews a listing asks for, in observation order.
pub open spec fn snap_jobs(es: Seq<SnapEntry>, prefix: Seq<char>, ctx: ScanCtx) -> Seq<JobView>
    decreases es,
{
    if es.len() == 0 {
        Seq::empty()
    } else {
        snap_jobs(es.drop_last(), prefix, ctx) + entry_jobs(es.last(), prefix, ctx)
    }
}

/// One directory level of planning: appends this listing's jobs.
fn plan_entries(
    broken: &dashmap::DashSet<String>,
    es: &Vec<SnapEntry>,
    prefix: &String,
    tdir: &String,
    existing: &Vec<String>,
    rebuild: bool,
    acc: &mut Vec<ThumbJob>,
    Ghost(ctx): Ghost<ScanCtx>,
)
    requires
        ctx.broken == (if rebuild {
            Set::<Seq<char>>::empty()
        } else {
            dash_set_view(*broken)
        }),
        ctx.existing == existing.deep_view().to_set(),
        ctx.rebuild == rebuild,
        ctx.tdir == tdir@,
    ensures
        final(acc).deep_view() == old(acc).deep_view() + snap_jobs(es@, prefix@, ctx),
    decreases es@,
{
    let ghost es0 = es@;
    let ghost a0 = acc.deep_view();
    let n = es.len();
    let mut i: usize = 0;
    proof {
        assert(es0.subrange(0, 0) =~= Seq::<SnapEntry>::empty());
        assert(a0 + snap_jobs(es0.subrange(0, 0), prefix@, ctx) =~= a0);
    }
    while i < n
        invariant
            i <= n,
            n == es0.len(),
            es@ == es0,
            ctx.broken == (if rebuild {
                Set::<Seq<char>>::empty()
            } else {
                dash_set_view(*broken)
            }),
            ctx.existing == existing.deep_view().to_set(),
            ctx.rebuild == rebuild,
            ctx.tdir == tdir@,
            acc.deep_view() == a0 + snap_jobs(es0.subrange(0, i as int), prefix@, ctx),
        decreases n - i,
    {
        proof {
            assert(es0.subrange(0, i as int + 1).drop_last() =~= es0.subrange(0, i as int));
            assert(es0.subrange(0, i as int + 1).last() == es0[i as int]);
        }
        let e = &es[i];
        if entry_live_exec(e, tdir) {
            let k: String = if prefix.as_str().is_empty() {
                crate::strutil::copy_string(&e.name)
            } else {
                crate::strutil::join_path(prefix.as_str(), e.name.as_str())
            };
            assert(k@ == key_of(prefix@, e.name@));
            let ghost jp = if planned_thumb(es0[i as int], k@, ctx) {
                seq![
                    JobView {
                        key: k@,
                        source: es0[i as int].full_path@,
                        thumbnail_name: thumb_name_of(es0[i as int].full_path@),
                    },
                ]
            } else {
                Seq::<JobView>::empty()
            };
            let broken_hit = if rebuild {
                false
            } else {
                dash_set_contains(broken, &k)
            };
            assert(broken_hit == ctx.broken.contains(k@));
            if !e.meta.is_dir && !broken_hit && ext_thumbnailable(e.full_path.as_str()) {
                let name = thumbnail_filename(e.full_path.as_str());
                if rebuild || !vec_contains_string(existing, &name) {
                    assert(planned_thumb(es0[i as int], k@, ctx));
                    let ghost before = acc.deep_view();
                    acc.push(
                        ThumbJob {
                            key: crate::strutil::copy_string(&k),
                            source: crate::strutil::copy_string(&e.full_path),
                            thumbnail_name: name,
                        },
                    );
                    assert(acc.deep_view() =~= before.push(
                        JobView {
                            key: k@,
                            source: es0[i as int].full_path@,
                            thumbnail_name: thumb_name_of(es0[i as int].full_path@),
                        },
                    ));
                } else {
                    assert(!planned_thumb(es0[i as int], k@, ctx));
                }
            } else {
                assert(!planned_thumb(es0[i as int], k@, ctx));
            }
            proof {
                assert(acc.deep_view() =~= a0 + snap_jobs(es0.subrange(0, i as int), prefix@, ctx)
                    + jp);
                assert(decreases_to!(es0 => es0[i as int]));
                assert(decreases_to!(es0[i as int] => es0[i as int].entries));
                assert(decreases_to!(es0[i as int].entries => es0[i as int].entries@));
            }
            plan_entries(broken, &e.entries, &k, tdir, existing, rebuild, acc, Ghost(ctx));
            proof {
                assert(acc.deep_view() =~= (a0 + snap_jobs(es0.subrange(0, i as int), prefix@, ctx)
                    + jp) + snap_jobs(es0[i as int].entries@, k@, ctx));
                assert(entry_jobs(es0[i as int], prefix@, ctx) == jp + snap_jobs(
                    es0[i as int].entries@,
                    k@,
                    ctx,
                ));
                assert(acc.deep_view() =~= a0 + snap_jobs(
                    es0.subrange(0, i as int + 1),
                    prefix@,
                    ctx,
                ));
            }
        } else {
            assert(entry_jobs(es0[i as int], prefix@, ctx) =~= Seq::<JobView>::empty());
            assert(acc.deep_view() =~= a0 + snap_jobs(es0.subrange(0, i as int + 1), prefix@, ctx));
        }
        i += 1;
    }
    proof {
        assert(es0.subrange(0, n as int) =~= es0);
    }
}

/// Keys observed under the served root never collide with the root's own
/// key: they never start with a separator.
pub proof fn lemma_snap_key_no_lead_sep(
    es: Seq<SnapEntry>,
    parent_full: Seq<char>,
    tdir: Seq<char>,
    k: Seq<char>,
)
    requires
        entries_wf(es, parent_full),
        snap_keys(es, Seq::<char>::empty(), tdir).contains(k),
    ensures
        k.len() > 0 && k[0] != '/',
{
    crate::snapshot::lemma_snap_keys_shape(es, Seq::<char>::empty(), tdir, k);
    let i = choose|i: int|
        0 <= i < es.len() && entry_keys(#[trigger] es[i], Seq::<char>::empty(), tdir).contains(k);
    assert(entry_wf(es[i], parent_full));
    crate::snapshot::lemma_entry_keys_shape(es[i], Seq::<char>::empty(), tdir, k);
    let nm = es[i].name@;
    if k == nm {
    } else {
        assert(crate::strutil::is_prefix(nm + seq!['/'], k));
        assert(k.subrange(0, nm.len() as int + 1)[0] == (nm + seq!['/'])[0]);
    }
}

/// The fixed facts one pass runs under, given the state as the pass began:
/// a forced rebuild first clears every broken marker.
pub open spec fn pass_context(
    old_broken: Set<Seq<char>>,
    existing: Set<Seq<char>>,
    results: Map<Seq<char>, bool>,
    rebuild: bool,
    tdir: Seq<char>,
) -> ScanCtx {
    ScanCtx {
        broken: if rebuild {
            Set::empty()
        } else {
            old_broken
        },
        existing,
        results,
        rebuild,
        tdir,
    }
}

/// The record the served root itself carries after a pass.
pub open spec fn root_rec(root_full: Seq<char>, root_meta: FileMeta, es: Seq<SnapEntry>, tdir: Seq<char>) -> RecordView {
    RecordView {
        full_path: root_full,
        meta: root_meta,
        thumbnail_name: None,
        items_in_subdirs: (subtree_count(es, tdir) - live_count(es, tdir)) as u64,
        child_items: live_child_keys(es, Seq::<char>::empty(), tdir),
    }
}

impl Database {
    /// The previews a scan pass over this snapshot will ask for, in the
    /// order the pass visits them: every live file with a thumbnailable
    /// extension whose key is not marked broken and whose thumbnail is not
    /// already in the store — all of them when a forced rebuild is asked
    /// for, which also disregards the broken markers.
    pub fn plan_thumbnails(
        &self,
        snap: &Vec<SnapEntry>,
        cfg: &Config,
        existing: &Vec<String>,
        rebuild: bool,
    ) -> (r: Vec<ThumbJob>)
        ensures
            ({
                let ctx = pass_context(
                    self.broken_view(),
                    existing.deep_view().to_set(),
                    Map::empty(),
                    rebuild,
                    cfg.thumbnail_dir@,
                );
                r.deep_view() == snap_jobs(snap@, Seq::<char>::empty(), ctx)
            }),
    {
        let ghost ctx = pass_context(
            dash_set_view(self.thumbnail_broken),
            existing.deep_view().to_set(),
            Map::empty(),
            rebuild,
            cfg.thumbnail_dir@,
        );
        let mut acc: Vec<ThumbJob> = Vec::new();
        let empty_prefix = String::new();
        proof {
            assert(acc.deep_view() =~= Seq::<JobView>::empty());
        }
        plan_entries(
            &self.thumbnail_broken,
            snap,
            &empty_prefix,
            &cfg.thumbnail_dir,
            existing,
            rebuild,
            &mut acc,
            Ghost(ctx),
        );
        proof {
            assert(acc.deep_view() =~= snap_jobs(snap@, Seq::<char>::empty(), ctx));
        }
        acc
    }

    /// One full scan pass over an observed snapshot of the served root.
    ///
    /// Afterwards the table holds exactly the served root and the live
    /// observed entries: every record is as the pass decided it — metadata
    /// refreshed, children and aggregate counts recomputed bottom-up,
    /// thumbnails resolved against the store, the outcomes and the broken
    /// markers — and every previously present key that the snapshot no
    /// longer shows is gone, subtrees included. The broken markers grow by
    /// exactly the keys whose planned preview failed; a forced rebuild
    /// clears them first. Every stored path stays inside the served root.
    #[verifier::rlimit(30)]
    pub fn scan_pass(
        &mut self,
        root_meta: FileMeta,
        snap: &Vec<SnapEntry>,
        cfg: &Config,
        existing: &Vec<String>,
        outcomes: &Vec<ThumbOutcome>,
        rebuild: bool,
    )
        requires
            cfg.wf(),
            old(self).file_dir_view() == cfg.file_dir@,
            entries_wf(snap@, cfg.file_dir@),
            subtree_count(snap@, cfg.thumbnail_dir@) <= u64::MAX,
        ensures
            ({
                let ctx = pass_context(
                    old(self).broken_view(),
                    existing.deep_view().to_set(),
                    outcomes_map(outcomes@),
                    rebuild,
                    cfg.thumbnail_dir@,
                );
                &&& final(self).file_dir_view() == cfg.file_dir@
                &&& final(self).files_view().dom() == snap_keys(
                    snap@,
                    Seq::<char>::empty(),
                    cfg.thumbnail_dir@,
                ).insert(cfg.file_dir@)
                &&& final(self).files_view().dom().finite()
                &&& subtree_ok(final(self).files_view(), snap@, Seq::<char>::empty(), ctx)
                &&& final(self).files_view()[cfg.file_dir@] == root_rec(
                    cfg.file_dir@,
                    root_meta,
                    snap@,
                    cfg.thumbnail_dir@,
                )
                &&& final(self).broken_view() == ctx.broken + snap_failed_keys(
                    snap@,
                    Seq::<char>::empty(),
                    ctx,
                )
                &&& forall|k: Seq<char>|
                    final(self).files_view().contains_key(k) ==> under_root(
                        cfg.file_dir@,
                        #[trigger] final(self).files_view()[k].full_path,
                    )
                &&& final(self).cache_view() == old(self).cache_view()
            }),
    {
        if rebuild {
            dash_set_clear(&mut self.thumbnail_broken);
        }
        let ghost ctx = ScanCtx {
            broken: dash_set_view(self.thumbnail_broken),
            existing: existing.deep_view().to_set(),
            results: outcomes_map(outcomes@),
            rebuild,
            tdir: cfg.thumbnail_dir@,
        };
        proof {
            assert(ctx =~= pass_context(
                dash_set_view(old(self).thumbnail_broken),
                existing.deep_view().to_set(),
                outcomes_map(outcomes@),
                rebuild,
                cfg.thumbnail_dir@,
            ));
        }
        let ghost tdir = cfg.thumbnail_dir@;
        let ghost rk = cfg.file_dir@;
        let ghost m0 = dash_map_view(self.files);
        let prior = dash_map_keys(&self.files);
        let mut live: Vec<String> = Vec::new();
        let mut failed: Vec<String> = Vec::new();
        let empty_prefix = String::new();
        proof {
            assert(live.deep_view().to_set() =~= Set::<Seq<char>>::empty());
            assert(failed.deep_view().to_set() =~= Set::<Seq<char>>::empty());
            assert(crate::strutil::under_root(cfg.file_dir@, cfg.file_dir@));
        }
        let walked = walk_entries(
            &mut self.files,
            &self.thumbnail_broken,
            snap,
            &empty_prefix,
            Ghost(cfg.file_dir@),
            cfg,
            existing,
            outcomes,
            rebuild,
            &mut live,
            &mut failed,
            Ghost(ctx),
        );
        let kids = walked.0;
        let total = walked.1;
        let ghost m_walk = dash_map_view(self.files);
        let ghost snapk = snap_keys(snap@, Seq::<char>::empty(), tdir);
        proof {
            crate::snapshot::lemma_live_child_keys_len(snap@, Seq::<char>::empty(), tdir);
            crate::snapshot::lemma_live_le_subtree(snap@, tdir);
            assert(kids.deep_view().len() == kids@.len());
            assert(live.deep_view().to_set() =~= snapk);
            assert(failed.deep_view().to_set() =~= snap_failed_keys(snap@, Seq::<char>::empty(), ctx));
        }
        let n_kids: u64 = kids.len() as u64;
        let root_record = FileRecord {
            full_path: crate::strutil::copy_string(&self.file_dir.0),
            meta: root_meta,
            thumbnail_name: None,
            items_in_subdirs: total - n_kids,
            child_items: kids,
        };
        assert(root_record@ == root_rec(rk, root_meta, snap@, tdir));
        dash_map_insert(&mut self.files, crate::strutil::copy_string(&self.file_dir.0), root_record);
        let ghost live_deep = live.deep_view();
        live.push(crate::strutil::copy_string(&self.file_dir.0));
        proof {
            assert(live.deep_view() =~= live_deep.push(rk));
            lemma_push_to_set(live_deep, rk);
        }
        let ghost m_ins = dash_map_view(self.files);
        let ghost lset = live.deep_view().to_set();
        proof {
            assert(lset =~= snapk.insert(rk));
            // the root's key never appears among the observed keys, so the
            // root record did not clobber any of theirs
            assert forall|k2: Seq<char>| snapk.contains(k2) implies m_ins.contains_key(k2)
                && #[trigger] m_ins[k2] == m_walk[k2] by {
                lemma_snap_key_no_lead_sep(snap@, cfg.file_dir@, tdir, k2);
            }
            lemma_subtree_ok_agree(m_walk, m_ins, snap@, Seq::<char>::empty(), ctx);
            assert(m_ins.dom() =~= m0.dom() + lset);
        }
        // garbage collection: sweep every previously present key that this
        // pass did not write
        let mut j: usize = 0;
        let ghost pr = prior.deep_view();
        while j < prior.len()
            invariant
                j <= prior@.len(),
                pr == prior.deep_view(),
                pr.to_set() == m0.dom(),
                lset == live.deep_view().to_set(),
                self.file_dir@ == cfg.file_dir@,
                dash_set_view(self.thumbnail_broken) == ctx.broken,
                self.cache_view() == old(self).cache_view(),
                dash_map_view(self.files) == m_ins.remove_keys(
                    Set::new(
                        |k: Seq<char>|
                            exists|t: int|
                                0 <= t < j && pr[t] == k && !lset.contains(k),
                    ),
                ),
                dash_map_view(self.files).dom().finite(),
            decreases prior@.len() - j,
        {
            let ghost swept = Set::new(
                |k: Seq<char>|
                    exists|t: int| 0 <= t < j && pr[t] == k && !lset.contains(k),
            );
            let ghost swept_next = Set::new(
                |k: Seq<char>|
                    exists|t: int| 0 <= t < j + 1 && pr[t] == k && !lset.contains(k),
            );
            assert(prior[j as int]@ == pr[j as int]);
            if !vec_contains_string(&live, &prior[j]) {
                assert(!lset.contains(pr[j as int])) by {
                    if lset.contains(pr[j as int]) {
                        let t = choose|t: int|
                            0 <= t < live.deep_view().len() && live.deep_view()[t] == pr[j as int];
                        assert(live.deep_view().contains(pr[j as int]));
                    }
                }
                dash_map_remove(&mut self.files, &prior[j]);
                proof {
                    assert(swept_next =~= swept.insert(pr[j as int]));
                    assert(dash_map_view(self.files) =~= m_ins.remove_keys(swept_next));
                }
            } else {
                proof {
                    assert(live.deep_view().contains(pr[j as int]));
                    assert(lset.contains(pr[j as int]));
                    assert(swept_next =~= swept);
                }
            }
            j += 1;
        }
        let ghost swept_all = Set::new(
            |k: Seq<char>|
                exists|t: int| 0 <= t < pr.len() && pr[t] == k && !lset.contains(k),
        );
        let ghost m_gc = dash_map_view(self.files);
        proof {
            assert(m_gc == m_ins.remove_keys(swept_all));
            assert(m_gc.dom() =~= lset) by {
                assert forall|k2: Seq<char>| m_gc.dom().contains(k2) implies lset.contains(k2) by {
                    if !lset.contains(k2) {
                        assert(m_ins.dom().contains(k2));
                        if m0.dom().contains(k2) {
                            let t = choose|t: int| 0 <= t < pr.len() && pr[t] == k2;
                            assert(swept_all.contains(k2));
                        }
                    }
                }
                assert forall|k2: Seq<char>| lset.contains(k2) implies m_gc.dom().contains(k2) by {
                    assert(m_ins.dom().contains(k2));
                    assert(!swept_all.contains(k2));
                }
            }
            assert forall|k2: Seq<char>| lset.contains(k2) implies m_gc.contains_key(k2)
                && #[trigger] m_gc[k2] == m_ins[k2] by {
                assert(!swept_all.contains(k2));
            }
            lemma_subtree_ok_agree(m_ins, m_gc, snap@, Seq::<char>::empty(), ctx);
        }
        // record the keys whose planned preview failed
        let mut t: usize = 0;
        let ghost b0 = ctx.broken;
        let ghost fd = failed.deep_view();
        proof {
            assert(fd.subrange(0, 0) =~= Seq::<Seq<char>>::empty());
            assert(fd.subrange(0, 0).to_set() =~= Set::<Seq<char>>::empty());
            assert(b0 + fd.subrange(0, 0).to_set() =~= b0);
        }
        while t < failed.len()
            invariant
                t <= failed@.len(),
                fd == failed.deep_view(),
                self.file_dir@ == cfg.file_dir@,
                dash_map_view(self.files) == m_gc,
                self.cache_view() == old(self).cache_view(),
                dash_set_view(self.thumbnail_broken) == b0 + fd.subrange(0, t as int).to_set(),
            decreases failed@.len() - t,
        {
            proof {
                assert(fd.subrange(0, t as int + 1) =~= fd.subrange(0, t as int).push(
                    fd[t as int],
                ));
                lemma_push_to_set(fd.subrange(0, t as int), fd[t as int]);
            }
            assert(failed[t as int]@ == fd[t as int]);
            dash_set_insert(&mut self.thumbnail_broken, crate::strutil::copy_string(&failed[t]));
            proof {
                assert(dash_set_view(self.thumbnail_broken) =~= b0 + fd.subrange(
                    0,
                    t as int + 1,
                ).to_set());
            }
            t += 1;
        }
        proof {
            assert(fd.subrange(0, fd.len() as int) =~= fd);
            assert(dash_set_view(self.thumbnail_broken) =~= ctx.broken + snap_failed_keys(
                snap@,
                Seq::<char>::empty(),
                ctx,
            ));
            assert(m_gc.dom() =~= snapk.insert(rk));
            assert forall|k2: Seq<char>| m_gc.contains_key(k2) implies under_root(
                cfg.file_dir@,
                #[trigger] m_gc[k2].full_path,
            ) by {
                if k2 == rk {
                    assert(m_gc[rk] == m_ins[rk]);
                } else {
                    assert(snapk.contains(k2));
                    assert(m_gc[k2] == m_ins[k2]);
                    assert(m_ins[k2] == m_walk[k2]);
                }
            }
        }
    }
}

} // verus!
