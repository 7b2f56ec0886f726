use vstd::prelude::*;
use crate::paths::LocalPath;
use crate::records::{FileRecord, RecordView};

verus! {

/// The shared state of the indexer: the served root, the concurrent file
/// table, and the set of keys whose thumbnail is known broken.
pub struct Database {
    /// Canonical absolute path of the served root directory.
    pub(crate) file_dir: LocalPath,
    /// The concurrent file table: one record per canonical relative path
    /// (the served-root entry itself is keyed by the root's absolute path).
    /// Kept inside the crate so every mutation goes through the contracted
    /// operations.
    pub(crate) files: dashmap::DashMap<String, FileRecord>,
    /// Keys whose thumbnail failed to generate or to load; never retried
    /// until a forced rebuild clears them.
    pub(crate) thumbnail_broken: dashmap::DashSet<String>,
    /// Bounded cache of encoded thumbnail data, keyed by thumbnail file
    /// name; a pure read-side acceleration that no table invariant depends
    /// on.
    pub(crate) thumbnail_name_data: moka::sync::Cache<String, String>,
}

impl Database {
    /// Mathematical image of the file table.
    pub open(crate) spec fn files_view(&self) -> Map<Seq<char>, RecordView> {
        dash_map_view(self.files)
    }

    /// Mathematical image of the broken-thumbnail set.
    pub open(crate) spec fn broken_view(&self) -> Set<Seq<char>> {
        dash_set_view(self.thumbnail_broken)
    }

    /// Mathematical image of the thumbnail-data cache.
    pub open(crate) spec fn cache_view(&self) -> Map<Seq<char>, Seq<char>> {
        crate::cache::cache_view(self.thumbnail_name_data)
    }

    /// The served root's canonical absolute path, as characters.
    pub open(crate) spec fn file_dir_view(&self) -> Seq<char> {
        self.file_dir@
    }


    /// Point lookup of one record by its key.
    pub fn lookup(&self, key: &String) -> (r: Option<FileRecord>)
        ensures
            match r {
                Some(rec) => self.files_view().contains_key(key@) && rec@ == self.files_view()[key@],
                None => !self.files_view().contains_key(key@),
            },
    {
        dash_map_get(&self.files, key)
    }

    /// The keys of an entry's direct children, in scan order, if the entry
    /// is known.
    pub fn children_of(&self, key: &String) -> (r: Option<Vec<String>>)
        ensures
            match r {
                Some(ks) => self.files_view().contains_key(key@) && ks.deep_view()
                    == self.files_view()[key@].child_items,
                None => !self.files_view().contains_key(key@),
            },
    {
        match dash_map_get(&self.files, key) {
            Some(rec) => Some(rec.child_items),
            None => None,
        }
    }

    /// The number of entries transitively contained under a known entry, as
    /// the last pass computed it, clamped to the representable range.
    pub fn descendant_count(&self, key: &String) -> (r: Option<u64>)
        ensures
            match r {
                Some(c) => {
                    &&& self.files_view().contains_key(key@)
                    &&& c == if self.files_view()[key@].descendant_count() > u64::MAX as int {
                        u64::MAX as int
                    } else {
                        self.files_view()[key@].descendant_count()
                    }
                },
                None => !self.files_view().contains_key(key@),
            },
    {
        match dash_map_get(&self.files, key) {
            Some(rec) => {
                let total: u128 = rec.child_items.len() as u128 + rec.items_in_subdirs as u128;
                if total > u64::MAX as u128 {
                    Some(u64::MAX)
                } else {
                    Some(total as u64)
                }
            },
            None => None,
        }
    }

    /// Every key currently in the table, in no particular order.
    pub fn all_keys(&self) -> (r: Vec<String>)
        ensures
            r.deep_view().to_set() == self.files_view().dom(),
            forall|i: int|
                #![trigger r.deep_view()[i]]
                forall|j: int|
                    #![trigger r.deep_view()[j]]
                    0 <= i < j < r.deep_view().len() ==> r.deep_view()[i] != r.deep_view()[j],
    {
        dash_map_keys(&self.files)
    }

    /// Every listed path is the serve-relative path of some record: the
    /// sequence `wits` names, position by position, the table key each
    /// listed path came from. The witness keys are pairwise distinct, so
    /// each record is listed at most once.
    pub open spec fn listing_sound(&self, rs: Seq<String>, wits: Seq<Seq<char>>) -> bool {
        &&& wits.len() == rs.len()
        &&& forall|i: int, j: int|
            #![trigger wits[i], wits[j]]
            0 <= i < j < wits.len() ==> wits[i] != wits[j]
        &&& forall|i: int|
            #![trigger rs[i]]
            #![trigger wits[i]]
            0 <= i < rs.len() ==> self.files_view().contains_key(wits[i]) && rs[i]@
                == crate::strutil::rel_of(
                self.file_dir_view(),
                self.files_view()[wits[i]].full_path,
            )
    }

    /// Every record inside the served root is either listed or was shown to
    /// the predicate and turned down.
    pub open spec fn listing_complete<F: Fn(&String) -> bool>(&self, pred: F, rs: Seq<String>) -> bool {
        forall|k: Seq<char>|
            self.files_view().contains_key(k) && crate::strutil::under_root(
                self.file_dir_view(),
                #[trigger] self.files_view()[k].full_path,
            ) ==> (exists|i: int|
                0 <= i < rs.len() && rs[i]@ == crate::strutil::rel_of(
                    self.file_dir_view(),
                    self.files_view()[k].full_path,
                )) || (exists|s: String|
                s@ == crate::strutil::rel_of(self.file_dir_view(), self.files_view()[k].full_path)
                    && pred.ensures((&s,), false))
    }

    /// The predicate approved everything listed.
    pub open spec fn listing_kept<F: Fn(&String) -> bool>(pred: F, rs: Seq<String>) -> bool {
        forall|i: int| 0 <= i < rs.len() ==> #[trigger] pred.ensures((&rs[i],), true)
    }

    /// The serve-relative path of every record the predicate keeps: a
    /// linear scan over the whole table, supporting the search feature.
    /// The surrounding layer owns presentation order.
    #[verifier::rlimit(60)]
    pub fn list_matching<F: Fn(&String) -> bool>(&self, pred: F) -> (r: Vec<String>)
        requires
            forall|s: String| #[trigger] pred.requires((&s,)),
        ensures
            exists|wits: Seq<Seq<char>>| #[trigger] self.listing_sound(r@, wits),
            Self::listing_kept(pred, r@),
            self.listing_complete(pred, r@),
    {
        let keys = dash_map_keys(&self.files);
        let mut out: Vec<String> = Vec::new();
        let ghost mut wit: Seq<Seq<char>> = Seq::empty();
        let ghost mut wit_idx: Seq<int> = Seq::empty();
        let mut i: usize = 0;
        while i < keys.len()
            invariant
                i <= keys@.len(),
                keys.deep_view().to_set() == self.files_view().dom(),
                forall|s: String| #[trigger] pred.requires((&s,)),
                wit.len() == out@.len(),
                wit_idx.len() == wit.len(),
                forall|t: int|
                    #![trigger wit_idx[t]]
                    0 <= t < wit.len() ==> 0 <= wit_idx[t] < i && wit[t] == keys.deep_view()[wit_idx[t]],
                forall|t1: int, t2: int|
                    #![trigger wit_idx[t1], wit_idx[t2]]
                    0 <= t1 < t2 < wit.len() ==> wit_idx[t1] != wit_idx[t2],
                forall|t: int|
                    #![trigger out@[t]]
                    #![trigger wit[t]]
                    0 <= t < out@.len() ==> self.files_view().contains_key(wit[t]) && out@[t]@
                        == crate::strutil::rel_of(
                        self.file_dir@,
                        self.files_view()[wit[t]].full_path,
                    ),
                forall|t: int| 0 <= t < out@.len() ==> #[trigger] pred.ensures((&out@[t],), true),
                forall|j: int|
                    #![trigger keys.deep_view()[j]]
                    0 <= j < i ==> {
                        let k = keys.deep_view()[j];
                        self.files_view().contains_key(k) && crate::strutil::under_root(
                            self.file_dir@,
                            self.files_view()[k].full_path,
                        ) ==> (exists|t: int|
                            0 <= t < out@.len() && out@[t]@ == crate::strutil::rel_of(
                                self.file_dir@,
                                self.files_view()[k].full_path,
                            )) || (exists|s: String|
                            s@ == crate::strutil::rel_of(
                                self.file_dir@,
                                self.files_view()[k].full_path,
                            ) && pred.ensures((&s,), false))
                    },
            decreases keys@.len() - i,
        {
            let key = &keys[i];
            assert(key@ == keys.deep_view()[i as int]);
            match dash_map_get(&self.files, key) {
                None => {
                    assert(keys.deep_view().to_set().contains(keys.deep_view()[i as int]));
                },
                Some(rec) => {
                    let rel: Option<String> = if rec.full_path == self.file_dir.0 {
                        let empty_rel = String::new();
                        Some(empty_rel)
                    } else {
                        crate::strutil::strip_root(self.file_dir.0.as_str(), rec.full_path.as_str())
                    };
                    match rel {
                        Some(relpath) => {
                            proof {
                                if rec.full_path@ != self.file_dir@ {
                                    assert(rec.full_path@.skip(self.file_dir@.len() as int + 1)
                                        =~= relpath@);
                                }
                                assert(relpath@ == crate::strutil::rel_of(
                                    self.file_dir@,
                                    rec.full_path@,
                                ));
                            }
                            proof {
                                assert(self.files_view().contains_key(key@) && relpath@
                                    == crate::strutil::rel_of(
                                    self.file_dir@,
                                    self.files_view()[key@].full_path,
                                ));
                            }
                            let keep = pred(&relpath);
                            if keep {
                                let ghost out0 = out@;
                                let ghost wit0 = wit;
                                let ghost wit_idx0 = wit_idx;
                                out.push(relpath);
                                proof {
                                    wit = wit.push(key@);
                                    wit_idx = wit_idx.push(i as int);
                                    assert(wit_idx[wit_idx.len() - 1] == i as int);
                                    assert(out@ == out0.push(relpath));
                                    assert(out@[out@.len() - 1] == relpath);
                                    assert(wit[wit.len() - 1] == key@);
                                    assert(forall|t: int|
                                        #![trigger out@[t]]
                                        #![trigger wit[t]]
                                        #![trigger out0[t]]
                                        0 <= t < out0.len() ==> out@[t] == out0[t] && wit[t]
                                            == wit0[t]);
                                    assert(forall|t: int|
                                        #![trigger wit_idx[t]]
                                        0 <= t < wit0.len() ==> wit_idx[t] == wit_idx0[t]);
                                    assert(self.files_view().contains_key(key@));
                                }
                            } else {
                                proof {
                                    assert(exists|s: String|
                                        s@ == crate::strutil::rel_of(
                                            self.file_dir@,
                                            self.files_view()[key@].full_path,
                                        ) && pred.ensures((&s,), false)) by {
                                        assert(relpath@ == crate::strutil::rel_of(
                                            self.file_dir@,
                                            self.files_view()[key@].full_path,
                                        ) && pred.ensures((&relpath,), false));
                                    }
                                }
                            }
                        },
                        None => {
                            assert(!crate::strutil::under_root(self.file_dir@, rec.full_path@));
                        },
                    }
                },
            }
            assert(wit.len() == out@.len());
            assert(forall|t: int|
                #![trigger out@[t]]
                0 <= t < out@.len() ==> self.files_view().contains_key(wit[t]) && out@[t]@
                    == crate::strutil::rel_of(
                    self.file_dir@,
                    self.files_view()[wit[t]].full_path,
                ));
            i += 1;
        }
        proof {
            assert forall|t1: int, t2: int|
                #![trigger wit[t1], wit[t2]]
                0 <= t1 < t2 < wit.len() implies wit[t1] != wit[t2] by {
                assert(wit[t1] == keys.deep_view()[wit_idx[t1]]);
                assert(wit[t2] == keys.deep_view()[wit_idx[t2]]);
                let a = if wit_idx[t1] < wit_idx[t2] {
                    wit_idx[t1]
                } else {
                    wit_idx[t2]
                };
                let b = if wit_idx[t1] < wit_idx[t2] {
                    wit_idx[t2]
                } else {
                    wit_idx[t1]
                };
                assert(keys.deep_view()[a] != keys.deep_view()[b]);
            }
            assert(self.listing_sound(out@, wit));
            assert(Self::listing_kept(pred, out@));
            assert forall|k: Seq<char>|
                self.files_view().contains_key(k) && crate::strutil::under_root(
                    self.file_dir@,
                    #[trigger] self.files_view()[k].full_path,
                ) implies (exists|i2: int|
                0 <= i2 < out@.len() && out@[i2]@ == crate::strutil::rel_of(
                    self.file_dir@,
                    self.files_view()[k].full_path,
                )) || (exists|s: String|
                s@ == crate::strutil::rel_of(self.file_dir@, self.files_view()[k].full_path)
                    && pred.ensures((&s,), false)) by {
                assert(keys.deep_view().to_set().contains(k));
                let j = choose|j: int| 0 <= j < keys.deep_view().len() && keys.deep_view()[j] == k;
                assert(keys.deep_view()[j] == k);
            }
            assert(self.listing_complete(pred, out@));
        }
        out
    }

    /// A fresh database over the given served root, with an empty table and
    /// a data cache bounded by the given entry count.
    pub fn new(file_dir: LocalPath, cache_capacity: u64) -> (r: Database)
        ensures
            r.files_view() == (Map::<Seq<char>, RecordView>::empty()),
            r.broken_view() == Set::<Seq<char>>::empty(),
            r.cache_view() == (Map::<Seq<char>, Seq<char>>::empty()),
            r.file_dir_view() == file_dir@,
    {
        Database {
            file_dir,
            files: dash_map_new(),
            thumbnail_broken: dash_set_new(),
            thumbnail_name_data: crate::cache::cache_new(cache_capacity),
        }
    }
}

#[verifier::external_type_specification]
#[verifier::external_body]
#[verifier::reject_recursive_types(K)]
#[verifier::reject_recursive_types(V)]
#[verifier::reject_recursive_types(S)]
pub struct ExDashMap<K, V, S>(dashmap::DashMap<K, V, S>);

#[verifier::external_type_specification]
#[verifier::external_body]
#[verifier::reject_recursive_types(K)]
#[verifier::reject_recursive_types(S)]
pub struct ExDashSet<K, S>(dashmap::DashSet<K, S>);

/// What the concurrent file table holds: one record per key.
pub uninterp spec fn dash_map_view(m: dashmap::DashMap<String, FileRecord>) -> Map<
    Seq<char>,
    RecordView,
>;

/// What the broken-thumbnail set holds: the keys whose thumbnail is known to
/// be ungeneratable or unreadable.
pub uninterp spec fn dash_set_view(s: dashmap::DashSet<String>) -> Set<Seq<char>>;

/// Relies on dashmap::DashMap::new: the new map is empty.
#[verifier::external_body]
pub(crate) fn dash_map_new() -> (r: dashmap::DashMap<String, FileRecord>)
    ensures
        dash_map_view(r) == (Map::<Seq<char>, RecordView>::empty()),
{
    dashmap::DashMap::new()
}

/// Relies on dashmap::DashMap::insert: the key now maps to the value, and the
/// prior value for that key, if any, is returned.
#[verifier::external_body]
pub(crate) fn dash_map_insert(
    m: &mut dashmap::DashMap<String, FileRecord>,
    key: String,
    value: FileRecord,
) -> (r: Option<FileRecord>)
    ensures
        dash_map_view(*final(m)) == dash_map_view(*old(m)).insert(key@, value@),
        dash_map_view(*final(m)).dom().finite(),
        match r {
            Some(v) => dash_map_view(*old(m)).contains_key(key@) && v@ == dash_map_view(*old(m))[key@],
            None => !dash_map_view(*old(m)).contains_key(key@),
        },
{
    m.insert(key, value)
}

/// Relies on dashmap::DashMap::get: returns the value stored under the key,
/// if any (copied out of the shard guard).
#[verifier::external_body]
pub(crate) fn dash_map_get(m: &dashmap::DashMap<String, FileRecord>, key: &String) -> (r: Option<
    FileRecord,
>)
    ensures
        match r {
            Some(v) => dash_map_view(*m).contains_key(key@) && v@ == dash_map_view(*m)[key@],
            None => !dash_map_view(*m).contains_key(key@),
        },
{
    m.get(key).map(|e| e.value().clone())
}

/// Relies on dashmap::DashMap::remove: the key is no longer present, and the
/// removed value, if any, is returned.
#[verifier::external_body]
pub(crate) fn dash_map_remove(m: &mut dashmap::DashMap<String, FileRecord>, key: &String) -> (r: Option<
    FileRecord,
>)
    ensures
        dash_map_view(*final(m)) == dash_map_view(*old(m)).remove(key@),
        dash_map_view(*final(m)).dom().finite(),
        match r {
            Some(v) => dash_map_view(*old(m)).contains_key(key@) && v@ == dash_map_view(*old(m))[key@],
            None => !dash_map_view(*old(m)).contains_key(key@),
        },
{
    m.remove(key).map(|(_, v)| v)
}

/// Relies on dashmap::DashMap::iter: visits every entry exactly once; this
/// wrapper copies the keys out.
#[verifier::external_body]
pub(crate) fn dash_map_keys(m: &dashmap::DashMap<String, FileRecord>) -> (r: Vec<String>)
    ensures
        r.deep_view().to_set() == dash_map_view(*m).dom(),
        forall|i: int|
            #![trigger r.deep_view()[i]]
            forall|j: int|
                #![trigger r.deep_view()[j]]
                0 <= i < j < r.deep_view().len() ==> r.deep_view()[i] != r.deep_view()[j],
{
    m.iter().map(|e| e.key().clone()).collect()
}

/// Relies on dashmap::DashSet::new: the new set is empty.
#[verifier::external_body]
pub(crate) fn dash_set_new() -> (r: dashmap::DashSet<String>)
    ensures
        dash_set_view(r) == Set::<Seq<char>>::empty(),
{
    dashmap::DashSet::new()
}

/// Relies on dashmap::DashSet::insert: the key is now a member; returns
/// whether it was absent before.
#[verifier::external_body]
pub(crate) fn dash_set_insert(s: &mut dashmap::DashSet<String>, key: String) -> (r: bool)
    ensures
        dash_set_view(*final(s)) == dash_set_view(*old(s)).insert(key@),
        dash_set_view(*final(s)).finite(),
        r == !dash_set_view(*old(s)).contains(key@),
{
    s.insert(key)
}

/// Relies on dashmap::DashSet::contains: membership test.
#[verifier::external_body]
pub(crate) fn dash_set_contains(s: &dashmap::DashSet<String>, key: &String) -> (r: bool)
    ensures
        r == dash_set_view(*s).contains(key@),
{
    s.contains(key)
}

/// Relies on dashmap::DashSet::clear: the set is empty afterwards.
#[verifier::external_body]
pub(crate) fn dash_set_clear(s: &mut dashmap::DashSet<String>)
    ensures
        dash_set_view(*final(s)) == Set::<Seq<char>>::empty(),
{
    s.clear()
}

} // verus!
