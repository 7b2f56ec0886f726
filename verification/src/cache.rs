use vstd::prelude::*;
use crate::db::{dash_set_contains, dash_set_insert, dash_set_view, Database};

verus! {

#[verifier::external_type_specification]
#[verifier::external_body]
#[verifier::reject_recursive_types(K)]
#[verifier::reject_recursive_types(V)]
#[verifier::reject_recursive_types(S)]
pub struct ExMokaCache<K, V, S>(moka::sync::Cache<K, V, S>);

/// What the bounded thumbnail-data cache associates: the last value written
/// for each key. The cache may silently drop entries at any time, so a
/// lookup may miss even a tracked key, but what it returns is always the
/// value last written.
pub uninterp spec fn cache_view(c: moka::sync::Cache<String, String>) -> Map<Seq<char>, Seq<char>>;

/// Relies on moka::sync::Cache::new: a fresh cache holds nothing and is
/// bounded by the given entry count, evicting entries as needed.
#[verifier::external_body]
pub(crate) fn cache_new(capacity: u64) -> (r: moka::sync::Cache<String, String>)
    ensures
        cache_view(r) == (Map::<Seq<char>, Seq<char>>::empty()),
{
    moka::sync::Cache::new(capacity)
}

/// Relies on moka::sync::Cache::get: a hit returns the value last written
/// for the key; a bounded cache may miss any key.
#[verifier::external_body]
pub(crate) fn cache_get(c: &moka::sync::Cache<String, String>, key: &String) -> (r: Option<String>)
    ensures
        match r {
            Some(v) => cache_view(*c).contains_key(key@) && cache_view(*c)[key@] == v@,
            None => r is None,
        },
{
    c.get(key)
}

/// Relies on moka::sync::Cache::insert: the key is now associated with the
/// value, subject to later eviction.
#[verifier::external_body]
pub(crate) fn cache_insert(c: &mut moka::sync::Cache<String, String>, key: String, value: String)
    ensures
        cache_view(*final(c)) == cache_view(*old(c)).insert(key@, value@),
{
    c.insert(key, value)
}

/// What encoding bytes for inline embedding yields.
pub uninterp spec fn base64_of(b: Seq<u8>) -> Seq<char>;

/// Relies on base64's STANDARD engine: the text depends on the bytes alone.
#[verifier::external_body]
fn b64_encode(b: &Vec<u8>) -> (r: String)
    ensures
        r@ == base64_of(b@),
{
    base64::Engine::encode(&base64::engine::general_purpose::STANDARD, b)
}

/// What one thumbnail-data lookup asks its caller to do next.
pub enum ThumbFetch {
    /// The encoded thumbnail, ready to embed.
    Inline(String),
    /// Not cached: read this file name from the thumbnail store and report
    /// back.
    NeedDisk(String),
    /// No thumbnail is served for this entry; the disk is left alone.
    Nothing,
}

impl Database {
    /// First half of a thumbnail-data lookup for the entry under `key`: a
    /// cache hit is returned inline; a key marked broken, or one without a
    /// thumbnail, asks for nothing — in particular no disk access; an
    /// unmarked miss asks the caller to read the store.
    pub fn thumbnail_data_step(&self, key: &String, thumbnail_name: &Option<String>) -> (r:
        ThumbFetch)
        ensures
            match r {
                ThumbFetch::Inline(v) => {
                    &&& !self.broken_view().contains(key@)
                    &&& (match *thumbnail_name {
                        Some(nm) => self.cache_view().contains_key(nm@) && self.cache_view()[nm@]
                            == v@,
                        None => false,
                    })
                },
                ThumbFetch::NeedDisk(n) => {
                    &&& !self.broken_view().contains(key@)
                    &&& (match *thumbnail_name {
                        Some(nm) => nm@ == n@,
                        None => false,
                    })
                },
                ThumbFetch::Nothing => self.broken_view().contains(key@)
                    || *thumbnail_name is None,
            },
            self.broken_view().contains(key@) ==> r is Nothing,
    {
        if dash_set_contains(&self.thumbnail_broken, key) {
            return ThumbFetch::Nothing;
        }
        match thumbnail_name {
            None => ThumbFetch::Nothing,
            Some(name) => match cache_get(&self.thumbnail_name_data, name) {
                Some(hit) => ThumbFetch::Inline(hit),
                None => ThumbFetch::NeedDisk(crate::strutil::copy_string(name)),
            },
        }
    }

    /// Second half of a thumbnail-data lookup: what the store's disk read
    /// produced. Bytes are encoded for embedding and cached under the
    /// thumbnail name; a failed read marks the entry's key broken, so that
    /// no later lookup for it touches the disk again until a forced rebuild
    /// clears the marker.
    pub fn thumbnail_disk_result(
        &mut self,
        key: &String,
        thumbnail_name: &String,
        data: Option<&Vec<u8>>,
    ) -> (r: Option<String>)
        ensures
            match data {
                Some(bytes) => {
                    &&& r matches Some(v) && v@ == base64_of(bytes@)
                    &&& final(self).cache_view() == old(self).cache_view().insert(
                        thumbnail_name@,
                        base64_of(bytes@),
                    )
                    &&& final(self).broken_view() == old(self).broken_view()
                },
                None => {
                    &&& r is None
                    &&& final(self).broken_view() == old(self).broken_view().insert(key@)
                    &&& final(self).cache_view() == old(self).cache_view()
                },
            },
            final(self).files_view() == old(self).files_view(),
            final(self).file_dir_view() == old(self).file_dir_view(),
    {
        match data {
            Some(bytes) => {
                let b64 = b64_encode(bytes);
                cache_insert(
                    &mut self.thumbnail_name_data,
                    crate::strutil::copy_string(thumbnail_name),
                    crate::strutil::copy_string(&b64),
                );
                Some(b64)
            },
            None => {
                dash_set_insert(&mut self.thumbnail_broken, crate::strutil::copy_string(key));
                None
            },
        }
    }
}

/// Once a lookup has failed with a disk error, the key stays marked and
/// every later lookup for it is answered without any disk access: the step
/// function returns nothing for a marked key, and a scan pass without a
/// forced rebuild only ever adds broken markers.
pub proof fn lemma_negative_caching(
    before: Set<Seq<char>>,
    after_pass: Set<Seq<char>>,
    failed: Set<Seq<char>>,
    key: Seq<char>,
)
    requires
        before.contains(key),
        after_pass == before + failed,
    ensures
        after_pass.contains(key),
{
}

} // verus!
