use vstd::prelude::*;
use crate::config::{Config, IndexError};
use crate::db::Database;
use crate::strutil::{
    is_prefix, parts, path_join, split_parts, starts_with, strictly_under, strip_root, suffix_from,
};

verus! {

/// A canonical absolute path on disk.
#[derive(Debug, PartialEq, Eq, Hash, Clone)]
pub struct LocalPath(pub String);

/// An externally presented request path, rooted at the configured page root.
#[derive(Debug, PartialEq, Eq, Hash, Clone)]
pub struct ServePath(pub String);

/// A path of an encoded thumbnail file inside the thumbnail store.
#[derive(Debug, PartialEq, Eq, Hash, Clone)]
pub struct ThumbnailPath(pub String);

impl View for LocalPath {
    type V = Seq<char>;

    open spec fn view(&self) -> Seq<char> {
        self.0@
    }
}

impl View for ServePath {
    type V = Seq<char>;

    open spec fn view(&self) -> Seq<char> {
        self.0@
    }
}

impl View for ThumbnailPath {
    type V = Seq<char>;

    open spec fn view(&self) -> Seq<char> {
        self.0@
    }
}

impl From<String> for ServePath {
    fn from(value: String) -> (r: Self) {
        ServePath(value)
    }
}

impl vstd::std_specs::convert::FromSpecImpl<String> for ServePath {
    open spec fn obeys_from_spec() -> bool {
        true
    }

    open spec fn from_spec(value: String) -> Self {
        ServePath(value)
    }
}

impl From<String> for LocalPath {
    fn from(value: String) -> (r: Self) {
        LocalPath(value)
    }
}

impl vstd::std_specs::convert::FromSpecImpl<String> for LocalPath {
    open spec fn obeys_from_spec() -> bool {
        true
    }

    open spec fn from_spec(value: String) -> Self {
        LocalPath(value)
    }
}

impl From<String> for ThumbnailPath {
    fn from(value: String) -> (r: Self) {
        ThumbnailPath(value)
    }
}

impl vstd::std_specs::convert::FromSpecImpl<String> for ThumbnailPath {
    open spec fn obeys_from_spec() -> bool {
        true
    }

    open spec fn from_spec(value: String) -> Self {
        ThumbnailPath(value)
    }
}

impl ThumbnailPath {
    pub fn thumbnail_path(&self) -> (r: &str)
        ensures
            r@ == self@,
    {
        self.0.as_str()
    }
}

/// What an external request path strips down to, relative to the page root:
/// the part after the prefix, without a leading separator; `None` when the
/// path does not start with the page root.
pub open spec fn strip_page_root(page_root: Seq<char>, p: Seq<char>) -> Option<Seq<char>> {
    if p == page_root {
        Some(Seq::empty())
    } else if page_root == seq!['/'] && is_prefix(page_root, p) {
        Some(p.skip(1))
    } else if strictly_under(page_root, p) {
        Some(p.skip(page_root.len() as int + 1))
    } else {
        None
    }
}

/// Strips the page root prefix from an external path.
pub fn strip_page_root_exec(page_root: &str, p: &str) -> (r: Option<String>)
    requires
        page_root@.len() > 0,
        page_root@[0] == '/',
    ensures
        match r {
            Some(rest) => strip_page_root(page_root@, p@) == Some(rest@),
            None => strip_page_root(page_root@, p@) is None,
        },
{
    let pr_len = crate::strutil::char_count(page_root);
    let p_len = crate::strutil::char_count(p);
    if pr_len == p_len && starts_with(p, page_root) {
        proof {
            assert(p@ =~= page_root@);
        }
        let rest = String::new();
        assert(rest@ =~= Seq::<char>::empty());
        return Some(rest);
    }
    if pr_len == 1 {
        proof {
            reveal_strlit("/");
        }
        assert(page_root@ =~= seq!['/']);
        if starts_with(p, page_root) {
            let rest = suffix_from(p, 1);
            return Some(rest);
        }
        proof {
            if p@ == page_root@ {
                assert(p@.subrange(0, page_root@.len() as int) =~= page_root@);
            }
            if strictly_under(page_root@, p@) {
                crate::strutil::lemma_prefix_shorter(page_root@, seq!['/'], p@);
            }
        }
        return None;
    }
    match strip_root(page_root, p) {
        Some(rest) => {
            proof {
                assert(p@.skip(page_root@.len() as int + 1) =~= rest@);
                assert(p@ != page_root@) by {
                    if p@ == page_root@ {
                        assert(p@.len() == page_root@.len() + 1 + rest@.len());
                    }
                }
            }
            Some(rest)
        },
        None => {
            proof {
                if p@ == page_root@ {
                    assert(p@.subrange(0, page_root@.len() as int) =~= page_root@);
                }
            }
            None
        },
    }
}

/// What percent-encoding a path part yields.
pub uninterp spec fn pct_encoded_of(s: Seq<char>) -> Seq<char>;

/// Relies on percent_encoding::utf8_percent_encode with its NON_ALPHANUMERIC
/// set: the encoding of a string depends on its characters alone.
#[verifier::external_body]
fn pct_encode(s: &str) -> (r: String)
    ensures
        r@ == pct_encoded_of(s@),
{
    percent_encoding::utf8_percent_encode(s, percent_encoding::NON_ALPHANUMERIC).to_string()
}

/// What percent-decoding a request path part yields.
pub uninterp spec fn pct_decoded_of(s: Seq<char>) -> Seq<char>;

/// Relies on percent_encoding::percent_decode, and on decode_utf8_lossy of
/// the iterator it returns: the decoding of a string depends on its
/// characters alone.
#[verifier::external_body]
fn pct_decode(s: &str) -> (r: String)
    ensures
        r@ == pct_decoded_of(s@),
{
    percent_encoding::percent_decode(s.as_bytes()).decode_utf8_lossy().into_owned()
}

/// A path part as it is rendered: percent-encoded or verbatim.
pub open spec fn enc_part(p: Seq<char>, enc: bool) -> Seq<char> {
    if enc {
        pct_encoded_of(p)
    } else {
        p
    }
}

/// Whether a path part is kept when rendering: the current-directory part is
/// dropped.
pub open spec fn keep_part(p: Seq<char>) -> bool {
    !(p.len() == 1 && p[0] == '.')
}

/// The parts that rendering keeps, in order.
pub open spec fn kept_parts(ps: Seq<Seq<char>>) -> Seq<Seq<char>>
    decreases ps.len(),
{
    if ps.len() == 0 {
        Seq::empty()
    } else if keep_part(ps.last()) {
        kept_parts(ps.drop_last()).push(ps.last())
    } else {
        kept_parts(ps.drop_last())
    }
}

proof fn lemma_kept_push(ps: Seq<Seq<char>>, x: Seq<char>)
    ensures
        keep_part(x) ==> kept_parts(ps.push(x)) == kept_parts(ps).push(x),
        !keep_part(x) ==> kept_parts(ps.push(x)) == kept_parts(ps),
{
    assert(ps.push(x).drop_last() =~= ps);
    assert(ps.push(x).last() == x);
}

/// How a serve path is shown: a separator, then its kept parts joined with
/// separators, each part percent-encoded when asked for.
pub open spec fn serve_rendered(s: Seq<char>, enc: bool) -> Seq<char> {
    seq!['/'] + crate::strutil::sep_join(
        kept_parts(parts(s)).map_values(|p: Seq<char>| enc_part(p, enc)),
    )
}

impl LocalPath {
    pub fn local_path(&self) -> (r: &str)
        ensures
            r@ == self@,
    {
        self.0.as_str()
    }

    /// Where a request path points on disk: the served root followed by the
    /// remainder of the request path after the page root. This performs no
    /// disk access; the caller canonicalizes and then only serves what the
    /// table already holds.
    pub fn from_serve_path(db: &Database, config: &Config, serve_path: &ServePath) -> (r: Result<
        LocalPath,
        IndexError,
    >)
        requires
            config.wf(),
        ensures
            match r {
                Ok(lp) => match strip_page_root(config.page_root@, serve_path@) {
                    Some(rest) => lp@ == (if rest.len() == 0 {
                        db.file_dir_view()
                    } else {
                        path_join(db.file_dir_view(), rest)
                    }),
                    None => false,
                },
                Err(e) => e == IndexError::StripPrefix && strip_page_root(
                    config.page_root@,
                    serve_path@,
                ) is None,
            },
    {
        match strip_page_root_exec(config.page_root.as_str(), serve_path.0.as_str()) {
            Some(rest) => {
                if rest.as_str().is_empty() {
                    Ok(LocalPath(crate::strutil::copy_string(&db.file_dir.0)))
                } else {
                    Ok(LocalPath(crate::strutil::join_path(db.file_dir.0.as_str(), rest.as_str())))
                }
            },
            None => Err(IndexError::StripPrefix),
        }
    }
}

impl ServePath {
    /// Renders the serve path for a page: its parts joined by separators
    /// behind a leading one, dropping current-directory parts, each part
    /// percent-encoded when asked for.
    pub fn to_string(&self, percent_encode: bool) -> (r: String)
        ensures
            r@ == serve_rendered(self@, percent_encode),
    {
        proof {
            reveal_strlit("/");
        }
        let ghost f = |p: Seq<char>| enc_part(p, percent_encode);
        let parts_vec = split_parts(self.0.as_str());
        let ghost ps = parts(self@);
        let mut out = String::from_str("/");
        let mut first: bool = true;
        let mut i: usize = 0;
        assert(ps.subrange(0, 0) =~= Seq::<Seq<char>>::empty());
        while i < parts_vec.len()
            invariant
                i <= parts_vec.len(),
                parts_vec.deep_view() == ps,
                f == (|p: Seq<char>| enc_part(p, percent_encode)),
                first == (kept_parts(ps.subrange(0, i as int)).len() == 0),
                out@ == seq!['/'] + crate::strutil::sep_join(
                    kept_parts(ps.subrange(0, i as int)).map_values(f),
                ),
            decreases parts_vec.len() - i,
        {
            let part: &String = &parts_vec[i];
            assert(part@ == ps[i as int]);
            let is_dot = part.as_str().unicode_len() == 1 && part.as_str().get_char(0) == '.';
            proof {
                assert(ps.subrange(0, i as int + 1) =~= ps.subrange(0, i as int).push(
                    ps[i as int],
                ));
                lemma_kept_push(ps.subrange(0, i as int), ps[i as int]);
            }
            if !is_dot {
                assert(keep_part(part@));
                let ghost kp = kept_parts(ps.subrange(0, i as int));
                let ghost kpf = kp.map_values(f);
                let ghost fx = f(part@);
                proof {
                    assert(kept_parts(ps.subrange(0, i as int + 1)) == kp.push(part@));
                    assert(kp.push(part@).map_values(f) =~= kpf.push(fx));
                    crate::strutil::lemma_sep_join_push(kpf, fx);
                }
                let ghost out0 = out@;
                if !first {
                    out.append("/");
                }
                if percent_encode {
                    let e = pct_encode(part.as_str());
                    assert(e@ == fx);
                    out.append(e.as_str());
                } else {
                    assert(part@ == fx);
                    out.append(part.as_str());
                }
                proof {
                    reveal_strlit("/");
                    if first {
                        assert(kpf.len() == 0);
                        assert(out0 =~= seq!['/']);
                        assert(out@ =~= seq!['/'] + fx);
                        assert(crate::strutil::sep_join(kpf.push(fx)) == fx);
                    } else {
                        assert(out@ =~= out0 + seq!['/'] + fx);
                        assert(out@ =~= seq!['/'] + (crate::strutil::sep_join(kpf) + seq!['/']
                            + fx));
                    }
                    assert(out@ =~= seq!['/'] + crate::strutil::sep_join(
                        kept_parts(ps.subrange(0, i as int + 1)).map_values(f),
                    ));
                }
                first = false;
            } else {
                assert(!keep_part(part@));
                assert(kept_parts(ps.subrange(0, i as int + 1)) =~= kept_parts(
                    ps.subrange(0, i as int),
                ));
            }
            i += 1;
        }
        assert(ps.subrange(0, parts_vec.len() as int) =~= ps);
        out
    }

    /// The request path a location on disk is served under: the page root
    /// followed by the path relative to the served root.
    pub fn from_local_path(db: &Database, config: &Config, local_path: &LocalPath) -> (r: Result<
        ServePath,
        IndexError,
    >)
        requires
            config.wf(),
        ensures
            match r {
                Ok(sp) => (local_path@ == db.file_dir_view() && sp@ == config.page_root@) || (
                strictly_under(db.file_dir_view(), local_path@) && sp@ == (if config.page_root@
                    == seq!['/'] {
                    seq!['/'] + local_path@.skip(db.file_dir_view().len() as int + 1)
                } else {
                    path_join(
                        config.page_root@,
                        local_path@.skip(db.file_dir_view().len() as int + 1),
                    )
                })),
                Err(e) => e == IndexError::StripPrefix && local_path@ != db.file_dir_view()
                    && !strictly_under(db.file_dir_view(), local_path@),
            },
    {
        if db.file_dir.0 == local_path.0 {
            return Ok(ServePath(crate::strutil::copy_string(&config.page_root)));
        }
        match strip_root(db.file_dir.0.as_str(), local_path.0.as_str()) {
            Some(rest) => {
                proof {
                    assert(local_path@.skip(db.file_dir@.len() as int + 1) =~= rest@);
                }
                let pr_len = crate::strutil::char_count(config.page_root.as_str());
                if pr_len == 1 {
                    proof {
                        reveal_strlit("/");
                    }
                    assert(config.page_root@ =~= seq!['/']);
                    let mut s = config.page_root.clone();
                    s.append(rest.as_str());
                    assert(s@ =~= seq!['/'] + local_path@.skip(db.file_dir@.len() as int + 1));
                    Ok(ServePath(s))
                } else {
                    assert(config.page_root@ != seq!['/']) by {
                        reveal_strlit("/");
                    }
                    Ok(ServePath(crate::strutil::join_path(config.page_root.as_str(), rest.as_str())))
                }
            },
            None => Err(IndexError::StripPrefix),
        }
    }
}

/// The table key an external request path resolves to: the percent-decoded
/// nonempty parts after the page root, joined with separators; the root key
/// when nothing remains; nothing when the path does not start with the page
/// root. Resolution never trusts this string for safety: it is only ever
/// looked up in the table.
pub open spec fn request_key_view(page_root: Seq<char>, root_key: Seq<char>, upath: Seq<char>) -> Option<
    Seq<char>,
> {
    if !is_prefix(page_root, upath) {
        None
    } else {
        let ps = parts(upath.skip(page_root.len() as int)).map_values(
            |p: Seq<char>| pct_decoded_of(p),
        );
        if ps.len() == 0 {
            Some(root_key)
        } else {
            Some(crate::strutil::sep_join(ps))
        }
    }
}

/// Turns an external request path into the key to look up.
pub fn request_key(db: &Database, config: &Config, uri_path: &str) -> (r: Option<String>)
    ensures
        match r {
            Some(k) => request_key_view(config.page_root@, db.file_dir_view(), uri_path@)
                == Some(k@),
            None => request_key_view(config.page_root@, db.file_dir_view(), uri_path@) is None,
        },
{
    proof {
        reveal_strlit("/");
    }
    if !starts_with(uri_path, config.page_root.as_str()) {
        return None;
    }
    let rest = suffix_from(uri_path, crate::strutil::char_count(config.page_root.as_str()));
    let pieces = split_parts(rest.as_str());
    let ghost ps = parts(rest@).map_values(|p: Seq<char>| pct_decoded_of(p));
    if pieces.len() == 0 {
        assert(ps.len() == 0);
        return Some(crate::strutil::copy_string(&db.file_dir.0));
    }
    let ghost f = |p: Seq<char>| pct_decoded_of(p);
    let mut out = String::new();
    let mut i: usize = 0;
    assert(parts(rest@).subrange(0, 0) =~= Seq::<Seq<char>>::empty());
    while i < pieces.len()
        invariant
            0 <= i <= pieces.len(),
            pieces.len() > 0,
            pieces.deep_view() == parts(rest@),
            f == (|p: Seq<char>| pct_decoded_of(p)),
            i > 0 ==> out@ == crate::strutil::sep_join(
                parts(rest@).subrange(0, i as int).map_values(f),
            ),
            i == 0 ==> out@ == Seq::<char>::empty(),
        decreases pieces.len() - i,
    {
        let ghost pre = parts(rest@).subrange(0, i as int);
        let ghost pref = pre.map_values(f);
        let ghost fx = f(parts(rest@)[i as int]);
        proof {
            assert(parts(rest@).subrange(0, i as int + 1) =~= pre.push(parts(rest@)[i as int]));
            assert(pre.push(parts(rest@)[i as int]).map_values(f) =~= pref.push(fx));
            crate::strutil::lemma_sep_join_push(pref, fx);
        }
        let ghost out0 = out@;
        if i > 0 {
            out.append("/");
        }
        assert(pieces[i as int]@ == parts(rest@)[i as int]);
        let d = pct_decode(pieces[i].as_str());
        assert(d@ == fx);
        out.append(d.as_str());
        proof {
            reveal_strlit("/");
            if i == 0 {
                assert(pref.len() == 0);
                assert(out0 =~= Seq::<char>::empty());
                assert(out@ =~= fx);
                assert(crate::strutil::sep_join(pref.push(fx)) == fx);
            } else {
                assert(out@ =~= out0 + seq!['/'] + fx);
            }
            assert(out@ =~= crate::strutil::sep_join(
                parts(rest@).subrange(0, i as int + 1).map_values(f),
            ));
        }
        i += 1;
    }
    proof {
        assert(parts(rest@).subrange(0, pieces.len() as int) =~= parts(rest@));
        assert(rest@ == uri_path@.skip(config.page_root@.len() as int));
        assert(ps.len() > 0);
    }
    Some(out)
}

} // verus!
