use vstd::prelude::*;

verus! {

/// `p` is a prefix of `s`.
pub open spec fn is_prefix(p: Seq<char>, s: Seq<char>) -> bool {
    p.len() <= s.len() && s.subrange(0, p.len() as int) == p
}

/// `a` and `b` joined with the path separator.
pub open spec fn path_join(a: Seq<char>, b: Seq<char>) -> Seq<char> {
    a + seq!['/'] + b
}

/// `p` lies strictly below the directory `root`: it continues `root` after a
/// separator.
pub open spec fn strictly_under(root: Seq<char>, p: Seq<char>) -> bool {
    is_prefix(root + seq!['/'], p)
}

/// `p` is `root` itself or lies strictly below it.
pub open spec fn under_root(root: Seq<char>, p: Seq<char>) -> bool {
    p == root || strictly_under(root, p)
}

/// Number of characters in `s`.
pub fn char_count(s: &str) -> (r: usize)
    ensures
        r == s@.len(),
{
    s.unicode_len()
}

/// Whether `s` starts with `p`.
pub fn starts_with(s: &str, p: &str) -> (r: bool)
    ensures
        r == is_prefix(p@, s@),
{
    let n = p.unicode_len();
    let m = s.unicode_len();
    if n > m {
        return false;
    }
    let mut i: usize = 0;
    while i < n
        invariant
            i <= n,
            n == p@.len(),
            n <= m,
            m == s@.len(),
            forall|k: int| 0 <= k < i ==> s@[k] == p@[k],
        decreases n - i,
    {
        if s.get_char(i) != p.get_char(i) {
            assert(s@[i as int] != p@[i as int]);
            assert(!is_prefix(p@, s@)) by {
                if is_prefix(p@, s@) {
                    assert(s@.subrange(0, p@.len() as int)[i as int] == p@[i as int]);
                }
            }
            return false;
        }
        i += 1;
    }
    assert(s@.subrange(0, p@.len() as int) =~= p@);
    true
}

/// The characters of `s` from position `from` (inclusive) to the end.
pub fn suffix_from(s: &str, from: usize) -> (r: String)
    requires
        from <= s@.len(),
    ensures
        r@ == s@.subrange(from as int, s@.len() as int),
{
    let n = s.unicode_len();
    let sub = s.substring_char(from, n);
    sub.to_owned()
}

/// `a` and `b` joined with the path separator.
pub fn join_path(a: &str, b: &str) -> (r: String)
    ensures
        r@ == path_join(a@, b@),
{
    proof {
        reveal_strlit("/");
    }
    let mut r = a.to_owned();
    r.append("/");
    r.append(b);
    assert(r@ =~= path_join(a@, b@));
    r
}

/// Copies a borrowed string.
pub fn copy_string(s: &String) -> (r: String)
    ensures
        r@ == s@,
{
    s.clone()
}

/// If `s` lies strictly under `root`, the remainder after the separator.
pub fn strip_root(root: &str, s: &str) -> (r: Option<String>)
    ensures
        match r {
            Some(rest) => strictly_under(root@, s@) && s@ == path_join(root@, rest@),
            None => !strictly_under(root@, s@),
        },
{
    proof {
        reveal_strlit("/");
        reveal_strlit("");
    }
    let pre = join_path(root, "");
    assert(pre@ =~= root@ + seq!['/']);
    if starts_with(s, pre.as_str()) {
        let rest = suffix_from(s, char_count(pre.as_str()));
        assert(s@ =~= path_join(root@, rest@));
        Some(rest)
    } else {
        None
    }
}

/// The path of an entry relative to the served root: empty for the root
/// itself, otherwise what follows the root and its separator.
pub open spec fn rel_of(root: Seq<char>, full: Seq<char>) -> Seq<char> {
    if full == root {
        Seq::empty()
    } else {
        full.skip(root.len() as int + 1)
    }
}

/// Everything is a prefix of itself extended.
pub proof fn lemma_prefix_extend(a: Seq<char>, b: Seq<char>)
    ensures
        is_prefix(a, a + b),
{
    assert((a + b).subrange(0, a.len() as int) =~= a);
}

/// Prefixes compose.
pub proof fn lemma_prefix_trans(x: Seq<char>, y: Seq<char>, z: Seq<char>)
    requires
        is_prefix(x, y),
        is_prefix(y, z),
    ensures
        is_prefix(x, z),
{
    assert forall|i: int| 0 <= i < x.len() implies z[i] == x[i] by {
        assert(y.subrange(0, x.len() as int)[i] == x[i]);
        assert(z.subrange(0, y.len() as int)[i] == y[i]);
    }
    assert(z.subrange(0, x.len() as int) =~= x);
}

/// Lying under a path that itself lies under (or at) a root means lying
/// strictly under the root.
pub proof fn lemma_under_trans(root: Seq<char>, a: Seq<char>, b: Seq<char>)
    requires
        under_root(root, a),
        strictly_under(a, b),
    ensures
        strictly_under(root, b),
{
    if a != root {
        lemma_prefix_extend(a, seq!['/']);
        lemma_prefix_trans(root + seq!['/'], a, a + seq!['/']);
        lemma_prefix_trans(root + seq!['/'], a + seq!['/'], b);
    }
}

/// A prefix of a prefix is a prefix.
pub proof fn lemma_prefix_shorter(a: Seq<char>, b: Seq<char>, p: Seq<char>)
    requires
        is_prefix(a + b, p),
    ensures
        is_prefix(a, p),
{
    assert(p.subrange(0, (a + b).len() as int) == a + b);
    assert forall|i: int| 0 <= i < a.len() implies p[i] == a[i] by {
        assert(p.subrange(0, (a + b).len() as int)[i] == p[i]);
        assert((a + b)[i] == a[i]);
    }
    assert(p.subrange(0, a.len() as int) =~= a);
}

/// End of the separator-free run that starts at position `i`: the first
/// position at or after `i` holding a separator, or the end of the string.
pub open spec fn run_end(s: Seq<char>, i: int) -> int
    decreases s.len() - i,
    when 0 <= i <= s.len()
{
    if i >= s.len() || s[i] == '/' {
        i
    } else {
        run_end(s, i + 1)
    }
}

pub proof fn lemma_run_end(s: Seq<char>, i: int)
    requires
        0 <= i <= s.len(),
    ensures
        i <= run_end(s, i) <= s.len(),
        forall|k: int| i <= k < run_end(s, i) ==> s[k] != '/',
        run_end(s, i) == s.len() || s[run_end(s, i)] == '/',
    decreases s.len() - i,
{
    if i < s.len() && s[i] != '/' {
        lemma_run_end(s, i + 1);
    }
}

/// A run's end is determined by its characters: if everything from `i` up to
/// `j` is separator-free and `j` is a boundary, then `j` ends the run.
pub proof fn lemma_run_end_is(s: Seq<char>, i: int, j: int)
    requires
        0 <= i <= j <= s.len(),
        forall|k: int| i <= k < j ==> s[k] != '/',
        j == s.len() || s[j] == '/',
    ensures
        run_end(s, i) == j,
    decreases j - i,
{
    if i < j {
        lemma_run_end_is(s, i + 1, j);
    }
}

/// The maximal separator-free nonempty pieces of `s`, in order, starting the
/// scan at position `i`.
pub open spec fn parts_from(s: Seq<char>, i: int) -> Seq<Seq<char>>
    decreases s.len() - i,
    when 0 <= i <= s.len()
    via parts_from_dec
{
    if i >= s.len() {
        Seq::empty()
    } else if s[i] == '/' {
        parts_from(s, i + 1)
    } else {
        seq![s.subrange(i, run_end(s, i))] + parts_from(s, run_end(s, i))
    }
}

#[via_fn]
proof fn parts_from_dec(s: Seq<char>, i: int) {
    if 0 <= i <= s.len() && i < s.len() && s[i] != '/' {
        lemma_run_end(s, i);
    }
}

/// The maximal separator-free nonempty pieces of `s`, in order.
pub open spec fn parts(s: Seq<char>) -> Seq<Seq<char>> {
    parts_from(s, 0)
}

/// Splits `s` at separators into its nonempty pieces.
pub fn split_parts(s: &str) -> (r: Vec<String>)
    ensures
        r.deep_view() == parts(s@),
{
    let n = s.unicode_len();
    let mut out: Vec<String> = Vec::new();
    let mut i: usize = 0;
    while i < n
        invariant
            i <= n,
            n == s@.len(),
            out.deep_view() + parts_from(s@, i as int) == parts(s@),
        decreases n - i,
    {
        if s.get_char(i) == '/' {
            i += 1;
        } else {
            let ghost i0 = i as int;
            let mut j: usize = i + 1;
            while j < n
                invariant
                    i0 < j <= n,
                    n == s@.len(),
                    s@[i0] != '/',
                    forall|k: int| i0 <= k < j ==> s@[k] != '/',
                ensures
                    i0 < j <= n,
                    forall|k: int| i0 <= k < j ==> s@[k] != '/',
                    j == n || s@[j as int] == '/',
                decreases n - j,
            {
                if s.get_char(j) == '/' {
                    break ;
                }
                j += 1;
            }
            proof {
                lemma_run_end_is(s@, i0, j as int);
            }
            let part = s.substring_char(i, j).to_owned();
            out.push(part);
            proof {
                assert(out.deep_view() =~= out.deep_view().subrange(
                    0,
                    out.deep_view().len() - 1,
                ).push(part@));
            }
            i = j;
            assert(out.deep_view() + parts_from(s@, i as int) =~= parts(s@));
        }
    }
    assert(out.deep_view() =~= parts(s@));
    out
}

/// The pieces joined back together with single separators between them.
pub open spec fn sep_join(ps: Seq<Seq<char>>) -> Seq<char>
    decreases ps.len(),
{
    if ps.len() == 0 {
        Seq::empty()
    } else if ps.len() == 1 {
        ps[0]
    } else {
        sep_join(ps.drop_last()) + seq!['/'] + ps.last()
    }
}

pub proof fn lemma_sep_join_push(ps: Seq<Seq<char>>, x: Seq<char>)
    ensures
        ps.len() == 0 ==> sep_join(ps.push(x)) == x,
        ps.len() > 0 ==> sep_join(ps.push(x)) == sep_join(ps) + seq!['/'] + x,
{
    assert(ps.push(x).drop_last() =~= ps);
    assert(ps.push(x).last() == x);
    if ps.len() == 0 {
        assert(ps.push(x)[0] == x);
    }
}

/// Index of the last occurrence of `c` in `s`, or -1 if `c` does not occur.
pub open spec fn last_index_of(s: Seq<char>, c: char) -> int
    decreases s.len(),
{
    if s.len() == 0 {
        -1
    } else if s[s.len() - 1] == c {
        s.len() - 1
    } else {
        last_index_of(s.drop_last(), c)
    }
}

pub proof fn lemma_last_index_of(s: Seq<char>, c: char)
    ensures
        -1 <= last_index_of(s, c) < s.len(),
        last_index_of(s, c) >= 0 ==> s[last_index_of(s, c)] == c,
        forall|k: int| last_index_of(s, c) < k < s.len() ==> s[k] != c,
    decreases s.len(),
{
    if s.len() > 0 && s[s.len() - 1] != c {
        lemma_last_index_of(s.drop_last(), c);
        assert forall|k: int| last_index_of(s, c) < k < s.len() implies s[k] != c by {
            if k < s.len() - 1 {
                assert(s.drop_last()[k] == s[k]);
            }
        }
    }
}

/// The last occurrence is determined by the characters: `j` holds `c` and
/// nothing after `j` does.
pub proof fn lemma_last_index_of_is(s: Seq<char>, c: char, j: int)
    requires
        0 <= j < s.len(),
        s[j] == c,
        forall|k: int| j < k < s.len() ==> s[k] != c,
    ensures
        last_index_of(s, c) == j,
    decreases s.len(),
{
    if j < s.len() - 1 {
        lemma_last_index_of_is(s.drop_last(), c, j);
    }
}

/// No occurrence at all.
pub proof fn lemma_last_index_of_none(s: Seq<char>, c: char)
    requires
        forall|k: int| 0 <= k < s.len() ==> s[k] != c,
    ensures
        last_index_of(s, c) == -1,
    decreases s.len(),
{
    if s.len() > 0 {
        lemma_last_index_of_none(s.drop_last(), c);
    }
}

/// Position of the last occurrence of `c` in `s`, if any.
pub fn find_last(s: &str, c: char) -> (r: Option<usize>)
    ensures
        match r {
            Some(k) => last_index_of(s@, c) == k,
            None => last_index_of(s@, c) == -1,
        },
{
    let n = s.unicode_len();
    let mut i = n;
    while i > 0
        invariant
            i <= n,
            n == s@.len(),
            forall|k: int| i <= k < n ==> s@[k] != c,
        decreases i,
    {
        let j = i - 1;
        if s.get_char(j) == c {
            proof {
                lemma_last_index_of_is(s@, c, j as int);
            }
            return Some(j);
        }
        i = j;
    }
    proof {
        lemma_last_index_of_none(s@, c);
    }
    None
}

/// ASCII-lowercased code of a character: upper-case ASCII letters map to
/// their lower-case codes, everything else is unchanged.
pub open spec fn lc_code(c: char) -> int {
    if 65 <= c as int <= 90 {
        c as int + 32
    } else {
        c as int
    }
}

/// Whether `a` and `b` are equal after ASCII-lowercasing both.
pub open spec fn ci_eq(a: Seq<char>, b: Seq<char>) -> bool {
    a.len() == b.len() && forall|i: int| 0 <= i < a.len() ==> lc_code(a[i]) == lc_code(b[i])
}

/// ASCII-case-insensitive string comparison.
pub fn str_ci_eq(a: &str, b: &str) -> (r: bool)
    ensures
        r == ci_eq(a@, b@),
{
    let n = a.unicode_len();
    let m = b.unicode_len();
    if n != m {
        return false;
    }
    let mut i: usize = 0;
    while i < n
        invariant
            i <= n,
            n == a@.len(),
            n == b@.len(),
            forall|k: int| 0 <= k < i ==> lc_code(a@[k]) == lc_code(b@[k]),
        decreases n - i,
    {
        let ca = a.get_char(i) as u32;
        let cb = b.get_char(i) as u32;
        let la = if ca >= 65 && ca <= 90 {
            ca + 32
        } else {
            ca
        };
        let lb = if cb >= 65 && cb <= 90 {
            cb + 32
        } else {
            cb
        };
        if la != lb {
            assert(lc_code(a@[i as int]) != lc_code(b@[i as int]));
            return false;
        }
        i += 1;
    }
    true
}

} // verus!
