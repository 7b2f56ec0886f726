use vstd::prelude::*;
use crate::strutil::{ci_eq, last_index_of};

verus! {

/// What hashing a path string yields: the digest of its UTF-8 bytes.
pub uninterp spec fn md5_of(s: Seq<char>) -> Seq<u8>;

/// Relies on md5::compute over the string's UTF-8 bytes: the digest has 16
/// bytes and depends on the input alone.
#[verifier::external_body]
fn md5_digest(s: &str) -> (r: Vec<u8>)
    ensures
        r@ == md5_of(s@),
        r@.len() == 16,
{
    md5::compute(s.as_bytes()).0.to_vec()
}

/// The sixteen lower-case hexadecimal digits.
pub open spec fn hex_digit(n: int) -> char {
    if n == 0 {
        '0'
    } else if n == 1 {
        '1'
    } else if n == 2 {
        '2'
    } else if n == 3 {
        '3'
    } else if n == 4 {
        '4'
    } else if n == 5 {
        '5'
    } else if n == 6 {
        '6'
    } else if n == 7 {
        '7'
    } else if n == 8 {
        '8'
    } else if n == 9 {
        '9'
    } else if n == 10 {
        'a'
    } else if n == 11 {
        'b'
    } else if n == 12 {
        'c'
    } else if n == 13 {
        'd'
    } else if n == 14 {
        'e'
    } else {
        'f'
    }
}

/// Bytes written as lower-case hexadecimal, two digits per byte.
pub open spec fn hex_of(bs: Seq<u8>) -> Seq<char>
    decreases bs.len(),
{
    if bs.len() == 0 {
        Seq::empty()
    } else {
        hex_of(bs.drop_last()) + seq![
            hex_digit(bs.last() as int / 16),
            hex_digit(bs.last() as int % 16),
        ]
    }
}

/// One nibble as its hexadecimal digit.
fn hex_digit_str(n: u8) -> (r: &'static str)
    requires
        n < 16,
    ensures
        r@ == seq![hex_digit(n as int)],
{
    proof {
        reveal_strlit("0");
        reveal_strlit("1");
        reveal_strlit("2");
        reveal_strlit("3");
        reveal_strlit("4");
        reveal_strlit("5");
        reveal_strlit("6");
        reveal_strlit("7");
        reveal_strlit("8");
        reveal_strlit("9");
        reveal_strlit("a");
        reveal_strlit("b");
        reveal_strlit("c");
        reveal_strlit("d");
        reveal_strlit("e");
        reveal_strlit("f");
    }
    if n == 0 {
        "0"
    } else if n == 1 {
        "1"
    } else if n == 2 {
        "2"
    } else if n == 3 {
        "3"
    } else if n == 4 {
        "4"
    } else if n == 5 {
        "5"
    } else if n == 6 {
        "6"
    } else if n == 7 {
        "7"
    } else if n == 8 {
        "8"
    } else if n == 9 {
        "9"
    } else if n == 10 {
        "a"
    } else if n == 11 {
        "b"
    } else if n == 12 {
        "c"
    } else if n == 13 {
        "d"
    } else if n == 14 {
        "e"
    } else {
        "f"
    }
}

/// Writes bytes as lower-case hexadecimal.
fn to_hex(bs: &Vec<u8>) -> (r: String)
    ensures
        r@ == hex_of(bs@),
{
    let mut out = String::new();
    let mut i: usize = 0;
    assert(bs@.subrange(0, 0) =~= Seq::<u8>::empty());
    while i < bs.len()
        invariant
            i <= bs@.len(),
            out@ == hex_of(bs@.subrange(0, i as int)),
        decreases bs@.len() - i,
    {
        proof {
            assert(bs@.subrange(0, i as int + 1).drop_last() =~= bs@.subrange(0, i as int));
            assert(bs@.subrange(0, i as int + 1).last() == bs@[i as int]);
        }
        let b = bs[i];
        out.append(hex_digit_str(b / 16));
        out.append(hex_digit_str(b % 16));
        assert(out@ =~= hex_of(bs@.subrange(0, i as int + 1)));
        i += 1;
    }
    assert(bs@.subrange(0, bs@.len() as int) =~= bs@);
    out
}

/// The name a thumbnail file gets in the store: the hash of the source's
/// canonical absolute path, written in hexadecimal, with the encoder's
/// extension. The name depends on the path alone — never on the content —
/// so renaming a file changes its thumbnail identity while editing it in
/// place does not.
pub open spec fn thumb_name_of(p: Seq<char>) -> Seq<char> {
    hex_of(md5_of(p)) + seq!['.', 'w', 'e', 'b', 'p']
}

/// Derives the thumbnail file name for a source path.
pub fn thumbnail_filename(of: &str) -> (r: String)
    ensures
        r@ == thumb_name_of(of@),
{
    let d = md5_digest(of);
    let mut s = to_hex(&d);
    proof {
        reveal_strlit(".webp");
    }
    s.append(".webp");
    assert(s@ =~= thumb_name_of(of@));
    s
}

/// Two entries with the same canonical absolute path always receive the
/// same thumbnail identifier.
pub proof fn lemma_thumbnail_deterministic(p1: Seq<char>, p2: Seq<char>)
    requires
        p1 == p2,
    ensures
        thumb_name_of(p1) == thumb_name_of(p2),
{
}

/// The extension of a path: what follows the last dot of its last
/// component, provided that dot is not the component's first character.
pub open spec fn ext_of(p: Seq<char>) -> Option<Seq<char>> {
    let base = p.skip(last_index_of(p, '/') + 1);
    let d = last_index_of(base, '.');
    if d <= 0 {
        None
    } else {
        Some(base.skip(d + 1))
    }
}

/// Whether a path's extension belongs to the fixed allowlist of image
/// formats eligible for preview generation.
pub open spec fn is_thumbnailable_name(p: Seq<char>) -> bool {
    match ext_of(p) {
        None => false,
        Some(e) => {
            ||| ci_eq(e, "png"@)
            ||| ci_eq(e, "tiff"@)
            ||| ci_eq(e, "bmp"@)
            ||| ci_eq(e, "gif"@)
            ||| ci_eq(e, "jpeg"@)
            ||| ci_eq(e, "jpg"@)
            ||| ci_eq(e, "tif"@)
            ||| ci_eq(e, "webp"@)
        },
    }
}

/// Tests a path against the thumbnailable-extension allowlist, ignoring
/// ASCII case.
pub fn ext_thumbnailable(p: &str) -> (r: bool)
    ensures
        r == is_thumbnailable_name(p@),
{
    let p_len = crate::strutil::char_count(p);
    let base: String = match crate::strutil::find_last(p, '/') {
        Some(k) => {
            proof {
                crate::strutil::lemma_last_index_of(p@, '/');
            }
            crate::strutil::suffix_from(p, k + 1)
        },
        None => {
            let b = p.to_owned();
            proof {
                crate::strutil::lemma_last_index_of(p@, '/');
                assert(p@.skip(last_index_of(p@, '/') + 1) =~= b@);
            }
            b
        },
    };
    assert(base@ == p@.skip(last_index_of(p@, '/') + 1));
    match crate::strutil::find_last(base.as_str(), '.') {
        None => false,
        Some(d) => {
            if d == 0 {
                false
            } else {
                let base_len = crate::strutil::char_count(base.as_str());
                proof {
                    crate::strutil::lemma_last_index_of(base@, '.');
                }
                let e = crate::strutil::suffix_from(base.as_str(), d + 1);
                assert(ext_of(p@) == Some(e@));
                let r = crate::strutil::str_ci_eq(e.as_str(), "png") || crate::strutil::str_ci_eq(
                    e.as_str(),
                    "tiff",
                ) || crate::strutil::str_ci_eq(e.as_str(), "bmp") || crate::strutil::str_ci_eq(
                    e.as_str(),
                    "gif",
                ) || crate::strutil::str_ci_eq(e.as_str(), "jpeg") || crate::strutil::str_ci_eq(
                    e.as_str(),
                    "jpg",
                ) || crate::strutil::str_ci_eq(e.as_str(), "tif") || crate::strutil::str_ci_eq(
                    e.as_str(),
                    "webp",
                );
                r
            }
        },
    }
}

/// The target height that preserves the aspect ratio at the given target
/// width, clamped to the representable range.
pub fn thumb_target_height(width: u32, height: u32, target_w: u32) -> (r: u32)
    requires
        width > 0,
    ensures
        r == if target_w as int * height as int / width as int > u32::MAX as int {
            u32::MAX as int
        } else {
            target_w as int * height as int / width as int
        },
{
    proof {
        assert((target_w as int) * (height as int) <= (u32::MAX as int) * (u32::MAX as int))
            by (nonlinear_arith)
            requires
                0 <= target_w as int <= u32::MAX as int,
                0 <= height as int <= u32::MAX as int,
        ;
    }
    let q: u64 = (target_w as u64) * (height as u64) / (width as u64);
    if q > u32::MAX as u64 {
        u32::MAX
    } else {
        q as u32
    }
}

} // verus!
