//! Caption and block helpers used when post-processing MinerU layout output:
//! fuzzy word matching, block-type compatibility, and structured image names.
use vstd::prelude::*;
use vstd::string::StrSliceExecFns;
use crate::chars::{chars_eq, chars_start_with, starts_with, to_chars};

verus! {

// ---------------------------------------------------------------------------
// Edit distance.
// ---------------------------------------------------------------------------

pub open spec fn min2(x: nat, y: nat) -> nat {
    if x <= y { x } else { y }
}

/// The Levenshtein distance between `a` and `b`: the least number of
/// single-character insertions, deletions and substitutions that turn `a`
/// into `b`.
pub open spec fn edit_distance(a: Seq<char>, b: Seq<char>) -> nat
    decreases a.len() + b.len(),
{
    if a.len() == 0 {
        b.len()
    } else if b.len() == 0 {
        a.len()
    } else {
        let cost: nat = if a.last() == b.last() { 0 } else { 1 };
        min2(
            min2(
                edit_distance(a.drop_last(), b) + 1,
                edit_distance(a, b.drop_last()) + 1,
            ),
            edit_distance(a.drop_last(), b.drop_last()) + cost,
        )
    }
}

pub proof fn lemma_edit_distance_bound(a: Seq<char>, b: Seq<char>)
    ensures
        edit_distance(a, b) <= if a.len() >= b.len() { a.len() } else { b.len() },
    decreases a.len() + b.len(),
{
    if a.len() > 0 && b.len() > 0 {
        lemma_edit_distance_bound(a.drop_last(), b.drop_last());
    }
}

/// The edit distance is zero exactly between equal strings.
pub proof fn edit_distance_zero_iff_equal(a: Seq<char>, b: Seq<char>)
    ensures
        edit_distance(a, b) == 0 <==> a == b,
    decreases a.len() + b.len(),
{
    if a.len() > 0 && b.len() > 0 {
        edit_distance_zero_iff_equal(a.drop_last(), b.drop_last());
        edit_distance_zero_iff_equal(a.drop_last(), b);
        edit_distance_zero_iff_equal(a, b.drop_last());
        if a == b {
            assert(a.drop_last() == b.drop_last());
        }
        if edit_distance(a, b) == 0 {
            assert(a =~= a.drop_last().push(a.last()));
            assert(b =~= b.drop_last().push(b.last()));
        }
    } else if a.len() == 0 && b.len() > 0 {
        assert(a != b);
    } else if a.len() > 0 && b.len() == 0 {
        assert(a != b);
    } else {
        assert(a =~= b);
    }
}

/// Levenshtein distance between `a` and `b`, counted in characters.
pub fn levenshtein_distance(a: &str, b: &str) -> (r: usize)
    requires
        b@.len() < usize::MAX,
    ensures
        r == edit_distance(a@, b@),
{
    let a = to_chars(a);
    let b = to_chars(b);
    levenshtein_chars(&a, &b)
}

/// Levenshtein distance between two character vectors.
pub fn levenshtein_chars(a: &Vec<char>, b: &Vec<char>) -> (r: usize)
    requires
        b@.len() < usize::MAX,
    ensures
        r == edit_distance(a@, b@),
{
    let n = a.len();
    let m = b.len();
    let mut dp: Vec<Vec<usize>> = Vec::new();
    // Row 0: dp[0][j] = j.
    let mut row0: Vec<usize> = Vec::new();
    for j in 0..m + 1
        invariant
            m == b@.len(),
            row0.len() == j,
            forall|k: int| 0 <= k < j ==> #[trigger] row0@[k] == k,
    {
        row0.push(j);
    }
    assert forall|k: int| 0 <= k <= m implies #[trigger] row0@[k] == edit_distance(
        a@.take(0),
        b@.take(k),
    ) by {
        assert(a@.take(0).len() == 0);
    }
    dp.push(row0);
    let mut i: usize = 0;
    while i < n
        invariant
            n == a@.len(),
            m == b@.len(),
            m < usize::MAX,
            i <= n,
            dp.len() == i + 1,
            forall|x: int| 0 <= x <= i ==> (#[trigger] dp@[x]).len() == m + 1,
            forall|x: int, y: int|
                0 <= x <= i && 0 <= y <= m ==> #[trigger] dp@[x]@[y] == edit_distance(
                    a@.take(x),
                    b@.take(y),
                ),
        decreases n - i,
    {
        i += 1;
        let mut row: Vec<usize> = Vec::new();
        row.push(i);
        assert(b@.take(0).len() == 0);
        assert(row@[0] == edit_distance(a@.take(i as int), b@.take(0)));
        for j in 1..m + 1
            invariant
                1 <= i <= n,
                n == a@.len(),
                m == b@.len(),
                m < usize::MAX,
                dp.len() == i,
                forall|x: int| 0 <= x < i ==> (#[trigger] dp@[x]).len() == m + 1,
                forall|x: int, y: int|
                    0 <= x < i && 0 <= y <= m ==> #[trigger] dp@[x]@[y] == edit_distance(
                        a@.take(x),
                        b@.take(y),
                    ),
                row.len() == j,
                forall|y: int|
                    0 <= y < j ==> #[trigger] row@[y] == edit_distance(a@.take(i as int), b@.take(y)),
        {
            let ghost ai = a@.take(i as int);
            let ghost bj = b@.take(j as int);
            assert(ai.drop_last() =~= a@.take(i - 1));
            assert(bj.drop_last() =~= b@.take(j - 1));
            assert(ai.last() == a@[i - 1]);
            assert(bj.last() == b@[j - 1]);
            let up = dp[i - 1][j];
            let left = row[j - 1];
            let diag = dp[i - 1][j - 1];
            proof {
                lemma_edit_distance_bound(a@.take(i - 1), bj);
                lemma_edit_distance_bound(a@.take(i - 1), b@.take(j - 1));
            }
            let cost: usize = if a[i - 1] == b[j - 1] {
                0
            } else {
                1
            };
            let mut best = if up <= left {
                up + 1
            } else {
                left + 1
            };
            if diag + cost < best {
                best = diag + cost;
            }
            row.push(best);
            assert(row@[j as int] == edit_distance(ai, bj));
        }
        dp.push(row);
    }
    let r = dp[n][m];
    assert(a@.take(n as int) =~= a@);
    assert(b@.take(m as int) =~= b@);
    r
}

// ---------------------------------------------------------------------------
// Base-36 names.
// ---------------------------------------------------------------------------

/// The base-36 digit for `d` (`0-9a-z`).
pub open spec fn base36_digit(d: nat) -> char {
    if d < 10 {
        (('0' as nat) + d) as char
    } else {
        (('a' as nat) + (d - 10)) as char
    }
}

fn base36_digit_exec(d: u16) -> (c: char)
    requires
        d < 36,
    ensures
        c == base36_digit(d as nat),
{
    if d < 10 {
        ((48 + d) as u8) as char
    } else {
        ((87 + d) as u8) as char
    }
}

/// Two base-36 digits for `v` (which must be below 36 * 36).
pub fn encode_base36_2(v: u16) -> (r: String)
    requires
        v < 1296,
    ensures
        r@ == seq![base36_digit((v / 36) as nat), base36_digit((v % 36) as nat)],
{
    let mut r = String::new();
    crate::chars::push_char(&mut r, base36_digit_exec(v / 36));
    crate::chars::push_char(&mut r, base36_digit_exec(v % 36));
    r
}

/// The SHA-1 digest of `data`.
pub uninterp spec fn sha1_digest(data: Seq<u8>) -> Seq<u8>;

/// Calls `sha1::Sha1::digest`; the result is the 20-byte SHA-1 digest of
/// `data`, named `sha1_digest(data@)`.
#[verifier::external_body]
fn sha1(data: &[u8]) -> (r: Vec<u8>)
    ensures
        r@ == sha1_digest(data@),
        r@.len() == 20,
{
    <sha1::Sha1 as sha1::Digest>::digest(data).to_vec()
}

/// `n` in base ten, padded with zeros to at least two digits (`{:02}`).
pub open spec fn two_digit_decimal(n: nat) -> Seq<char> {
    if n < 10 {
        seq!['0'] + crate::chars::decimal(n)
    } else {
        crate::chars::decimal(n)
    }
}

/// The structured image name for digest byte `byte`: the paper prefix, the
/// index in two digits and two base-36 digits of the byte.
pub open spec fn image_name_spec(prefix: Seq<char>, idx: nat, byte: u8) -> Seq<char> {
    prefix + two_digit_decimal(idx) + seq![base36_digit((byte / 36) as nat), base36_digit((byte % 36) as nat)]
}

/// The structured image name from the first byte of the content's SHA-1
/// digest.
pub fn image_name_from_digest_byte(paper_id_prefix: &str, idx: usize, byte: u8) -> (r: String)
    ensures
        r@ == image_name_spec(paper_id_prefix@, idx as nat, byte),
{
    let hash_byte = byte as u16;
    let mut out = to_chars(paper_id_prefix);
    if idx < 10 {
        out.push('0');
    }
    let digits = crate::chars::usize_to_decimal(idx);
    crate::chars::extend_chars(&mut out, &digits);
    out.push(base36_digit_exec(hash_byte / 36));
    out.push(base36_digit_exec(hash_byte % 36));
    let r = crate::chars::string_from_chars(&out);
    assert(r@ =~= image_name_spec(paper_id_prefix@, idx as nat, byte));
    r
}

/// Structured image name: the paper prefix, the index in two digits and two
/// base-36 digits of the first byte of the content's SHA-1 digest.
pub fn structured_image_name(paper_id_prefix: &str, idx: usize, bytes: &[u8]) -> (r: String)
    ensures
        r@ == image_name_spec(paper_id_prefix@, idx as nat, sha1_digest(bytes@)[0]),
{
    let digest = sha1(bytes);
    image_name_from_digest_byte(paper_id_prefix, idx, digest[0])
}

// ---------------------------------------------------------------------------
// Block types and caption keys.
// ---------------------------------------------------------------------------

/// Whether `s` equals the literal `lit`.
pub fn str_eq(s: &str, lit: &str) -> (r: bool)
    ensures
        r == (s@ == lit@),
{
    let a = to_chars(s);
    let b = to_chars(lit);
    chars_eq(&a, &b)
}

/// Whether `s` starts with the literal `lit`.
pub fn str_starts_with(s: &str, lit: &str) -> (r: bool)
    ensures
        r == starts_with(s@, lit@),
{
    let a = to_chars(s);
    let b = to_chars(lit);
    chars_start_with(&a, &b)
}

/// Figure-like block types: images, charts and display equations.
pub open spec fn is_figure_type(t: Seq<char>) -> bool {
    t == "image"@ || t == "chart"@ || t == "interline_equation"@
}

/// Two block types are compatible when equal or both figure-like.
pub fn same_block_type(a: &str, b: &str) -> (r: bool)
    ensures
        r == (a@ == b@ || (is_figure_type(a@) && is_figure_type(b@))),
{
    if str_eq(a, b) {
        return true;
    }
    let fa = str_eq(a, "image") || str_eq(a, "chart") || str_eq(a, "interline_equation");
    let fb = str_eq(b, "image") || str_eq(b, "chart") || str_eq(b, "interline_equation");
    fa && fb
}

/// The first `max_chars` characters of `desc` (all of it when shorter).
pub fn desc_snippet(desc: &str, max_chars: usize) -> (r: &str)
    ensures
        r@ == desc@.take(if max_chars < desc@.len() { max_chars as int } else { desc@.len() as int }),
{
    let len = desc.unicode_len();
    let k = if max_chars < len {
        max_chars
    } else {
        len
    };
    desc.substring_char(0, k)
}

/// Whether a caption key (`F:..` for figures, `T:..` for tables) disagrees
/// with the block type it is bound to.
pub open spec fn caption_type_mismatch(caption: Seq<char>, block_type: Seq<char>) -> bool {
    (starts_with(caption, "F:"@) && block_type == "table"@) || (starts_with(caption, "T:"@) && (
    block_type == "image"@ || block_type == "chart"@))
}

pub fn is_caption_type_mismatch(caption: &str, block_type: &str) -> (r: bool)
    ensures
        r == caption_type_mismatch(caption@, block_type@),
{
    if str_starts_with(caption, "F:") && str_eq(block_type, "table") {
        return true;
    }
    if str_starts_with(caption, "T:") && (str_eq(block_type, "image") || str_eq(
        block_type,
        "chart",
    )) {
        return true;
    }
    false
}

} // verus!
