//! Byte-level helpers for the ASCII fragments of the wire format: literal
//! constants, case folding, trimming, and decimal numerals.

use vstd::prelude::*;
use vstd::utf8::is_ascii_chars_encode_utf8;
use vstd::string::StringSliceAdditionalSpecFns;
use vstd::arithmetic::mul::lemma_mul_inequality;
use vstd::arithmetic::div_mod::lemma_fundamental_div_mod;

verus! {

/// The bytes of an ASCII character sequence, one byte per character.
pub open spec fn ascii_of(s: Seq<char>) -> Seq<u8> {
    Seq::new(s.len(), |i: int| s[i] as u8)
}

/// Copies an ASCII string literal into a byte vector.
pub fn lit_vec(s: &str) -> (r: Vec<u8>)
    requires
        vstd::utf8::is_ascii_chars(s@),
    ensures
        r@ == ascii_of(s@),
{
    proof {
        is_ascii_chars_encode_utf8(s@);
    }
    let b = s.as_bytes();
    let r = vstd::slice::slice_to_vec(b);
    proof {
        assert(r@ =~= ascii_of(s@));
    }
    r
}

/// Compares a byte slice against an ASCII string literal.
pub fn is_lit(t: &[u8], s: &str) -> (r: bool)
    requires
        vstd::utf8::is_ascii_chars(s@),
    ensures
        r == (t@ == ascii_of(s@)),
{
    proof {
        is_ascii_chars_encode_utf8(s@);
    }
    let b = s.as_bytes();
    if t.len() != b.len() {
        proof {
            assert(t@.len() != ascii_of(s@).len());
        }
        return false;
    }
    let n = t.len();
    let mut i: usize = 0;
    while i < n
        invariant
            n == t@.len() == b@.len(),
            b@ =~= ascii_of(s@),
            i <= n,
            forall|j: int| 0 <= j < i ==> t@[j] == b@[j],
        decreases n - i,
    {
        if t[i] != b[i] {
            proof {
                assert(t@[i as int] != ascii_of(s@)[i as int]);
            }
            return false;
        }
        i += 1;
    }
    proof {
        assert(t@ =~= ascii_of(s@));
    }
    true
}

/// Whether one byte sequence begins with another.
pub open spec fn is_prefix_of(p: Seq<u8>, s: Seq<u8>) -> bool {
    p.len() <= s.len() && s.take(p.len() as int) == p
}

/// Prefix test on byte slices.
pub fn starts_with(s: &[u8], p: &[u8]) -> (r: bool)
    ensures
        r == is_prefix_of(p@, s@),
{
    if p.len() > s.len() {
        return false;
    }
    let n = p.len();
    let mut i: usize = 0;
    while i < n
        invariant
            n == p@.len() <= s@.len(),
            i <= n,
            forall|j: int| 0 <= j < i ==> s@[j] == p@[j],
        decreases n - i,
    {
        if s[i] != p[i] {
            proof {
                assert(s@.take(n as int)[i as int] != p@[i as int]);
            }
            return false;
        }
        i += 1;
    }
    proof {
        assert(s@.take(n as int) =~= p@);
    }
    true
}

/// Equality of two byte slices.
pub fn bytes_eq(a: &[u8], b: &[u8]) -> (r: bool)
    ensures
        r == (a@ == b@),
{
    if a.len() != b.len() {
        return false;
    }
    let n = a.len();
    let mut i: usize = 0;
    while i < n
        invariant
            n == a@.len() == b@.len(),
            i <= n,
            forall|j: int| 0 <= j < i ==> a@[j] == b@[j],
        decreases n - i,
    {
        if a[i] != b[i] {
            return false;
        }
        i += 1;
    }
    proof {
        assert(a@ =~= b@);
    }
    true
}

/// Whether `pat` occurs in `s` at offset `i`.
pub open spec fn match_at(s: Seq<u8>, pat: Seq<u8>, i: int) -> bool {
    0 <= i && i + pat.len() <= s.len() && s.subrange(i, i + pat.len()) == pat
}

/// Offset of the first occurrence of `pat` in `s`, or -1 when there is none.
pub open spec fn first_match(s: Seq<u8>, pat: Seq<u8>) -> int
    decreases s.len(),
{
    if pat.len() == 0 {
        0
    } else if s.len() < pat.len() {
        -1
    } else if s.subrange(0, pat.len() as int) == pat {
        0
    } else {
        let r = first_match(s.drop_first(), pat);
        if r == -1 {
            -1
        } else {
            r + 1
        }
    }
}

/// `first_match` finds the leftmost occurrence, and only reports real ones.
pub proof fn lemma_first_match(s: Seq<u8>, pat: Seq<u8>)
    requires
        pat.len() > 0,
    ensures
        first_match(s, pat) == -1 ==> forall|i: int| !match_at(s, pat, i),
        first_match(s, pat) != -1 ==> {
            &&& match_at(s, pat, first_match(s, pat))
            &&& forall|i: int| 0 <= i < first_match(s, pat) ==> !match_at(s, pat, i)
        },
    decreases s.len(),
{
    if s.len() < pat.len() {
        assert forall|i: int| !match_at(s, pat, i) by {}
    } else if s.subrange(0, pat.len() as int) == pat {
    } else {
        lemma_first_match(s.drop_first(), pat);
        assert forall|i: int| 1 <= i && i + pat.len() <= s.len() implies match_at(
            s,
            pat,
            i,
        ) == match_at(s.drop_first(), pat, i - 1) by {
            assert(s.drop_first().subrange(i - 1, i - 1 + pat.len()) =~= s.subrange(
                i,
                i + pat.len(),
            ));
        }
        let r = first_match(s.drop_first(), pat);
        if r == -1 {
            assert forall|i: int| !match_at(s, pat, i) by {
                if 1 <= i && i + pat.len() <= s.len() {
                    assert(!match_at(s.drop_first(), pat, i - 1));
                }
            }
        } else {
            assert(match_at(s.drop_first(), pat, r));
            assert(match_at(s, pat, r + 1));
            assert forall|i: int| 0 <= i < r + 1 implies !match_at(s, pat, i) by {
                if i >= 1 {
                    assert(!match_at(s.drop_first(), pat, i - 1));
                }
            }
        }
    }
}

/// A leftmost occurrence pins `first_match` down to it.
pub proof fn lemma_first_match_unique(s: Seq<u8>, pat: Seq<u8>, r: int)
    requires
        pat.len() > 0,
        r == -1 ==> forall|i: int| !match_at(s, pat, i),
        r != -1 ==> match_at(s, pat, r) && forall|i: int| 0 <= i < r ==> !match_at(s, pat, i),
    ensures
        first_match(s, pat) == r,
{
    lemma_first_match(s, pat);
    let f = first_match(s, pat);
    if r == -1 {
        if f != -1 {
            assert(match_at(s, pat, f));
        }
    } else {
        if f == -1 {
            assert(!match_at(s, pat, r));
        } else if f < r {
            assert(!match_at(s, pat, f));
        } else if r < f {
            assert(!match_at(s, pat, r));
        }
    }
}

/// Matching inside a suffix is matching at the shifted offset.
pub proof fn lemma_match_at_skip(s: Seq<u8>, pat: Seq<u8>, from: int, i: int)
    requires
        0 <= from <= s.len(),
        from <= i,
    ensures
        match_at(s, pat, i) == match_at(s.skip(from), pat, i - from),
{
    if i + pat.len() <= s.len() {
        assert(s.skip(from).subrange(i - from, i - from + pat.len()) =~= s.subrange(
            i,
            i + pat.len(),
        ));
    }
}

/// Searches `s` for the first occurrence of `pat` at or after `from`.
pub fn find_from(s: &[u8], from: usize, pat: &[u8]) -> (r: Option<usize>)
    requires
        pat@.len() > 0,
        from <= s@.len(),
    ensures
        ({
            let fm = first_match(s@.skip(from as int), pat@);
            match r {
                Option::None => fm == -1 && forall|j: int| from <= j ==> !match_at(s@, pat@, j),
                Option::Some(i) => {
                    &&& fm >= 0
                    &&& i == from + fm
                    &&& match_at(s@, pat@, i as int)
                    &&& forall|j: int| from <= j < i ==> !match_at(s@, pat@, j)
                },
            }
        }),
{
    let n = s.len();
    let m = pat.len();
    if n < m || from > n - m {
        proof {
            assert forall|i: int| !match_at(s@.skip(from as int), pat@, i) by {}
            lemma_first_match_unique(s@.skip(from as int), pat@, -1);
        }
        return None;
    }
    let mut i: usize = from;
    while i <= n - m
        invariant
            m == pat@.len() > 0,
            m <= n == s@.len(),
            from <= i <= n - m + 1,
            forall|j: int| from <= j < i ==> !match_at(s@, pat@, j),
        decreases n - i,
    {
        let mut k: usize = 0;
        let mut hit = true;
        while k < m
            invariant
                m == pat@.len(),
                m <= n == s@.len(),
                i + m <= n,
                k <= m,
                hit == (forall|j: int| 0 <= j < k ==> s@[i + j] == pat@[j]),
            decreases m - k,
        {
            if s[i + k] != pat[k] {
                hit = false;
                k = m;
            } else {
                k += 1;
            }
        }
        if hit {
            proof {
                assert(s@.subrange(i as int, i + m) =~= pat@);
                assert(match_at(s@, pat@, i as int));
                assert(match_at(s@.skip(from as int), pat@, i - from)) by {
                    lemma_match_at_skip(s@, pat@, from as int, i as int);
                }
                assert forall|j: int| 0 <= j < i - from implies !match_at(
                    s@.skip(from as int),
                    pat@,
                    j,
                ) by {
                    lemma_match_at_skip(s@, pat@, from as int, j + from);
                }
                lemma_first_match_unique(s@.skip(from as int), pat@, i - from);
            }
            return Some(i);
        }
        proof {
            let w = choose|j: int| 0 <= j < m && s@[i + j] != pat@[j];
            assert(s@.subrange(i as int, i + m)[w] != pat@[w]);
            assert(!match_at(s@, pat@, i as int));
        }
        i += 1;
    }
    proof {
        assert forall|j: int| !match_at(s@.skip(from as int), pat@, j) by {
            if from <= j + from {
                lemma_match_at_skip(s@, pat@, from as int, j + from);
            }
        }
        lemma_first_match_unique(s@.skip(from as int), pat@, -1);
    }
    None
}

/// In `a + pat + c`, when no byte of `a` equals the pattern's first byte,
/// the first occurrence of the pattern is the one planted after `a`.
pub proof fn lemma_first_match_append(a: Seq<u8>, pat: Seq<u8>, c: Seq<u8>)
    requires
        pat.len() > 0,
        forall|i: int| 0 <= i < a.len() ==> a[i] != pat[0],
    ensures
        first_match(a + pat + c, pat) == a.len(),
{
    let s = a + pat + c;
    assert(s.subrange(a.len() as int, a.len() + pat.len() as int) =~= pat);
    assert(match_at(s, pat, a.len() as int));
    assert forall|i: int| 0 <= i < a.len() implies !match_at(s, pat, i) by {
        if i + pat.len() <= s.len() {
            assert(s.subrange(i, i + pat.len())[0] == a[i]);
        }
    }
    lemma_first_match_unique(s, pat, a.len() as int);
}

/// A sequence without the pattern's first byte holds no occurrence at all.
pub proof fn lemma_first_match_absent(s: Seq<u8>, pat: Seq<u8>)
    requires
        pat.len() > 0,
        forall|i: int| 0 <= i < s.len() ==> s[i] != pat[0],
    ensures
        first_match(s, pat) == -1,
{
    assert forall|i: int| !match_at(s, pat, i) by {
        if 0 <= i && i + pat.len() <= s.len() {
            assert(s.subrange(i, i + pat.len())[0] == s[i]);
        }
    }
    lemma_first_match_unique(s, pat, -1);
}

/// Lowercases one byte: ASCII capital letters drop to their small forms,
/// every other byte is unchanged.
pub open spec fn lower_byte(b: u8) -> u8 {
    if 65 <= b && b <= 90 {
        (b + 32) as u8
    } else {
        b
    }
}

/// Lowercases a byte sequence, byte by byte.
pub open spec fn lower_of(s: Seq<u8>) -> Seq<u8> {
    Seq::new(s.len(), |i: int| lower_byte(s[i]))
}

/// Lowercases a byte slice into a fresh vector.
pub fn to_lower(s: &[u8]) -> (r: Vec<u8>)
    ensures
        r@ == lower_of(s@),
{
    let n = s.len();
    let mut r: Vec<u8> = Vec::new();
    let mut i: usize = 0;
    while i < n
        invariant
            n == s@.len(),
            i <= n,
            r@ == lower_of(s@.take(i as int)),
        decreases n - i,
    {
        let b = s[i];
        if 65 <= b && b <= 90 {
            r.push(b + 32);
        } else {
            r.push(b);
        }
        proof {
            assert(r@ =~= lower_of(s@.take(i + 1)));
        }
        i += 1;
    }
    proof {
        assert(s@.take(n as int) =~= s@);
    }
    r
}

/// A byte sequence with no ASCII capital letter.
pub open spec fn is_lower_seq(s: Seq<u8>) -> bool {
    forall|i: int| 0 <= i < s.len() ==> !(65 <= #[trigger] s[i] <= 90)
}

/// Lowercasing leaves no capital letter behind.
pub proof fn lemma_lower_of_is_lower(s: Seq<u8>)
    ensures
        is_lower_seq(lower_of(s)),
{
}

/// ASCII whitespace, as trimming understands it.
pub open spec fn is_ws(b: u8) -> bool {
    b == 32 || (9 <= b && b <= 13)
}

/// How many whitespace bytes `s` begins with.
pub open spec fn leading_ws(s: Seq<u8>) -> int
    decreases s.len(),
{
    if s.len() > 0 && is_ws(s[0]) {
        1 + leading_ws(s.drop_first())
    } else {
        0
    }
}

/// How many whitespace bytes `s` ends with.
pub open spec fn trailing_ws(s: Seq<u8>) -> int
    decreases s.len(),
{
    if s.len() > 0 && is_ws(s.last()) {
        1 + trailing_ws(s.drop_last())
    } else {
        0
    }
}

/// `s` with leading and trailing whitespace removed.
pub open spec fn trimmed(s: Seq<u8>) -> Seq<u8> {
    let rest = s.skip(leading_ws(s));
    rest.take(rest.len() - trailing_ws(rest))
}

pub proof fn lemma_leading_ws(s: Seq<u8>)
    ensures
        0 <= leading_ws(s) <= s.len(),
        forall|j: int| 0 <= j < leading_ws(s) ==> is_ws(#[trigger] s[j]),
        leading_ws(s) < s.len() ==> !is_ws(s[leading_ws(s)]),
    decreases s.len(),
{
    if s.len() > 0 && is_ws(s[0]) {
        lemma_leading_ws(s.drop_first());
        assert forall|j: int| 0 <= j < leading_ws(s) implies is_ws(#[trigger] s[j]) by {
            if j > 0 {
                assert(is_ws(s.drop_first()[j - 1]));
            }
        }
    }
}

pub proof fn lemma_trailing_ws(s: Seq<u8>)
    ensures
        0 <= trailing_ws(s) <= s.len(),
        forall|j: int| s.len() - trailing_ws(s) <= j < s.len() ==> is_ws(#[trigger] s[j]),
        trailing_ws(s) < s.len() ==> !is_ws(s[s.len() - trailing_ws(s) - 1]),
    decreases s.len(),
{
    if s.len() > 0 && is_ws(s.last()) {
        lemma_trailing_ws(s.drop_last());
        assert forall|j: int| s.len() - trailing_ws(s) <= j < s.len() implies is_ws(
            #[trigger] s[j],
        ) by {
            if j < s.len() - 1 {
                assert(is_ws(s.drop_last()[j]));
            }
        }
    }
}

/// Trims ASCII whitespace from both ends of a slice.
pub fn trim(s: &[u8]) -> (r: &[u8])
    ensures
        r@ == trimmed(s@),
{
    let n = s.len();
    let mut a: usize = 0;
    while a < n && (s[a] == 32 || (9 <= s[a] && s[a] <= 13))
        invariant
            n == s@.len(),
            a <= n,
            forall|j: int| 0 <= j < a ==> is_ws(#[trigger] s@[j]),
        decreases n - a,
    {
        a += 1;
    }
    proof {
        lemma_leading_ws(s@);
        assert(a == leading_ws(s@));
    }
    if a == n {
        let r = vstd::slice::slice_subrange(s, 0, 0);
        proof {
            lemma_trailing_ws(s@.skip(a as int));
            assert(r@ =~= trimmed(s@));
        }
        return r;
    }
    let mut b: usize = n;
    while b > a && (s[b - 1] == 32 || (9 <= s[b - 1] && s[b - 1] <= 13))
        invariant
            n == s@.len(),
            a < n,
            a <= b <= n,
            !is_ws(s@[a as int]),
            forall|j: int| b <= j < n ==> is_ws(#[trigger] s@[j]),
        decreases b,
    {
        b -= 1;
    }
    let r = vstd::slice::slice_subrange(s, a, b);
    proof {
        let rest = s@.skip(a as int);
        lemma_trailing_ws(rest);
        if b == a {
            assert(!is_ws(s@[a as int]));
            assert(is_ws(s@[a as int]));
        }
        assert(!is_ws(rest[b - 1 - a]));
        assert(forall|j: int| b - a <= j < rest.len() ==> is_ws(#[trigger] rest[j]));
        let t = trailing_ws(rest);
        if t < rest.len() - (b - a) {
            assert(is_ws(rest[rest.len() - t - 1]));
        }
        if t > rest.len() - (b - a) {
            assert(is_ws(rest[b - 1 - a]));
        }
        assert(t == rest.len() - (b - a));
        assert(r@ =~= trimmed(s@));
    }
    r
}

/// A decimal digit byte.
pub open spec fn is_digit(b: u8) -> bool {
    48 <= b && b <= 57
}

pub open spec fn all_digits(s: Seq<u8>) -> bool {
    forall|i: int| 0 <= i < s.len() ==> is_digit(#[trigger] s[i])
}

pub open spec fn digit_val(b: u8) -> nat {
    if is_digit(b) {
        (b - 48) as nat
    } else {
        0
    }
}

/// The value of a byte sequence read as a decimal numeral.
pub open spec fn dec_val(s: Seq<u8>) -> nat
    decreases s.len(),
{
    if s.len() == 0 {
        0
    } else {
        dec_val(s.drop_last()) * 10 + digit_val(s.last())
    }
}

/// Longer numeral prefixes never denote smaller values.
pub proof fn lemma_dec_val_take_le(s: Seq<u8>, k: int)
    requires
        0 <= k <= s.len(),
    ensures
        dec_val(s.take(k)) <= dec_val(s),
    decreases s.len() - k,
{
    if k < s.len() {
        lemma_dec_val_take_le(s, k + 1);
        assert(s.take(k + 1).drop_last() =~= s.take(k));
        assert(dec_val(s.take(k)) <= dec_val(s.take(k)) * 10) by {
            lemma_mul_inequality(1, 10, dec_val(s.take(k)) as int);
        }
    } else {
        assert(s.take(k) =~= s);
    }
}

/// The `content-length` reading of a header value: its decimal value when the
/// value is a pure machine-sized numeral, and 0 otherwise.
pub open spec fn content_length_of(v: Seq<u8>) -> nat {
    if v.len() > 0 && all_digits(v) && dec_val(v) <= usize::MAX {
        dec_val(v)
    } else {
        0
    }
}

/// Reads a byte slice as a decimal numeral, with 0 for anything that is not
/// one or that does not fit.
pub fn parse_dec(v: &[u8]) -> (r: usize)
    ensures
        r == content_length_of(v@),
{
    let n = v.len();
    if n == 0 {
        return 0;
    }
    let mut acc: usize = 0;
    let mut i: usize = 0;
    while i < n
        invariant
            n == v@.len(),
            i <= n,
            forall|j: int| 0 <= j < i ==> is_digit(#[trigger] v@[j]),
            acc == dec_val(v@.take(i as int)),
        decreases n - i,
    {
        let b = v[i];
        if !(48 <= b && b <= 57) {
            proof {
                assert(!is_digit(v@[i as int]));
            }
            return 0;
        }
        let d = (b - 48) as usize;
        let q = (usize::MAX - d) / 10;
        proof {
            assert(v@.take(i + 1).drop_last() =~= v@.take(i as int));
        }
        if acc > q {
            proof {
                lemma_fundamental_div_mod((usize::MAX - d) as int, 10);
                lemma_mul_inequality(q + 1, acc as int, 10);
                assert(dec_val(v@.take(i + 1)) > usize::MAX);
                lemma_dec_val_take_le(v@, i + 1);
            }
            return 0;
        }
        proof {
            lemma_fundamental_div_mod((usize::MAX - d) as int, 10);
            lemma_mul_inequality(acc as int, q as int, 10);
        }
        acc = acc * 10 + d;
        i += 1;
    }
    proof {
        assert(v@.take(n as int) =~= v@);
    }
    acc
}

/// The decimal numeral for `n`, most significant digit first.
pub open spec fn dec_of(n: nat) -> Seq<u8>
    decreases n,
{
    if n < 10 {
        seq![(48 + n) as u8]
    } else {
        dec_of(n / 10).push((48 + n % 10) as u8)
    }
}

/// Appends the decimal numeral for `n`.
pub fn push_dec(out: &mut Vec<u8>, n: usize)
    ensures
        final(out)@ == old(out)@ + dec_of(n as nat),
    decreases n,
{
    if n < 10 {
        out.push(48 + n as u8);
        proof {
            assert(out@ =~= old(out)@ + dec_of(n as nat));
        }
    } else {
        push_dec(out, n / 10);
        out.push(48 + (n % 10) as u8);
        proof {
            assert(out@ =~= old(out)@ + dec_of(n as nat));
        }
    }
}

} // verus!
