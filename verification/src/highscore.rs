//! The persistence format of the highscore: a single decimal-encoded
//! non-negative integer, surrounded by optional ASCII whitespace. The store
//! itself (a file) is outside this library; callers hand the raw bytes in
//! and take the encoded bytes out.
use vstd::prelude::*;

verus! {

/// ASCII whitespace as it occurs around a stored number.
pub open spec fn is_ascii_ws(b: u8) -> bool {
    b == 32 || b == 9 || b == 10 || b == 13
}

/// ASCII decimal digit.
pub open spec fn is_ascii_digit(b: u8) -> bool {
    48 <= b <= 57
}

/// `s` with leading ASCII whitespace removed.
pub open spec fn trim_front(s: Seq<u8>) -> Seq<u8>
    decreases s.len(),
{
    if s.len() > 0 && is_ascii_ws(s[0]) {
        trim_front(s.drop_first())
    } else {
        s
    }
}

/// `s` with trailing ASCII whitespace removed.
pub open spec fn trim_back(s: Seq<u8>) -> Seq<u8>
    decreases s.len(),
{
    if s.len() > 0 && is_ascii_ws(s.last()) {
        trim_back(s.drop_last())
    } else {
        s
    }
}

/// `s` with ASCII whitespace removed from both ends.
pub open spec fn trimmed(s: Seq<u8>) -> Seq<u8> {
    trim_back(trim_front(s))
}

/// Every byte of `s` is a decimal digit.
pub open spec fn all_digits(s: Seq<u8>) -> bool {
    forall|i: int| 0 <= i < s.len() ==> is_ascii_digit(#[trigger] s[i])
}

/// The number a sequence of decimal digits denotes.
pub open spec fn digits_val(s: Seq<u8>) -> int
    decreases s.len(),
{
    if s.len() == 0 {
        0
    } else {
        digits_val(s.drop_last()) * 10 + (s.last() - 48)
    }
}

/// What reading the store yields from raw bytes `s`: the denoted number if,
/// after trimming, a non-empty run of digits remains whose value fits `i32`;
/// nothing otherwise (a failed read never halts the session).
pub open spec fn parse_spec(s: Seq<u8>) -> Option<i32> {
    let t = trimmed(s);
    if t.len() > 0 && all_digits(t) && digits_val(t) <= i32::MAX {
        Some(digits_val(t) as i32)
    } else {
        None
    }
}

/// The decimal digits of `n`, most significant first.
pub open spec fn dec_digits(n: int) -> Seq<u8>
    decreases n,
{
    if n < 10 {
        seq![(48 + n) as u8]
    } else {
        dec_digits(n / 10).push((48 + n % 10) as u8)
    }
}

/// A run of digits denotes a non-negative number.
proof fn lemma_digits_val_nonneg(s: Seq<u8>)
    requires
        all_digits(s),
    ensures
        digits_val(s) >= 0,
    decreases s.len(),
{
    if s.len() > 0 {
        assert(forall|i: int| 0 <= i < s.len() - 1 ==> s.drop_last()[i] == s[i]);
        lemma_digits_val_nonneg(s.drop_last());
    }
}

/// Extending a run of digits to the right never shrinks its value.
proof fn lemma_digits_val_prefix(s: Seq<u8>, k: int)
    requires
        all_digits(s),
        0 <= k <= s.len(),
    ensures
        digits_val(s.take(k)) <= digits_val(s),
    decreases s.len() - k,
{
    if k == s.len() {
        assert(s.take(k) =~= s);
    } else {
        assert(s.take(k + 1).drop_last() =~= s.take(k));
        assert(s.take(k + 1).last() == s[k]);
        assert(forall|i: int| 0 <= i < k ==> s.take(k)[i] == s[i]);
        lemma_digits_val_nonneg(s.take(k));
        assert(digits_val(s.take(k + 1)) == digits_val(s.take(k)) * 10 + (s[k] - 48));
        lemma_digits_val_prefix(s, k + 1);
    }
}

/// Whether `b` is an ASCII whitespace byte.
fn is_ws_byte(b: u8) -> (r: bool)
    ensures
        r == is_ascii_ws(b),
{
    b == 32 || b == 9 || b == 10 || b == 13
}

/// Read a stored highscore from raw bytes: trim ASCII whitespace, then the
/// decimal value, if the rest is a non-empty run of digits and the value
/// fits. Exactly `parse_spec` of the bytes.
pub fn parse_highscore(bytes: &[u8]) -> (r: Option<i32>)
    ensures
        r == parse_spec(bytes@),
{
    let n = bytes.len();
    proof {
        assert(bytes@.subrange(0, n as int) =~= bytes@);
    }
    let mut lo: usize = 0;
    while lo < n && is_ws_byte(bytes[lo])
        invariant
            0 <= lo <= n,
            n == bytes@.len(),
            trim_front(bytes@) == trim_front(bytes@.subrange(lo as int, n as int)),
        decreases n - lo,
    {
        proof {
            let s = bytes@.subrange(lo as int, n as int);
            assert(s[0] == bytes@[lo as int]);
            assert(s.drop_first() =~= bytes@.subrange(lo as int + 1, n as int));
        }
        lo += 1;
    }
    proof {
        let s = bytes@.subrange(lo as int, n as int);
        if lo < n {
            assert(s[0] == bytes@[lo as int]);
        }
        assert(trim_front(bytes@) == s);
    }
    let mut hi: usize = n;
    while hi > lo && is_ws_byte(bytes[hi - 1])
        invariant
            lo <= hi <= n,
            n == bytes@.len(),
            trim_front(bytes@) == bytes@.subrange(lo as int, n as int),
            trim_back(bytes@.subrange(lo as int, n as int)) == trim_back(
                bytes@.subrange(lo as int, hi as int),
            ),
        decreases hi,
    {
        proof {
            let s = bytes@.subrange(lo as int, hi as int);
            assert(s.last() == bytes@[hi - 1]);
            assert(s.drop_last() =~= bytes@.subrange(lo as int, hi as int - 1));
        }
        hi -= 1;
    }
    let ghost t = bytes@.subrange(lo as int, hi as int);
    proof {
        if hi > lo {
            assert(t.last() == bytes@[hi - 1]);
        }
        assert(trimmed(bytes@) == t);
    }
    if lo == hi {
        return None;
    }
    let mut acc: i32 = 0;
    let mut i: usize = lo;
    while i < hi
        invariant
            lo <= i <= hi <= n,
            lo < hi,
            n == bytes@.len(),
            t == bytes@.subrange(lo as int, hi as int),
            trimmed(bytes@) == t,
            forall|j: int| 0 <= j < i - lo ==> is_ascii_digit(#[trigger] t[j]),
            0 <= acc <= i32::MAX,
            acc == digits_val(t.take(i - lo)),
        decreases hi - i,
    {
        let b = bytes[i];
        proof {
            assert(t[i - lo] == bytes@[i as int]);
        }
        if !(b >= 48 && b <= 57) {
            proof {
                assert(!is_ascii_digit(t[i - lo]));
            }
            return None;
        }
        let d: i32 = (b - 48) as i32;
        if acc > (i32::MAX - d) / 10 {
            proof {
                assert(t.take(i - lo + 1).drop_last() =~= t.take(i - lo));
                assert(t.take(i - lo + 1).last() == t[i - lo]);
                assert(digits_val(t.take(i - lo + 1)) == acc * 10 + d);
                assert(acc * 10 + d > i32::MAX);
                if all_digits(t) {
                    lemma_digits_val_prefix(t, i - lo + 1);
                    assert(digits_val(t) > i32::MAX);
                }
            }
            return None;
        }
        proof {
            assert(t.take(i - lo + 1).drop_last() =~= t.take(i - lo));
            assert(t.take(i - lo + 1).last() == t[i - lo]);
        }
        acc = acc * 10 + d;
        i += 1;
    }
    proof {
        assert(t.take(hi - lo) =~= t);
        assert(all_digits(t));
    }
    Some(acc)
}

/// Encode a highscore for the store: its decimal digits, nothing else.
pub fn encode_highscore(score: i32) -> (r: Vec<u8>)
    requires
        0 <= score,
    ensures
        r@ == dec_digits(score as int),
{
    let mut rev: Vec<u8> = Vec::new();
    let mut m: i32 = score;
    rev.push((48 + (m % 10)) as u8);
    m = m / 10;
    proof {
        if score < 10 {
            assert(rev@.reverse() =~= dec_digits(score as int));
        } else {
            assert(dec_digits(score as int) =~= dec_digits(m as int) + rev@.reverse());
        }
    }
    while m > 0
        invariant
            0 <= m,
            1 <= rev@.len(),
            m > 0 ==> dec_digits(score as int) == dec_digits(m as int) + rev@.reverse(),
            m == 0 ==> dec_digits(score as int) == rev@.reverse(),
        decreases m,
    {
        let d: u8 = (48 + (m % 10)) as u8;
        let ghost old_rev = rev@;
        let ghost old_m = m as int;
        rev.push(d);
        m = m / 10;
        proof {
            assert(rev@.reverse() =~= seq![d] + old_rev.reverse());
            if old_m < 10 {
                assert(dec_digits(old_m) =~= seq![d]);
                assert(dec_digits(score as int) =~= rev@.reverse());
            } else {
                assert(dec_digits(old_m) == dec_digits(old_m / 10).push(d));
                assert(dec_digits(old_m / 10).push(d) + old_rev.reverse() =~= dec_digits(
                    old_m / 10,
                ) + rev@.reverse());
            }
        }
    }
    let mut r: Vec<u8> = Vec::new();
    let mut i: usize = rev.len();
    while i > 0
        invariant
            i <= rev@.len(),
            r@.len() == rev@.len() - i,
            forall|k: int| 0 <= k < r@.len() ==> r@[k] == rev@[rev@.len() - 1 - k],
        decreases i,
    {
        i -= 1;
        r.push(rev[i]);
    }
    proof {
        assert(r@ =~= rev@.reverse());
    }
    r
}

/// Every decimal encoding is all digits and denotes the encoded number.
proof fn lemma_dec_digits_val(n: int)
    requires
        0 <= n,
    ensures
        dec_digits(n).len() >= 1,
        all_digits(dec_digits(n)),
        digits_val(dec_digits(n)) == n,
    decreases n,
{
    if n < 10 {
        let s = dec_digits(n);
        assert((48 + n) as u8 == 48 + n);
        assert(s.last() == (48 + n) as u8);
        assert(s.drop_last() =~= Seq::<u8>::empty());
        assert(digits_val(s) == digits_val(Seq::<u8>::empty()) * 10 + (s.last() - 48));
    } else {
        lemma_dec_digits_val(n / 10);
        let s = dec_digits(n);
        let prev = dec_digits(n / 10);
        assert((48 + n % 10) as u8 == 48 + n % 10);
        assert(s.drop_last() =~= prev);
        assert(s.last() == (48 + n % 10) as u8);
        assert(forall|i: int| 0 <= i < prev.len() ==> s[i] == prev[i]);
        assert(digits_val(s) == digits_val(prev) * 10 + (s.last() - 48));
        assert(digits_val(s) == (n / 10) * 10 + n % 10);
    }
}

/// Law: the store round-trips. Reading back exactly what was written for a
/// score yields that score.
pub proof fn lemma_highscore_round_trip(score: i32)
    requires
        0 <= score,
    ensures
        parse_spec(dec_digits(score as int)) == Some(score),
{
    let s = dec_digits(score as int);
    lemma_dec_digits_val(score as int);
    assert(is_ascii_digit(s[0]));
    assert(is_ascii_digit(s.last()));
    assert(trim_front(s) == s);
    assert(trim_back(s) == s);
    assert(trimmed(s) == s);
}

} // verus!
