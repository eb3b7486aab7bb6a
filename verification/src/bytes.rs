//! Byte-string helpers shared by the routing and relay modules.
//!
//! Paths, header names, header values and tokens are all handled as raw
//! bytes; nothing here assumes a text encoding beyond ASCII case folding.
use vstd::prelude::*;

verus! {

/// ASCII lower-casing of one byte: `A`..`Z` map to `a`..`z`, every other
/// byte is left alone.
pub open spec fn lower(b: u8) -> u8 {
    if 65 <= b && b <= 90 {
        (b + 32) as u8
    } else {
        b
    }
}

/// Two byte strings are equal up to ASCII case.
pub open spec fn eq_ignore_case(a: Seq<u8>, b: Seq<u8>) -> bool {
    a.len() == b.len() && forall|i: int| 0 <= i < a.len() ==> lower(#[trigger] a[i]) == lower(b[i])
}

/// Value denoted by one ASCII decimal digit.
pub open spec fn digit_value(b: u8) -> nat {
    (b - 48) as nat
}

/// The byte is an ASCII decimal digit.
pub open spec fn is_digit(b: u8) -> bool {
    48 <= b && b <= 57
}

/// Every byte is an ASCII decimal digit.
pub open spec fn all_digits(s: Seq<u8>) -> bool {
    forall|i: int| 0 <= i < s.len() ==> is_digit(#[trigger] s[i])
}

/// The number written by a string of decimal digits, most significant first.
pub open spec fn decimal_value(s: Seq<u8>) -> nat
    decreases s.len(),
{
    if s.len() == 0 {
        0
    } else {
        decimal_value(s.drop_last()) * 10 + digit_value(s.last())
    }
}

/// What `parse_decimal` accepts: a non-empty run of digits whose value fits
/// in sixty-four bits.
pub open spec fn decimal_spec(s: Seq<u8>) -> Option<u64> {
    if s.len() > 0 && all_digits(s) && decimal_value(s) <= u64::MAX {
        Some(decimal_value(s) as u64)
    } else {
        None
    }
}

/// Position of the first occurrence of `b` in `s`, or the length of `s` if
/// there is none.
pub open spec fn index_of(s: Seq<u8>, b: u8) -> int
    decreases s.len(),
{
    if s.len() == 0 || s[0] == b {
        0
    } else {
        1 + index_of(s.skip(1), b)
    }
}

/// Some byte is not the digit `0`.
pub open spec fn any_nonzero(s: Seq<u8>) -> bool {
    exists|i: int| 0 <= i < s.len() && #[trigger] s[i] != 48u8
}

/// What `parse_seconds` accepts: a decimal number, optionally followed by
/// `.` and at least one more digit. Its value is the number rounded up to
/// whole seconds, capped at the largest `u64`.
pub open spec fn seconds_spec(s: Seq<u8>) -> Option<u64> {
    let dot = index_of(s, 46u8);
    match decimal_spec(s.take(dot)) {
        None => None,
        Some(whole) => if dot == s.len() {
            Some(whole)
        } else {
            let fraction = s.skip(dot + 1);
            if fraction.len() > 0 && all_digits(fraction) {
                Some(
                    if any_nonzero(fraction) && whole < u64::MAX {
                        (whole + 1) as u64
                    } else {
                        whole
                    },
                )
            } else {
                None
            }
        },
    }
}

/// `index_of` is the one position that holds `b` with no `b` before it, or
/// the length where `b` does not occur.
pub proof fn lemma_index_of(s: Seq<u8>, b: u8, at: int)
    requires
        0 <= at <= s.len(),
        forall|i: int| 0 <= i < at ==> s[i] != b,
        at < s.len() ==> s[at] == b,
    ensures
        index_of(s, b) == at,
    decreases at,
{
    if at > 0 {
        lemma_index_of(s.skip(1), b, at - 1);
    }
}

/// A longer digit string never denotes a smaller number than its prefix.
pub proof fn lemma_decimal_prefix_monotone(s: Seq<u8>, n: int)
    requires
        0 <= n <= s.len(),
        all_digits(s),
    ensures
        decimal_value(s.take(n)) <= decimal_value(s),
    decreases s.len() - n,
{
    if n == s.len() {
        assert(s.take(n) =~= s);
    } else {
        lemma_decimal_prefix_monotone(s, n + 1);
        let t = s.take(n + 1);
        assert(t.drop_last() =~= s.take(n));
        assert(is_digit(s[n]));
        assert(t.last() == s[n]);
    }
}

fn to_lower(b: u8) -> (r: u8)
    ensures
        r == lower(b),
{
    if 65 <= b && b <= 90 {
        b + 32
    } else {
        b
    }
}

/// An independent copy of a byte string.
pub fn copy_bytes(v: &Vec<u8>) -> (r: Vec<u8>)
    ensures
        r@ == v@,
{
    let mut out: Vec<u8> = Vec::new();
    let mut i: usize = 0;
    while i < v.len()
        invariant
            i <= v.len(),
            out@ == v@.take(i as int),
        decreases v.len() - i,
    {
        out.push(v[i]);
        assert(out@ =~= v@.take(i + 1));
        i += 1;
    }
    assert(v@.take(i as int) =~= v@);
    out
}

/// Exact equality of two byte strings.
pub fn same_bytes(a: &Vec<u8>, b: &Vec<u8>) -> (r: bool)
    ensures
        r == (a@ == b@),
{
    if a.len() != b.len() {
        return false;
    }
    let mut i: usize = 0;
    while i < a.len()
        invariant
            a.len() == b.len(),
            i <= a.len(),
            forall|j: int| 0 <= j < i ==> a@[j] == b@[j],
        decreases a.len() - i,
    {
        if a[i] != b[i] {
            return false;
        }
        i += 1;
    }
    assert(a@ =~= b@);
    true
}

/// Equality of two byte strings up to ASCII case, as header names compare.
pub fn same_name(a: &Vec<u8>, b: &Vec<u8>) -> (r: bool)
    ensures
        r == eq_ignore_case(a@, b@),
{
    if a.len() != b.len() {
        return false;
    }
    let mut i: usize = 0;
    while i < a.len()
        invariant
            a.len() == b.len(),
            i <= a.len(),
            forall|j: int| 0 <= j < i ==> lower(#[trigger] a@[j]) == lower(b@[j]),
        decreases a.len() - i,
    {
        if to_lower(a[i]) != to_lower(b[i]) {
            return false;
        }
        i += 1;
    }
    true
}

/// Whether `s` begins with `prefix`.
pub fn has_prefix(s: &Vec<u8>, prefix: &Vec<u8>) -> (r: bool)
    ensures
        r == prefix@.is_prefix_of(s@),
{
    if s.len() < prefix.len() {
        return false;
    }
    let mut i: usize = 0;
    while i < prefix.len()
        invariant
            prefix.len() <= s.len(),
            i <= prefix.len(),
            forall|j: int| 0 <= j < i ==> s@[j] == prefix@[j],
        decreases prefix.len() - i,
    {
        if s[i] != prefix[i] {
            assert(s@.subrange(0, prefix@.len() as int)[i as int] == s@[i as int]);
            return false;
        }
        i += 1;
    }
    assert(s@.subrange(0, prefix@.len() as int) =~= prefix@);
    true
}

/// The position of the first `b` in `s`, or the length of `s`.
pub fn find_byte(s: &Vec<u8>, b: u8) -> (r: usize)
    ensures
        r == index_of(s@, b),
        r <= s@.len(),
{
    let mut i: usize = 0;
    while i < s.len() && s[i] != b
        invariant
            i <= s@.len(),
            forall|j: int| 0 <= j < i ==> s@[j] != b,
        decreases s@.len() - i,
    {
        i += 1;
    }
    proof {
        lemma_index_of(s@, b, i as int);
    }
    i
}

/// A copy of the bytes of `s` from position `from` up to, not including,
/// position `to`.
pub fn slice(s: &Vec<u8>, from: usize, to: usize) -> (r: Vec<u8>)
    requires
        from <= to <= s@.len(),
    ensures
        r@ == s@.subrange(from as int, to as int),
{
    let mut out: Vec<u8> = Vec::new();
    let mut i: usize = from;
    while i < to
        invariant
            from <= i <= to <= s@.len(),
            out@ == s@.subrange(from as int, i as int),
        decreases to - i,
    {
        out.push(s[i]);
        assert(out@ =~= s@.subrange(from as int, i + 1));
        i += 1;
    }
    out
}

/// Reads a whole byte string as an unsigned decimal number.
///
/// Succeeds exactly on a non-empty string of ASCII digits whose value fits
/// in a `u64`; signs, blanks, fractions and overflow all give `None`.
pub fn parse_decimal(s: &Vec<u8>) -> (r: Option<u64>)
    ensures
        r == decimal_spec(s@),
{
    if s.len() == 0 {
        return None;
    }
    let mut acc: u64 = 0;
    let mut i: usize = 0;
    while i < s.len()
        invariant
            i <= s.len(),
            all_digits(s@.take(i as int)),
            acc == decimal_value(s@.take(i as int)),
        decreases s.len() - i,
    {
        let b: u8 = s[i];
        if b < 48 || b > 57 {
            assert(!is_digit(s@[i as int]));
            return None;
        }
        let ghost next = s@.take(i + 1);
        proof {
            assert(next.drop_last() =~= s@.take(i as int));
            assert(next.last() == b);
            assert forall|j: int| 0 <= j < next.len() implies is_digit(#[trigger] next[j]) by {
                if j < i {
                    assert(next[j] == s@.take(i as int)[j]);
                }
            }
        }
        let d: u64 = (b - 48) as u64;
        if acc > (u64::MAX - d) / 10 {
            proof {
                assert(acc * 10 + d > u64::MAX);
                if all_digits(s@) {
                    lemma_decimal_prefix_monotone(s@, i + 1);
                }
            }
            return None;
        }
        acc = acc * 10 + d;
        i += 1;
    }
    assert(s@.take(i as int) =~= s@);
    Some(acc)
}

/// Reads a byte string as a number of seconds, rounding a fraction up.
///
/// Accepts digits, optionally followed by `.` and one or more digits;
/// everything else gives `None`, as does a whole part beyond `u64`.
pub fn parse_seconds(s: &Vec<u8>) -> (r: Option<u64>)
    ensures
        r == seconds_spec(s@),
{
    let dot = find_byte(s, 46u8);
    let whole_part = slice(s, 0, dot);
    let whole: u64 = match parse_decimal(&whole_part) {
        None => {
            return None;
        },
        Some(whole) => whole,
    };
    if dot == s.len() {
        return Some(whole);
    }
    if dot + 1 == s.len() {
        return None;
    }
    let ghost fraction = s@.skip(dot + 1);
    let mut i: usize = dot + 1;
    let mut nonzero = false;
    while i < s.len()
        invariant
            dot < i <= s@.len(),
            dot == index_of(s@, 46u8),
            decimal_spec(s@.take(dot as int)) == Some(whole),
            fraction == s@.skip(dot + 1),
            forall|j: int| dot < j < i ==> is_digit(#[trigger] s@[j]),
            nonzero ==> any_nonzero(fraction),
            !nonzero ==> forall|j: int| dot < j < i ==> #[trigger] s@[j] == 48u8,
        decreases s@.len() - i,
    {
        let b: u8 = s[i];
        if b < 48 || b > 57 {
            assert(!is_digit(fraction[i - dot - 1]));
            return None;
        }
        if b != 48 {
            assert(fraction[i - dot - 1] != 48u8);
            nonzero = true;
        }
        i += 1;
    }
    proof {
        assert forall|k: int| 0 <= k < fraction.len() implies is_digit(#[trigger] fraction[k]) by {
            assert(fraction[k] == s@[dot + 1 + k]);
        }
        if !nonzero {
            assert forall|k: int| 0 <= k < fraction.len() implies #[trigger] fraction[k] == 48u8 by {
                assert(fraction[k] == s@[dot + 1 + k]);
            }
        }
    }
    if nonzero && whole < u64::MAX {
        Some(whole + 1)
    } else {
        Some(whole)
    }
}

} // verus!
