//! Byte-level pieces of the manifest line format: the field separator,
//! line breaks and decimal numbers.
use vstd::prelude::*;

verus! {

/// A line feed.
pub const NEWLINE: u8 = 10;

/// True when the three-byte field separator `" , "` starts at `i`.
pub open spec fn sep_at(s: Seq<u8>, i: int) -> bool {
    &&& 0 <= i
    &&& i + 3 <= s.len()
    &&& s[i] == 32u8
    &&& s[i + 1] == 44u8
    &&& s[i + 2] == 32u8
}

/// The first position at or after `i` where a separator starts, or the
/// length of `s` when there is none.
pub open spec fn first_sep_from(s: Seq<u8>, i: int) -> int
    decreases s.len() - i,
{
    if i < 0 || i + 3 > s.len() {
        s.len() as int
    } else if sep_at(s, i) {
        i
    } else {
        first_sep_from(s, i + 1)
    }
}

/// The position of the first line feed in `s`, or its length.
pub open spec fn first_newline(s: Seq<u8>) -> nat
    decreases s.len(),
{
    if s.len() == 0 {
        0
    } else if s[0] == NEWLINE {
        0
    } else {
        1 + first_newline(s.drop_first())
    }
}

pub open spec fn is_digit(b: u8) -> bool {
    48u8 <= b <= 57u8
}

pub open spec fn all_digits(s: Seq<u8>) -> bool {
    forall|i: int| 0 <= i < s.len() ==> is_digit(#[trigger] s[i])
}

/// The number that a string of decimal digits spells.
pub open spec fn digits_value(s: Seq<u8>) -> nat
    decreases s.len(),
{
    if s.len() == 0 {
        0
    } else {
        digits_value(s.drop_last()) * 10 + (s.last() - 48) as nat
    }
}

/// What a length field holds: an optional `+`, then one or more digits,
/// whose value fits in 64 bits.
pub open spec fn parse_u64_spec(s: Seq<u8>) -> Option<u64> {
    let d = if s.len() > 0 && s[0] == 43u8 { s.drop_first() } else { s };
    if d.len() > 0 && all_digits(d) && digits_value(d) <= u64::MAX {
        Some(digits_value(d) as u64)
    } else {
        None
    }
}

/// The decimal digits of `n`, without leading zeros.
pub open spec fn decimal(n: nat) -> Seq<u8>
    decreases n,
{
    if n < 10 {
        seq![(n + 48) as u8]
    } else {
        decimal(n / 10).push((n % 10 + 48) as u8)
    }
}

pub proof fn lemma_first_sep_skip(s: Seq<u8>, i: int, j: int)
    requires
        0 <= i <= j,
        forall|k: int| i <= k < j ==> !sep_at(s, k),
    ensures
        first_sep_from(s, i) == first_sep_from(s, j),
    decreases j - i,
{
    if i < j {
        lemma_first_sep_skip(s, i + 1, j);
    }
}

/// The first separator at or after `from` in `s`, or `s.len()`.
pub fn find_sep(s: &[u8], from: usize) -> (r: usize)
    requires
        from <= s@.len(),
    ensures
        r as int == first_sep_from(s@, from as int),
        from <= r <= s@.len(),
        r < s@.len() ==> sep_at(s@, r as int),
{
    let n = s.len();
    let mut i = from;
    while n - i >= 3
        invariant
            from <= i <= n,
            n == s@.len(),
            forall|k: int| from <= k < i ==> !sep_at(s@, k),
        decreases n - i,
    {
        if s[i] == 32u8 && s[i + 1] == 44u8 && s[i + 2] == 32u8 {
            proof {
                lemma_first_sep_skip(s@, from as int, i as int);
            }
            return i;
        }
        i = i + 1;
    }
    proof {
        lemma_first_sep_skip(s@, from as int, i as int);
    }
    n
}

pub proof fn lemma_first_newline_at(s: Seq<u8>, i: int)
    requires
        0 <= i <= s.len(),
        forall|k: int| 0 <= k < i ==> s[k] != NEWLINE,
        i == s.len() || s[i] == NEWLINE,
    ensures
        first_newline(s) == i,
    decreases i,
{
    if i > 0 {
        lemma_first_newline_at(s.drop_first(), i - 1);
    }
}

/// The first line feed at or after `from` in `s`, or `s.len()`.
pub fn find_newline(s: &[u8], from: usize) -> (r: usize)
    requires
        from <= s@.len(),
    ensures
        from <= r <= s@.len(),
        r - from == first_newline(s@.subrange(from as int, s@.len() as int)),
{
    let n = s.len();
    let mut i = from;
    while i < n && s[i] != NEWLINE
        invariant
            from <= i <= n,
            n == s@.len(),
            forall|k: int| from <= k < i ==> s@[k] != NEWLINE,
        decreases n - i,
    {
        i = i + 1;
    }
    proof {
        lemma_first_newline_at(s@.subrange(from as int, n as int), i - from);
    }
    i
}

/// Reads a length field the way `u64::from_str_radix(_, 10)` does.
pub fn parse_u64(s: &[u8]) -> (r: Option<u64>)
    ensures
        r == parse_u64_spec(s@),
{
    let n = s.len();
    let start: usize = if n > 0 && s[0] == 43u8 { 1 } else { 0 };
    let ghost d = if s@.len() > 0 && s@[0] == 43u8 { s@.drop_first() } else { s@ };
    assert(d =~= s@.subrange(start as int, n as int));
    if start == n {
        return None;
    }
    let mut v: u64 = 0;
    let mut i = start;
    while i < n
        invariant
            start <= i <= n,
            n == s@.len(),
            d =~= s@.subrange(start as int, n as int),
            d == (if s@.len() > 0 && s@[0] == 43u8 { s@.drop_first() } else { s@ }),
            all_digits(d.subrange(0, i - start)),
            v as nat == digits_value(d.subrange(0, i - start)),
        decreases n - i,
    {
        let b = s[i];
        let ghost pre = d.subrange(0, i - start);
        let ghost next = d.subrange(0, i + 1 - start);
        assert(next.drop_last() =~= pre);
        if b < 48u8 || b > 57u8 {
            assert(!all_digits(d)) by {
                assert(d[i - start] == b);
            }
            return None;
        }
        assert(next.last() == b);
        assert(digits_value(next) == v as nat * 10 + (b - 48) as nat);
        let m = v.checked_mul(10);
        if m.is_none() {
            proof {
                lemma_digits_prefix_le(d, i + 1 - start);
            }
            assert(all_digits(d) ==> digits_value(d) > u64::MAX);
            return None;
        }
        let a = m.unwrap().checked_add((b - 48u8) as u64);
        if a.is_none() {
            proof {
                lemma_digits_prefix_le(d, i + 1 - start);
            }
            assert(all_digits(d) ==> digits_value(d) > u64::MAX);
            return None;
        }
        v = a.unwrap();
        i = i + 1;
        assert(all_digits(next)) by {
            assert forall|k: int| 0 <= k < next.len() implies is_digit(#[trigger] next[k]) by {
                if k < next.len() - 1 {
                    assert(next[k] == pre[k]);
                }
            }
        }
    }
    assert(d.subrange(0, n - start) =~= d);
    Some(v)
}

/// A prefix of a digit string never spells more than the whole.
proof fn lemma_digits_prefix_le(d: Seq<u8>, k: int)
    requires
        0 <= k <= d.len(),
    ensures
        all_digits(d) ==> digits_value(d.subrange(0, k)) <= digits_value(d),
    decreases d.len() - k,
{
    if all_digits(d) {
        if k < d.len() {
            lemma_digits_prefix_le(d, k + 1);
            let p = d.subrange(0, k + 1);
            assert(p.drop_last() =~= d.subrange(0, k));
            assert(is_digit(p.last()));
            let w = digits_value(p.drop_last());
            assert(w * 10 >= w) by (nonlinear_arith);
        } else {
            assert(d.subrange(0, k) =~= d);
        }
    }
}

/// Appends the decimal digits of `n` to `out`.
pub fn push_decimal(out: &mut Vec<u8>, n: u64)
    ensures
        final(out)@ == old(out)@ + decimal(n as nat),
    decreases n,
{
    if n >= 10 {
        push_decimal(out, n / 10);
    }
    out.push((n % 10) as u8 + 48u8);
    proof {
        if n >= 10 {
            assert(final(out)@ =~= old(out)@ + decimal(n as nat));
        } else {
            assert(final(out)@ =~= old(out)@ + decimal(n as nat));
        }
    }
}

/// Appends the bytes of `s` to `out`.
pub fn extend_bytes(out: &mut Vec<u8>, s: &[u8])
    ensures
        final(out)@ == old(out)@ + s@,
{
    let ghost start = out@;
    let mut i: usize = 0;
    while i < s.len()
        invariant
            i <= s@.len(),
            out@ == start + s@.subrange(0, i as int),
        decreases s@.len() - i,
    {
        out.push(s[i]);
        assert(out@ =~= start + s@.subrange(0, i + 1));
        i = i + 1;
    }
    assert(s@.subrange(0, i as int) =~= s@);
}

/// The decimal digits of a number read back as that number.
pub proof fn lemma_decimal_round_trip(n: u64)
    ensures
        parse_u64_spec(decimal(n as nat)) == Some(n),
        decimal(n as nat).len() > 0,
        all_digits(decimal(n as nat)),
{
    lemma_decimal_digits(n as nat);
}

proof fn lemma_decimal_digits(n: nat)
    ensures
        decimal(n).len() > 0,
        all_digits(decimal(n)),
        digits_value(decimal(n)) == n,
    decreases n,
{
    let d = decimal(n);
    if n < 10 {
        assert(d.drop_last() =~= Seq::<u8>::empty());
        assert(d.last() as int == n + 48);
        assert(digits_value(d.drop_last()) == 0);
    } else {
        lemma_decimal_digits(n / 10);
        let p = decimal(n / 10);
        assert(d.drop_last() =~= p);
        assert forall|i: int| 0 <= i < d.len() implies is_digit(#[trigger] d[i]) by {
            if i < p.len() {
                assert(d[i] == p[i]);
            }
        }
        assert((n / 10) * 10 + n % 10 == n);
        assert(d.last() as int == n % 10 + 48);
        assert(digits_value(d) == digits_value(p) * 10 + n % 10);
    }
}

} // verus!
