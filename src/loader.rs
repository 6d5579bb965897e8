use vstd::prelude::*;

verus! {

/// Largest asset count accepted in a data file.
pub const MAX_COUNT: u64 = 2_147_483_647;

/// Largest integer part of a decimal number accepted in a data file.
pub const MAX_INTEGER_PART: u64 = 1_000_000;

/// Digits after the point that a decimal number keeps: numbers are read in
/// units of `1 / UNIT`.
pub const FRACTION_DIGITS: usize = 4;

pub open spec fn is_digit(b: u8) -> bool {
    48 <= b <= 57
}

pub open spec fn all_digits(s: Seq<u8>) -> bool {
    forall|i: int| 0 <= i < s.len() ==> is_digit(#[trigger] s[i])
}

/// The number that the decimal digits `s` spell.
pub open spec fn digits_value(s: Seq<u8>) -> int
    decreases s.len(),
{
    if s.len() == 0 {
        0
    } else {
        digits_value(s.drop_last()) * 10 + (s.last() - 48)
    }
}

pub open spec fn pow10(k: nat) -> int
    decreases k,
{
    if k == 0 {
        1
    } else {
        10 * pow10((k - 1) as nat)
    }
}

/// The asset count that `s` spells: one or more decimal digits, at most
/// `MAX_COUNT`.
pub open spec fn count_of(s: Seq<u8>) -> Option<int> {
    if s.len() > 0 && all_digits(s) && digits_value(s) <= MAX_COUNT {
        Some(digits_value(s))
    } else {
        None
    }
}

/// Position of the first '.' in `s` at or after `k`, or the length of `s`.
pub open spec fn first_dot(s: Seq<u8>, k: int) -> int
    decreases s.len() - k,
{
    if k >= s.len() {
        s.len() as int
    } else if s[k] == 46 {
        k
    } else {
        first_dot(s, k + 1)
    }
}

/// The value, in units of 1/10^4, of an unsigned decimal number: digits,
/// then optionally '.' and one or more digits. Digits after the fourth are
/// rounded, half up, by the fifth.
pub open spec fn unsigned_fixed_of(s: Seq<u8>) -> Option<int> {
    let d = first_dot(s, 0);
    let ip = s.subrange(0, d);
    let fp = if d < s.len() {
        s.subrange(d + 1, s.len() as int)
    } else {
        Seq::empty()
    };
    let kept = if fp.len() > FRACTION_DIGITS {
        fp.subrange(0, FRACTION_DIGITS as int)
    } else {
        fp
    };
    let carry = if fp.len() > FRACTION_DIGITS && fp[FRACTION_DIGITS as int] >= 53 {
        1int
    } else {
        0
    };
    if ip.len() == 0 || !all_digits(ip) || !all_digits(fp) || (d < s.len() && fp.len() == 0)
        || digits_value(ip) > MAX_INTEGER_PART {
        None
    } else {
        Some(
            digits_value(ip) * pow10(FRACTION_DIGITS as nat) + digits_value(kept) * pow10(
                (FRACTION_DIGITS - kept.len()) as nat,
            ) + carry,
        )
    }
}

/// The value, in units of 1/10^4, of a decimal number with an optional
/// leading '-'.
pub open spec fn fixed_of(s: Seq<u8>) -> Option<int> {
    if s.len() > 0 && s[0] == 45 {
        match unsigned_fixed_of(s.drop_first()) {
            Some(v) => Some(-v),
            None => None,
        }
    } else {
        unsigned_fixed_of(s)
    }
}

proof fn lemma_digits_step(s: Seq<u8>, lo: int, k: int)
    requires
        0 <= lo <= k < s.len(),
    ensures
        digits_value(s.subrange(lo, k + 1)) == digits_value(s.subrange(lo, k)) * 10 + (s[k] - 48),
{
    assert(s.subrange(lo, k + 1).drop_last() =~= s.subrange(lo, k));
}

proof fn lemma_digits_nonneg(s: Seq<u8>)
    requires
        all_digits(s),
    ensures
        digits_value(s) >= 0,
    decreases s.len(),
{
    if s.len() > 0 {
        lemma_digits_nonneg(s.drop_last());
    }
}

proof fn lemma_digits_mono(s: Seq<u8>, lo: int, k: int, hi: int)
    requires
        0 <= lo <= k <= hi <= s.len(),
        all_digits(s.subrange(lo, hi)),
    ensures
        digits_value(s.subrange(lo, k)) <= digits_value(s.subrange(lo, hi)),
    decreases hi - k,
{
    if k < hi {
        assert(all_digits(s.subrange(lo, hi - 1))) by {
            assert forall|i: int| 0 <= i < hi - 1 - lo implies is_digit(
                #[trigger] s.subrange(lo, hi - 1)[i],
            ) by {
                assert(s.subrange(lo, hi)[i] == s.subrange(lo, hi - 1)[i]);
            }
        }
        lemma_digits_mono(s, lo, k, hi - 1);
        lemma_digits_step(s, lo, hi - 1);
        lemma_digits_nonneg(s.subrange(lo, hi - 1));
        assert(is_digit(s.subrange(lo, hi)[hi - 1 - lo]));
    }
}

/// The value of the digits `s[lo..hi]` if they are all digits and the value
/// is at most `limit`.
fn digits_in(s: &[u8], lo: usize, hi: usize, limit: u64) -> (r: Option<u64>)
    requires
        lo <= hi <= s@.len(),
        limit <= MAX_COUNT,
    ensures
        r == (if all_digits(s@.subrange(lo as int, hi as int)) && digits_value(
            s@.subrange(lo as int, hi as int),
        ) <= limit {
            Some(digits_value(s@.subrange(lo as int, hi as int)) as u64)
        } else {
            None::<u64>
        }),
        r matches Some(v) ==> v <= limit && v == digits_value(s@.subrange(lo as int, hi as int)),
{
    let mut acc: u64 = 0;
    let mut k: usize = lo;
    while k < hi
        invariant
            lo <= k <= hi <= s@.len(),
            limit <= MAX_COUNT,
            all_digits(s@.subrange(lo as int, k as int)),
            acc == digits_value(s@.subrange(lo as int, k as int)),
            acc <= limit,
        decreases hi - k,
    {
        let b = s[k];
        proof {
            lemma_digits_step(s@, lo as int, k as int);
        }
        if b < 48 || b > 57 {
            proof {
                assert(!is_digit(s@.subrange(lo as int, hi as int)[k - lo]));
            }
            return None;
        }
        let next = acc * 10 + (b - 48) as u64;
        proof {
            assert forall|i: int| 0 <= i < k + 1 - lo implies is_digit(
                #[trigger] s@.subrange(lo as int, k + 1)[i],
            ) by {
                if i < k - lo {
                    assert(s@.subrange(lo as int, k + 1)[i] == s@.subrange(lo as int, k as int)[i]);
                }
            }
        }
        if next > limit {
            proof {
                if all_digits(s@.subrange(lo as int, hi as int)) {
                    lemma_digits_mono(s@, lo as int, k + 1, hi as int);
                }
            }
            return None;
        }
        acc = next;
        k += 1;
    }
    Some(acc)
}

/// Reads an asset count: one or more decimal digits, at most `MAX_COUNT`.
pub fn parse_count(s: &[u8]) -> (r: Option<u64>)
    ensures
        match count_of(s@) {
            Some(v) => r == Some(v as u64),
            None => r is None,
        },
{
    if s.len() == 0 {
        return None;
    }
    let r = digits_in(s, 0, s.len(), MAX_COUNT);
    proof {
        assert(s@.subrange(0, s@.len() as int) =~= s@);
    }
    r
}

fn find_dot(s: &[u8], from: usize) -> (r: usize)
    requires
        from <= s@.len(),
    ensures
        r == first_dot(s@, from as int),
{
    let mut k = from;
    while k < s.len()
        invariant
            from <= k <= s@.len(),
            first_dot(s@, from as int) == first_dot(s@, k as int),
        decreases s@.len() - k,
    {
        if s[k] == 46 {
            return k;
        }
        k += 1;
    }
    k
}

/// Reads an unsigned decimal number from `s[start..]`.
fn parse_unsigned_fixed(s: &[u8], start: usize) -> (r: Option<i64>)
    requires
        start <= s@.len(),
    ensures
        match unsigned_fixed_of(s@.subrange(start as int, s@.len() as int)) {
            Some(v) => r == Some(v as i64) && 0 <= v <= 10_099_990_001,
            None => r is None,
        },
{
    let ghost t = s@.subrange(start as int, s@.len() as int);
    let d = find_dot(s, start);
    proof {
        lemma_first_dot_shift(s@, start as int, start as int);
    }
    let ghost d_t = d - start;
    assert(d_t == first_dot(t, 0));
    assert(t.subrange(0, d_t) =~= s@.subrange(start as int, d as int));
    if d == start {
        return None;
    }
    let ip = digits_in(s, start, d, MAX_INTEGER_PART);
    let ip = match ip {
        Some(v) => v,
        None => {
            return None;
        },
    };
    let mut frac: u64 = 0;
    let mut scale: u64 = 10_000;
    let mut carry: u64 = 0;
    proof {
        lemma_pow10_four();
    }
    if d < s.len() {
        let flen = s.len() - d - 1;
        let ghost fp = s@.subrange(d + 1, s@.len() as int);
        assert(t.subrange(d_t + 1, t.len() as int) =~= fp);
        if flen == 0 {
            return None;
        }
        if !digits_only(s, d + 1, s.len()) {
            return None;
        }
        let klen: usize = if flen > FRACTION_DIGITS {
            FRACTION_DIGITS
        } else {
            flen
        };
        let ghost kept = s@.subrange(d + 1, d + 1 + klen);
        proof {
            if flen > FRACTION_DIGITS {
                assert(fp.subrange(0, FRACTION_DIGITS as int) =~= kept);
            } else {
                assert(fp =~= kept);
            }
            assert(all_digits(kept)) by {
                assert forall|i: int| 0 <= i < kept.len() implies is_digit(#[trigger] kept[i]) by {
                    assert(kept[i] == fp[i]);
                }
            }
            lemma_digits_bound(kept);
            lemma_pow10_mono(klen as nat);
        }
        match digits_in(s, d + 1, d + 1 + klen, 9999) {
            Some(v) => {
                frac = v;
            },
            None => {
                return None;
            },
        }
        if flen > FRACTION_DIGITS && s[d + 1 + FRACTION_DIGITS] >= 53 {
            carry = 1;
        }
        let mut j: usize = 0;
        scale = 1;
        while j < FRACTION_DIGITS - klen
            invariant
                j <= FRACTION_DIGITS - klen,
                1 <= klen <= FRACTION_DIGITS,
                scale == pow10(j as nat),
                scale <= 1000,
            decreases FRACTION_DIGITS - klen - j,
        {
            proof {
                lemma_pow10_small(j as nat);
            }
            scale = scale * 10;
            j += 1;
        }
    }
    assert(frac * scale <= 9999 * 10_000) by (nonlinear_arith)
        requires
            frac <= 9999,
            scale <= 10_000,
    ;
    Some((ip * 10_000 + frac * scale + carry) as i64)
}

/// Whether `s[lo..hi]` are all decimal digits.
fn digits_only(s: &[u8], lo: usize, hi: usize) -> (r: bool)
    requires
        lo <= hi <= s@.len(),
    ensures
        r == all_digits(s@.subrange(lo as int, hi as int)),
{
    let mut k = lo;
    while k < hi
        invariant
            lo <= k <= hi <= s@.len(),
            forall|i: int| lo <= i < k ==> is_digit(#[trigger] s@[i]),
        decreases hi - k,
    {
        if s[k] < 48 || s[k] > 57 {
            assert(!is_digit(s@.subrange(lo as int, hi as int)[k - lo]));
            return false;
        }
        k += 1;
    }
    assert forall|i: int| 0 <= i < hi - lo implies is_digit(
        #[trigger] s@.subrange(lo as int, hi as int)[i],
    ) by {
        assert(is_digit(s@[lo + i]));
    }
    true
}

proof fn lemma_pow10_mono(k: nat)
    requires
        k <= 4,
    ensures
        pow10(k) <= 10_000,
{
    lemma_pow10_four();
}

proof fn lemma_pow10_four()
    ensures
        pow10(0) == 1,
        pow10(1) == 10,
        pow10(2) == 100,
        pow10(3) == 1000,
        pow10(4) == 10_000,
{
    assert(pow10(0) == 1);
    assert(pow10(1) == 10);
    assert(pow10(2) == 100);
    assert(pow10(3) == 1000);
    assert(pow10(4) == 10_000);
}

proof fn lemma_pow10_small(j: nat)
    requires
        j < 3,
    ensures
        pow10(j) * 10 <= 1000,
        pow10(j + 1) == pow10(j) * 10,
{
    assert(pow10(0) == 1);
    assert(pow10(1) == 10);
    assert(pow10(2) == 100);
    assert(pow10(3) == 1000);
}

proof fn lemma_digits_bound(s: Seq<u8>)
    requires
        all_digits(s),
    ensures
        0 <= digits_value(s) < pow10(s.len()),
    decreases s.len(),
{
    if s.len() > 0 {
        let t = s.drop_last();
        assert(all_digits(t)) by {
            assert forall|i: int| 0 <= i < t.len() implies is_digit(#[trigger] t[i]) by {
                assert(t[i] == s[i]);
            }
        }
        lemma_digits_bound(t);
        assert(is_digit(s[s.len() - 1]));
        assert(pow10(s.len()) == 10 * pow10(t.len()));
    }
}

proof fn lemma_first_dot_shift(s: Seq<u8>, start: int, k: int)
    requires
        0 <= start <= k <= s.len(),
    ensures
        first_dot(s, k) - start == first_dot(s.subrange(start, s.len() as int), k - start),
        k <= first_dot(s, k) <= s.len(),
    decreases s.len() - k,
{
    if k < s.len() {
        lemma_first_dot_shift(s, start, k + 1);
    }
}

/// Reads a decimal number such as `-0.1234` in units of 1/10^4: an optional
/// '-', digits, then optionally '.' and one to four digits.
pub fn parse_fixed(s: &[u8]) -> (r: Option<i64>)
    ensures
        match fixed_of(s@) {
            Some(v) => r == Some(v as i64),
            None => r is None,
        },
{
    if s.len() > 0 && s[0] == 45 {
        let r = parse_unsigned_fixed(s, 1);
        proof {
            assert(s@.subrange(1, s@.len() as int) =~= s@.drop_first());
        }
        match r {
            Some(v) => Some(-v),
            None => None,
        }
    } else {
        let r = parse_unsigned_fixed(s, 0);
        proof {
            assert(s@.subrange(0, s@.len() as int) =~= s@);
        }
        r
    }
}

} // verus!
