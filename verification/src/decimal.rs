//! ASCII decimal numbers: the digits that a number is written with, and
//! the number that a run of digits stands for.

use vstd::prelude::*;

verus! {

/// ASCII `0`.
pub const DIGIT_ZERO: u8 = 48;
/// ASCII `9`.
pub const DIGIT_NINE: u8 = 57;
/// ASCII `-`.
pub const MINUS: u8 = 45;
/// ASCII `+`.
pub const PLUS: u8 = 43;

pub open spec fn is_digit(b: u8) -> bool {
    DIGIT_ZERO <= b && b <= DIGIT_NINE
}

pub open spec fn all_digits(ds: Seq<u8>) -> bool {
    forall|i: int| 0 <= i < ds.len() ==> is_digit(#[trigger] ds[i])
}

/// The shortest decimal spelling of `n` (no leading zeros, "0" for zero).
pub open spec fn nat_digits(n: nat) -> Seq<u8>
    decreases n,
{
    if n < 10 {
        seq![(DIGIT_ZERO + n) as u8]
    } else {
        nat_digits(n / 10).push((DIGIT_ZERO + n % 10) as u8)
    }
}

/// The decimal spelling of a signed number, with a leading `-` when negative.
pub open spec fn int_digits(i: int) -> Seq<u8> {
    if i < 0 {
        seq![MINUS] + nat_digits((-i) as nat)
    } else {
        nat_digits(i as nat)
    }
}

/// The number that a run of digits stands for.
pub open spec fn digits_value(ds: Seq<u8>) -> nat
    decreases ds.len(),
{
    if ds.len() == 0 {
        0
    } else {
        digits_value(ds.drop_last()) * 10 + (ds.last() - DIGIT_ZERO) as nat
    }
}

/// What `<i64 as FromStr>::from_str` gives for these bytes: an optional
/// sign followed by at least one digit, within the range of `i64`.
pub open spec fn parse_i64_spec(bs: Seq<u8>) -> Option<i64> {
    if bs.len() == 0 {
        None
    } else {
        let neg = bs[0] == MINUS;
        let ds = if bs[0] == MINUS || bs[0] == PLUS { bs.drop_first() } else { bs };
        if ds.len() == 0 || !all_digits(ds) {
            None
        } else if neg {
            if digits_value(ds) <= 0x8000_0000_0000_0000 {
                Some((-digits_value(ds)) as i64)
            } else {
                None
            }
        } else if digits_value(ds) <= 0x7fff_ffff_ffff_ffff {
            Some(digits_value(ds) as i64)
        } else {
            None
        }
    }
}

pub proof fn lemma_nat_digits_shape(n: nat)
    ensures
        nat_digits(n).len() >= 1,
        all_digits(nat_digits(n)),
        digits_value(nat_digits(n)) == n,
    decreases n,
{
    if n >= 10 {
        lemma_nat_digits_shape(n / 10);
        let ds = nat_digits(n);
        assert(ds.drop_last() =~= nat_digits(n / 10));
        assert(ds.last() == (DIGIT_ZERO + n % 10) as u8);
        assert((ds.last() - DIGIT_ZERO) as nat == n % 10);
        assert((n / 10) * 10 + n % 10 == n) by (nonlinear_arith);
        assert(digits_value(ds) == digits_value(ds.drop_last()) * 10 + (ds.last() - DIGIT_ZERO) as nat);
    } else {
        let ds = nat_digits(n);
        assert(ds.drop_last() =~= Seq::<u8>::empty());
        assert((ds.last() - DIGIT_ZERO) as nat == n);
        assert(digits_value(ds) == digits_value(ds.drop_last()) * 10 + (ds.last() - DIGIT_ZERO) as nat);
    }
}

pub proof fn lemma_int_digits_parse(i: i64)
    ensures
        parse_i64_spec(int_digits(i as int)) == Some(i),
        int_digits(i as int).len() >= 1,
        forall|k: int| 0 <= k < int_digits(i as int).len() ==> {
            let b = #[trigger] int_digits(i as int)[k];
            is_digit(b) || b == MINUS
        },
{
    if i < 0 {
        lemma_nat_digits_shape((-i) as nat);
        let s = int_digits(i as int);
        assert(s.drop_first() =~= nat_digits((-i) as nat));
    } else {
        lemma_nat_digits_shape(i as nat);
    }
}

/// Digit values never shrink as more digits are read.
pub proof fn lemma_digits_value_prefix(ds: Seq<u8>, k: int, j: int)
    requires
        0 <= k <= j <= ds.len(),
    ensures
        digits_value(ds.take(k)) <= digits_value(ds.take(j)),
    decreases j - k,
{
    if k < j {
        lemma_digits_value_prefix(ds, k, j - 1);
        assert(ds.take(j).drop_last() =~= ds.take(j - 1));
    }
}

/// Appends the decimal spelling of `n`.
pub fn push_decimal_u64(buf: &mut Vec<u8>, n: u64)
    ensures
        final(buf)@ == old(buf)@ + nat_digits(n as nat),
    decreases n,
{
    if n >= 10 {
        push_decimal_u64(buf, n / 10);
    }
    let d: u8 = (n % 10) as u8;
    buf.push(DIGIT_ZERO + d);
    assert(final(buf)@ =~= old(buf)@ + nat_digits(n as nat));
}

/// Appends the decimal spelling of `i`, as `i.to_string()` writes it.
pub fn push_decimal_i64(buf: &mut Vec<u8>, i: i64)
    ensures
        final(buf)@ == old(buf)@ + int_digits(i as int),
{
    if i < 0 {
        buf.push(MINUS);
        let m: u64 = if i == i64::MIN {
            0x8000_0000_0000_0000u64
        } else {
            (-i) as u64
        };
        let ghost mid = buf@;
        push_decimal_u64(buf, m);
        assert(buf@ =~= old(buf)@ + int_digits(i as int));
    } else {
        push_decimal_u64(buf, i as u64);
    }
}

/// The value of the digit run `bs[start..end]`, or `None` where it exceeds `limit`.
pub fn parse_digits(bs: &[u8], start: usize, end: usize, limit: u64) -> (r: Option<u64>)
    requires
        start <= end <= bs@.len(),
        all_digits(bs@.subrange(start as int, end as int)),
    ensures
        r == (if digits_value(bs@.subrange(start as int, end as int)) <= limit {
            Some(digits_value(bs@.subrange(start as int, end as int)) as u64)
        } else {
            None::<u64>
        }),
{
    let ghost ds = bs@.subrange(start as int, end as int);
    let mut v: u64 = 0;
    let mut i: usize = start;
    assert(ds.take(0) =~= Seq::<u8>::empty());
    while i < end
        invariant
            start <= i <= end <= bs@.len(),
            ds == bs@.subrange(start as int, end as int),
            all_digits(ds),
            v == digits_value(ds.take(i - start)),
            v <= limit,
        decreases end - i,
    {
        assert(is_digit(ds[i - start]));
        let d: u64 = (bs[i] - DIGIT_ZERO) as u64;
        assert(ds.take(i - start + 1).drop_last() =~= ds.take(i - start));
        if d > limit || v > (limit - d) / 10 {
            assert(v * 10 + d > limit) by (nonlinear_arith)
                requires
                    d > limit || v > (limit - d) / 10,
                    d <= 9,
            ;
            proof {
                lemma_digits_value_prefix(ds, i - start + 1, ds.len() as int);
                assert(ds.take(ds.len() as int) =~= ds);
            }
            return None;
        }
        assert(v * 10 + d <= limit) by (nonlinear_arith)
            requires
                v <= (limit - d) / 10,
                d <= limit,
                d <= 9,
        ;
        v = v * 10 + d;
        i = i + 1;
    }
    assert(ds.take(end - start) =~= ds);
    Some(v)
}


/// What `<i64 as FromStr>::from_str` gives for `bs[start..end]`.
pub fn parse_i64_bytes(bs: &[u8], start: usize, end: usize) -> (r: Option<i64>)
    requires
        start <= end <= bs@.len(),
    ensures
        r == parse_i64_spec(bs@.subrange(start as int, end as int)),
{
    let ghost s = bs@.subrange(start as int, end as int);
    if start == end {
        return None;
    }
    let first = bs[start];
    let neg = first == MINUS;
    let ds_start: usize = if first == MINUS || first == PLUS {
        start + 1
    } else {
        start
    };
    let ghost ds = bs@.subrange(ds_start as int, end as int);
    assert(s.len() > 0 && s[0] == first);
    assert(ds =~= (if s[0] == MINUS || s[0] == PLUS { s.drop_first() } else { s }));
    if ds_start == end {
        return None;
    }
    let mut k: usize = ds_start;
    while k < end
        invariant
            ds_start <= k <= end <= bs@.len(),
            ds == bs@.subrange(ds_start as int, end as int),
            s == bs@.subrange(start as int, end as int),
            s.len() > 0,
            ds.len() > 0,
            ds == (if s[0] == MINUS || s[0] == PLUS { s.drop_first() } else { s }),
            forall|j: int| ds_start <= j < k ==> is_digit(#[trigger] bs@[j]),
        decreases end - k,
    {
        if !(DIGIT_ZERO <= bs[k] && bs[k] <= DIGIT_NINE) {
            assert(!is_digit(ds[k - ds_start]));
            return None;
        }
        k = k + 1;
    }
    assert(all_digits(ds));
    let limit: u64 = if neg {
        0x8000_0000_0000_0000u64
    } else {
        0x7fff_ffff_ffff_ffffu64
    };
    match parse_digits(bs, ds_start, end, limit) {
        None => None,
        Some(v) => {
            if neg {
                if v == 0x8000_0000_0000_0000u64 {
                    Some(i64::MIN)
                } else {
                    Some(-(v as i64))
                }
            } else {
                Some(v as i64)
            }
        },
    }
}

} // verus!
