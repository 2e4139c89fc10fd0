//! Decimal text: the canonical digit string of a number, the value of a
//! digit string, and verified conversion between machine integers and
//! their decimal text.
use vstd::prelude::*;

verus! {

/// The canonical decimal digit string of `n`, most significant digit first.
pub open spec fn dec_digits(n: nat) -> Seq<u8>
    decreases n,
{
    if n < 10 {
        seq![(48 + n) as u8]
    } else {
        dec_digits(n / 10).push((48 + n % 10) as u8)
    }
}

/// The value of a digit string read in base ten.
pub open spec fn dec_val(s: Seq<u8>) -> int
    decreases s.len(),
{
    if s.len() == 0 {
        0
    } else {
        dec_val(s.drop_last()) * 10 + (s.last() - 48)
    }
}

/// Every byte of `s` is an ASCII digit.
pub open spec fn all_digits(s: Seq<u8>) -> bool {
    forall|i: int| 0 <= i < s.len() ==> 48 <= #[trigger] s[i] <= 57
}

/// A non-empty run of ASCII digits.
pub open spec fn is_digits(s: Seq<u8>) -> bool {
    s.len() >= 1 && all_digits(s)
}

/// The signed 64-bit integer a piece of text denotes: an optional sign,
/// then digits, with the value within `i64` range.
pub open spec fn spec_i64(t: Seq<u8>) -> Option<int> {
    let neg = t.len() >= 1 && t[0] == 45;
    let u = if t.len() >= 1 && (t[0] == 45 || t[0] == 43) {
        t.drop_first()
    } else {
        t
    };
    if is_digits(u) {
        let v = if neg {
            -dec_val(u)
        } else {
            dec_val(u)
        };
        if i64::MIN <= v <= i64::MAX {
            Some(v)
        } else {
            None
        }
    } else {
        None
    }
}

pub proof fn lemma_dec_digits_all(n: nat)
    ensures
        is_digits(dec_digits(n)),
        dec_digits(n).len() >= 1,
    decreases n,
{
    if n >= 10 {
        lemma_dec_digits_all(n / 10);
    }
}

pub proof fn lemma_dec_val_of_digits(n: nat)
    ensures
        dec_val(dec_digits(n)) == n,
    decreases n,
{
    if n < 10 {
        let s = dec_digits(n);
        assert(s.drop_last() =~= Seq::<u8>::empty());
        assert(dec_val(Seq::<u8>::empty()) == 0);
        assert(dec_val(s) == dec_val(s.drop_last()) * 10 + (s.last() - 48));
    } else {
        lemma_dec_val_of_digits(n / 10);
        let s = dec_digits(n);
        assert(s.drop_last() =~= dec_digits(n / 10));
        assert(s.last() == (48 + n % 10) as u8);
        assert(dec_val(s) == dec_val(s.drop_last()) * 10 + (s.last() - 48));
    }
}

pub proof fn lemma_dec_val_nonneg(s: Seq<u8>)
    requires
        all_digits(s),
    ensures
        dec_val(s) >= 0,
    decreases s.len(),
{
    if s.len() > 0 {
        assert(all_digits(s.drop_last()));
        lemma_dec_val_nonneg(s.drop_last());
    }
}

/// Reading more digits never decreases the value.
pub proof fn lemma_dec_val_take_mono(s: Seq<u8>, k: int)
    requires
        all_digits(s),
        0 <= k <= s.len(),
    ensures
        dec_val(s.take(k)) <= dec_val(s),
    decreases s.len() - k,
{
    if k < s.len() {
        assert(all_digits(s.take(k)));
        lemma_dec_val_nonneg(s.take(k));
        assert(s.take(k + 1).drop_last() =~= s.take(k));
        assert(s.take(k + 1).last() == s[k]);
        lemma_dec_val_take_mono(s, k + 1);
    } else {
        assert(s.take(k) =~= s);
    }
}

/// The canonical digit string of a `u64`, most significant digit first.
pub fn format_u64(n: u64) -> (r: Vec<u8>)
    ensures
        r@ == dec_digits(n as nat),
    decreases n,
{
    if n < 10 {
        let mut v: Vec<u8> = Vec::new();
        v.push(48 + n as u8);
        assert(v@ =~= dec_digits(n as nat));
        v
    } else {
        let mut v = format_u64(n / 10);
        v.push(48 + (n % 10) as u8);
        assert(v@ =~= dec_digits(n as nat));
        v
    }
}

/// True when `s[from..to]` is a non-empty run of ASCII digits.
pub fn digits_in_range(s: &[u8], from: usize, to: usize) -> (r: bool)
    requires
        from <= to <= s@.len(),
    ensures
        r == is_digits(s@.subrange(from as int, to as int)),
{
    let ghost t = s@.subrange(from as int, to as int);
    if from == to {
        return false;
    }
    let mut i: usize = from;
    while i < to
        invariant
            from <= i <= to <= s@.len(),
            t == s@.subrange(from as int, to as int),
            forall|j: int| from <= j < i ==> 48 <= #[trigger] s@[j] <= 57,
        decreases to - i,
    {
        let b = s[i];
        if b < 48 || b > 57 {
            assert(t[i - from] == s@[i as int]);
            return false;
        }
        i = i + 1;
    }
    assert(forall|j: int| 0 <= j < t.len() ==> t[j] == s@[from + j]);
    true
}

/// The value of the digit run `s[from..to]`, or `None` when the range is
/// not a non-empty digit run or its value exceeds `u64`.
pub fn parse_u64(s: &[u8], from: usize, to: usize) -> (r: Option<u64>)
    requires
        from <= to <= s@.len(),
    ensures
        ({
            let t = s@.subrange(from as int, to as int);
            match r {
                Some(v) => is_digits(t) && dec_val(t) == v,
                None => !is_digits(t) || dec_val(t) > u64::MAX,
            }
        }),
{
    let ghost t = s@.subrange(from as int, to as int);
    if from == to {
        return None;
    }
    let mut acc: u64 = 0;
    let mut i: usize = from;
    while i < to
        invariant
            from <= i <= to <= s@.len(),
            t == s@.subrange(from as int, to as int),
            all_digits(s@.subrange(from as int, i as int)),
            acc == dec_val(s@.subrange(from as int, i as int)),
        decreases to - i,
    {
        let b = s[i];
        if b < 48 || b > 57 {
            assert(t[i - from] == s@[i as int] && !(48 <= t[i - from] <= 57));
            return None;
        }
        let d: u64 = (b - 48) as u64;
        proof {
            let u = s@.subrange(from as int, i + 1);
            assert(u.drop_last() =~= s@.subrange(from as int, i as int));
            assert(u.last() == s@[i as int]);
            assert(dec_val(u) == dec_val(u.drop_last()) * 10 + (u.last() - 48));
            assert(dec_val(u) == acc * 10 + d);
            assert(all_digits(u));
        }
        let step = match acc.checked_mul(10) {
            Some(x) => x.checked_add(d),
            None => None,
        };
        match step {
            Some(x) => {
                acc = x;
            },
            None => {
                proof {
                    let u = s@.subrange(from as int, i + 1);
                    assert(dec_val(u) > u64::MAX);
                    if is_digits(t) {
                        assert(u =~= t.take(i + 1 - from));
                        lemma_dec_val_take_mono(t, i + 1 - from);
                    }
                }
                return None;
            },
        }
        i = i + 1;
    }
    proof {
        assert(t =~= s@.subrange(from as int, i as int));
    }
    Some(acc)
}

/// The signed 64-bit integer denoted by the text `s[from..to]`.
pub fn parse_i64_text(s: &[u8], from: usize, to: usize) -> (r: Option<i64>)
    requires
        from <= to <= s@.len(),
    ensures
        ({
            let t = s@.subrange(from as int, to as int);
            match r {
                Some(v) => spec_i64(t) == Some(v as int),
                None => spec_i64(t) is None,
            }
        }),
{
    let ghost t = s@.subrange(from as int, to as int);
    let (neg, start): (bool, usize) = if from < to && s[from] == 45 {
        (true, from + 1)
    } else if from < to && s[from] == 43 {
        (false, from + 1)
    } else {
        (false, from)
    };
    proof {
        if start > from {
            assert(t.drop_first() =~= s@.subrange(start as int, to as int));
        } else {
            assert(t =~= s@.subrange(start as int, to as int));
        }
    }
    match parse_u64(s, start, to) {
        None => {
            proof {
                let u = s@.subrange(start as int, to as int);
                if is_digits(u) && dec_val(u) > u64::MAX {
                    lemma_dec_val_nonneg(u);
                }
            }
            None
        },
        Some(mag) => {
            if neg {
                if mag <= 9223372036854775807u64 {
                    Some(-(mag as i64))
                } else if mag == 9223372036854775808u64 {
                    Some(i64::MIN)
                } else {
                    None
                }
            } else {
                if mag <= 9223372036854775807u64 {
                    Some(mag as i64)
                } else {
                    None
                }
            }
        },
    }
}

} // verus!
