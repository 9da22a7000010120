//! Parsing signed 64-bit integers from decimal text, with the exact
//! grammar of `i64::from_str`: one optional sign, then one or more ASCII
//! digits, and an error when the value does not fit.

use vstd::prelude::*;

verus! {

pub open spec fn is_digit(c: char) -> bool {
    '0' <= c && c <= '9'
}

pub open spec fn digit_val(c: char) -> int {
    c as u32 - 48
}

pub open spec fn all_digits(s: Seq<char>) -> bool {
    forall|i: int| 0 <= i < s.len() ==> is_digit(s[i])
}

/// The value of a string of decimal digits, most significant first.
pub open spec fn digits_val(s: Seq<char>) -> int
    decreases s.len(),
{
    if s.len() == 0 {
        0
    } else {
        digits_val(s.drop_last()) * 10 + digit_val(s.last())
    }
}

/// The mathematical value of an optionally signed decimal string, or
/// nothing when the string is not of that shape.
pub open spec fn int_of(s: Seq<char>) -> Option<int> {
    let neg = s.len() > 0 && s[0] == '-';
    let ds = if s.len() > 0 && (s[0] == '-' || s[0] == '+') {
        s.drop_first()
    } else {
        s
    };
    if ds.len() > 0 && all_digits(ds) {
        Some(
            if neg {
                -digits_val(ds)
            } else {
                digits_val(ds)
            },
        )
    } else {
        None
    }
}

/// What parsing `s` as an `i64` yields: the value when the shape is right
/// and the value fits, nothing otherwise.
pub open spec fn parse_int_spec(s: Seq<char>) -> Option<i64> {
    match int_of(s) {
        Some(v) => if i64::MIN <= v <= i64::MAX {
            Some(v as i64)
        } else {
            None
        },
        None => None,
    }
}

proof fn lemma_digits_val_nonneg(s: Seq<char>)
    requires
        all_digits(s),
    ensures
        digits_val(s) >= 0,
    decreases s.len(),
{
    if s.len() > 0 {
        lemma_digits_val_nonneg(s.drop_last());
    }
}

/// A digit string is at least as large as any of its prefixes.
proof fn lemma_digits_val_mono(s: Seq<char>, k: int)
    requires
        all_digits(s),
        0 <= k <= s.len(),
    ensures
        digits_val(s) >= digits_val(s.take(k)) >= 0,
    decreases s.len() - k,
{
    lemma_digits_val_nonneg(s.take(k));
    if k == s.len() {
        assert(s.take(k) =~= s);
    }
    if k < s.len() {
        lemma_digits_val_mono(s, k + 1);
        assert(s.take(k + 1).drop_last() =~= s.take(k));
        assert(digits_val(s.take(k + 1)) == digits_val(s.take(k)) * 10 + digit_val(
            s.take(k + 1).last(),
        ));
    }
}

/// Parse `v` as an `i64`, exactly as `i64::from_str` would.
pub fn parse_i64(v: &Vec<char>) -> (r: Option<i64>)
    ensures
        r == parse_int_spec(v@),
{
    let n = v.len();
    let neg: bool = n > 0 && v[0] == '-';
    let start: usize = if n > 0 && (v[0] == '-' || v[0] == '+') {
        1
    } else {
        0
    };
    let ghost ds = v@.skip(start as int);
    proof {
        if n > 0 && (v@[0] == '-' || v@[0] == '+') {
            assert(v@.drop_first() =~= v@.skip(1));
        } else {
            assert(v@.skip(0) =~= v@);
        }
    }
    if start >= n {
        return None;
    }
    let mut acc: i64 = 0;  // the negated value read so far
    let mut i: usize = start;
    while i < n
        invariant
            start <= i <= n == v@.len(),
            start <= 1,
            ds == v@.skip(start as int),
            ds == (if n > 0 && (v@[0] == '-' || v@[0] == '+') {
                v@.drop_first()
            } else {
                v@
            }),
            neg == (n > 0 && v@[0] == '-'),
            all_digits(v@.subrange(start as int, i as int)),
            acc == -digits_val(v@.subrange(start as int, i as int)),
            acc <= 0,
        decreases n - i,
    {
        let c = v[i];
        if !('0' <= c && c <= '9') {
            proof {
                assert(ds[i - start] == v@[i as int]);
                assert(!is_digit(ds[i - start]));
            }
            return None;
        }
        let d = (c as u32 - 48) as i64;
        let ghost pre = v@.subrange(start as int, i as int);
        let ghost cur = v@.subrange(start as int, i + 1 as int);
        proof {
            assert(cur.drop_last() =~= pre);
            assert(cur.last() == v@[i as int]);
        }
        let step = match acc.checked_mul(10) {
            Some(a) => a.checked_sub(d),
            None => None,
        };
        match step {
            Some(a) => {
                acc = a;
            },
            None => {
                // the value read so far is already below `i64::MIN`; any
                // digits that follow only move it further down
                proof {
                    assert(digits_val(cur) > (i64::MAX as int) + 1);
                    if all_digits(ds) {
                        assert(cur =~= ds.take(i + 1 - start as int));
                        lemma_digits_val_mono(ds, i + 1 - start as int);
                    }
                }
                return None;
            },
        }
        i += 1;
    }
    proof {
        assert(v@.subrange(start as int, n as int) =~= ds);
    }
    if neg {
        Some(acc)
    } else if acc == i64::MIN {
        proof {
            assert(digits_val(ds) == (i64::MAX as int) + 1);
        }
        None
    } else {
        Some(-acc)
    }
}

} // verus!
