use vstd::prelude::*;
use vstd::string::StrSliceExecFns;

verus! {

/// Character-wise equality of two string slices, decided executably and
/// reflected as view equality.
pub fn str_eq(a: &str, b: &str) -> (r: bool)
    ensures
        r == (a@ == b@),
{
    let alen = a.unicode_len();
    let blen = b.unicode_len();
    if alen != blen {
        return false;
    }
    let mut i: usize = 0;
    while i < alen
        invariant
            alen == a@.len(),
            blen == b@.len(),
            alen == blen,
            i <= alen,
            forall|j: int| 0 <= j < i ==> a@[j] == b@[j],
        decreases alen - i,
    {
        if a.get_char(i) != b.get_char(i) {
            return false;
        }
        i = i + 1;
    }
    proof {
        assert(a@ =~= b@);
    }
    true
}

/// True when every character of `s` is a decimal digit and there is at
/// least one of them.
pub open spec fn spec_is_digits(s: Seq<char>) -> bool {
    s.len() > 0 && forall|i: int| 0 <= i < s.len() ==> '0' <= #[trigger] s[i] <= '9'
}

/// The number denoted by a sequence of decimal digits, most significant
/// first.
pub open spec fn spec_digits_val(s: Seq<char>) -> int
    decreases s.len(),
{
    if s.len() == 0 {
        0
    } else {
        spec_digits_val(s.drop_last()) * 10 + (s.last() as int - '0' as int)
    }
}

/// A digit string denotes a non-negative number, and extending it on the
/// right never shrinks the denoted number.
pub proof fn lemma_digits_val_bounds(s: Seq<char>)
    requires
        forall|i: int| 0 <= i < s.len() ==> '0' <= #[trigger] s[i] <= '9',
    ensures
        spec_digits_val(s) >= 0,
        forall|n: int|
            0 <= n <= s.len() ==> #[trigger] spec_digits_val(s.subrange(0, n)) <= spec_digits_val(
                s,
            ),
    decreases s.len(),
{
    if s.len() == 0 {
        assert(s.subrange(0, 0) =~= s);
    } else {
        lemma_digits_val_bounds(s.drop_last());
        assert forall|n: int| 0 <= n <= s.len() implies #[trigger] spec_digits_val(
            s.subrange(0, n),
        ) <= spec_digits_val(s) by {
            if n == s.len() {
                assert(s.subrange(0, n) =~= s);
            } else {
                assert(s.subrange(0, n) =~= s.drop_last().subrange(0, n));
                assert(spec_digits_val(s.drop_last()) * 10 + (s.last() as int - '0' as int)
                    >= spec_digits_val(s.drop_last())) by {
                    assert(spec_digits_val(s.drop_last()) >= 0);
                    assert(s.last() as int - '0' as int >= 0);
                };
            }
        };
    }
}

/// The value a digit string denotes, when it is one and the value fits
/// below the bound; `None` otherwise.
pub open spec fn spec_parse_decimal(s: Seq<char>, bound: int) -> Option<int> {
    if spec_is_digits(s) && spec_digits_val(s) <= bound {
        Some(spec_digits_val(s))
    } else {
        None
    }
}

/// Parses a decimal digit string into a `u64`, rejecting empty strings,
/// non-digit characters, and values that overflow.
pub fn parse_decimal_u64(s: &str) -> (r: Option<u64>)
    ensures
        match r {
            Some(n) => spec_parse_decimal(s@, u64::MAX as int) == Some(n as int),
            None => spec_parse_decimal(s@, u64::MAX as int) is None,
        },
{
    let len = s.unicode_len();
    if len == 0 {
        return None;
    }
    let mut acc: u64 = 0;
    let mut i: usize = 0;
    while i < len
        invariant
            len == s@.len(),
            0 < len,
            i <= len,
            forall|j: int| 0 <= j < i ==> '0' <= #[trigger] s@[j] <= '9',
            acc as int == spec_digits_val(s@.subrange(0, i as int)),
        decreases len - i,
    {
        let c = s.get_char(i);
        if c < '0' || c > '9' {
            return None;
        }
        let d: u64 = (c as u32 as u64) - ('0' as u32 as u64);
        proof {
            assert(s@.subrange(0, i + 1).drop_last() =~= s@.subrange(0, i as int));
            assert(s@.subrange(0, i + 1).last() == s@[i as int]);
        }
        if acc > (u64::MAX - d) / 10 {
            proof {
                if spec_is_digits(s@) {
                    lemma_digits_val_bounds(s@);
                    assert(spec_digits_val(s@.subrange(0, i + 1)) <= spec_digits_val(s@));
                    assert(acc * 10 + d > u64::MAX as int) by {
                        assert(acc >= (u64::MAX - d) / 10 + 1);
                        assert(((u64::MAX - d) / 10 + 1) * 10 + d > u64::MAX as int)
                            by (nonlinear_arith);
                        assert(acc * 10 >= ((u64::MAX - d) / 10 + 1) * 10) by (nonlinear_arith)
                            requires
                                acc >= (u64::MAX - d) / 10 + 1,
                        ;
                    };
                }
            }
            return None;
        }
        proof {
            assert(acc * 10 + d <= u64::MAX as int) by {
                assert(((u64::MAX - d) / 10) * 10 <= u64::MAX - d) by (nonlinear_arith);
            };
        }
        acc = acc * 10 + d;
        i = i + 1;
    }
    proof {
        assert(s@.subrange(0, len as int) =~= s@);
    }
    Some(acc)
}

/// Parses a decimal digit string into a `usize`, rejecting empty strings,
/// non-digit characters, and values that overflow.
pub fn parse_decimal_usize(s: &str) -> (r: Option<usize>)
    ensures
        match r {
            Some(n) => spec_parse_decimal(s@, usize::MAX as int) == Some(n as int),
            None => spec_parse_decimal(s@, usize::MAX as int) is None,
        },
{
    let len = s.unicode_len();
    if len == 0 {
        return None;
    }
    let mut acc: usize = 0;
    let mut i: usize = 0;
    while i < len
        invariant
            len == s@.len(),
            0 < len,
            i <= len,
            forall|j: int| 0 <= j < i ==> '0' <= #[trigger] s@[j] <= '9',
            acc as int == spec_digits_val(s@.subrange(0, i as int)),
        decreases len - i,
    {
        let c = s.get_char(i);
        if c < '0' || c > '9' {
            return None;
        }
        let d: usize = ((c as u32) - ('0' as u32)) as usize;
        proof {
            assert(s@.subrange(0, i + 1).drop_last() =~= s@.subrange(0, i as int));
            assert(s@.subrange(0, i + 1).last() == s@[i as int]);
        }
        if acc > (usize::MAX - d) / 10 {
            proof {
                if spec_is_digits(s@) {
                    lemma_digits_val_bounds(s@);
                    assert(spec_digits_val(s@.subrange(0, i + 1)) <= spec_digits_val(s@));
                    assert(acc * 10 + d > usize::MAX as int) by {
                        assert(acc >= (usize::MAX - d) / 10 + 1);
                        assert(((usize::MAX - d) / 10 + 1) * 10 + d > usize::MAX as int)
                            by (nonlinear_arith);
                        assert(acc * 10 >= ((usize::MAX - d) / 10 + 1) * 10) by (nonlinear_arith)
                            requires
                                acc >= (usize::MAX - d) / 10 + 1,
                        ;
                    };
                }
            }
            return None;
        }
        proof {
            assert(acc * 10 + d <= usize::MAX as int) by {
                assert(((usize::MAX - d) / 10) * 10 <= usize::MAX - d) by (nonlinear_arith);
            };
        }
        acc = acc * 10 + d;
        i = i + 1;
    }
    proof {
        assert(s@.subrange(0, len as int) =~= s@);
    }
    Some(acc)
}

} // verus!
