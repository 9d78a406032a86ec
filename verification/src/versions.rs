use vstd::prelude::*;
use crate::strutil::parse_decimal_u64;
use crate::strutil::spec_digits_val;
use crate::strutil::spec_parse_decimal;
use vstd::multiset::Multiset;
use vstd::string::StrSliceExecFns;

verus! {

broadcast use vstd::seq_lib::group_to_multiset_ensures;

/// A version token that reads as an unbounded-for-practical-purposes
/// decimal number.
pub open spec fn spec_is_numeric(s: Seq<char>) -> bool {
    spec_parse_decimal(s, u64::MAX as int) is Some
}

/// Every token of the listing reads as a number.
pub open spec fn spec_all_numeric(vs: Seq<Seq<char>>) -> bool {
    forall|i: int| 0 <= i < vs.len() ==> spec_is_numeric(#[trigger] vs[i])
}

/// Plain lexical order on character sequences.
pub open spec fn spec_lex_le(a: Seq<char>, b: Seq<char>) -> bool
    decreases a.len(),
{
    if a.len() == 0 {
        true
    } else if b.len() == 0 {
        false
    } else if a[0] == b[0] {
        spec_lex_le(a.drop_first(), b.drop_first())
    } else {
        (a[0] as int) < (b[0] as int)
    }
}

/// The order `list_versions` sorts by: numeric comparison when every
/// token of the listing parses as a number, lexical order otherwise.
pub open spec fn spec_version_le(numeric: bool, a: Seq<char>, b: Seq<char>) -> bool {
    if numeric {
        spec_digits_val(a) <= spec_digits_val(b)
    } else {
        spec_lex_le(a, b)
    }
}

/// Lexical order is total.
pub proof fn lemma_lex_le_total(a: Seq<char>, b: Seq<char>)
    ensures
        spec_lex_le(a, b) || spec_lex_le(b, a),
    decreases a.len(),
{
    if a.len() > 0 && b.len() > 0 && a[0] == b[0] {
        lemma_lex_le_total(a.drop_first(), b.drop_first());
    }
}

/// Lexical order is transitive.
pub proof fn lemma_lex_le_trans(a: Seq<char>, b: Seq<char>, c: Seq<char>)
    requires
        spec_lex_le(a, b),
        spec_lex_le(b, c),
    ensures
        spec_lex_le(a, c),
    decreases a.len(),
{
    if a.len() > 0 && b.len() > 0 && c.len() > 0 && a[0] == b[0] && b[0] == c[0] {
        lemma_lex_le_trans(a.drop_first(), b.drop_first(), c.drop_first());
    }
}

/// The version order is total over any fixed comparison mode.
pub proof fn lemma_version_le_total(numeric: bool, a: Seq<char>, b: Seq<char>)
    ensures
        spec_version_le(numeric, a, b) || spec_version_le(numeric, b, a),
{
    if !numeric {
        lemma_lex_le_total(a, b);
    }
}

/// The version order is transitive over any fixed comparison mode.
pub proof fn lemma_version_le_trans(numeric: bool, a: Seq<char>, b: Seq<char>, c: Seq<char>)
    requires
        spec_version_le(numeric, a, b),
        spec_version_le(numeric, b, c),
    ensures
        spec_version_le(numeric, a, c),
{
    if !numeric {
        lemma_lex_le_trans(a, b, c);
    }
}

/// The views of a sequence of strings.
pub open spec fn views_of(s: Seq<String>) -> Seq<Seq<char>> {
    Seq::new(s.len(), |i: int| s[i]@)
}

/// Decides lexical order of two strings.
#[verifier::loop_isolation(false)]
fn lex_le(a: &str, b: &str) -> (r: bool)
    ensures
        r == spec_lex_le(a@, b@),
{
    let alen = a.unicode_len();
    let blen = b.unicode_len();
    proof {
        assert(a@.subrange(0, alen as int) =~= a@);
        assert(b@.subrange(0, blen as int) =~= b@);
    }
    let mut i: usize = 0;
    while i < alen && i < blen
        invariant
            alen == a@.len(),
            blen == b@.len(),
            i <= alen,
            i <= blen,
            spec_lex_le(a@, b@) == spec_lex_le(
                a@.subrange(i as int, alen as int),
                b@.subrange(i as int, blen as int),
            ),
        decreases alen - i,
    {
        let ca = a.get_char(i);
        let cb = b.get_char(i);
        proof {
            let sa = a@.subrange(i as int, alen as int);
            let sb = b@.subrange(i as int, blen as int);
            assert(sa[0] == a@[i as int]);
            assert(sb[0] == b@[i as int]);
            assert(sa.drop_first() =~= a@.subrange(i + 1, alen as int));
            assert(sb.drop_first() =~= b@.subrange(i + 1, blen as int));
        }
        if ca != cb {
            return (ca as u32) < (cb as u32);
        }
        i = i + 1;
    }
    proof {
        if i >= alen {
            assert(a@.subrange(i as int, alen as int).len() == 0);
        } else {
            assert(b@.subrange(i as int, blen as int).len() == 0);
            assert(a@.subrange(i as int, alen as int).len() > 0);
        }
    }
    i >= alen
}

/// Decides the version order; in numeric mode both tokens must read as
/// numbers.
fn version_le(numeric: bool, a: &str, b: &str) -> (r: bool)
    requires
        numeric ==> spec_is_numeric(a@) && spec_is_numeric(b@),
    ensures
        r == spec_version_le(numeric, a@, b@),
{
    if numeric {
        let x = parse_decimal_u64(a).unwrap();
        let y = parse_decimal_u64(b).unwrap();
        x <= y
    } else {
        lex_le(a, b)
    }
}

/// Decides whether every token of the listing reads as a number.
#[verifier::loop_isolation(false)]
fn all_numeric(versions: &Vec<String>) -> (r: bool)
    ensures
        r == spec_all_numeric(views_of(versions@)),
{
    let mut i: usize = 0;
    while i < versions.len()
        invariant
            i <= versions@.len(),
            forall|j: int| 0 <= j < i ==> spec_is_numeric(#[trigger] views_of(versions@)[j]),
        decreases versions@.len() - i,
    {
        if parse_decimal_u64(versions[i].as_str()).is_none() {
            proof {
                assert(!spec_is_numeric(views_of(versions@)[i as int]));
            }
            return false;
        }
        i = i + 1;
    }
    true
}

/// Sorts version tokens ascending: numerically when all of them read as
/// numbers, lexically otherwise.  The result is a rearrangement of the
/// input: same tokens, same number of occurrences of each.
#[verifier::loop_isolation(false)]
pub fn sort_versions(versions: Vec<String>) -> (r: Vec<String>)
    ensures
        r@.len() == versions@.len(),
        views_of(r@).to_multiset() == views_of(versions@).to_multiset(),
        forall|i: int, j: int|
            0 <= i < j < r@.len() ==> spec_version_le(
                spec_all_numeric(views_of(versions@)),
                #[trigger] r@[i]@,
                #[trigger] r@[j]@,
            ),
{
    let ghost orig: Seq<Seq<char>> = views_of(versions@);
    let numeric = all_numeric(&versions);
    let mut src = versions;
    let mut out: Vec<String> = Vec::new();
    proof {
        if numeric {
            assert forall|j: int| 0 <= j < src@.len() implies spec_is_numeric(
                #[trigger] src@[j]@,
            ) by {
                assert(views_of(src@)[j] == src@[j]@);
            };
        }
        assert(views_of(out@).to_multiset() =~= Multiset::<Seq<char>>::empty());
        assert(views_of(out@).to_multiset().add(views_of(src@).to_multiset()) =~= orig.to_multiset());
    }
    while src.len() > 0
        invariant
            numeric == spec_all_numeric(orig),
            out@.len() + src@.len() == orig.len(),
            views_of(out@).to_multiset().add(views_of(src@).to_multiset()) == orig.to_multiset(),
            numeric ==> forall|j: int|
                0 <= j < src@.len() ==> spec_is_numeric(#[trigger] src@[j]@),
            numeric ==> forall|j: int|
                0 <= j < out@.len() ==> spec_is_numeric(#[trigger] out@[j]@),
            forall|i: int, j: int|
                0 <= i < j < out@.len() ==> spec_version_le(
                    numeric,
                    #[trigger] out@[i]@,
                    #[trigger] out@[j]@,
                ),
            forall|i: int, j: int|
                0 <= i < out@.len() && 0 <= j < src@.len() ==> spec_version_le(
                    numeric,
                    #[trigger] out@[i]@,
                    #[trigger] src@[j]@,
                ),
        decreases src@.len(),
    {
        let mut m: usize = 0;
        let mut k: usize = 1;
        proof {
            lemma_version_le_total(numeric, src@[0]@, src@[0]@);
        }
        while k < src.len()
            invariant
                src@.len() > 0,
                m < k,
                k <= src@.len(),
                forall|j: int| 0 <= j < k ==> spec_version_le(numeric, src@[m as int]@, #[trigger] src@[j]@),
            decreases src@.len() - k,
        {
            if !version_le(numeric, src[m].as_str(), src[k].as_str()) {
                proof {
                    lemma_version_le_total(numeric, src@[m as int]@, src@[k as int]@);
                    assert forall|j: int| 0 <= j < k + 1 implies spec_version_le(
                        numeric,
                        src@[k as int]@,
                        #[trigger] src@[j]@,
                    ) by {
                        if j < k {
                            lemma_version_le_trans(
                                numeric,
                                src@[k as int]@,
                                src@[m as int]@,
                                src@[j]@,
                            );
                        } else {
                            lemma_version_le_total(numeric, src@[k as int]@, src@[k as int]@);
                        }
                    };
                }
                m = k;
            } else {
                proof {
                    lemma_version_le_total(numeric, src@[k as int]@, src@[k as int]@);
                }
            }
            k = k + 1;
        }
        let ghost old_src = src@;
        let ghost old_out = out@;
        let x = src.remove(m);
        out.push(x);
        proof {
            assert(views_of(old_src)[m as int] == old_src[m as int]@);
            assert(views_of(old_src).contains(old_src[m as int]@));
            assert(views_of(old_src.remove(m as int)) =~= views_of(old_src).remove(m as int));
            assert(views_of(old_out.push(x)) =~= views_of(old_out).push(x@));
            assert(views_of(old_src).remove(m as int).to_multiset() =~= views_of(
                old_src,
            ).to_multiset().remove(old_src[m as int]@));
            assert(views_of(old_out).push(x@).to_multiset() =~= views_of(
                old_out,
            ).to_multiset().insert(x@));
            assert(views_of(out@).to_multiset().add(views_of(src@).to_multiset()) =~= orig.to_multiset());
        }
    }
    proof {
        assert(views_of(src@).to_multiset() =~= Multiset::<Seq<char>>::empty());
        assert(views_of(out@).to_multiset().add(Multiset::<Seq<char>>::empty())
            =~= views_of(out@).to_multiset());
    }
    out
}

} // verus!
