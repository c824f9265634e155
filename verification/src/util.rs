//! Small sequence helpers shared by the component stores and systems:
//! filtering a sequence against a list of banned values, and executable
//! membership tests.

use vstd::prelude::*;

verus! {

broadcast use vstd::seq_lib::group_seq_properties;

/// `s` without every element that occurs in `banned`, in order.
pub open spec fn keep_out(s: Seq<u32>, banned: Seq<u32>) -> Seq<u32>
    decreases s.len(),
{
    if s.len() == 0 {
        Seq::empty()
    } else if banned.contains(s.last()) {
        keep_out(s.drop_last(), banned)
    } else {
        keep_out(s.drop_last(), banned).push(s.last())
    }
}

/// Membership in `keep_out(s, banned)`: a value is kept exactly when it
/// occurs in `s` and is not banned.
pub proof fn lemma_keep_out_contains(s: Seq<u32>, banned: Seq<u32>, x: u32)
    ensures
        keep_out(s, banned).contains(x) <==> s.contains(x) && !banned.contains(x),
    decreases s.len(),
{
    if s.len() > 0 {
        lemma_keep_out_contains(s.drop_last(), banned, x);
        assert(s.drop_last().push(s.last()) =~= s);
    }
}

/// Filtering preserves the absence of duplicates.
pub proof fn lemma_keep_out_distinct(s: Seq<u32>, banned: Seq<u32>)
    requires
        s.no_duplicates(),
    ensures
        keep_out(s, banned).no_duplicates(),
    decreases s.len(),
{
    if s.len() > 0 {
        assert(s.drop_last().no_duplicates());
        lemma_keep_out_distinct(s.drop_last(), banned);
        if !banned.contains(s.last()) {
            assert(!s.drop_last().contains(s.last())) by {
                if s.drop_last().contains(s.last()) {
                    let i = choose|i: int|
                        0 <= i < s.drop_last().len() && s.drop_last()[i] == s.last();
                    assert(s[i] == s[s.len() - 1]);
                }
            }
            lemma_keep_out_contains(s.drop_last(), banned, s.last());
            let r = keep_out(s.drop_last(), banned).push(s.last());
            assert forall|i: int, j: int| 0 <= i < j < r.len() && r[i] == r[j] implies false by {
                if j == r.len() - 1 {
                    assert(keep_out(s.drop_last(), banned).contains(r[i]));
                }
            }
        }
    }
}

/// Peeling one element off the front of the prefix being filtered.
pub proof fn lemma_keep_out_step(s: Seq<u32>, banned: Seq<u32>, i: int)
    requires
        0 <= i < s.len(),
    ensures
        keep_out(s.take(i + 1), banned) == if banned.contains(s[i]) {
            keep_out(s.take(i), banned)
        } else {
            keep_out(s.take(i), banned).push(s[i])
        },
{
    assert(s.take(i + 1).last() == s[i]);
    assert(s.take(i + 1).drop_last() =~= s.take(i));
}

/// Removing a finite subset removes exactly its members.
pub proof fn lemma_len_difference_subset(a: Set<u32>, b: Set<u32>)
    requires
        a.finite(),
        b.finite(),
        b.subset_of(a),
    ensures
        a.difference(b).finite(),
        a.difference(b).len() == a.len() - b.len(),
    decreases b.len(),
{
    if b.len() == 0 {
        b.lemma_len0_is_empty();
        assert(a.difference(b) =~= a);
    } else {
        let x = b.choose();
        assert(b.contains(x)) by {
            if !(exists|y: u32| b.contains(y)) {
                assert(b =~= Set::<u32>::empty());
            }
        }
        lemma_len_difference_subset(a.remove(x), b.remove(x));
        assert(a.difference(b) =~= a.remove(x).difference(b.remove(x)));
    }
}

/// Whether `v` holds `x`.
pub fn vec_contains(v: &Vec<u32>, x: u32) -> (r: bool)
    ensures
        r == v@.contains(x),
{
    let mut i: usize = 0;
    while i < v.len()
        invariant
            0 <= i <= v@.len(),
            forall|k: int| 0 <= k < i ==> v@[k] != x,
        decreases v@.len() - i,
    {
        if v[i] == x {
            return true;
        }
        i = i + 1;
    }
    false
}

/// The elements of `v` that do not occur in `banned`, in order.
pub fn vec_keep_out(v: &Vec<u32>, banned: &Vec<u32>) -> (r: Vec<u32>)
    ensures
        r@ == keep_out(v@, banned@),
{
    let mut r: Vec<u32> = Vec::new();
    let mut i: usize = 0;
    while i < v.len()
        invariant
            0 <= i <= v@.len(),
            r@ == keep_out(v@.take(i as int), banned@),
        decreases v@.len() - i,
    {
        proof {
            lemma_keep_out_step(v@, banned@, i as int);
        }
        if !vec_contains(banned, v[i]) {
            r.push(v[i]);
        }
        i = i + 1;
    }
    proof {
        assert(v@.take(v@.len() as int) =~= v@);
    }
    r
}

} // verus!
