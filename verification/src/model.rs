//! The mathematical model of the classifier and the matcher: what each
//! bucket holds and which candidates match, stated over character sequences.
use vstd::prelude::*;

verus! {

use crate::strings::{contains_seq, lower_seq, remove_all, split_commas};

/// The keyword a marked token contributes: the raw token when the prefix is
/// retained, else the token with every occurrence of the prefix removed.
pub open spec fn emitted(t: Seq<char>, p: Seq<char>, retain: bool) -> Seq<char> {
    if retain {
        t
    } else {
        remove_all(t, p)
    }
}

/// The tokens that start with prefix `p`, in their original order.
pub open spec fn marked(toks: Seq<Seq<char>>, p: Seq<char>) -> Seq<Seq<char>>
    decreases toks.len(),
{
    if toks.len() == 0 {
        Seq::empty()
    } else {
        let rest = marked(toks.drop_last(), p);
        if p.is_prefix_of(toks.last()) {
            rest.push(toks.last())
        } else {
            rest
        }
    }
}

/// The tokens that start with prefix `p`, in order, each replaced by its
/// emitted keyword.
pub open spec fn bucket(toks: Seq<Seq<char>>, p: Seq<char>, retain: bool) -> Seq<Seq<char>>
    decreases toks.len(),
{
    if toks.len() == 0 {
        Seq::empty()
    } else {
        let rest = bucket(toks.drop_last(), p, retain);
        if p.is_prefix_of(toks.last()) {
            rest.push(emitted(toks.last(), p, retain))
        } else {
            rest
        }
    }
}

/// Some keyword among `kws` occurs in `t` as a substring.
pub open spec fn hits_any(t: Seq<char>, kws: Seq<Seq<char>>) -> bool {
    exists|i: int| 0 <= i < kws.len() && contains_seq(t, kws[i])
}

/// The tokens in which no emitted keyword of either bucket occurs.
pub open spec fn leftover(toks: Seq<Seq<char>>, pos: Seq<Seq<char>>, neg: Seq<Seq<char>>) -> Seq<
    Seq<char>,
>
    decreases toks.len(),
{
    if toks.len() == 0 {
        Seq::empty()
    } else {
        let rest = leftover(toks.drop_last(), pos, neg);
        if !hits_any(toks.last(), pos) && !hits_any(toks.last(), neg) {
            rest.push(toks.last())
        } else {
            rest
        }
    }
}

/// The positive bucket of a classified input.
pub open spec fn positive_bucket(input: Seq<char>, posp: Seq<char>, retain: bool) -> Seq<
    Seq<char>,
> {
    bucket(split_commas(input), posp, retain)
}

/// The negative bucket of a classified input.
pub open spec fn negative_bucket(input: Seq<char>, negp: Seq<char>, retain: bool) -> Seq<
    Seq<char>,
> {
    bucket(split_commas(input), negp, retain)
}

/// The other bucket of a classified input: tokens free of every emitted
/// keyword.
pub open spec fn other_bucket(
    input: Seq<char>,
    posp: Seq<char>,
    negp: Seq<char>,
    retain: bool,
) -> Seq<Seq<char>> {
    leftover(
        split_commas(input),
        positive_bucket(input, posp, retain),
        negative_bucket(input, negp, retain),
    )
}

/// A token that starts with the prefix has its emitted keyword in the bucket.
pub proof fn lemma_bucket_membership(toks: Seq<Seq<char>>, p: Seq<char>, retain: bool, i: int)
    requires
        0 <= i < toks.len(),
        p.is_prefix_of(toks[i]),
    ensures
        bucket(toks, p, retain).contains(emitted(toks[i], p, retain)),
    decreases toks.len(),
{
    let prior = toks.drop_last();
    if i == toks.len() - 1 {
        let b = bucket(toks, p, retain);
        assert(b.last() == emitted(toks[i], p, retain));
        assert(b.contains(b.last()));
    } else {
        lemma_bucket_membership(prior, p, retain, i);
        let bp = bucket(prior, p, retain);
        let j = choose|j: int| 0 <= j < bp.len() && bp[j] == emitted(toks[i], p, retain);
        assert(bucket(toks, p, retain)[j] == emitted(toks[i], p, retain));
    }
}

/// Keyword `k` occurs in candidate `c`, ignoring ASCII case.
pub open spec fn hits_ci(c: Seq<char>, k: Seq<char>) -> bool {
    contains_seq(lower_seq(c), lower_seq(k))
}

/// Some keyword among `kws` occurs in `c`, ignoring ASCII case.
pub open spec fn hits_any_ci(c: Seq<char>, kws: Seq<Seq<char>>) -> bool {
    exists|i: int| 0 <= i < kws.len() && hits_ci(c, kws[i])
}

/// A candidate is kept when some positive keyword occurs in it and no
/// negative keyword does, ignoring ASCII case.
pub open spec fn candidate_matches(c: Seq<char>, pos: Seq<Seq<char>>, neg: Seq<Seq<char>>) -> bool {
    hits_any_ci(c, pos) && !hits_any_ci(c, neg)
}

/// The candidates that match, in their original order.
pub open spec fn matched(cands: Seq<Seq<char>>, pos: Seq<Seq<char>>, neg: Seq<Seq<char>>) -> Seq<
    Seq<char>,
>
    decreases cands.len(),
{
    if cands.len() == 0 {
        Seq::empty()
    } else {
        let rest = matched(cands.drop_last(), pos, neg);
        if candidate_matches(cands.last(), pos, neg) {
            rest.push(cands.last())
        } else {
            rest
        }
    }
}

} // verus!
