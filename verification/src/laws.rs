//! General properties of the classifier and the matcher, stated and proved
//! over the model: partition of the tokens, determinism, prefix retention,
//! emptiness of the match with no positive keywords, and case insensitivity.
use vstd::prelude::*;

verus! {

use crate::Keywords;
use crate::Parser;
use crate::model::{
    bucket,
    candidate_matches,
    emitted,
    hits_any,
    hits_any_ci,
    hits_ci,
    leftover,
    marked,
    matched,
    negative_bucket,
    other_bucket,
    positive_bucket,
};
use crate::strings::{
    contains_seq,
    lemma_remove_all_leading,
    lower_seq,
    occurs_at,
    remove_all,
    split_commas,
};

/// Each token that starts with `p` contains `p` nowhere but at its start.
pub open spec fn marker_only_leading(toks: Seq<Seq<char>>, p: Seq<char>) -> bool {
    forall|i: int, j: int|
        0 <= i < toks.len() && p.is_prefix_of(toks[i]) && 1 <= j ==> !occurs_at(toks[i], p, j)
}

/// No emitted keyword occurs inside a token that carries neither marker.
pub open spec fn unmarked_tokens_free(
    input: Seq<char>,
    posp: Seq<char>,
    negp: Seq<char>,
    retain: bool,
) -> bool {
    forall|i: int|
        0 <= i < split_commas(input).len() && !posp.is_prefix_of(split_commas(input)[i])
            && !negp.is_prefix_of(split_commas(input)[i]) ==> !hits_any(
            split_commas(input)[i],
            positive_bucket(input, posp, retain),
        ) && !hits_any(split_commas(input)[i], negative_bucket(input, negp, retain))
}

/// Two prefixes of one token are ordered: the shorter starts the longer.
proof fn lemma_common_prefixes(p1: Seq<char>, p2: Seq<char>, t: Seq<char>)
    requires
        p1.is_prefix_of(t),
        p2.is_prefix_of(t),
    ensures
        p1.is_prefix_of(p2) || p2.is_prefix_of(p1),
{
    if p1.len() <= p2.len() {
        assert(p2.subrange(0, p1.len() as int) =~= t.subrange(0, p1.len() as int));
    } else {
        assert(p1.subrange(0, p2.len() as int) =~= t.subrange(0, p2.len() as int));
    }
}

/// A marked token contains the keyword it emits, provided its marker occurs
/// only at its start.
proof fn lemma_token_contains_own_keyword(t: Seq<char>, p: Seq<char>, retain: bool)
    requires
        p.len() >= 1,
        p.is_prefix_of(t),
        forall|j: int| 1 <= j ==> !occurs_at(t, p, j),
    ensures
        contains_seq(t, emitted(t, p, retain)),
{
    if retain {
        assert(t.subrange(0, t.len() as int) =~= t);
        assert(occurs_at(t, t, 0));
    } else {
        lemma_remove_all_leading(t, p);
        let e = t.skip(p.len() as int);
        assert(t.subrange(p.len() as int, (p.len() + e.len()) as int) =~= e);
        assert(occurs_at(t, e, p.len() as int));
    }
}

/// The inductive heart of the partition law: with fixed keyword sets that
/// hold every emitted keyword, each token is counted by exactly one of the
/// three buckets.
proof fn lemma_partition_step(
    toks: Seq<Seq<char>>,
    posp: Seq<char>,
    negp: Seq<char>,
    retain: bool,
    pos: Seq<Seq<char>>,
    neg: Seq<Seq<char>>,
)
    requires
        !posp.is_prefix_of(negp),
        !negp.is_prefix_of(posp),
        marker_only_leading(toks, posp),
        marker_only_leading(toks, negp),
        forall|i: int|
            0 <= i < toks.len() && posp.is_prefix_of(toks[i]) ==> pos.contains(
                emitted(toks[i], posp, retain),
            ),
        forall|i: int|
            0 <= i < toks.len() && negp.is_prefix_of(toks[i]) ==> neg.contains(
                emitted(toks[i], negp, retain),
            ),
        forall|i: int|
            0 <= i < toks.len() && !posp.is_prefix_of(toks[i]) && !negp.is_prefix_of(toks[i])
                ==> !hits_any(toks[i], pos) && !hits_any(toks[i], neg),
    ensures
        bucket(toks, posp, retain).len() + bucket(toks, negp, retain).len() + leftover(
            toks,
            pos,
            neg,
        ).len() == toks.len(),
    decreases toks.len(),
{
    if toks.len() == 0 {
    } else {
        let t = toks.last();
        let prior = toks.drop_last();
        assert(forall|i: int| 0 <= i < prior.len() ==> prior[i] == toks[i]);
        lemma_partition_step(prior, posp, negp, retain, pos, neg);
        if posp.len() == 0 {
            assert(posp.is_prefix_of(negp));
        }
        if negp.len() == 0 {
            assert(negp.is_prefix_of(posp));
        }
        if posp.is_prefix_of(t) {
            if negp.is_prefix_of(t) {
                lemma_common_prefixes(posp, negp, t);
            }
            assert(posp.is_prefix_of(toks[toks.len() - 1]));
            let e = emitted(t, posp, retain);
            assert(pos.contains(e));
            lemma_token_contains_own_keyword(t, posp, retain);
            let j = choose|j: int| 0 <= j < pos.len() && pos[j] == e;
            assert(contains_seq(t, pos[j]));
            assert(hits_any(t, pos));
        } else if negp.is_prefix_of(t) {
            assert(negp.is_prefix_of(toks[toks.len() - 1]));
            let e = emitted(t, negp, retain);
            assert(neg.contains(e));
            lemma_token_contains_own_keyword(t, negp, retain);
            let j = choose|j: int| 0 <= j < neg.len() && neg[j] == e;
            assert(contains_seq(t, neg[j]));
            assert(hits_any(t, neg));
        } else {
            assert(!hits_any(toks[toks.len() - 1], pos) && !hits_any(toks[toks.len() - 1], neg));
        }
    }
}

/// Partition of the tokens. When neither prefix starts the other (so both
/// are non-empty and distinct), each marked token contains its marker only
/// at its start, and no emitted keyword occurs inside an unmarked token,
/// every token is counted by exactly one bucket: the three bucket lengths
/// add up to the number of tokens the input splits into.
pub proof fn lemma_classification_partitions(
    input: Seq<char>,
    posp: Seq<char>,
    negp: Seq<char>,
    retain: bool,
)
    requires
        !posp.is_prefix_of(negp),
        !negp.is_prefix_of(posp),
        marker_only_leading(split_commas(input), posp),
        marker_only_leading(split_commas(input), negp),
        unmarked_tokens_free(input, posp, negp, retain),
    ensures
        positive_bucket(input, posp, retain).len() + negative_bucket(input, negp, retain).len()
            + other_bucket(input, posp, negp, retain).len() == split_commas(input).len(),
{
    let toks = split_commas(input);
    let pos = positive_bucket(input, posp, retain);
    let neg = negative_bucket(input, negp, retain);
    assert forall|i: int| 0 <= i < toks.len() && posp.is_prefix_of(toks[i]) implies pos.contains(
        emitted(toks[i], posp, retain),
    ) by {
        crate::model::lemma_bucket_membership(toks, posp, retain, i);
    }
    assert forall|i: int| 0 <= i < toks.len() && negp.is_prefix_of(toks[i]) implies neg.contains(
        emitted(toks[i], negp, retain),
    ) by {
        crate::model::lemma_bucket_membership(toks, negp, retain, i);
    }
    lemma_partition_step(toks, posp, negp, retain, pos, neg);
}

/// Classifying the same input twice with the same configuration yields
/// identical ordered buckets: any two results that meet the classifier's
/// contract for equally configured parsers agree.
pub proof fn lemma_classification_deterministic(a: &Parser, b: &Parser, ka: &Keywords, kb: &Keywords)
    requires
        a.input_chars() == b.input_chars(),
        a.pos_prefix() == b.pos_prefix(),
        a.neg_prefix() == b.neg_prefix(),
        a.retains() == b.retains(),
        ka.positive.deep_view() == positive_bucket(a.input_chars(), a.pos_prefix(), a.retains()),
        ka.negative.deep_view() == negative_bucket(a.input_chars(), a.neg_prefix(), a.retains()),
        ka.other.deep_view() == other_bucket(
            a.input_chars(),
            a.pos_prefix(),
            a.neg_prefix(),
            a.retains(),
        ),
        kb.positive.deep_view() == positive_bucket(b.input_chars(), b.pos_prefix(), b.retains()),
        kb.negative.deep_view() == negative_bucket(b.input_chars(), b.neg_prefix(), b.retains()),
        kb.other.deep_view() == other_bucket(
            b.input_chars(),
            b.pos_prefix(),
            b.neg_prefix(),
            b.retains(),
        ),
    ensures
        ka.positive.deep_view() == kb.positive.deep_view(),
        ka.negative.deep_view() == kb.negative.deep_view(),
        ka.other.deep_view() == kb.other.deep_view(),
{
}

/// With the prefix retained, emitting changes nothing: the bucket is exactly
/// the sequence of raw tokens that start with the prefix.
pub proof fn lemma_retention_keeps_tokens(toks: Seq<Seq<char>>, p: Seq<char>)
    ensures
        bucket(toks, p, true) == marked(toks, p),
    decreases toks.len(),
{
    if toks.len() == 0 {
        assert(bucket(toks, p, true) =~= marked(toks, p));
    } else {
        lemma_retention_keeps_tokens(toks.drop_last(), p);
    }
}

/// Without retention, each emitted keyword is its raw token with every
/// occurrence of the prefix removed, position by position.
pub proof fn lemma_stripping_removes_prefix(toks: Seq<Seq<char>>, p: Seq<char>)
    ensures
        bucket(toks, p, false).len() == marked(toks, p).len(),
        forall|i: int|
            0 <= i < marked(toks, p).len() ==> bucket(toks, p, false)[i] == remove_all(
                marked(toks, p)[i],
                p,
            ),
    decreases toks.len(),
{
    if toks.len() == 0 {
    } else {
        lemma_stripping_removes_prefix(toks.drop_last(), p);
    }
}

/// With no positive keywords, the matcher keeps no candidate at all.
pub proof fn lemma_empty_positive_matches_nothing(cands: Seq<Seq<char>>, neg: Seq<Seq<char>>)
    ensures
        matched(cands, Seq::<Seq<char>>::empty(), neg) == Seq::<Seq<char>>::empty(),
    decreases cands.len(),
{
    if cands.len() == 0 {
        assert(matched(cands, Seq::<Seq<char>>::empty(), neg) =~= Seq::<Seq<char>>::empty());
    } else {
        lemma_empty_positive_matches_nothing(cands.drop_last(), neg);
        assert(!hits_any_ci(cands.last(), Seq::<Seq<char>>::empty()));
    }
}

/// Matching ignores ASCII case on the candidate side: two candidates that
/// agree after case folding match the same keyword sets identically.
pub proof fn lemma_match_case_insensitive_candidate(
    c1: Seq<char>,
    c2: Seq<char>,
    pos: Seq<Seq<char>>,
    neg: Seq<Seq<char>>,
)
    requires
        lower_seq(c1) == lower_seq(c2),
    ensures
        candidate_matches(c1, pos, neg) == candidate_matches(c2, pos, neg),
{
    assert forall|kws: Seq<Seq<char>>| hits_any_ci(c1, kws) == hits_any_ci(c2, kws) by {
        if hits_any_ci(c1, kws) {
            let i = choose|i: int| 0 <= i < kws.len() && hits_ci(c1, kws[i]);
            assert(hits_ci(c2, kws[i]));
        }
        if hits_any_ci(c2, kws) {
            let i = choose|i: int| 0 <= i < kws.len() && hits_ci(c2, kws[i]);
            assert(hits_ci(c1, kws[i]));
        }
    }
}

/// Matching ignores ASCII case on the keyword side: keyword lists that agree
/// pairwise after case folding keep and reject the same candidates.
pub proof fn lemma_match_case_insensitive_keywords(
    c: Seq<char>,
    pos1: Seq<Seq<char>>,
    pos2: Seq<Seq<char>>,
    neg1: Seq<Seq<char>>,
    neg2: Seq<Seq<char>>,
)
    requires
        pos1.len() == pos2.len(),
        forall|i: int| 0 <= i < pos1.len() ==> lower_seq(pos1[i]) == lower_seq(pos2[i]),
        neg1.len() == neg2.len(),
        forall|i: int| 0 <= i < neg1.len() ==> lower_seq(neg1[i]) == lower_seq(neg2[i]),
    ensures
        candidate_matches(c, pos1, neg1) == candidate_matches(c, pos2, neg2),
{
    assert(hits_any_ci(c, pos1) == hits_any_ci(c, pos2)) by {
        if hits_any_ci(c, pos1) {
            let i = choose|i: int| 0 <= i < pos1.len() && hits_ci(c, pos1[i]);
            assert(hits_ci(c, pos2[i]));
        }
        if hits_any_ci(c, pos2) {
            let i = choose|i: int| 0 <= i < pos2.len() && hits_ci(c, pos2[i]);
            assert(hits_ci(c, pos1[i]));
        }
    }
    assert(hits_any_ci(c, neg1) == hits_any_ci(c, neg2)) by {
        if hits_any_ci(c, neg1) {
            let i = choose|i: int| 0 <= i < neg1.len() && hits_ci(c, neg1[i]);
            assert(hits_ci(c, neg2[i]));
        }
        if hits_any_ci(c, neg2) {
            let i = choose|i: int| 0 <= i < neg2.len() && hits_ci(c, neg2[i]);
            assert(hits_ci(c, neg1[i]));
        }
    }
}

} // verus!
