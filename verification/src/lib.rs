//! Classifies comma-delimited tokens into positive, negative and other
//! buckets according to configurable string prefixes, and filters candidate
//! strings by the classified keywords.
use vstd::prelude::*;

pub mod laws;
pub mod model;
pub mod strings;

verus! {

use vstd::string::StrSliceExecFns;
use vstd::string::StringExecFns;
use crate::model::{
    bucket,
    hits_any,
    hits_any_ci,
    leftover,
    matched,
    negative_bucket,
    other_bucket,
    positive_bucket,
};
use crate::strings::{contains_seq, contains_str, contains_str_ci};

/// The positive and negative keyword prefixes used for classification.
#[derive(Debug, Clone)]
pub struct Prefixes {
    pub positive: String,
    pub negative: String,
}

impl Default for Prefixes {
    /// The default markers: `+` for positive and `-` for negative keywords.
    fn default() -> (r: Self)
        ensures
            r.positive@ == seq!['+'],
            r.negative@ == seq!['-'],
    {
        proof {
            reveal_strlit("+");
            reveal_strlit("-");
        }
        let r = Prefixes { positive: String::from_str("+"), negative: String::from_str("-") };
        proof {
            assert(r.positive@ =~= seq!['+']);
            assert(r.negative@ =~= seq!['-']);
        }
        r
    }
}

/// The classifier's output: the three buckets of emitted keywords, each in
/// the order its tokens appeared in the input.
#[derive(Debug, Clone)]
pub struct Keywords {
    pub positive: Vec<String>,
    pub negative: Vec<String>,
    pub other: Vec<String>,
}

/// The main parser: owns a copy of the input and the configuration.
pub struct Parser {
    input: String,
    pub prefixes: Prefixes,
    retain_prefix: bool,
}

impl Parser {
    /// The characters of the input the parser was constructed over.
    pub closed spec fn input_chars(&self) -> Seq<char> {
        self.input@
    }

    /// The characters of the configured positive prefix.
    pub closed spec fn pos_prefix(&self) -> Seq<char> {
        self.prefixes.positive@
    }

    /// The characters of the configured negative prefix.
    pub closed spec fn neg_prefix(&self) -> Seq<char> {
        self.prefixes.negative@
    }

    /// Whether emitted keywords keep their prefix.
    pub closed spec fn retains(&self) -> bool {
        self.retain_prefix
    }

    /// Creates a new parser over `input` with the given prefixes.
    /// The prefix is stripped from emitted keywords by default.
    pub fn new(input: &str, prefixes: Prefixes) -> (r: Self)
        ensures
            r.input_chars() == input@,
            r.pos_prefix() == prefixes.positive@,
            r.neg_prefix() == prefixes.negative@,
            !r.retains(),
    {
        Self { input: input.to_owned(), prefixes, retain_prefix: false }
    }

    /// Sets whether parsing keeps the matched prefix on emitted keywords,
    /// and hands the flag back.
    pub fn should_retain_prefix(&mut self, flag: bool) -> (r: bool)
        ensures
            final(self).input_chars() == old(self).input_chars(),
            final(self).pos_prefix() == old(self).pos_prefix(),
            final(self).neg_prefix() == old(self).neg_prefix(),
            final(self).retains() == flag,
            r == flag,
    {
        self.retain_prefix = flag;
        flag
    }

    /// Collects the keywords emitted by the tokens that start with `prefix`.
    fn parse_with_prefix(&self, tokens: &Vec<String>, prefix: &str) -> (r: Vec<String>)
        ensures
            r.deep_view() == bucket(tokens.deep_view(), prefix@, self.retains()),
    {
        let ghost toks = tokens.deep_view();
        let mut r: Vec<String> = Vec::new();
        let mut k: usize = 0;
        proof {
            assert(toks.take(0) =~= Seq::<Seq<char>>::empty());
            assert(r.deep_view() =~= bucket(toks.take(0), prefix@, self.retains()));
        }
        while k < tokens.len()
            invariant
                0 <= k <= tokens.len(),
                toks == tokens.deep_view(),
                toks.len() == tokens.len(),
                r.deep_view() == bucket(toks.take(k as int), prefix@, self.retains()),
            decreases tokens.len() - k,
        {
            let ghost prev = r.deep_view();
            proof {
                assert(toks.take(k + 1).drop_last() =~= toks.take(k as int));
                assert(toks.take(k + 1).last() == toks[k as int]);
                assert(toks[k as int] == tokens[k as int]@);
            }
            if crate::strings::has_prefix(tokens[k].as_str(), prefix) {
                let kw = if self.retain_prefix {
                    tokens[k].clone()
                } else {
                    crate::strings::remove_all_str(tokens[k].as_str(), prefix)
                };
                r.push(kw);
                proof {
                    assert(r.deep_view() =~= prev.push(
                        crate::model::emitted(toks[k as int], prefix@, self.retains()),
                    ));
                }
            }
            k += 1;
        }
        proof {
            assert(toks.take(toks.len() as int) =~= toks);
        }
        r
    }

    /// Splits the input on commas and classifies every token: tokens that
    /// start with the positive or negative prefix emit their keyword into
    /// that bucket, and tokens in which no emitted keyword occurs form the
    /// other bucket.
    pub fn parse(&self) -> (r: Keywords)
        ensures
            r.positive.deep_view() == positive_bucket(
                self.input_chars(),
                self.pos_prefix(),
                self.retains(),
            ),
            r.negative.deep_view() == negative_bucket(
                self.input_chars(),
                self.neg_prefix(),
                self.retains(),
            ),
            r.other.deep_view() == other_bucket(
                self.input_chars(),
                self.pos_prefix(),
                self.neg_prefix(),
                self.retains(),
            ),
    {
        let tokens = crate::strings::split_str(self.input.as_str());
        let positive = self.parse_with_prefix(&tokens, self.prefixes.positive.as_str());
        let negative = self.parse_with_prefix(&tokens, self.prefixes.negative.as_str());
        let ghost toks = tokens.deep_view();
        let ghost posv = positive.deep_view();
        let ghost negv = negative.deep_view();
        let mut other: Vec<String> = Vec::new();
        let mut k: usize = 0;
        proof {
            assert(toks.take(0) =~= Seq::<Seq<char>>::empty());
            assert(other.deep_view() =~= leftover(toks.take(0), posv, negv));
        }
        while k < tokens.len()
            invariant
                0 <= k <= tokens.len(),
                toks == tokens.deep_view(),
                toks.len() == tokens.len(),
                posv == positive.deep_view(),
                negv == negative.deep_view(),
                other.deep_view() == leftover(toks.take(k as int), posv, negv),
            decreases tokens.len() - k,
        {
            let ghost prev = other.deep_view();
            proof {
                assert(toks.take(k + 1).drop_last() =~= toks.take(k as int));
                assert(toks.take(k + 1).last() == toks[k as int]);
                assert(toks[k as int] == tokens[k as int]@);
            }
            if !hits_any_str(tokens[k].as_str(), &positive) && !hits_any_str(
                tokens[k].as_str(),
                &negative,
            ) {
                other.push(tokens[k].clone());
                proof {
                    assert(other.deep_view() =~= prev.push(toks[k as int]));
                }
            }
            k += 1;
        }
        proof {
            assert(toks.take(toks.len() as int) =~= toks);
        }
        Keywords { positive, negative, other }
    }

    /// Finds the products in which at least one positive keyword and no
    /// negative keyword occurs, ignoring ASCII case, in their given order.
    pub fn match_products(&self, products: Vec<&str>, keywords: Keywords) -> (r: Vec<String>)
        ensures
            r.deep_view() == matched(
                products.deep_view(),
                keywords.positive.deep_view(),
                keywords.negative.deep_view(),
            ),
    {
        let ghost cands = products.deep_view();
        let ghost posv = keywords.positive.deep_view();
        let ghost negv = keywords.negative.deep_view();
        let mut found: Vec<String> = Vec::new();
        let mut k: usize = 0;
        proof {
            assert(cands.take(0) =~= Seq::<Seq<char>>::empty());
            assert(found.deep_view() =~= matched(cands.take(0), posv, negv));
        }
        while k < products.len()
            invariant
                0 <= k <= products.len(),
                cands == products.deep_view(),
                cands.len() == products.len(),
                posv == keywords.positive.deep_view(),
                negv == keywords.negative.deep_view(),
                found.deep_view() == matched(cands.take(k as int), posv, negv),
            decreases products.len() - k,
        {
            let ghost prev = found.deep_view();
            proof {
                assert(cands.take(k + 1).drop_last() =~= cands.take(k as int));
                assert(cands.take(k + 1).last() == cands[k as int]);
                assert(cands[k as int] == products[k as int]@);
            }
            let product = products[k];
            if hits_any_ci_str(product, &keywords.positive) && !hits_any_ci_str(
                product,
                &keywords.negative,
            ) {
                found.push(product.to_owned());
                proof {
                    assert(found.deep_view() =~= prev.push(cands[k as int]));
                }
            }
            k += 1;
        }
        proof {
            assert(cands.take(cands.len() as int) =~= cands);
        }
        found
    }
}

/// Whether some keyword among `kws` occurs in `t` as a substring.
fn hits_any_str(t: &str, kws: &Vec<String>) -> (r: bool)
    ensures
        r == hits_any(t@, kws.deep_view()),
{
    let mut i: usize = 0;
    while i < kws.len()
        invariant
            0 <= i <= kws.len(),
            forall|j: int| 0 <= j < i ==> !contains_seq(t@, kws.deep_view()[j]),
        decreases kws.len() - i,
    {
        if contains_str(t, kws[i].as_str()) {
            assert(kws.deep_view()[i as int] == kws[i as int]@);
            return true;
        }
        i += 1;
    }
    false
}

/// Whether some keyword among `kws` occurs in `c`, ignoring ASCII case.
fn hits_any_ci_str(c: &str, kws: &Vec<String>) -> (r: bool)
    ensures
        r == hits_any_ci(c@, kws.deep_view()),
{
    let mut i: usize = 0;
    while i < kws.len()
        invariant
            0 <= i <= kws.len(),
            forall|j: int| 0 <= j < i ==> !crate::model::hits_ci(c@, kws.deep_view()[j]),
        decreases kws.len() - i,
    {
        if contains_str_ci(c, kws[i].as_str()) {
            assert(kws.deep_view()[i as int] == kws[i as int]@);
            return true;
        }
        i += 1;
    }
    false
}

} // verus!
