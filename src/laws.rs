//! General facts about compiling and matching.
use vstd::prelude::*;

use crate::model::{
    compile, compile_from, find_from, lemma_find_from, lemma_match_rest_prefix, matched_spans,
    raw_end, TokenModel,
};

verus! {

/// Putting the matched pieces back together, in order, gives the start of the
/// candidate, exactly as long as the pieces together.
pub proof fn lemma_matched_spans_prefix(toks: Seq<TokenModel>, candidate: Seq<char>)
    ensures
        matched_spans(toks, candidate).flatten().len() <= candidate.len(),
        matched_spans(toks, candidate).flatten() == candidate.subrange(
            0,
            matched_spans(toks, candidate).flatten().len() as int,
        ),
{
    lemma_match_rest_prefix(toks, 0, candidate);
}

/// An empty candidate matches no token, whatever the pattern.
pub proof fn lemma_empty_candidate(toks: Seq<TokenModel>)
    ensures
        matched_spans(toks, Seq::<char>::empty()) == Seq::<Seq<char>>::empty(),
{
}

/// A compiled pattern never holds an empty literal.
pub proof fn lemma_raw_text_nonempty(p: Seq<char>)
    ensures
        compile(p) matches Some(ts) ==> forall|k: int|
            0 <= k < ts.len() ==> (#[trigger] ts[k] matches TokenModel::Raw(lit) ==> lit.len() > 0),
{
    lemma_compile_from_raw_nonempty(p, 0);
}

proof fn lemma_compile_from_raw_nonempty(p: Seq<char>, i: nat)
    ensures
        compile_from(p, i) matches Some(ts) ==> forall|k: int|
            0 <= k < ts.len() ==> (#[trigger] ts[k] matches TokenModel::Raw(lit) ==> lit.len() > 0),
    decreases p.len() - i,
{
    if i < p.len() {
        if p[i as int] == '.' {
            lemma_compile_from_raw_nonempty(p, i + 1);
        } else if p[i as int] == '(' {
            lemma_find_from(p, ')', i + 1);
            let k = find_from(p, ')', i + 1);
            if k < p.len() {
                lemma_compile_from_raw_nonempty(p, k + 1);
            }
        } else {
            lemma_find_from(p, '.', i);
            lemma_find_from(p, '(', i);
            let e = raw_end(p, i);
            lemma_compile_from_raw_nonempty(p, e);
            if let Some(ts) = compile_from(p, i) {
                let rest = compile_from(p, e)->Some_0;
                assert(ts == seq![TokenModel::Raw(p.subrange(i as int, e as int))] + rest);
                assert forall|k: int| 0 <= k < ts.len() implies (#[trigger] ts[k] matches TokenModel::Raw(
                    lit,
                ) ==> lit.len() > 0) by {
                    if k > 0 {
                        assert(ts[k] == rest[k - 1]);
                    }
                }
            }
        }
    }
}

} // verus!
