//! Mathematical model of patterns, tokens and matching, over sequences of
//! characters.
use vstd::prelude::*;

verus! {

/// What a token is, with its text viewed as characters.
pub enum TokenModel {
    /// A literal that must appear exactly.
    Raw(Seq<char>),
    /// Alternatives, tried in order; the first that is a prefix wins.
    OneOf(Seq<Seq<char>>),
    /// Any single character.
    Wild,
}

/// The first position at or after `i` that holds `c`, or `s.len()` if none does.
pub open spec fn find_from(s: Seq<char>, c: char, i: nat) -> nat
    decreases s.len() - i,
{
    if i >= s.len() {
        s.len()
    } else if s[i as int] == c {
        i
    } else {
        find_from(s, c, i + 1)
    }
}

/// Where `find_from` lands: at a `c`, or at the end, past no `c`.
pub proof fn lemma_find_from(s: Seq<char>, c: char, i: nat)
    ensures
        find_from(s, c, i) <= s.len(),
        i <= s.len() ==> i <= find_from(s, c, i),
        find_from(s, c, i) < s.len() ==> i <= find_from(s, c, i) && s[find_from(s, c, i) as int]
            == c,
        forall|k: int| i <= k < find_from(s, c, i) ==> s[k] != c,
    decreases s.len() - i,
{
    if i < s.len() && s[i as int] != c {
        lemma_find_from(s, c, i + 1);
    }
}

/// Skipping positions that do not hold `c` does not change where `c` is found.
pub proof fn lemma_find_from_skip(s: Seq<char>, c: char, i: nat, j: nat)
    requires
        i <= j <= s.len(),
        forall|k: int| i <= k < j ==> s[k] != c,
    ensures
        find_from(s, c, i) == find_from(s, c, j),
    decreases j - i,
{
    if i < j {
        lemma_find_from_skip(s, c, i + 1, j);
    }
}

/// The pieces of `s` from position `start` on, cut at each `|`.
pub open spec fn split_from(s: Seq<char>, start: nat) -> Seq<Seq<char>>
    decreases s.len() - start,
{
    let k = find_from(s, '|', start);
    if k >= s.len() {
        seq![s.subrange(start as int, s.len() as int)]
    } else {
        proof {
            lemma_find_from(s, '|', start);
        }
        seq![s.subrange(start as int, k as int)] + split_from(s, k + 1)
    }
}

/// The alternatives of a one-of group whose inner text is `s`.
pub open spec fn split_bar(s: Seq<char>) -> Seq<Seq<char>> {
    split_from(s, 0)
}

/// Where a literal segment that starts at `i` ends: at the next `.` or `(`,
/// or at the end of the pattern.
pub open spec fn raw_end(p: Seq<char>, i: nat) -> nat {
    let a = find_from(p, '.', i);
    let b = find_from(p, '(', i);
    if a < b {
        a
    } else {
        b
    }
}

/// `t` followed by `rest`, when `rest` is there.
pub open spec fn prepend(t: TokenModel, rest: Option<Seq<TokenModel>>) -> Option<Seq<TokenModel>> {
    match rest {
        Some(ts) => Some(seq![t] + ts),
        None => None,
    }
}

/// `done` followed by `rest`, when `rest` is there.
pub open spec fn append_opt(done: Seq<TokenModel>, rest: Option<Seq<TokenModel>>) -> Option<
    Seq<TokenModel>,
> {
    match rest {
        Some(ts) => Some(done + ts),
        None => None,
    }
}

/// The tokens of the pattern `p` from position `i` on, or `None` when a `(`
/// there has no `)` after it.
pub open spec fn compile_from(p: Seq<char>, i: nat) -> Option<Seq<TokenModel>>
    decreases p.len() - i,
{
    if i >= p.len() {
        Some(seq![])
    } else if p[i as int] == '.' {
        prepend(TokenModel::Wild, compile_from(p, i + 1))
    } else if p[i as int] == '(' {
        let k = find_from(p, ')', i + 1);
        if k >= p.len() {
            None
        } else {
            proof {
                lemma_find_from(p, ')', i + 1);
            }
            prepend(
                TokenModel::OneOf(split_bar(p.subrange(i + 1 as int, k as int))),
                compile_from(p, k + 1),
            )
        }
    } else {
        let e = raw_end(p, i);
        proof {
            lemma_find_from(p, '.', i);
            lemma_find_from(p, '(', i);
        }
        prepend(TokenModel::Raw(p.subrange(i as int, e as int)), compile_from(p, e))
    }
}

/// The tokens of the whole pattern `p`, or `None` if it is malformed.
pub open spec fn compile(p: Seq<char>) -> Option<Seq<TokenModel>> {
    compile_from(p, 0)
}


/// `s` begins with `lit`.
pub open spec fn starts_with(s: Seq<char>, lit: Seq<char>) -> bool {
    lit.len() <= s.len() && s.subrange(0, lit.len() as int) == lit
}

/// The length of the first alternative, from index `a` on, that `rest` starts with.
pub open spec fn first_alt(alts: Seq<Seq<char>>, rest: Seq<char>, a: nat) -> Option<nat>
    decreases alts.len() - a,
{
    if a >= alts.len() {
        None
    } else if starts_with(rest, alts[a as int]) {
        Some(alts[a as int].len())
    } else {
        first_alt(alts, rest, a + 1)
    }
}

/// How many characters of the non-empty `rest` the token takes, or `None` if it
/// does not match there.
pub open spec fn consumed(tok: TokenModel, rest: Seq<char>) -> Option<nat> {
    match tok {
        TokenModel::Wild => Some(1),
        TokenModel::Raw(lit) => if starts_with(rest, lit) {
            Some(lit.len())
        } else {
            None
        },
        TokenModel::OneOf(alts) => first_alt(alts, rest, 0),
    }
}

/// The pieces of `rest` taken by the tokens from index `t` on: one per token,
/// stopping at the first token that fails or when nothing is left.
pub open spec fn match_rest(toks: Seq<TokenModel>, t: nat, rest: Seq<char>) -> Seq<Seq<char>>
    decreases toks.len() - t,
{
    if t >= toks.len() || rest.len() == 0 {
        seq![]
    } else {
        match consumed(toks[t as int], rest) {
            None => seq![],
            Some(m) => seq![rest.subrange(0, m as int)] + match_rest(
                toks,
                t + 1,
                rest.subrange(m as int, rest.len() as int),
            ),
        }
    }
}

/// The pieces of `candidate` that the tokens match, in order.
pub open spec fn matched_spans(toks: Seq<TokenModel>, candidate: Seq<char>) -> Seq<Seq<char>> {
    match_rest(toks, 0, candidate)
}

/// An alternative that matches takes no more than what is left.
pub proof fn lemma_first_alt_bound(alts: Seq<Seq<char>>, rest: Seq<char>, a: nat)
    ensures
        first_alt(alts, rest, a) matches Some(m) ==> m <= rest.len(),
    decreases alts.len() - a,
{
    if a < alts.len() && !starts_with(rest, alts[a as int]) {
        lemma_first_alt_bound(alts, rest, a + 1);
    }
}

/// A token that matches takes no more than what is left.
pub proof fn lemma_consumed_bound(tok: TokenModel, rest: Seq<char>)
    requires
        rest.len() > 0,
    ensures
        consumed(tok, rest) matches Some(m) ==> m <= rest.len(),
{
    if let TokenModel::OneOf(alts) = tok {
        lemma_first_alt_bound(alts, rest, 0);
    }
}

/// The matched pieces, put back together, are the start of what was matched.
pub proof fn lemma_match_rest_prefix(toks: Seq<TokenModel>, t: nat, rest: Seq<char>)
    ensures
        match_rest(toks, t, rest).flatten().len() <= rest.len(),
        match_rest(toks, t, rest).flatten() == rest.subrange(
            0,
            match_rest(toks, t, rest).flatten().len() as int,
        ),
    decreases toks.len() - t,
{
    let r = match_rest(toks, t, rest);
    if t >= toks.len() || rest.len() == 0 {
        assert(r.flatten() =~= rest.subrange(0, 0));
    } else {
        lemma_consumed_bound(toks[t as int], rest);
        match consumed(toks[t as int], rest) {
            None => {
                assert(r.flatten() =~= rest.subrange(0, 0));
            },
            Some(m) => {
                let tail = rest.subrange(m as int, rest.len() as int);
                let later = match_rest(toks, t + 1, tail);
                lemma_match_rest_prefix(toks, t + 1, tail);
                assert(r.first() == rest.subrange(0, m as int));
                assert(r.drop_first() =~= later);
                assert(r.flatten() == rest.subrange(0, m as int) + later.flatten());
                assert(r.flatten() =~= rest.subrange(0, r.flatten().len() as int));
            },
        }
    }
}

} // verus!
