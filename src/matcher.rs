//! Compiled patterns and the match engine.
use vstd::prelude::*;
use vstd::string::*;

use crate::model::{
    append_opt, compile, compile_from, consumed, find_from, first_alt, lemma_find_from,
    lemma_find_from_skip, lemma_match_rest_prefix, match_rest, matched_spans, prepend, split_bar,
    split_from, starts_with, TokenModel,
};

verus! {

/// One token of a compiled pattern. Its text borrows from the pattern.
#[derive(Debug, PartialEq, Eq)]
pub enum MatcherToken<'a> {
    /// This is just text without anything special.
    RawText(&'a str),
    /// This is when text could be any one of multiple
    /// strings. It looks like `(one|two|three)`, where
    /// `one`, `two` or `three` are the allowed strings.
    OneOfText(Vec<&'a str>),
    /// This is when you're happy to accept any single character.
    /// It looks like `.`
    WildCard,
}

/// The characters of each string.
pub open spec fn strs_view<'a>(v: Seq<&'a str>) -> Seq<Seq<char>> {
    v.map_values(|x: &'a str| x@)
}

impl<'a> View for MatcherToken<'a> {
    type V = TokenModel;

    open spec fn view(&self) -> TokenModel {
        match self {
            MatcherToken::RawText(t) => TokenModel::Raw(t@),
            MatcherToken::OneOfText(v) => TokenModel::OneOf(strs_view(v@)),
            MatcherToken::WildCard => TokenModel::Wild,
        }
    }
}

/// The matched pieces of a match result.
pub open spec fn spans_of<'b, 'a, 'c>(r: Seq<(&'b MatcherToken<'a>, &'c str)>) -> Seq<Seq<char>> {
    r.map_values(|p: (&'b MatcherToken<'a>, &'c str)| p.1@)
}

/// Each token in the model.
pub open spec fn tokens_view<'a>(v: Seq<MatcherToken<'a>>) -> Seq<TokenModel> {
    v.map_values(|t: MatcherToken<'a>| t@)
}

/// A compiled pattern, with the most tokens any match against it has taken.
#[derive(Debug, PartialEq, Eq)]
pub struct Matcher<'a> {
    /// This is the actual text of the matcher
    pub text: &'a str,
    /// This is a vector of the tokens inside the expression.
    pub tokens: Vec<MatcherToken<'a>>,
    /// This keeps track of the most tokens that this matcher has matched.
    pub most_tokens_matched: usize,
}

/// The characters of `s`, one per element.
fn chars_of(s: &str) -> (r: Vec<char>)
    ensures
        r@ == s@,
{
    let n = s.unicode_len();
    let mut r: Vec<char> = Vec::new();
    let mut i: usize = 0;
    while i < n
        invariant
            i <= n,
            n == s@.len(),
            r@ == s@.subrange(0, i as int),
        decreases n - i,
    {
        r.push(s.get_char(i));
        i += 1;
        assert(r@ =~= s@.subrange(0, i as int));
    }
    assert(r@ =~= s@);
    r
}

/// The first position at or after `from` that holds `c`, or the length.
fn find_char(cs: &Vec<char>, c: char, from: usize) -> (r: usize)
    requires
        from <= cs@.len(),
    ensures
        r as nat == find_from(cs@, c, from as nat),
{
    let mut j: usize = from;
    while j < cs.len()
        invariant
            from <= j <= cs@.len(),
            forall|k: int| from <= k < j ==> cs@[k] != c,
        decreases cs@.len() - j,
    {
        if cs[j] == c {
            proof {
                lemma_find_from_skip(cs@, c, from as nat, j as nat);
            }
            return j;
        }
        j += 1;
    }
    proof {
        lemma_find_from_skip(cs@, c, from as nat, j as nat);
    }
    j
}

/// Cuts `s` at each `|`, keeping empty pieces.
fn split_bars<'a>(s: &'a str) -> (r: Vec<&'a str>)
    ensures
        strs_view(r@) == split_bar(s@),
{
    let cs = chars_of(s);
    let n = cs.len();
    let mut parts: Vec<&'a str> = Vec::new();
    let mut start: usize = 0;
    let mut j: usize = 0;
    while j < n
        invariant
            start <= j <= n,
            n == s@.len(),
            cs@ == s@,
            forall|k: int| start <= k < j ==> s@[k] != '|',
            strs_view(parts@) + split_from(s@, start as nat) == split_bar(s@),
        decreases n - j,
    {
        if cs[j] == '|' {
            proof {
                lemma_find_from_skip(s@, '|', start as nat, j as nat);
            }
            let piece = s.substring_char(start, j);
            let ghost before = parts@;
            parts.push(piece);
            proof {
                assert(strs_view(parts@) =~= strs_view(before).push(piece@));
                assert(strs_view(parts@) + split_from(s@, (j + 1) as nat) =~= strs_view(before)
                    + split_from(s@, start as nat));
            }
            start = j + 1;
        }
        j += 1;
    }
    proof {
        lemma_find_from_skip(s@, '|', start as nat, n as nat);
    }
    let piece = s.substring_char(start, n);
    let ghost before = parts@;
    parts.push(piece);
    proof {
        assert(strs_view(parts@) =~= strs_view(before).push(piece@));
        assert(strs_view(parts@) =~= strs_view(before) + split_from(s@, start as nat));
    }
    parts
}



/// Whether the characters of `cs` from position `j` on start with `lit`.
fn starts_with_at(cs: &Vec<char>, j: usize, lit: &str) -> (r: bool)
    requires
        j <= cs@.len(),
    ensures
        r == starts_with(cs@.subrange(j as int, cs@.len() as int), lit@),
{
    let lc = chars_of(lit);
    let m = lc.len();
    let ghost rest = cs@.subrange(j as int, cs@.len() as int);
    if m > cs.len() - j {
        return false;
    }
    let mut k: usize = 0;
    while k < m
        invariant
            k <= m,
            m == lit@.len(),
            lc@ == lit@,
            j + m <= cs.len(),
            rest == cs@.subrange(j as int, cs@.len() as int),
            forall|q: int| 0 <= q < k ==> rest[q] == lit@[q],
        decreases m - k,
    {
        assert(j + k < cs.len());
        if cs[j + k] != lc[k] {
            proof {
                assert(rest.subrange(0, m as int)[k as int] != lit@[k as int]);
            }
            return false;
        }
        k += 1;
    }
    proof {
        assert(rest.subrange(0, m as int) =~= lit@);
    }
    true
}

/// The length of the first of `options` that the characters of `cs` from
/// position `j` on start with.
fn first_option(options: &Vec<&str>, cs: &Vec<char>, j: usize) -> (r: Option<usize>)
    requires
        j <= cs@.len(),
    ensures
        first_alt(strs_view(options@), cs@.subrange(j as int, cs@.len() as int), 0) == (match r {
            Some(x) => Some(x as nat),
            None => None,
        }),
        r matches Some(x) ==> j + x <= cs@.len(),
{
    let ghost alts = strs_view(options@);
    let ghost rest = cs@.subrange(j as int, cs@.len() as int);
    let mut a: usize = 0;
    while a < options.len()
        invariant
            a <= options@.len(),
            j <= cs@.len(),
            alts == strs_view(options@),
            rest == cs@.subrange(j as int, cs@.len() as int),
            first_alt(alts, rest, 0) == first_alt(alts, rest, a as nat),
        decreases options@.len() - a,
    {
        let opt = options[a];
        if starts_with_at(cs, j, opt) {
            let len = opt.unicode_len();
            return Some(len);
        }
        a += 1;
    }
    None
}

impl<'a> Matcher<'a> {
    /// The tokens, viewed in the model.
    pub open spec fn tokens_model(&self) -> Seq<TokenModel> {
        tokens_view(self.tokens@)
    }

    /// Compiles `text` into tokens, or gives `None` when a `(` in it has no
    /// `)` after it.
    pub fn new(text: &'a str) -> (r: Option<Matcher<'a>>)
        ensures
            r is None <==> compile(text@) is None,
            r matches Some(m) ==> {
                &&& compile(text@) == Some(m.tokens_model())
                &&& m.text == text
                &&& m.most_tokens_matched == 0
            },
            text@.len() == 0 ==> (r matches Some(m) && m.tokens@.len() == 0),
    {
        let pc = chars_of(text);
        let n = pc.len();
        let mut tokens: Vec<MatcherToken<'a>> = Vec::new();
        let mut i: usize = 0;
        while i < n
            invariant
                i <= n,
                n == text@.len(),
                pc@ == text@,
                compile(text@) == append_opt(tokens_view(tokens@), compile_from(text@, i as nat)),
            decreases n - i,
        {
            let ghost before = tokens_view(tokens@);
            let ghost i0 = i as nat;
            if pc[i] == '.' {
                tokens.push(MatcherToken::WildCard);
                i += 1;
            } else if pc[i] == '(' {
                let k = find_char(&pc, ')', i + 1);
                proof {
                    lemma_find_from(text@, ')', i0 + 1);
                }
                if k >= n {
                    return None;
                }
                let inner = text.substring_char(i + 1, k);
                tokens.push(MatcherToken::OneOfText(split_bars(inner)));
                i = k + 1;
            } else {
                let a = find_char(&pc, '.', i);
                let b = find_char(&pc, '(', i);
                proof {
                    lemma_find_from(text@, '.', i0);
                    lemma_find_from(text@, '(', i0);
                }
                let e = if a < b {
                    a
                } else {
                    b
                };
                tokens.push(MatcherToken::RawText(text.substring_char(i, e)));
                i = e;
            }
            proof {
                let t = tokens@.last()@;
                assert(tokens_view(tokens@) =~= before.push(t));
                assert(compile_from(text@, i0) == prepend(t, compile_from(text@, i as nat)));
                match compile_from(text@, i as nat) {
                    Some(rest) => {
                        assert(before + (seq![t] + rest) =~= before.push(t) + rest);
                    },
                    None => {},
                }
            }
        }
        proof {
            assert(tokens_view(tokens@) + seq![] =~= tokens_view(tokens@));
        }
        Some(Matcher { text, tokens, most_tokens_matched: 0 })
    }

    /// Matches `string` against the tokens in one forward pass, and gives each
    /// matched token with the part of `string` it took. Stops at the first
    /// token that fails or when `string` is used up, and raises
    /// `most_tokens_matched` to the number of pairs if that is more.
    pub fn match_string<'b, 'c>(&'b mut self, string: &'c str) -> (r: Vec<
        (&'b MatcherToken<'a>, &'c str),
    >)
        ensures
            r@.len() <= old(self).tokens@.len(),
            forall|k: int| 0 <= k < r@.len() ==> *r@[k].0 == old(self).tokens@[k],
            spans_of(r@) == matched_spans(old(self).tokens_model(), string@),
            string@.len() == 0 ==> r@.len() == 0,
            final(self).text == old(self).text,
            final(self).tokens == old(self).tokens,
            spans_of(r@).flatten() == string@.subrange(0, spans_of(r@).flatten().len() as int),
            final(self).most_tokens_matched == (if r@.len() > old(self).most_tokens_matched {
                r@.len()
            } else {
                old(self).most_tokens_matched as nat
            }),
            final(self).most_tokens_matched >= old(self).most_tokens_matched,
    {
        let ghost toks = self.tokens_model();
        let toks_ref: &'b Vec<MatcherToken<'a>> = &self.tokens;
        let sc = chars_of(string);
        let n = sc.len();
        let mut answer: Vec<(&'b MatcherToken<'a>, &'c str)> = Vec::new();
        let mut t: usize = 0;
        let mut j: usize = 0;
        let mut stopped = false;
        proof {
            assert(string@.subrange(0, n as int) =~= string@);
            assert(spans_of(answer@) =~= Seq::<Seq<char>>::empty());
        }
        while t < toks_ref.len() && !stopped
            invariant
                t <= toks_ref@.len(),
                j <= n,
                n == string@.len(),
                sc@ == string@,
                toks == tokens_view(toks_ref@),
                answer@.len() == t,
                forall|k: int| 0 <= k < t ==> *answer@[k].0 == toks_ref@[k],
                stopped ==> match_rest(toks, t as nat, string@.subrange(j as int, n as int))
                    == Seq::<Seq<char>>::empty(),
                spans_of(answer@) + match_rest(
                    toks,
                    t as nat,
                    string@.subrange(j as int, n as int),
                ) == matched_spans(toks, string@),
            decreases toks_ref@.len() - t + (if stopped { 0int } else { 1int }),
        {
            let ghost rest = string@.subrange(j as int, n as int);
            let ghost before = answer@;
            if j >= n {
                stopped = true;
            } else {
                let token = &toks_ref[t];
                let step: Option<usize> = match token {
                    MatcherToken::WildCard => Some(1),
                    MatcherToken::OneOfText(options) => first_option(options, &sc, j),
                    MatcherToken::RawText(text) => {
                        if starts_with_at(&sc, j, text) {
                            Some(text.unicode_len())
                        } else {
                            None
                        }
                    },
                };
                assert(consumed(toks[t as int], rest) == (match step {
                    Some(x) => Some(x as nat),
                    None => None,
                }));
                match step {
                    None => {
                        stopped = true;
                    },
                    Some(m) => {
                        let piece = string.substring_char(j, j + m);
                        answer.push((token, piece));
                        proof {
                            let later = match_rest(
                                toks,
                                (t + 1) as nat,
                                string@.subrange((j + m) as int, n as int),
                            );
                            assert(rest.subrange(0, m as int) =~= piece@);
                            assert(rest.subrange(m as int, rest.len() as int) =~= string@.subrange(
                                (j + m) as int,
                                n as int,
                            ));
                            assert(spans_of(answer@) =~= spans_of(before).push(piece@));
                            assert(spans_of(answer@) + later =~= spans_of(before) + (seq![piece@]
                                + later));
                        }
                        j = j + m;
                        t = t + 1;
                    },
                }
            }
        }
        proof {
            if !stopped {
                assert(match_rest(toks, t as nat, string@.subrange(j as int, n as int))
                    == Seq::<Seq<char>>::empty());
            }
            assert(spans_of(answer@) + Seq::<Seq<char>>::empty() =~= spans_of(answer@));
            lemma_match_rest_prefix(toks, 0, string@);
        }
        if answer.len() > self.most_tokens_matched {
            self.most_tokens_matched = answer.len();
        }
        answer
    }
}

} // verus!
