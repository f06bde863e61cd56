use vstd::prelude::*;
use vstd::arithmetic::div_mod::{
    lemma_fundamental_div_mod_converse_div, lemma_fundamental_div_mod_converse_mod,
};
use crate::formatting::{spec_tokenize, token_views, ParseError, Token, TokenModel};
use crate::chars::{char_width, push_char, utf8_width};

verus! {

/// How many candidate characters a token offers: a literal offers one, a
/// charset class as many as it has entries.
pub open spec fn base_of(t: TokenModel) -> nat {
    match t {
        TokenModel::Literal(_) => 1,
        TokenModel::CharClass(cs) => cs.len(),
    }
}

/// The candidate character of a token at a cursor value.
pub open spec fn char_at(t: TokenModel, k: int) -> char {
    match t {
        TokenModel::Literal(cs) => cs[0],
        TokenModel::CharClass(cs) => cs[k],
    }
}

/// How many combinations a token sequence renders: the product of the
/// cardinalities of its charset classes.
pub open spec fn total_count(ts: Seq<TokenModel>) -> nat
    decreases ts.len(),
{
    if ts.len() == 0 {
        1
    } else {
        total_count(ts.drop_last()) * base_of(ts.last())
    }
}

/// The n-th rendered combination, in odometer order: the rightmost charset
/// class advances fastest.
pub open spec fn word_at(ts: Seq<TokenModel>, n: int) -> Seq<char>
    decreases ts.len(),
{
    if ts.len() == 0 {
        Seq::empty()
    } else {
        let b = base_of(ts.last()) as int;
        word_at(ts.drop_last(), n / b).push(char_at(ts.last(), n % b))
    }
}

/// The bytes one token contributes over all of its candidate characters.
pub open spec fn width_sum(t: TokenModel) -> nat {
    match t {
        TokenModel::Literal(cs) => utf8_width(cs[0]),
        TokenModel::CharClass(cs) => widths_total(cs),
    }
}

/// The total UTF-8 width of a sequence of characters.
pub open spec fn widths_total(cs: Seq<char>) -> nat
    decreases cs.len(),
{
    if cs.len() == 0 {
        0
    } else {
        widths_total(cs.drop_last()) + utf8_width(cs.last())
    }
}

/// The total number of bytes over all rendered combinations: each position
/// contributes the sum of its candidates' widths times the product of the
/// cardinalities of every other position.
pub open spec fn total_size(ts: Seq<TokenModel>) -> nat
    decreases ts.len(),
{
    if ts.len() == 0 {
        0
    } else {
        total_size(ts.drop_last()) * base_of(ts.last()) + width_sum(ts.last()) * total_count(
            ts.drop_last(),
        )
    }
}

/// Every cursor sits inside its token's base.
pub open spec fn cursors_valid(ts: Seq<TokenModel>, cu: Seq<usize>) -> bool {
    cu.len() == ts.len() && forall|i: int|
        0 <= i < ts.len() ==> (cu[i] as nat) < base_of(ts[i])
}

/// The number a cursor vector stands for in the mixed-radix counter whose
/// digit bases are the token bases, rightmost digit fastest.
pub open spec fn cursor_index(ts: Seq<TokenModel>, cu: Seq<usize>) -> nat
    decreases ts.len(),
{
    if ts.len() == 0 {
        0
    } else {
        cursor_index(ts.drop_last(), cu.drop_last()) * base_of(ts.last()) + cu.last() as nat
    }
}

proof fn lemma_cursor_index_zero(ts: Seq<TokenModel>, cu: Seq<usize>)
    requires
        cu.len() == ts.len(),
        forall|i: int| 0 <= i < cu.len() ==> cu[i] == 0usize,
    ensures
        cursor_index(ts, cu) == 0,
    decreases ts.len(),
{
    if ts.len() > 0 {
        lemma_cursor_index_zero(ts.drop_last(), cu.drop_last());
        let q = cursor_index(ts.drop_last(), cu.drop_last());
        let b = base_of(ts.last());
        assert(q * b == 0) by (nonlinear_arith)
            requires
                q == 0,
        ;
    }
}

proof fn lemma_zero_base_total(ts: Seq<TokenModel>, i: int)
    requires
        0 <= i < ts.len(),
        base_of(ts[i]) == 0,
    ensures
        total_count(ts) == 0,
    decreases ts.len(),
{
    let t = total_count(ts.drop_last());
    let b = base_of(ts.last());
    if i == ts.len() - 1 {
        assert(t * b == 0) by (nonlinear_arith)
            requires
                b == 0,
        ;
    } else {
        lemma_zero_base_total(ts.drop_last(), i);
        assert(t * b == 0) by (nonlinear_arith)
            requires
                t == 0,
        ;
    }
}

proof fn lemma_cursor_index_bound(ts: Seq<TokenModel>, cu: Seq<usize>)
    requires
        cursors_valid(ts, cu),
    ensures
        cursor_index(ts, cu) < total_count(ts),
    decreases ts.len(),
{
    if ts.len() == 0 {
    } else {
        let front_ts = ts.drop_last();
        let front_cu = cu.drop_last();
        assert(cursors_valid(front_ts, front_cu));
        lemma_cursor_index_bound(front_ts, front_cu);
        let q = cursor_index(front_ts, front_cu);
        let t = total_count(front_ts);
        let b = base_of(ts.last());
        let r = cu.last() as nat;
        assert(q * b + r < t * b) by (nonlinear_arith)
            requires
                q < t,
                r < b,
        ;
    }
}

proof fn lemma_word_at_cursors(ts: Seq<TokenModel>, cu: Seq<usize>)
    requires
        cursors_valid(ts, cu),
    ensures
        word_at(ts, cursor_index(ts, cu) as int) =~= Seq::new(
            ts.len(),
            |i: int| char_at(ts[i], cu[i] as int),
        ),
    decreases ts.len(),
{
    if ts.len() == 0 {
    } else {
        let front_ts = ts.drop_last();
        let front_cu = cu.drop_last();
        assert(cursors_valid(front_ts, front_cu));
        lemma_word_at_cursors(front_ts, front_cu);
        let q = cursor_index(front_ts, front_cu) as int;
        let b = base_of(ts.last()) as int;
        let r = cu.last() as int;
        let n = cursor_index(ts, cu) as int;
        assert(n == q * b + r);
        lemma_fundamental_div_mod_converse_div(n, b, q, r);
        lemma_fundamental_div_mod_converse_mod(n, b, q, r);
        assert(word_at(ts, n) == word_at(front_ts, q).push(char_at(ts.last(), r)));
    }
}

/// A generator over a tokenized pattern: a mixed-radix counter with one
/// cursor per token, exhausted once the leftmost class would wrap.
pub struct TokenIterator<'a> {
    pub tokens: &'a Vec<Token>,
    pub cursors: Vec<usize>,
    pub done: bool,
}

impl<'a> TokenIterator<'a> {
    /// The models of the tokens driven by this generator.
    pub open spec fn tokens_view(&self) -> Seq<TokenModel> {
        token_views(self.tokens@)
    }

    pub open spec fn wf(&self) -> bool {
        &&& self.cursors@.len() == self.tokens@.len()
        &&& !self.done ==> cursors_valid(self.tokens_view(), self.cursors@)
    }

    /// How many words were already produced: the cursor reading while the
    /// generator runs, the full count once it is exhausted.
    pub open spec fn position(&self) -> nat {
        if self.done {
            total_count(self.tokens_view())
        } else {
            cursor_index(self.tokens_view(), self.cursors@)
        }
    }
}

fn token_base(t: &Token) -> (r: usize)
    ensures
        r as nat == base_of(t@),
{
    match t {
        Token::Literal(_) => 1,
        Token::CharClass(cs) => cs.len(),
    }
}

/// A fresh generator over the given tokens, standing before the first
/// combination.
pub fn token_iterator<'a>(tokens: &'a Vec<Token>) -> (r: TokenIterator<'a>)
    ensures
        r.wf(),
        r.tokens_view() == token_views(tokens@),
        r.position() == 0,
{
    let n = tokens.len();
    let mut cursors: Vec<usize> = Vec::new();
    let mut empty_class = false;
    let ghost ts = token_views(tokens@);
    let mut i: usize = 0;
    while i < n
        invariant
            n == tokens@.len(),
            ts == token_views(tokens@),
            i <= n,
            cursors@.len() == i,
            forall|j: int| 0 <= j < i ==> cursors@[j] == 0usize,
            empty_class <==> (exists|j: int| 0 <= j < i && base_of(ts[j]) == 0),
        decreases n - i,
    {
        cursors.push(0);
        if token_base(&tokens[i]) == 0 {
            empty_class = true;
            proof {
                assert(base_of(ts[i as int]) == 0);
            }
        }
        i = i + 1;
    }
    proof {
        lemma_cursor_index_zero(ts, cursors@);
        if empty_class {
            let j = choose|j: int| 0 <= j < n && base_of(ts[j]) == 0;
            lemma_zero_base_total(ts, j);
        }
    }
    TokenIterator { tokens, cursors, done: empty_class }
}

/// Advances the mixed-radix counter below position `i` by one, carrying
/// rightmost-first; reports whether the carry fell off the left end.
fn advance_prefix(tokens: &Vec<Token>, cursors: &mut Vec<usize>, i: usize) -> (carry: bool)
    requires
        i <= tokens@.len(),
        old(cursors)@.len() == tokens@.len(),
        cursors_valid(token_views(tokens@), old(cursors)@),
    ensures
        final(cursors)@.len() == old(cursors)@.len(),
        forall|j: int| i <= j < final(cursors)@.len() ==> final(cursors)@[j] == old(cursors)@[j],
        cursors_valid(token_views(tokens@), final(cursors)@),
        ({
            let tsp = token_views(tokens@).subrange(0, i as int);
            let before = cursor_index(tsp, old(cursors)@.subrange(0, i as int));
            let after = cursor_index(tsp, final(cursors)@.subrange(0, i as int));
            if carry {
                before == total_count(tsp) - 1 && after == 0
            } else {
                after == before + 1
            }
        }),
    decreases i,
{
    let ghost ts = token_views(tokens@);
    if i == 0 {
        proof {
            assert(old(cursors)@.subrange(0, 0) =~= cursors@.subrange(0, 0));
        }
        true
    } else {
        let idx = i - 1;
        let ghost tsp = ts.subrange(0, i as int);
        let ghost front = ts.subrange(0, idx as int);
        proof {
            assert(tsp.drop_last() =~= front);
            assert(tsp.last() == ts[idx as int]);
        }
        let b = token_base(&tokens[idx]);
        let cur = cursors[idx];
        if cur + 1 < b {
            let ghost pre = cursors@;
            cursors.set(idx, cur + 1);
            proof {
                assert(cursors_valid(ts, cursors@));
                assert(cursors@.subrange(0, i as int).drop_last() =~= pre.subrange(
                    0,
                    idx as int,
                ));
                assert(pre.subrange(0, i as int).drop_last() =~= pre.subrange(0, idx as int));
                assert(cursors@.subrange(0, i as int).last() == cur + 1);
                assert(pre.subrange(0, i as int).last() == cur);
            }
            false
        } else {
            let ghost pre = cursors@;
            cursors.set(idx, 0);
            proof {
                assert(cursors_valid(ts, cursors@));
                assert(cursors@.subrange(0, idx as int) =~= pre.subrange(0, idx as int));
            }
            let ghost mid = cursors@;
            let carry = advance_prefix(tokens, cursors, idx);
            proof {
                let before_front = cursor_index(front, pre.subrange(0, idx as int));
                let after_front = cursor_index(front, cursors@.subrange(0, idx as int));
                assert(mid.subrange(0, idx as int) =~= pre.subrange(0, idx as int));
                assert(cursors@.subrange(0, i as int).drop_last() =~= cursors@.subrange(
                    0,
                    idx as int,
                ));
                assert(pre.subrange(0, i as int).drop_last() =~= pre.subrange(0, idx as int));
                assert(cursors@.subrange(0, i as int).last() == cursors@[idx as int]);
                assert(cursors@[idx as int] == mid[idx as int]);
                assert(pre.subrange(0, i as int).last() == cur);
                let bb = base_of(tsp.last());
                assert(cur + 1 == bb);
                if carry {
                    assert(before_front == total_count(front) - 1);
                    assert(cursor_index(tsp, pre.subrange(0, i as int)) == before_front * bb + (
                    bb - 1));
                    assert(before_front * bb + (bb - 1) == total_count(front) * bb - 1)
                        by (nonlinear_arith)
                        requires
                            before_front == total_count(front) - 1,
                            bb >= 1,
                    ;
                    assert(after_front * bb == 0) by (nonlinear_arith)
                        requires
                            after_front == 0,
                    ;
                } else {
                    assert(cursor_index(tsp, cursors@.subrange(0, i as int)) == after_front * bb);
                    assert(cursor_index(tsp, pre.subrange(0, i as int)) == before_front * bb + (
                    bb - 1));
                    assert(after_front * bb == before_front * bb + bb) by (nonlinear_arith)
                        requires
                            after_front == before_front + 1,
                    ;
                }
            }
            carry
        }
    }
}

impl<'a> TokenIterator<'a> {
    /// The next rendered combination, or nothing once every combination was
    /// produced. The word handed out after `k` earlier calls on a fresh
    /// generator is `word_at(tokens, k)`, a function of the tokens alone: two
    /// fresh generators over equal tokens emit identical sequences.
    pub fn next_word(&mut self) -> (r: Option<String>)
        requires
            old(self).wf(),
        ensures
            final(self).wf(),
            final(self).tokens == old(self).tokens,
            ({
                let ts = old(self).tokens_view();
                let p = old(self).position();
                if p < total_count(ts) {
                    &&& r matches Some(w) && w@ == word_at(ts, p as int)
                    &&& final(self).position() == p + 1
                } else {
                    &&& r is None
                    &&& final(self).position() == p
                }
            }),
    {
        let ghost ts = self.tokens_view();
        if self.done {
            return None;
        }
        proof {
            lemma_cursor_index_bound(ts, self.cursors@);
        }
        let n = self.tokens.len();
        let mut out = String::new();
        let mut i: usize = 0;
        while i < n
            invariant
                n == self.tokens@.len(),
                ts == self.tokens_view(),
                i <= n,
                cursors_valid(ts, self.cursors@),
                out@ =~= Seq::new(i as nat, |j: int| char_at(ts[j], self.cursors@[j] as int)),
            decreases n - i,
        {
            match &self.tokens[i] {
                Token::Literal(ch) => {
                    push_char(&mut out, *ch);
                },
                Token::CharClass(cs) => {
                    let k = self.cursors[i];
                    proof {
                        assert(base_of(ts[i as int]) == cs@.len());
                    }
                    push_char(&mut out, cs[k]);
                },
            }
            i = i + 1;
        }
        proof {
            lemma_word_at_cursors(ts, self.cursors@);
            assert(out@ =~= word_at(ts, cursor_index(ts, self.cursors@) as int));
        }
        let toks = self.tokens;
        let carry = advance_prefix(toks, &mut self.cursors, n);
        proof {
            assert(ts.subrange(0, n as int) =~= ts);
            assert(old(self).cursors@.subrange(0, n as int) =~= old(self).cursors@);
            assert(self.cursors@.subrange(0, n as int) =~= self.cursors@);
        }
        if carry {
            self.done = true;
        }
        Some(out)
    }

    /// The number of combinations this generator will render, saturating at
    /// the largest representable value instead of wrapping: a pattern whose
    /// true product exceeds that value reports exactly the maximum.
    pub fn calculate_total(&self) -> (r: u64)
        ensures
            ({
                let t = total_count(self.tokens_view());
                if t <= u64::MAX {
                    r as nat == t
                } else {
                    r == u64::MAX
                }
            }),
    {
        let ghost ts = self.tokens_view();
        let n = self.tokens.len();
        let mut acc: u64 = 1;
        let mut i: usize = 0;
        proof {
            assert(ts.subrange(0, 0) =~= Seq::<TokenModel>::empty());
        }
        while i < n
            invariant
                n == self.tokens@.len(),
                ts == self.tokens_view(),
                i <= n,
                ({
                    let t = total_count(ts.subrange(0, i as int));
                    if t <= u64::MAX {
                        acc as nat == t
                    } else {
                        acc == u64::MAX
                    }
                }),
            decreases n - i,
        {
            let ghost tp = total_count(ts.subrange(0, i as int));
            let b = token_base(&self.tokens[i]);
            let b64 = b as u64;
            proof {
                assert(ts.subrange(0, i + 1).drop_last() =~= ts.subrange(0, i as int));
                assert(ts.subrange(0, i + 1).last() == ts[i as int]);
            }
            let next = match acc.checked_mul(b64) {
                Some(v) => v,
                None => u64::MAX,
            };
            proof {
                if tp >= 1 && b >= 1 {
                    lemma_mul_lower(tp, b as nat);
                }
                lemma_saturating_mul(tp, acc, b as nat, b64, next);
            }
            acc = next;
            i = i + 1;
        }
        proof {
            assert(ts.subrange(0, n as int) =~= ts);
        }
        acc
    }
}

fn token_width_sum(t: &Token) -> (r: u64)
    ensures
        ({
            let w = width_sum(t@);
            if w <= u64::MAX {
                r as nat == w
            } else {
                r == u64::MAX
            }
        }),
{
    match t {
        Token::Literal(c) => char_width(*c) as u64,
        Token::CharClass(cs) => {
            let ghost csv = cs@;
            let mut acc: u64 = 0;
            let mut i: usize = 0;
            proof {
                assert(csv.subrange(0, 0) =~= Seq::<char>::empty());
            }
            while i < cs.len()
                invariant
                    csv == cs@,
                    i <= csv.len(),
                    ({
                        let w = widths_total(csv.subrange(0, i as int));
                        if w <= u64::MAX {
                            acc as nat == w
                        } else {
                            acc == u64::MAX
                        }
                    }),
                decreases csv.len() - i,
            {
                proof {
                    assert(csv.subrange(0, i + 1).drop_last() =~= csv.subrange(0, i as int));
                    assert(csv.subrange(0, i + 1).last() == csv[i as int]);
                }
                acc = acc.saturating_add(char_width(cs[i]) as u64);
                i = i + 1;
            }
            proof {
                assert(csv.subrange(0, csv.len() as int) =~= csv);
            }
            acc
        },
    }
}

impl<'a> TokenIterator<'a> {
    /// The total byte size of every combination this generator renders, one
    /// per line not counted, saturating at the largest representable value:
    /// each position contributes the widths of its candidates times the
    /// number of combinations of all other positions, so when every rendered
    /// combination has one byte length the size is the count times that
    /// length.
    pub fn calculate_size(&self) -> (r: u64)
        ensures
            ({
                let sz = total_size(self.tokens_view());
                if sz <= u64::MAX {
                    r as nat == sz
                } else {
                    r == u64::MAX
                }
            }),
    {
        let ghost ts = self.tokens_view();
        let n = self.tokens.len();
        let mut size: u64 = 0;
        let mut count: u64 = 1;
        let mut i: usize = 0;
        proof {
            assert(ts.subrange(0, 0) =~= Seq::<TokenModel>::empty());
        }
        while i < n
            invariant
                n == self.tokens@.len(),
                ts == self.tokens_view(),
                i <= n,
                ({
                    let t = total_count(ts.subrange(0, i as int));
                    if t <= u64::MAX {
                        count as nat == t
                    } else {
                        count == u64::MAX
                    }
                }),
                ({
                    let sz = total_size(ts.subrange(0, i as int));
                    if sz <= u64::MAX {
                        size as nat == sz
                    } else {
                        size == u64::MAX
                    }
                }),
            decreases n - i,
        {
            let ghost tp = total_count(ts.subrange(0, i as int));
            let ghost sp = total_size(ts.subrange(0, i as int));
            let b = token_base(&self.tokens[i]);
            let b64 = b as u64;
            let w = token_width_sum(&self.tokens[i]);
            let ghost wt = width_sum(ts[i as int]);
            proof {
                assert(ts.subrange(0, i + 1).drop_last() =~= ts.subrange(0, i as int));
                assert(ts.subrange(0, i + 1).last() == ts[i as int]);
            }
            let t1 = match size.checked_mul(b64) {
                Some(v) => v,
                None => u64::MAX,
            };
            proof {
                if sp >= 1 && b >= 1 {
                    lemma_mul_lower(sp, b as nat);
                }
                lemma_saturating_mul(sp, size, b as nat, b64, t1);
            }
            let t2 = match w.checked_mul(count) {
                Some(v) => v,
                None => u64::MAX,
            };
            proof {
                if wt >= 1 && tp >= 1 {
                    lemma_mul_lower(wt, tp);
                }
                lemma_saturating_mul(wt, w, tp, count, t2);
            }
            size = t1.saturating_add(t2);
            let next = match count.checked_mul(b64) {
                Some(v) => v,
                None => u64::MAX,
            };
            proof {
                if tp >= 1 && b >= 1 {
                    lemma_mul_lower(tp, b as nat);
                }
                lemma_saturating_mul(tp, count, b as nat, b64, next);
            }
            count = next;
            i = i + 1;
        }
        proof {
            assert(ts.subrange(0, n as int) =~= ts);
        }
        size
    }
}

/// A token sequence without charset classes admits exactly one combination,
/// and that single combination renders each token's own character.
pub proof fn lemma_all_literals_render(ts: Seq<TokenModel>)
    requires
        forall|i: int| 0 <= i < ts.len() ==> ts[i] is Literal,
    ensures
        total_count(ts) == 1,
        word_at(ts, 0) =~= Seq::new(ts.len(), |i: int| char_at(ts[i], 0)),
    decreases ts.len(),
{
    if ts.len() > 0 {
        lemma_all_literals_render(ts.drop_last());
        let t = total_count(ts.drop_last());
        let b = base_of(ts.last());
        assert(t * b == 1) by (nonlinear_arith)
            requires
                t == 1,
                b == 1,
        ;
        assert(0int / 1 == 0);
        assert(0int % 1 == 0);
    }
}

proof fn lemma_literal_tokens(p: Seq<char>)
    requires
        forall|i: int| 0 <= i < p.len() ==> p[i] != '%',
    ensures
        spec_tokenize(p) matches Ok(ts) && ts.len() == p.len() && forall|i: int|
            0 <= i < p.len() ==> #[trigger] ts[i] is Literal && char_at(ts[i], 0) == p[i],
    decreases p.len(),
{
    if p.len() > 0 {
        assert(p[0] != '%');
        assert forall|i: int| 0 <= i < p.skip(1).len() implies p.skip(1)[i] != '%' by {
            assert(p.skip(1)[i] == p[i + 1]);
        }
        lemma_literal_tokens(p.skip(1));
        if let Ok(rest) = spec_tokenize(p.skip(1)) {
            let head = seq![TokenModel::Literal(p.subrange(0, 1))];
            let ts = head + rest;
            assert(spec_tokenize(p) == Ok::<Seq<TokenModel>, ParseError>(ts));
            assert forall|i: int| 0 <= i < p.len() implies #[trigger] ts[i] is Literal
                && char_at(ts[i], 0) == p[i] by {
                if i > 0 {
                    assert(ts[i] == rest[i - 1]);
                    assert(p.skip(1)[i - 1] == p[i]);
                } else {
                    assert(ts[0] == head[0]);
                    assert(p.subrange(0, 1)[0] == p[0]);
                }
            }
        }
    }
}

/// A pattern without the escape sigil yields exactly one combination, and
/// that single combination is the pattern itself.
pub proof fn lemma_pattern_without_classes(p: Seq<char>)
    requires
        forall|i: int| 0 <= i < p.len() ==> p[i] != '%',
    ensures
        spec_tokenize(p) matches Ok(ts) && total_count(ts) == 1 && word_at(ts, 0) == p,
{
    lemma_literal_tokens(p);
    if let Ok(ts) = spec_tokenize(p) {
        lemma_all_literals_render(ts);
        assert(word_at(ts, 0) =~= p);
    }
}

/// If `x` and `y` are the saturated images of `xt` and `yt`, the saturated
/// product of `x` and `y` is the saturated image of `xt * yt`.
proof fn lemma_saturating_mul(xt: nat, x: u64, yt: nat, y: u64, t: u64)
    requires
        xt <= u64::MAX ==> x as nat == xt,
        xt > u64::MAX ==> x == u64::MAX,
        yt <= u64::MAX ==> y as nat == yt,
        yt > u64::MAX ==> y == u64::MAX,
        x as nat * y as nat <= u64::MAX ==> t as nat == x as nat * y as nat,
        x as nat * y as nat > u64::MAX ==> t == u64::MAX,
    ensures
        xt * yt <= u64::MAX ==> t as nat == xt * yt,
        xt * yt > u64::MAX ==> t == u64::MAX,
{
    if xt <= u64::MAX && yt <= u64::MAX {
        assert(x as nat * y as nat == xt * yt);
    } else if xt == 0 || yt == 0 {
        assert(xt * yt == 0 && x as nat * y as nat == 0) by (nonlinear_arith)
            requires
                xt == 0 || yt == 0,
                xt == 0 ==> x == 0,
                yt == 0 ==> y == 0,
        ;
    } else {
        lemma_mul_lower(xt, yt);
        assert(x as nat * y as nat >= u64::MAX && xt * yt > u64::MAX) by (nonlinear_arith)
            requires
                xt >= 1 && yt >= 1 && x as nat >= 1 && y as nat >= 1,
                xt > u64::MAX || yt > u64::MAX,
                xt > u64::MAX ==> x == u64::MAX,
                yt > u64::MAX ==> y == u64::MAX,
                xt <= u64::MAX ==> x as nat == xt,
                yt <= u64::MAX ==> y as nat == yt,
                xt <= xt * yt && yt <= xt * yt,
        ;
    }
}

proof fn lemma_mul_lower(a: nat, b: nat)
    requires
        a >= 1,
        b >= 1,
    ensures
        a <= a * b,
        b <= a * b,
{
    assert(a <= a * b && b <= a * b) by (nonlinear_arith)
        requires
            a >= 1,
            b >= 1,
    ;
}

} // verus!
