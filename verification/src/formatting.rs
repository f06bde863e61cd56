use vstd::prelude::*;
use crate::chars::chars_of;

verus! {

/// Why a pattern failed to parse: an escape sigil at the very end, or an
/// escape followed by a character that names no charset class.
#[derive(Debug, Clone, Copy, PartialEq, Eq)]
pub enum ParseError {
    UnterminatedEscape,
    UnknownClass(char),
}

/// One piece of a pattern: a literal character, or a charset class whose
/// candidate characters substitute at that position.
pub enum Token {
    Literal(char),
    CharClass(Vec<char>),
}

/// The mathematical shape of a token: a literal is the one-character
/// sequence holding its character.
pub enum TokenModel {
    Literal(Seq<char>),
    CharClass(Seq<char>),
}

impl View for Token {
    type V = TokenModel;

    open spec fn view(&self) -> TokenModel {
        match self {
            Token::Literal(c) => TokenModel::Literal(seq![*c]),
            Token::CharClass(cs) => TokenModel::CharClass(cs@),
        }
    }
}

/// The models of a sequence of tokens.
pub open spec fn token_views(ts: Seq<Token>) -> Seq<TokenModel> {
    ts.map_values(|t: Token| t@)
}

proof fn lemma_cons_concat(aa: Seq<TokenModel>, m: TokenModel, rest: Seq<TokenModel>)
    ensures
        aa + (seq![m] + rest) =~= aa.push(m) + rest,
{
}

proof fn lemma_token_views_push(ts: Seq<Token>, t: Token)
    ensures
        token_views(ts.push(t)) =~= token_views(ts).push(t@),
{
    assert forall|j: int| 0 <= j < ts.len() + 1 implies token_views(ts.push(t))[j]
        == token_views(ts).push(t@)[j] by {
        if j < ts.len() {
            assert(ts.push(t)[j] == ts[j]);
        } else {
            assert(ts.push(t)[j] == t);
        }
    }
}

pub open spec fn lowercase_class() -> Seq<char> {
    seq![
        'a', 'b', 'c', 'd', 'e', 'f', 'g', 'h', 'i', 'j', 'k', 'l', 'm',
        'n', 'o', 'p', 'q', 'r', 's', 't', 'u', 'v', 'w', 'x', 'y', 'z',
    ]
}

pub open spec fn uppercase_class() -> Seq<char> {
    seq![
        'A', 'B', 'C', 'D', 'E', 'F', 'G', 'H', 'I', 'J', 'K', 'L', 'M',
        'N', 'O', 'P', 'Q', 'R', 'S', 'T', 'U', 'V', 'W', 'X', 'Y', 'Z',
    ]
}

pub open spec fn digit_class() -> Seq<char> {
    seq!['0', '1', '2', '3', '4', '5', '6', '7', '8', '9']
}

pub open spec fn special_class() -> Seq<char> {
    seq!['!', '@', '#', '$', '%', '^', '&', '*']
}

/// The charset class a class identifier stands for, if any.
pub open spec fn class_of(id: char) -> Option<Seq<char>> {
    if id == 'l' {
        Some(lowercase_class())
    } else if id == 'u' {
        Some(uppercase_class())
    } else if id == 'd' {
        Some(digit_class())
    } else if id == 's' {
        Some(special_class())
    } else {
        None
    }
}

/// What tokenizing a pattern yields: a single left-to-right scan where `%`
/// followed by a class identifier gives a charset token and any other
/// character gives a literal token.
pub open spec fn spec_tokenize(s: Seq<char>) -> Result<Seq<TokenModel>, ParseError>
    decreases s.len(),
{
    if s.len() == 0 {
        Ok(Seq::empty())
    } else if s[0] == '%' {
        if s.len() == 1 {
            Err(ParseError::UnterminatedEscape)
        } else {
            match class_of(s[1]) {
                Some(cs) => match spec_tokenize(s.skip(2)) {
                    Ok(rest) => Ok(seq![TokenModel::CharClass(cs)] + rest),
                    Err(e) => Err(e),
                },
                None => Err(ParseError::UnknownClass(s[1])),
            }
        }
    } else {
        match spec_tokenize(s.skip(1)) {
            Ok(rest) => Ok(seq![TokenModel::Literal(s.subrange(0, 1))] + rest),
            Err(e) => Err(e),
        }
    }
}

pub fn lowercase_chars() -> (r: Vec<char>)
    ensures
        r@ == lowercase_class(),
{
    let r = vec![
        'a', 'b', 'c', 'd', 'e', 'f', 'g', 'h', 'i', 'j', 'k', 'l', 'm',
        'n', 'o', 'p', 'q', 'r', 's', 't', 'u', 'v', 'w', 'x', 'y', 'z',
    ];
    proof {
        assert(r@ =~= lowercase_class());
    }
    r
}

pub fn uppercase_chars() -> (r: Vec<char>)
    ensures
        r@ == uppercase_class(),
{
    let r = vec![
        'A', 'B', 'C', 'D', 'E', 'F', 'G', 'H', 'I', 'J', 'K', 'L', 'M',
        'N', 'O', 'P', 'Q', 'R', 'S', 'T', 'U', 'V', 'W', 'X', 'Y', 'Z',
    ];
    proof {
        assert(r@ =~= uppercase_class());
    }
    r
}

pub fn digit_chars() -> (r: Vec<char>)
    ensures
        r@ == digit_class(),
{
    let r = vec!['0', '1', '2', '3', '4', '5', '6', '7', '8', '9'];
    proof {
        assert(r@ =~= digit_class());
    }
    r
}

pub fn special_chars() -> (r: Vec<char>)
    ensures
        r@ == special_class(),
{
    let r = vec!['!', '@', '#', '$', '%', '^', '&', '*'];
    proof {
        assert(r@ =~= special_class());
    }
    r
}

/// The candidate characters of the class an identifier names.
pub fn class_chars(id: char) -> (r: Option<Vec<char>>)
    ensures
        match class_of(id) {
            Some(s) => r matches Some(v) && v@ == s,
            None => r is None,
        },
{
    if id == 'l' {
        Some(lowercase_chars())
    } else if id == 'u' {
        Some(uppercase_chars())
    } else if id == 'd' {
        Some(digit_chars())
    } else if id == 's' {
        Some(special_chars())
    } else {
        None
    }
}

/// Parses a pattern into tokens in one left-to-right scan: `%` followed by a
/// class identifier becomes a charset token, any other character a literal
/// token. Fails exactly on an escape sigil that ends the pattern or names an
/// unknown class.
pub fn tokenize_format_string(pattern: &str) -> (r: Result<Vec<Token>, ParseError>)
    ensures
        match spec_tokenize(pattern@) {
            Ok(ts) => r matches Ok(v) && token_views(v@) == ts,
            Err(e) => r matches Err(e2) && e2 == e,
        },
{
    let cs = chars_of(pattern);
    let n = cs.len();
    let mut toks: Vec<Token> = Vec::new();
    let mut i: usize = 0;
    proof {
        assert(pattern@.skip(0) =~= pattern@);
        if let Ok(rest) = spec_tokenize(pattern@) {
            assert(token_views(toks@) + rest =~= rest);
        }
    }
    while i < n
        invariant
            cs@ == pattern@,
            n == cs@.len(),
            i <= n,
            spec_tokenize(pattern@) == (match spec_tokenize(pattern@.skip(i as int)) {
                Ok(rest) => Ok::<Seq<TokenModel>, ParseError>(token_views(toks@) + rest),
                Err(e) => Err::<Seq<TokenModel>, ParseError>(e),
            }),
        decreases n - i,
    {
        let ghost pre = toks@;
        let c = cs[i];
        if c == '%' {
            if i + 1 == n {
                return Err(ParseError::UnterminatedEscape);
            }
            let id = cs[i + 1];
            let cls = match class_chars(id) {
                Some(v) => v,
                None => {
                    return Err(ParseError::UnknownClass(id));
                },
            };
            let ghost tok = Token::CharClass(cls);
            let ghost tokm = tok@;
            toks.push(Token::CharClass(cls));
            proof {
                assert(pattern@.skip(i as int).skip(2) =~= pattern@.skip(i + 2));
                assert(toks@ == pre.push(tok));
                lemma_token_views_push(pre, tok);
                assert(token_views(toks@) =~= token_views(pre).push(tokm));
                if let Ok(rest) = spec_tokenize(pattern@.skip(i + 2)) {
                    lemma_cons_concat(token_views(pre), tokm, rest);
                    assert(token_views(pre) + (seq![tokm] + rest) =~= token_views(toks@) + rest);
                }
            }
            i = i + 2;
        } else {
            let ghost tok = Token::Literal(c);
            let ghost tokm = tok@;
            toks.push(Token::Literal(c));
            proof {
                assert(pattern@.skip(i as int).skip(1) =~= pattern@.skip(i + 1));
                assert(pattern@.skip(i as int).subrange(0, 1) =~= seq![c]);
                assert(toks@ == pre.push(tok));
                lemma_token_views_push(pre, tok);
                assert(token_views(toks@) =~= token_views(pre).push(tokm));
                if let Ok(rest) = spec_tokenize(pattern@.skip(i + 1)) {
                    lemma_cons_concat(token_views(pre), tokm, rest);
                    assert(token_views(pre) + (seq![tokm] + rest) =~= token_views(toks@) + rest);
                }
            }
            i = i + 1;
        }
    }
    proof {
        assert(pattern@.skip(n as int) =~= Seq::<char>::empty());
        assert(token_views(toks@) + Seq::<TokenModel>::empty() =~= token_views(toks@));
    }
    Ok(toks)
}

} // verus!
