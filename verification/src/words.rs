use vstd::prelude::*;
use crate::chars::{chars_of, string_from_chars};
use vstd::string::StrSliceExecFns;

verus! {

/// What stripping HTML tags from a text leaves: the text with every
/// `<`...`>` span removed. The exact shape is regex's affair; it depends on
/// the characters alone.
pub uninterp spec fn strip_tags_of(s: Seq<char>) -> Seq<char>;

/// Relies on regex's Regex::replace_all: removes every non-overlapping
/// match of the fixed tag pattern, a pure function of the text. Regex::new
/// cannot fail here, the pattern being a fixed valid expression.
#[verifier::external_body]
fn strip_html_tags(s: &str) -> (r: String)
    ensures
        r@ == strip_tags_of(s@),
{
    let tag = regex::Regex::new("<[^>]*>").unwrap();
    tag.replace_all(s, "").into_owned()
}

/// The characters std's trim removes at a word's edges: the White_Space
/// property.
pub open spec fn is_space(c: char) -> bool {
    ||| c == ' '
    ||| c == '\t'
    ||| c == '\n'
    ||| c == '\u{B}'
    ||| c == '\u{C}'
    ||| c == '\r'
    ||| c == '\u{85}'
    ||| c == '\u{A0}'
    ||| c == '\u{1680}'
    ||| ('\u{2000}' <= c && c <= '\u{200A}')
    ||| c == '\u{2028}'
    ||| c == '\u{2029}'
    ||| c == '\u{202F}'
    ||| c == '\u{205F}'
    ||| c == '\u{3000}'
}

pub fn is_space_char(c: char) -> (r: bool)
    ensures
        r == is_space(c),
{
    c == ' ' || c == '\t' || c == '\n' || c == '\u{B}' || c == '\u{C}' || c == '\r'
        || c == '\u{85}' || c == '\u{A0}' || c == '\u{1680}' || ('\u{2000}' <= c
        && c <= '\u{200A}') || c == '\u{2028}' || c == '\u{2029}' || c == '\u{202F}'
        || c == '\u{205F}' || c == '\u{3000}'
}

pub open spec fn trim_front(w: Seq<char>) -> Seq<char>
    decreases w.len(),
{
    if w.len() > 0 && is_space(w[0]) {
        trim_front(w.skip(1))
    } else {
        w
    }
}

pub open spec fn trim_back(w: Seq<char>) -> Seq<char>
    decreases w.len(),
{
    if w.len() > 0 && is_space(w.last()) {
        trim_back(w.drop_last())
    } else {
        w
    }
}

/// A word with its leading and trailing whitespace removed.
pub open spec fn trim_spec(w: Seq<char>) -> Seq<char> {
    trim_back(trim_front(w))
}

/// The pieces of a text split at every single space, empty pieces kept.
pub open spec fn split_spaces(s: Seq<char>) -> Seq<Seq<char>>
    decreases s.len(),
{
    if s.len() == 0 {
        seq![Seq::empty()]
    } else {
        let r = split_spaces(s.skip(1));
        if s[0] == ' ' {
            seq![Seq::<char>::empty()] + r
        } else {
            seq![seq![s[0]] + r[0]] + r.skip(1)
        }
    }
}

/// The pieces trimmed, the empty ones dropped.
pub open spec fn clean_words(ps: Seq<Seq<char>>) -> Seq<Seq<char>>
    decreases ps.len(),
{
    if ps.len() == 0 {
        Seq::empty()
    } else {
        clean_words(ps.drop_last()) + (if trim_spec(ps.last()).len() > 0 {
            seq![trim_spec(ps.last())]
        } else {
            Seq::<Seq<char>>::empty()
        })
    }
}

/// The words with every repeat of an earlier word dropped, first
/// occurrences kept in order.
pub open spec fn dedup_words(ws: Seq<Seq<char>>) -> Seq<Seq<char>>
    decreases ws.len(),
{
    if ws.len() == 0 {
        Seq::empty()
    } else {
        let front = dedup_words(ws.drop_last());
        if front.contains(ws.last()) {
            front
        } else {
            front.push(ws.last())
        }
    }
}

/// What word extraction yields for a page text: tags stripped, the text
/// split at spaces, each piece trimmed, empty pieces dropped, and every
/// repeat of an earlier word dropped.
pub open spec fn extracted_words_of(body: Seq<char>) -> Seq<Seq<char>> {
    dedup_words(clean_words(split_spaces(strip_tags_of(body))))
}

/// The characters of a sequence of words.
pub open spec fn pieces_view(ws: Seq<String>) -> Seq<Seq<char>> {
    ws.map_values(|w: String| w@)
}

fn trim_string(w: &String) -> (r: String)
    ensures
        r@ == trim_spec(w@),
{
    let cs = chars_of(w.as_str());
    let n = cs.len();
    let mut lo: usize = 0;
    proof {
        assert(cs@.skip(0) =~= cs@);
    }
    while lo < n && is_space_char(cs[lo])
        invariant
            cs@ == w@,
            n == cs@.len(),
            lo <= n,
            trim_front(w@) == trim_front(cs@.skip(lo as int)),
        decreases n - lo,
    {
        proof {
            assert(cs@.skip(lo as int).skip(1) =~= cs@.skip(lo + 1));
        }
        lo = lo + 1;
    }
    proof {
        assert(trim_front(w@) == cs@.skip(lo as int));
    }
    let mut hi: usize = n;
    while hi > lo && is_space_char(cs[hi - 1])
        invariant
            cs@ == w@,
            n == cs@.len(),
            lo <= hi <= n,
            trim_front(w@) == cs@.skip(lo as int),
            trim_back(cs@.skip(lo as int)) == trim_back(cs@.subrange(lo as int, hi as int)),
        decreases hi,
    {
        proof {
            assert(cs@.subrange(lo as int, hi as int).last() == cs@[hi - 1]);
            assert(cs@.subrange(lo as int, hi as int).drop_last() =~= cs@.subrange(
                lo as int,
                hi - 1,
            ));
        }
        hi = hi - 1;
    }
    proof {
        assert(cs@.skip(lo as int) =~= cs@.subrange(lo as int, n as int));
        assert(trim_back(cs@.subrange(lo as int, hi as int)) == cs@.subrange(
            lo as int,
            hi as int,
        ));
    }
    let mut out: Vec<char> = Vec::new();
    let mut i: usize = lo;
    while i < hi
        invariant
            cs@ == w@,
            lo <= i <= hi <= cs@.len(),
            out@ =~= cs@.subrange(lo as int, i as int),
        decreases hi - i,
    {
        out.push(cs[i]);
        i = i + 1;
    }
    proof {
        assert(out@ =~= cs@.subrange(lo as int, hi as int));
    }
    string_from_chars(&out)
}

proof fn lemma_pieces_view_insert_front(vs: Seq<String>, s: String)
    ensures
        pieces_view(vs.insert(0, s)) =~= seq![s@] + pieces_view(vs),
{
    assert forall|j: int| 0 <= j < vs.len() + 1 implies pieces_view(vs.insert(0, s))[j] == (
    seq![s@] + pieces_view(vs))[j] by {
        if j == 0 {
            assert(vs.insert(0, s)[0] == s);
        } else {
            assert(vs.insert(0, s)[j] == vs[j - 1]);
        }
    }
}

/// The text split at every single space, empty pieces kept, as std's
/// split on the space character gives them.
pub fn split_spaces_vec(s: &str) -> (r: Vec<String>)
    ensures
        pieces_view(r@) == split_spaces(s@),
{
    let cs = chars_of(s);
    let n = cs.len();
    let mut head: Vec<char> = Vec::new();
    let mut tail: Vec<String> = Vec::new();
    let mut i: usize = n;
    proof {
        assert(cs@.skip(n as int) =~= Seq::<char>::empty());
        assert(pieces_view(tail@) =~= Seq::<Seq<char>>::empty());
    }
    while i > 0
        invariant
            cs@ == s@,
            n == cs@.len(),
            i <= n,
            split_spaces(cs@.skip(i as int)) == seq![head@] + pieces_view(tail@),
        decreases i,
    {
        let c = cs[i - 1];
        proof {
            assert(cs@.skip(i - 1).skip(1) =~= cs@.skip(i as int));
            assert(cs@.skip(i - 1)[0] == cs@[i - 1]);
        }
        let ghost r = split_spaces(cs@.skip(i as int));
        if c == ' ' {
            let piece = string_from_chars(&head);
            let ghost oldtail = tail@;
            tail.insert(0, piece);
            head = Vec::new();
            proof {
                lemma_pieces_view_insert_front(oldtail, tail@[0]);
                assert(split_spaces(cs@.skip(i - 1)) =~= seq![head@] + pieces_view(tail@));
            }
        } else {
            let ghost oldhead = head@;
            head.insert(0, c);
            proof {
                assert(head@ =~= seq![c] + oldhead);
                assert(r[0] == oldhead);
                assert(r.skip(1) =~= pieces_view(tail@));
                assert(split_spaces(cs@.skip(i - 1)) =~= seq![head@] + pieces_view(tail@));
            }
        }
        i = i - 1;
    }
    let piece = string_from_chars(&head);
    let ghost oldtail = tail@;
    tail.insert(0, piece);
    proof {
        lemma_pieces_view_insert_front(oldtail, tail@[0]);
        assert(cs@.skip(0) =~= cs@);
        assert(pieces_view(tail@) =~= split_spaces(s@));
    }
    tail
}

fn contains_string(v: &Vec<String>, s: &String) -> (r: bool)
    ensures
        r == pieces_view(v@).contains(s@),
{
    let mut i: usize = 0;
    while i < v.len()
        invariant
            i <= v@.len(),
            forall|j: int| 0 <= j < i ==> (#[trigger] v@[j])@ != s@,
        decreases v@.len() - i,
    {
        if v[i].eq(s) {
            proof {
                assert(pieces_view(v@)[i as int] == s@);
            }
            return true;
        }
        i = i + 1;
    }
    proof {
        assert forall|j: int| 0 <= j < v@.len() implies pieces_view(v@)[j] != s@ by {
            assert(pieces_view(v@)[j] == v@[j]@);
        }
    }
    false
}

/// Extracts the candidate words of a page text: strips the HTML tags,
/// splits at spaces, trims each piece, and keeps the first occurrence of
/// each non-empty word, in order.
pub fn extract_words(page_body: &str) -> (r: Vec<String>)
    ensures
        pieces_view(r@) == extracted_words_of(page_body@),
{
    let stripped = strip_html_tags(page_body);
    let pieces = split_spaces_vec(stripped.as_str());
    let ghost pv = pieces_view(pieces@);
    let mut out: Vec<String> = Vec::new();
    let mut k: usize = 0;
    proof {
        assert(pv.subrange(0, 0) =~= Seq::<Seq<char>>::empty());
    }
    while k < pieces.len()
        invariant
            pv == pieces_view(pieces@),
            k <= pieces@.len(),
            pieces_view(out@) == dedup_words(clean_words(pv.subrange(0, k as int))),
        decreases pieces@.len() - k,
    {
        let ghost pre = out@;
        let t = trim_string(&pieces[k]);
        proof {
            assert(pv.subrange(0, k + 1).drop_last() =~= pv.subrange(0, k as int));
            assert(pv.subrange(0, k + 1).last() == pv[k as int]);
            assert(pv[k as int] == pieces@[k as int]@);
        }
        if !t.as_str().is_empty() {
            let ghost cw = clean_words(pv.subrange(0, k as int));
            proof {
                assert(clean_words(pv.subrange(0, k + 1)) =~= cw + seq![t@]);
                assert((cw + seq![t@]).drop_last() =~= cw);
                assert((cw + seq![t@]).last() == t@);
            }
            if !contains_string(&out, &t) {
                out.push(t);
                proof {
                    assert forall|j: int| 0 <= j < out@.len() implies pieces_view(out@)[j]
                        == pieces_view(pre).push(out@.last()@)[j] by {
                        if j < pre.len() {
                            assert(out@[j] == pre[j]);
                        } else {
                            assert(out@[j] == out@.last());
                        }
                    }
                    assert(pieces_view(out@) =~= pieces_view(pre).push(out@.last()@));
                }
            }
        } else {
            proof {
                assert(clean_words(pv.subrange(0, k + 1)) =~= clean_words(
                    pv.subrange(0, k as int),
                ));
            }
        }
        k = k + 1;
    }
    proof {
        assert(pv.subrange(0, pieces@.len() as int) =~= pv);
    }
    out
}

} // verus!
