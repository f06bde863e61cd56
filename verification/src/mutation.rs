use vstd::prelude::*;
use crate::chars::{
    chars_of, lower_char, push_char, string_from_chars, to_lower_char, to_upper_char, upper_char,
};
use vstd::string::StrSliceExecFns;

verus! {

/// One parametrized word transformation. The set of rules is closed so that
/// a pipeline stays auditable.
#[derive(Debug, Clone)]
pub enum Mutation {
    Uppercase,
    Lowercase,
    Capitalize,
    Reverse,
    RemoveFirst,
    RemoveLast,
    Prepend(String),
    Append(String),
    Replace(char, char),
    Leet(char, char),
    Cases,
    MinLength(usize),
}

/// The mathematical shape of a mutation rule.
pub enum MutationModel {
    Uppercase,
    Lowercase,
    Capitalize,
    Reverse,
    RemoveFirst,
    RemoveLast,
    Prepend(Seq<char>),
    Append(Seq<char>),
    Replace(char, char),
    Leet(char, char),
    Cases,
    MinLength(nat),
}

impl View for Mutation {
    type V = MutationModel;

    open spec fn view(&self) -> MutationModel {
        match self {
            Mutation::Uppercase => MutationModel::Uppercase,
            Mutation::Lowercase => MutationModel::Lowercase,
            Mutation::Capitalize => MutationModel::Capitalize,
            Mutation::Reverse => MutationModel::Reverse,
            Mutation::RemoveFirst => MutationModel::RemoveFirst,
            Mutation::RemoveLast => MutationModel::RemoveLast,
            Mutation::Prepend(p) => MutationModel::Prepend(p@),
            Mutation::Append(a) => MutationModel::Append(a@),
            Mutation::Replace(a, b) => MutationModel::Replace(*a, *b),
            Mutation::Leet(a, b) => MutationModel::Leet(*a, *b),
            Mutation::Cases => MutationModel::Cases,
            Mutation::MinLength(n) => MutationModel::MinLength(*n as nat),
        }
    }
}

/// The models of a sequence of mutation rules.
pub open spec fn mutation_views(ms: Seq<Mutation>) -> Seq<MutationModel> {
    ms.map_values(|m: Mutation| m@)
}

/// The characters of a sequence of words.
pub open spec fn words_view(ws: Seq<String>) -> Seq<Seq<char>> {
    ws.map_values(|w: String| w@)
}

pub open spec fn upper_word(w: Seq<char>) -> Seq<char> {
    w.map_values(|c: char| upper_char(c))
}

pub open spec fn lower_word(w: Seq<char>) -> Seq<char> {
    w.map_values(|c: char| lower_char(c))
}

pub open spec fn capitalize_word(w: Seq<char>) -> Seq<char> {
    if w.len() == 0 {
        w
    } else {
        w.update(0, upper_char(w[0]))
    }
}

pub open spec fn replace_word(w: Seq<char>, a: char, b: char) -> Seq<char> {
    w.map_values(|c: char| if c == a { b } else { c })
}

/// What one rule turns one word into: zero, one, or several candidates.
pub open spec fn apply_spec(m: MutationModel, w: Seq<char>) -> Seq<Seq<char>> {
    match m {
        MutationModel::Uppercase => seq![upper_word(w)],
        MutationModel::Lowercase => seq![lower_word(w)],
        MutationModel::Capitalize => seq![capitalize_word(w)],
        MutationModel::Reverse => seq![w.reverse()],
        MutationModel::RemoveFirst => seq![if w.len() == 0 { w } else { w.skip(1) }],
        MutationModel::RemoveLast => seq![if w.len() == 0 { w } else { w.drop_last() }],
        MutationModel::Prepend(p) => seq![p + w],
        MutationModel::Append(a) => seq![w + a],
        MutationModel::Replace(a, b) => seq![replace_word(w, a, b)],
        MutationModel::Leet(a, b) => seq![w, replace_word(w, a, b)],
        MutationModel::Cases => seq![w, upper_word(w), lower_word(w)],
        MutationModel::MinLength(n) => if w.len() >= n {
            seq![w]
        } else {
            Seq::empty()
        },
    }
}

/// One rule applied to every word of a working set, outputs concatenated in
/// order.
pub open spec fn apply_to_all(m: MutationModel, ws: Seq<Seq<char>>) -> Seq<Seq<char>>
    decreases ws.len(),
{
    if ws.len() == 0 {
        Seq::empty()
    } else {
        apply_to_all(m, ws.drop_last()) + apply_spec(m, ws.last())
    }
}

/// The rules applied in declared order, each to the whole working set of the
/// one before: branching composes multiplicatively.
pub open spec fn pipeline(ms: Seq<MutationModel>, ws: Seq<Seq<char>>) -> Seq<Seq<char>>
    decreases ms.len(),
{
    if ms.len() == 0 {
        ws
    } else {
        pipeline(ms.skip(1), apply_to_all(ms[0], ws))
    }
}

/// What a whole mutation set appends for one word: the final working set, or
/// nothing at all when the set holds no rule.
pub open spec fn set_output(ms: Seq<MutationModel>, w: Seq<char>) -> Seq<Seq<char>> {
    if ms.len() == 0 {
        Seq::empty()
    } else {
        pipeline(ms, seq![w])
    }
}

/// An empty mutation set appends nothing, whatever the word.
pub proof fn lemma_empty_set_appends_nothing(w: Seq<char>)
    ensures
        set_output(Seq::<MutationModel>::empty(), w) == Seq::<Seq<char>>::empty(),
{
}

fn map_chars_string(word: &String, upper: bool) -> (r: String)
    ensures
        upper ==> r@ == upper_word(word@),
        !upper ==> r@ == lower_word(word@),
{
    let cs = chars_of(word.as_str());
    let mut out: Vec<char> = Vec::new();
    let mut i: usize = 0;
    while i < cs.len()
        invariant
            cs@ == word@,
            i <= cs@.len(),
            out@ =~= Seq::new(
                i as nat,
                |j: int| if upper {
                    upper_char(cs@[j])
                } else {
                    lower_char(cs@[j])
                },
            ),
        decreases cs@.len() - i,
    {
        if upper {
            out.push(to_upper_char(cs[i]));
        } else {
            out.push(to_lower_char(cs[i]));
        }
        i = i + 1;
    }
    proof {
        if upper {
            assert(out@ =~= upper_word(word@));
        } else {
            assert(out@ =~= lower_word(word@));
        }
    }
    string_from_chars(&out)
}

fn reverse_string(word: &String) -> (r: String)
    ensures
        r@ == word@.reverse(),
{
    let cs = chars_of(word.as_str());
    let n = cs.len();
    let mut out: Vec<char> = Vec::new();
    let mut i: usize = 0;
    while i < n
        invariant
            cs@ == word@,
            n == cs@.len(),
            i <= n,
            out@ =~= Seq::new(i as nat, |j: int| cs@[n - 1 - j]),
        decreases n - i,
    {
        out.push(cs[n - 1 - i]);
        i = i + 1;
    }
    proof {
        assert(out@ =~= word@.reverse());
    }
    string_from_chars(&out)
}

fn replace_string(word: &String, a: char, b: char) -> (r: String)
    ensures
        r@ == replace_word(word@, a, b),
{
    let cs = chars_of(word.as_str());
    let mut out: Vec<char> = Vec::new();
    let mut i: usize = 0;
    while i < cs.len()
        invariant
            cs@ == word@,
            i <= cs@.len(),
            out@ =~= Seq::new(
                i as nat,
                |j: int| if cs@[j] == a {
                    b
                } else {
                    cs@[j]
                },
            ),
        decreases cs@.len() - i,
    {
        let c = cs[i];
        if c == a {
            out.push(b);
        } else {
            out.push(c);
        }
        i = i + 1;
    }
    proof {
        assert(out@ =~= replace_word(word@, a, b));
    }
    string_from_chars(&out)
}

impl Mutation {
    /// Turns one word into its candidates: a rule may filter it out, change
    /// it one for one, or branch into several candidates.
    pub fn apply(&self, word: &String) -> (r: Vec<String>)
        ensures
            words_view(r@) == apply_spec(self@, word@),
    {
        let mut r: Vec<String> = Vec::new();
        match self {
            Mutation::Uppercase => {
                r.push(map_chars_string(word, true));
            },
            Mutation::Lowercase => {
                r.push(map_chars_string(word, false));
            },
            Mutation::Capitalize => {
                let mut cs = chars_of(word.as_str());
                if cs.len() > 0 {
                    let c0 = to_upper_char(cs[0]);
                    cs.set(0, c0);
                }
                proof {
                    assert(cs@ =~= capitalize_word(word@));
                }
                r.push(string_from_chars(&cs));
            },
            Mutation::Reverse => {
                r.push(reverse_string(word));
            },
            Mutation::RemoveFirst => {
                let cs = chars_of(word.as_str());
                let mut out: Vec<char> = Vec::new();
                let mut i: usize = if cs.len() == 0 {
                    0
                } else {
                    1
                };
                let ghost start = i as int;
                while i < cs.len()
                    invariant
                        cs@ == word@,
                        start <= i as int <= cs@.len() || (cs@.len() == 0 && i == 0),
                        0 <= start <= 1,
                        out@ =~= cs@.subrange(start, i as int),
                    decreases cs@.len() - i,
                {
                    out.push(cs[i]);
                    i = i + 1;
                }
                proof {
                    if word@.len() == 0 {
                        assert(out@ =~= word@);
                    } else {
                        assert(out@ =~= word@.skip(1));
                    }
                }
                r.push(string_from_chars(&out));
            },
            Mutation::RemoveLast => {
                let cs = chars_of(word.as_str());
                let n = if cs.len() == 0 {
                    0
                } else {
                    cs.len() - 1
                };
                let mut out: Vec<char> = Vec::new();
                let mut i: usize = 0;
                while i < n
                    invariant
                        cs@ == word@,
                        n <= cs@.len(),
                        i <= n,
                        out@ =~= cs@.subrange(0, i as int),
                    decreases n - i,
                {
                    out.push(cs[i]);
                    i = i + 1;
                }
                proof {
                    if word@.len() == 0 {
                        assert(out@ =~= word@);
                    } else {
                        assert(out@ =~= word@.drop_last());
                    }
                }
                r.push(string_from_chars(&out));
            },
            Mutation::Prepend(p) => {
                let mut s = p.clone();
                s.append(word.as_str());
                r.push(s);
            },
            Mutation::Append(a) => {
                let mut s = word.clone();
                s.append(a.as_str());
                r.push(s);
            },
            Mutation::Replace(a, b) => {
                r.push(replace_string(word, *a, *b));
            },
            Mutation::Leet(a, b) => {
                r.push(word.clone());
                r.push(replace_string(word, *a, *b));
            },
            Mutation::Cases => {
                r.push(word.clone());
                r.push(map_chars_string(word, true));
                r.push(map_chars_string(word, false));
            },
            Mutation::MinLength(n) => {
                if word.as_str().unicode_len() >= *n {
                    r.push(word.clone());
                }
            },
        }
        proof {
            assert(words_view(r@) =~= apply_spec(self@, word@));
        }
        r
    }
}

/// An ordered pipeline of mutation rules; the order is semantically
/// significant.
pub struct MutationSet {
    pub mutations: Vec<Mutation>,
}

/// One input word together with every candidate its mutation set produced,
/// duplicates permitted, in generation order.
pub struct MutationResult {
    pub original_word: String,
    pub mutated_words: Vec<String>,
}

/// A mutation set holding no rule at all.
pub fn empty_mutation_set() -> (r: MutationSet)
    ensures
        r.mutations@.len() == 0,
{
    MutationSet { mutations: Vec::new() }
}

proof fn lemma_words_view_push(vs: Seq<String>, s: String)
    ensures
        words_view(vs.push(s)) =~= words_view(vs).push(s@),
{
    assert forall|j: int| 0 <= j < vs.len() + 1 implies words_view(vs.push(s))[j] == words_view(
        vs,
    ).push(s@)[j] by {
        if j < vs.len() {
            assert(vs.push(s)[j] == vs[j]);
        } else {
            assert(vs.push(s)[j] == s);
        }
    }
}

proof fn lemma_words_view_concat(a: Seq<String>, b: Seq<String>)
    ensures
        words_view(a + b) =~= words_view(a) + words_view(b),
{
    assert forall|j: int| 0 <= j < a.len() + b.len() implies words_view(a + b)[j] == (words_view(a)
        + words_view(b))[j] by {
        if j < a.len() {
            assert((a + b)[j] == a[j]);
        } else {
            assert((a + b)[j] == b[j - a.len()]);
        }
    }
}

impl MutationSet {
    /// Feeds one word through every rule in declared order and appends the
    /// final working set, in generation order and without deduplication, to
    /// the result's candidates. An empty set appends nothing. The outcome is
    /// a function of the rules and the word alone.
    pub fn perform(&self, result: &mut MutationResult, word: &String)
        ensures
            final(result).original_word == old(result).original_word,
            words_view(final(result).mutated_words@) == words_view(
                old(result).mutated_words@,
            ) + set_output(mutation_views(self.mutations@), word@),
    {
        let ghost msv = mutation_views(self.mutations@);
        let ghost w0 = word@;
        if self.mutations.len() == 0 {
            proof {
                assert(words_view(result.mutated_words@) + set_output(msv, w0) =~= words_view(
                    result.mutated_words@,
                ));
            }
            return ;
        }
        let mut working: Vec<String> = Vec::new();
        working.push(word.clone());
        proof {
            assert(words_view(working@) =~= seq![w0]);
            assert(msv.skip(0) =~= msv);
        }
        let n = self.mutations.len();
        let mut i: usize = 0;
        while i < n
            invariant
                n == self.mutations@.len(),
                msv == mutation_views(self.mutations@),
                i <= n,
                pipeline(msv, seq![w0]) == pipeline(msv.skip(i as int), words_view(working@)),
            decreases n - i,
        {
            let ghost ws = words_view(working@);
            let mut next: Vec<String> = Vec::new();
            let mut j: usize = 0;
            proof {
                assert(ws.subrange(0, 0) =~= Seq::<Seq<char>>::empty());
            }
            while j < working.len()
                invariant
                    i < n,
                    n == self.mutations@.len(),
                    msv == mutation_views(self.mutations@),
                    ws == words_view(working@),
                    j <= working@.len(),
                    words_view(next@) == apply_to_all(msv[i as int], ws.subrange(0, j as int)),
                decreases working@.len() - j,
            {
                let ghost prev = next@;
                let mut outs = self.mutations[i].apply(&working[j]);
                let ghost outsv = outs@;
                next.append(&mut outs);
                proof {
                    lemma_words_view_concat(prev, outsv);
                    assert(ws.subrange(0, j + 1).drop_last() =~= ws.subrange(0, j as int));
                    assert(ws.subrange(0, j + 1).last() == ws[j as int]);
                    assert(ws[j as int] == working@[j as int]@);
                    assert(words_view(next@) =~= apply_to_all(
                        msv[i as int],
                        ws.subrange(0, j + 1),
                    ));
                }
                j = j + 1;
            }
            proof {
                assert(ws.subrange(0, working@.len() as int) =~= ws);
                assert(msv.skip(i as int).skip(1) =~= msv.skip(i + 1));
                assert(msv.skip(i as int)[0] == msv[i as int]);
            }
            working = next;
            i = i + 1;
        }
        proof {
            assert(msv.skip(n as int) =~= Seq::<MutationModel>::empty());
            assert(pipeline(msv, seq![w0]) == words_view(working@));
        }
        let ghost base = words_view(result.mutated_words@);
        let mut k: usize = 0;
        while k < working.len()
            invariant
                k <= working@.len(),
                result.original_word == old(result).original_word,
                base == words_view(old(result).mutated_words@),
                words_view(result.mutated_words@) == base + words_view(working@).subrange(
                    0,
                    k as int,
                ),
            decreases working@.len() - k,
        {
            let ghost prevw = result.mutated_words@;
            result.mutated_words.push(working[k].clone());
            proof {
                lemma_words_view_push(prevw, working@[k as int]);
                assert(words_view(working@).subrange(0, k + 1).drop_last() =~= words_view(
                    working@,
                ).subrange(0, k as int));
                assert(words_view(result.mutated_words@) =~= base + words_view(
                    working@,
                ).subrange(0, k + 1));
            }
            k = k + 1;
        }
        proof {
            assert(words_view(working@).subrange(0, working@.len() as int) =~= words_view(
                working@,
            ));
            assert(words_view(result.mutated_words@) == base + set_output(msv, w0));
        }
    }
}

/// Why a rule descriptor failed to parse: it matched no rule syntax.
#[derive(Debug, PartialEq, Eq)]
pub struct MutationParseError {
    pub descriptor: String,
}

pub open spec fn kw_upper() -> Seq<char> {
    seq!['u', 'p', 'p', 'e', 'r']
}

pub open spec fn kw_lower() -> Seq<char> {
    seq!['l', 'o', 'w', 'e', 'r']
}

pub open spec fn kw_capitalize() -> Seq<char> {
    seq!['c', 'a', 'p', 'i', 't', 'a', 'l', 'i', 'z', 'e']
}

pub open spec fn kw_reverse() -> Seq<char> {
    seq!['r', 'e', 'v', 'e', 'r', 's', 'e']
}

pub open spec fn kw_remove_first() -> Seq<char> {
    seq!['r', 'e', 'm', 'o', 'v', 'e', '_', 'f', 'i', 'r', 's', 't']
}

pub open spec fn kw_remove_last() -> Seq<char> {
    seq!['r', 'e', 'm', 'o', 'v', 'e', '_', 'l', 'a', 's', 't']
}

pub open spec fn kw_cases() -> Seq<char> {
    seq!['c', 'a', 's', 'e', 's']
}

pub open spec fn kw_prepend() -> Seq<char> {
    seq!['p', 'r', 'e', 'p', 'e', 'n', 'd', ':']
}

pub open spec fn kw_append() -> Seq<char> {
    seq!['a', 'p', 'p', 'e', 'n', 'd', ':']
}

pub open spec fn kw_replace() -> Seq<char> {
    seq!['r', 'e', 'p', 'l', 'a', 'c', 'e', ':']
}

pub open spec fn kw_leet() -> Seq<char> {
    seq!['l', 'e', 'e', 't', ':']
}

pub open spec fn kw_min_length() -> Seq<char> {
    seq!['m', 'i', 'n', '_', 'l', 'e', 'n', 'g', 't', 'h', ':']
}

pub open spec fn starts_with(s: Seq<char>, pre: Seq<char>) -> bool {
    s.len() >= pre.len() && s.subrange(0, pre.len() as int) == pre
}

pub open spec fn is_digit(c: char) -> bool {
    '0' <= c && c <= '9'
}

pub open spec fn digit_val(c: char) -> nat {
    ((c as u8) - 48) as nat
}

pub open spec fn digit_char(n: nat) -> char {
    ((48 + n) as u8) as char
}

/// The rule a descriptor names, or nothing when it matches no rule syntax.
/// The minimum-length bound is written as one decimal digit.
pub open spec fn spec_parse_mutation(s: Seq<char>) -> Option<MutationModel> {
    if s == kw_upper() {
        Some(MutationModel::Uppercase)
    } else if s == kw_lower() {
        Some(MutationModel::Lowercase)
    } else if s == kw_capitalize() {
        Some(MutationModel::Capitalize)
    } else if s == kw_reverse() {
        Some(MutationModel::Reverse)
    } else if s == kw_remove_first() {
        Some(MutationModel::RemoveFirst)
    } else if s == kw_remove_last() {
        Some(MutationModel::RemoveLast)
    } else if s == kw_cases() {
        Some(MutationModel::Cases)
    } else if starts_with(s, kw_prepend()) {
        Some(MutationModel::Prepend(s.skip(kw_prepend().len() as int)))
    } else if starts_with(s, kw_append()) {
        Some(MutationModel::Append(s.skip(kw_append().len() as int)))
    } else if starts_with(s, kw_replace()) {
        if s.len() == 11 && s[9] == ':' {
            Some(MutationModel::Replace(s[8], s[10]))
        } else {
            None
        }
    } else if starts_with(s, kw_leet()) {
        if s.len() == 8 && s[6] == ':' {
            Some(MutationModel::Leet(s[5], s[7]))
        } else {
            None
        }
    } else if starts_with(s, kw_min_length()) {
        if s.len() == 12 && is_digit(s[11]) {
            Some(MutationModel::MinLength(digit_val(s[11])))
        } else {
            None
        }
    } else {
        None
    }
}

/// The canonical descriptor of a rule, the inverse of parsing.
pub open spec fn descriptor_of(m: MutationModel) -> Seq<char> {
    match m {
        MutationModel::Uppercase => kw_upper(),
        MutationModel::Lowercase => kw_lower(),
        MutationModel::Capitalize => kw_capitalize(),
        MutationModel::Reverse => kw_reverse(),
        MutationModel::RemoveFirst => kw_remove_first(),
        MutationModel::RemoveLast => kw_remove_last(),
        MutationModel::Cases => kw_cases(),
        MutationModel::Prepend(p) => kw_prepend() + p,
        MutationModel::Append(a) => kw_append() + a,
        MutationModel::Replace(a, b) => kw_replace() + seq![a, ':', b],
        MutationModel::Leet(a, b) => kw_leet() + seq![a, ':', b],
        MutationModel::MinLength(n) => kw_min_length() + seq![digit_char(n)],
    }
}

/// A rule whose parameters fit its descriptor syntax: the length bound of a
/// minimum-length rule is a single decimal digit.
pub open spec fn wf_mutation(m: MutationModel) -> bool {
    match m {
        MutationModel::MinLength(n) => n <= 9,
        _ => true,
    }
}

/// Parsing a rule's canonical descriptor gives back exactly that rule.
pub proof fn lemma_descriptor_round_trip(m: MutationModel)
    requires
        wf_mutation(m),
    ensures
        spec_parse_mutation(descriptor_of(m)) == Some(m),
{
    let d = descriptor_of(m);
    match m {
        MutationModel::Uppercase => {
            assert(d[0] == 'u' && kw_lower()[0] == 'l' && kw_cases()[0] == 'c');
            assert(d.subrange(0, 5) =~= d);
            assert(d.subrange(0, 5)[0] == 'u' && kw_leet()[0] == 'l');
        },
        MutationModel::Lowercase => {
            assert(d[0] == 'l' && kw_upper()[0] == 'u' && kw_cases()[0] == 'c');
            assert(d.subrange(0, 5) =~= d);
            assert(d.subrange(0, 5)[1] == 'o' && kw_leet()[1] == 'e');
        },
        MutationModel::Capitalize => {
            assert(d.len() == 10);
        },
        MutationModel::Reverse => {
            assert(d.len() == 7);
            if starts_with(d, kw_append()) {
                assert(d.subrange(0, 7)[0] == 'r' && kw_append()[0] == 'a');
            }
        },
        MutationModel::RemoveFirst => {
            assert(d.len() == 12);
            if starts_with(d, kw_prepend()) {
                assert(d.subrange(0, 8)[0] == 'r' && kw_prepend()[0] == 'p');
            }
            if starts_with(d, kw_append()) {
                assert(d.subrange(0, 7)[0] == 'r' && kw_append()[0] == 'a');
            }
            if starts_with(d, kw_replace()) {
                assert(d.subrange(0, 8)[2] == 'm' && kw_replace()[2] == 'p');
            }
            if starts_with(d, kw_leet()) {
                assert(d.subrange(0, 5)[0] == 'r' && kw_leet()[0] == 'l');
            }
            if starts_with(d, kw_min_length()) {
                assert(d.subrange(0, 11)[0] == 'r' && kw_min_length()[0] == 'm');
            }
        },
        MutationModel::RemoveLast => {
            assert(d.len() == 11);
            if starts_with(d, kw_prepend()) {
                assert(d.subrange(0, 8)[0] == 'r' && kw_prepend()[0] == 'p');
            }
            if starts_with(d, kw_append()) {
                assert(d.subrange(0, 7)[0] == 'r' && kw_append()[0] == 'a');
            }
            if starts_with(d, kw_replace()) {
                assert(d.subrange(0, 8)[2] == 'm' && kw_replace()[2] == 'p');
            }
            if starts_with(d, kw_leet()) {
                assert(d.subrange(0, 5)[0] == 'r' && kw_leet()[0] == 'l');
            }
            if starts_with(d, kw_min_length()) {
                assert(d.subrange(0, 11)[0] == 'r' && kw_min_length()[0] == 'm');
            }
        },
        MutationModel::Cases => {
            assert(d[0] == 'c' && kw_upper()[0] == 'u' && kw_lower()[0] == 'l');
            assert(d.subrange(0, 5) =~= d);
            assert(d.subrange(0, 5)[0] == 'c' && kw_leet()[0] == 'l');
        },
        MutationModel::Prepend(p) => {
            assert(d.len() == 8 + p.len());
            assert(d[0] == 'p');
            assert(d != kw_capitalize() && d != kw_remove_first() && d != kw_remove_last());
            assert(d.subrange(0, 8) =~= kw_prepend());
            assert(d.skip(8) =~= p);
        },
        MutationModel::Append(a) => {
            assert(d.len() == 7 + a.len());
            assert(d[0] == 'a');
            assert(d != kw_capitalize() && d != kw_reverse() && d != kw_remove_first()
                && d != kw_remove_last());
            if starts_with(d, kw_prepend()) {
                assert(d.subrange(0, 8)[0] == 'a' && kw_prepend()[0] == 'p');
            }
            assert(d.subrange(0, 7) =~= kw_append());
            assert(d.skip(7) =~= a);
        },
        MutationModel::Replace(a, b) => {
            assert(d.len() == 11);
            assert(d[2] == 'p' && kw_remove_last()[2] == 'm');
            if starts_with(d, kw_prepend()) {
                assert(d.subrange(0, 8)[0] == 'r' && kw_prepend()[0] == 'p');
            }
            if starts_with(d, kw_append()) {
                assert(d.subrange(0, 7)[0] == 'r' && kw_append()[0] == 'a');
            }
            assert(d.subrange(0, 8) =~= kw_replace());
            assert(d[9] == ':' && d[8] == a && d[10] == b);
        },
        MutationModel::Leet(a, b) => {
            assert(d.len() == 8);
            if starts_with(d, kw_prepend()) {
                assert(d.subrange(0, 8)[0] == 'l' && kw_prepend()[0] == 'p');
            }
            if starts_with(d, kw_append()) {
                assert(d.subrange(0, 7)[0] == 'l' && kw_append()[0] == 'a');
            }
            if starts_with(d, kw_replace()) {
                assert(d.subrange(0, 8)[0] == 'l' && kw_replace()[0] == 'r');
            }
            assert(d.subrange(0, 5) =~= kw_leet());
            assert(d[6] == ':' && d[5] == a && d[7] == b);
        },
        MutationModel::MinLength(n) => {
            assert(d.len() == 12);
            assert(d[0] == 'm' && kw_remove_first()[0] == 'r');
            if starts_with(d, kw_prepend()) {
                assert(d.subrange(0, 8)[0] == 'm' && kw_prepend()[0] == 'p');
            }
            if starts_with(d, kw_append()) {
                assert(d.subrange(0, 7)[0] == 'm' && kw_append()[0] == 'a');
            }
            if starts_with(d, kw_replace()) {
                assert(d.subrange(0, 8)[0] == 'm' && kw_replace()[0] == 'r');
            }
            if starts_with(d, kw_leet()) {
                assert(d.subrange(0, 5)[0] == 'm' && kw_leet()[0] == 'l');
            }
            assert(d.subrange(0, 11) =~= kw_min_length());
            assert(d[11] == digit_char(n));
            assert(is_digit(digit_char(n)));
            assert(digit_val(digit_char(n)) == n);
        },
    }
}

fn vec_eq_chars(cs: &Vec<char>, kw: &Vec<char>) -> (r: bool)
    ensures
        r == (cs@ == kw@),
{
    if cs.len() != kw.len() {
        return false;
    }
    let mut i: usize = 0;
    while i < cs.len()
        invariant
            cs@.len() == kw@.len(),
            i <= cs@.len(),
            forall|j: int| 0 <= j < i ==> cs@[j] == kw@[j],
        decreases cs@.len() - i,
    {
        if cs[i] != kw[i] {
            return false;
        }
        i = i + 1;
    }
    proof {
        assert(cs@ =~= kw@);
    }
    true
}

fn starts_with_chars(cs: &Vec<char>, pre: &Vec<char>) -> (r: bool)
    ensures
        r == starts_with(cs@, pre@),
{
    if cs.len() < pre.len() {
        return false;
    }
    let mut i: usize = 0;
    while i < pre.len()
        invariant
            cs@.len() >= pre@.len(),
            i <= pre@.len(),
            forall|j: int| 0 <= j < i ==> cs@[j] == pre@[j],
        decreases pre@.len() - i,
    {
        if cs[i] != pre[i] {
            proof {
                assert(cs@.subrange(0, pre@.len() as int)[i as int] != pre@[i as int]);
            }
            return false;
        }
        i = i + 1;
    }
    proof {
        assert(cs@.subrange(0, pre@.len() as int) =~= pre@);
    }
    true
}

fn chars_suffix_string(cs: &Vec<char>, from: usize) -> (r: String)
    requires
        from <= cs@.len(),
    ensures
        r@ == cs@.skip(from as int),
{
    let mut out: Vec<char> = Vec::new();
    let mut i: usize = from;
    while i < cs.len()
        invariant
            from <= i <= cs@.len(),
            out@ =~= cs@.subrange(from as int, i as int),
        decreases cs@.len() - i,
    {
        out.push(cs[i]);
        i = i + 1;
    }
    proof {
        assert(out@ =~= cs@.skip(from as int));
    }
    string_from_chars(&out)
}

/// Parses one rule descriptor; fails, naming the descriptor, exactly when it
/// matches no rule syntax.
pub fn parse_mutation(descriptor: &str) -> (r: Result<Mutation, MutationParseError>)
    ensures
        match spec_parse_mutation(descriptor@) {
            Some(m) => r matches Ok(mu) && mu@ == m,
            None => r matches Err(e) && e.descriptor@ == descriptor@,
        },
{
    let cs = chars_of(descriptor);
    let kw_up = vec!['u', 'p', 'p', 'e', 'r'];
    let kw_lo = vec!['l', 'o', 'w', 'e', 'r'];
    let kw_cap = vec!['c', 'a', 'p', 'i', 't', 'a', 'l', 'i', 'z', 'e'];
    let kw_rev = vec!['r', 'e', 'v', 'e', 'r', 's', 'e'];
    let kw_rf = vec!['r', 'e', 'm', 'o', 'v', 'e', '_', 'f', 'i', 'r', 's', 't'];
    let kw_rl = vec!['r', 'e', 'm', 'o', 'v', 'e', '_', 'l', 'a', 's', 't'];
    let kw_cs = vec!['c', 'a', 's', 'e', 's'];
    let kw_pre = vec!['p', 'r', 'e', 'p', 'e', 'n', 'd', ':'];
    let kw_app = vec!['a', 'p', 'p', 'e', 'n', 'd', ':'];
    let kw_rep = vec!['r', 'e', 'p', 'l', 'a', 'c', 'e', ':'];
    let kw_leet_v = vec!['l', 'e', 'e', 't', ':'];
    let kw_ml = vec!['m', 'i', 'n', '_', 'l', 'e', 'n', 'g', 't', 'h', ':'];
    proof {
        assert(kw_up@ =~= kw_upper());
        assert(kw_lo@ =~= kw_lower());
        assert(kw_cap@ =~= kw_capitalize());
        assert(kw_rev@ =~= kw_reverse());
        assert(kw_rf@ =~= kw_remove_first());
        assert(kw_rl@ =~= kw_remove_last());
        assert(kw_cs@ =~= kw_cases());
        assert(kw_pre@ =~= kw_prepend());
        assert(kw_app@ =~= kw_append());
        assert(kw_rep@ =~= kw_replace());
        assert(kw_leet_v@ =~= kw_leet());
        assert(kw_ml@ =~= kw_min_length());
    }
    if vec_eq_chars(&cs, &kw_up) {
        Ok(Mutation::Uppercase)
    } else if vec_eq_chars(&cs, &kw_lo) {
        Ok(Mutation::Lowercase)
    } else if vec_eq_chars(&cs, &kw_cap) {
        Ok(Mutation::Capitalize)
    } else if vec_eq_chars(&cs, &kw_rev) {
        Ok(Mutation::Reverse)
    } else if vec_eq_chars(&cs, &kw_rf) {
        Ok(Mutation::RemoveFirst)
    } else if vec_eq_chars(&cs, &kw_rl) {
        Ok(Mutation::RemoveLast)
    } else if vec_eq_chars(&cs, &kw_cs) {
        Ok(Mutation::Cases)
    } else if starts_with_chars(&cs, &kw_pre) {
        Ok(Mutation::Prepend(chars_suffix_string(&cs, 8)))
    } else if starts_with_chars(&cs, &kw_app) {
        Ok(Mutation::Append(chars_suffix_string(&cs, 7)))
    } else if starts_with_chars(&cs, &kw_rep) {
        if cs.len() == 11 && cs[9] == ':' {
            Ok(Mutation::Replace(cs[8], cs[10]))
        } else {
            Err(MutationParseError { descriptor: descriptor.to_owned() })
        }
    } else if starts_with_chars(&cs, &kw_leet_v) {
        if cs.len() == 8 && cs[6] == ':' {
            Ok(Mutation::Leet(cs[5], cs[7]))
        } else {
            Err(MutationParseError { descriptor: descriptor.to_owned() })
        }
    } else if starts_with_chars(&cs, &kw_ml) {
        if cs.len() == 12 && '0' <= cs[11] && cs[11] <= '9' {
            let d = ((cs[11] as u8) - 48) as usize;
            Ok(Mutation::MinLength(d))
        } else {
            Err(MutationParseError { descriptor: descriptor.to_owned() })
        }
    } else {
        Err(MutationParseError { descriptor: descriptor.to_owned() })
    }
}

impl Mutation {
    /// The canonical descriptor of this rule, the inverse of parsing; for
    /// display and logging.
    pub fn to_string(&self) -> (r: String)
        requires
            wf_mutation(self@),
        ensures
            r@ == descriptor_of(self@),
    {
        proof {
            reveal_strlit("upper");
            reveal_strlit("lower");
            reveal_strlit("capitalize");
            reveal_strlit("reverse");
            reveal_strlit("remove_first");
            reveal_strlit("remove_last");
            reveal_strlit("cases");
            reveal_strlit("prepend:");
            reveal_strlit("append:");
            reveal_strlit("replace:");
            reveal_strlit("leet:");
            reveal_strlit("min_length:");
        }
        match self {
            Mutation::Uppercase => {
                let r = String::from_str("upper");
                proof {
                    assert(r@ =~= kw_upper());
                }
                r
            },
            Mutation::Lowercase => {
                let r = String::from_str("lower");
                proof {
                    assert(r@ =~= kw_lower());
                }
                r
            },
            Mutation::Capitalize => {
                let r = String::from_str("capitalize");
                proof {
                    assert(r@ =~= kw_capitalize());
                }
                r
            },
            Mutation::Reverse => {
                let r = String::from_str("reverse");
                proof {
                    assert(r@ =~= kw_reverse());
                }
                r
            },
            Mutation::RemoveFirst => {
                let r = String::from_str("remove_first");
                proof {
                    assert(r@ =~= kw_remove_first());
                }
                r
            },
            Mutation::RemoveLast => {
                let r = String::from_str("remove_last");
                proof {
                    assert(r@ =~= kw_remove_last());
                }
                r
            },
            Mutation::Cases => {
                let r = String::from_str("cases");
                proof {
                    assert(r@ =~= kw_cases());
                }
                r
            },
            Mutation::Prepend(p) => {
                let mut r = String::from_str("prepend:");
                proof {
                    assert(r@ =~= kw_prepend());
                }
                r.append(p.as_str());
                r
            },
            Mutation::Append(a) => {
                let mut r = String::from_str("append:");
                proof {
                    assert(r@ =~= kw_append());
                }
                r.append(a.as_str());
                r
            },
            Mutation::Replace(a, b) => {
                let mut r = String::from_str("replace:");
                proof {
                    assert(r@ =~= kw_replace());
                }
                push_char(&mut r, *a);
                push_char(&mut r, ':');
                push_char(&mut r, *b);
                proof {
                    assert(r@ =~= kw_replace() + seq![*a, ':', *b]);
                }
                r
            },
            Mutation::Leet(a, b) => {
                let mut r = String::from_str("leet:");
                proof {
                    assert(r@ =~= kw_leet());
                }
                push_char(&mut r, *a);
                push_char(&mut r, ':');
                push_char(&mut r, *b);
                proof {
                    assert(r@ =~= kw_leet() + seq![*a, ':', *b]);
                }
                r
            },
            Mutation::MinLength(n) => {
                let mut r = String::from_str("min_length:");
                proof {
                    assert(r@ =~= kw_min_length());
                }
                push_char(&mut r, (48 + (*n as u8)) as char);
                proof {
                    assert(r@ =~= kw_min_length() + seq![digit_char(*n as nat)]);
                }
                r
            },
        }
    }
}

/// Parses a list of rule descriptors into one mutation pipeline; fails on
/// the first descriptor that matches no rule syntax, reported before any
/// generation begins.
pub fn parse_mutation_string(descriptors: &Vec<String>) -> (r: Result<
    Vec<Mutation>,
    MutationParseError,
>)
    ensures
        match r {
            Ok(ms) => {
                &&& ms@.len() == descriptors@.len()
                &&& forall|i: int|
                    0 <= i < descriptors@.len() ==> spec_parse_mutation(
                        (#[trigger] descriptors@[i])@,
                    ) == Some((#[trigger] ms@[i])@)
            },
            Err(e) => exists|i: int|
                0 <= i < descriptors@.len() && spec_parse_mutation((#[trigger] descriptors@[i])@)
                    is None && e.descriptor@ == descriptors@[i]@,
        },
{
    let mut ms: Vec<Mutation> = Vec::new();
    let mut i: usize = 0;
    while i < descriptors.len()
        invariant
            i <= descriptors@.len(),
            ms@.len() == i,
            forall|k: int|
                0 <= k < i ==> spec_parse_mutation((#[trigger] descriptors@[k])@) == Some(
                    (#[trigger] ms@[k])@,
                ),
        decreases descriptors@.len() - i,
    {
        match parse_mutation(descriptors[i].as_str()) {
            Ok(m) => {
                ms.push(m);
            },
            Err(e) => {
                return Err(e);
            },
        }
        i = i + 1;
    }
    Ok(ms)
}

/// A rule with one branch of two followed by a rule with one branch of
/// three turns one word into exactly six candidates: the full cross product,
/// in generation order.
pub proof fn lemma_branch_cross_product(m1: MutationModel, m2: MutationModel, w: Seq<char>)
    requires
        m1 is Leet,
        m2 is Cases,
    ensures
        apply_spec(m1, w).len() == 2,
        forall|v: Seq<char>| (#[trigger] apply_spec(m2, v)).len() == 3,
        set_output(seq![m1, m2], w) == apply_spec(m2, apply_spec(m1, w)[0]) + apply_spec(
            m2,
            apply_spec(m1, w)[1],
        ),
        set_output(seq![m1, m2], w).len() == 6,
{
    let ms = seq![m1, m2];
    assert(ms.len() == 2);
    let w1 = seq![w];
    assert(w1.drop_last() =~= Seq::<Seq<char>>::empty());
    assert(w1.last() == w);
    let first_stage = apply_to_all(m1, w1);
    assert(apply_to_all(m1, w1.drop_last()) =~= Seq::<Seq<char>>::empty());
    assert(Seq::<Seq<char>>::empty() + apply_spec(m1, w) =~= apply_spec(m1, w));
    assert(first_stage == apply_spec(m1, w));
    assert(ms.skip(1) =~= seq![m2]);
    assert(ms.skip(1).skip(1) =~= Seq::<MutationModel>::empty());
    let second_stage = apply_to_all(m2, first_stage);
    assert(first_stage.drop_last().drop_last() =~= Seq::<Seq<char>>::empty());
    assert(apply_to_all(m2, first_stage.drop_last().drop_last()) =~= Seq::<Seq<char>>::empty());
    assert(apply_to_all(m2, first_stage.drop_last()) == Seq::<Seq<char>>::empty() + apply_spec(
        m2,
        first_stage.drop_last().last(),
    ));
    assert(first_stage.drop_last().last() == first_stage[0]);
    assert(Seq::<Seq<char>>::empty() + apply_spec(m2, first_stage[0]) =~= apply_spec(m2, first_stage[0]));
    assert(second_stage == apply_spec(m2, first_stage[0]) + apply_spec(m2, first_stage.last()));
    assert(set_output(ms, w) == pipeline(ms, w1));
    assert(pipeline(ms, w1) == pipeline(ms.skip(1), first_stage));
    assert(pipeline(ms.skip(1), first_stage) == pipeline(ms.skip(1).skip(1), second_stage));
    assert(set_output(ms, w) == apply_spec(m2, first_stage[0]) + apply_spec(m2, first_stage[1]));
}

/// One fresh result per configured mutation set: the word fed through each
/// set independently, outputs never merged across sets.
pub fn mutate_word(mutation_sets: &Vec<MutationSet>, word: &String) -> (results: Vec<
    MutationResult,
>)
    ensures
        results@.len() == mutation_sets@.len(),
        forall|i: int|
            0 <= i < results@.len() ==> (#[trigger] results@[i]).original_word@ == word@
                && words_view(results@[i].mutated_words@) == set_output(
                mutation_views(mutation_sets@[i].mutations@),
                word@,
            ),
{
    let mut results: Vec<MutationResult> = Vec::new();
    let mut i: usize = 0;
    while i < mutation_sets.len()
        invariant
            i <= mutation_sets@.len(),
            results@.len() == i,
            forall|k: int|
                0 <= k < i ==> (#[trigger] results@[k]).original_word@ == word@
                    && words_view(results@[k].mutated_words@) == set_output(
                    mutation_views(mutation_sets@[k].mutations@),
                    word@,
                ),
        decreases mutation_sets@.len() - i,
    {
        let mut result = MutationResult {
            original_word: word.clone(),
            mutated_words: Vec::new(),
        };
        mutation_sets[i].perform(&mut result, word);
        proof {
            assert(words_view(Seq::<String>::empty()) =~= Seq::<Seq<char>>::empty());
            assert(words_view(result.mutated_words@) =~= set_output(
                mutation_views(mutation_sets@[i as int].mutations@),
                word@,
            ));
        }
        results.push(result);
        i = i + 1;
    }
    results
}

} // verus!
