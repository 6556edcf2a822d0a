//! Splitting a source text into shapable tokens.
//!
//! The text is scanned left to right. At each position the scanner takes,
//! in this order of precedence: a fixed two-character ligature, a single
//! CJK atom, a maximal run of ASCII separators, or a maximal run of word
//! characters. A character in no class is skipped.

use vstd::prelude::*;
use crate::chars::{
    cjk_atom, is_classified, is_cjk_atom, is_multi_pair, is_space_char, is_word_char, multi_pair,
    space_char, word_char,
};

verus! {

/// The class of a token.
#[derive(Clone, Copy, Debug, PartialEq, Eq, Structural)]
pub enum TokenKind {
    /// One of the fixed two-character ligatures.
    MultiSpecial,
    /// A single CJK character, laid out on its own.
    CjkAtom,
    /// A maximal run of word characters.
    Word,
    /// A maximal run of ASCII space, tab and newline characters.
    Space,
}

/// A non-empty substring of the source, the unit of shaping and placement.
#[derive(Debug)]
pub struct Token {
    pub text: Vec<char>,
    pub kind: TokenKind,
}

/// The mathematical value of a token: its text and class.
pub ghost struct TokenModel {
    pub text: Seq<char>,
    pub kind: TokenKind,
}

impl View for Token {
    type V = TokenModel;

    open spec fn view(&self) -> TokenModel {
        TokenModel { text: self.text@, kind: self.kind }
    }
}

/// First position at or after `i` that does not continue a separator run.
pub open spec fn space_run_end(s: Seq<char>, i: int) -> int
    decreases s.len() - i,
{
    if 0 <= i < s.len() && is_space_char(s[i]) {
        space_run_end(s, i + 1)
    } else {
        i
    }
}

/// First position at or after `i` that does not continue a word run.
pub open spec fn word_run_end(s: Seq<char>, i: int) -> int
    decreases s.len() - i,
{
    if 0 <= i < s.len() && is_word_char(s[i]) {
        word_run_end(s, i + 1)
    } else {
        i
    }
}

pub proof fn lemma_space_run_end(s: Seq<char>, i: int)
    requires
        0 <= i <= s.len(),
    ensures
        i <= space_run_end(s, i) <= s.len(),
        forall|k: int| i <= k < space_run_end(s, i) ==> is_space_char(#[trigger] s[k]),
        space_run_end(s, i) == s.len() || !is_space_char(s[space_run_end(s, i)]),
    decreases s.len() - i,
{
    if i < s.len() && is_space_char(s[i]) {
        lemma_space_run_end(s, i + 1);
    }
}

pub proof fn lemma_word_run_end(s: Seq<char>, i: int)
    requires
        0 <= i <= s.len(),
    ensures
        i <= word_run_end(s, i) <= s.len(),
        forall|k: int| i <= k < word_run_end(s, i) ==> is_word_char(#[trigger] s[k]),
        word_run_end(s, i) == s.len() || !is_word_char(s[word_run_end(s, i)]),
    decreases s.len() - i,
{
    if i < s.len() && is_word_char(s[i]) {
        lemma_word_run_end(s, i + 1);
    }
}

/// The token sequence of the text from position `i` on.
pub open spec fn segment_from(s: Seq<char>, i: int) -> Seq<TokenModel>
    decreases s.len() - i,
    via segment_from_decreases
{
    if i < 0 || i >= s.len() {
        Seq::empty()
    } else if i + 1 < s.len() && is_multi_pair(s[i], s[i + 1]) {
        seq![TokenModel { text: s.subrange(i, i + 2), kind: TokenKind::MultiSpecial }]
            + segment_from(s, i + 2)
    } else if is_cjk_atom(s[i]) {
        seq![TokenModel { text: s.subrange(i, i + 1), kind: TokenKind::CjkAtom }]
            + segment_from(s, i + 1)
    } else if is_space_char(s[i]) {
        let e = space_run_end(s, i + 1);
        seq![TokenModel { text: s.subrange(i, e), kind: TokenKind::Space }] + segment_from(s, e)
    } else if is_word_char(s[i]) {
        let e = word_run_end(s, i + 1);
        seq![TokenModel { text: s.subrange(i, e), kind: TokenKind::Word }] + segment_from(s, e)
    } else {
        segment_from(s, i + 1)
    }
}

#[via_fn]
proof fn segment_from_decreases(s: Seq<char>, i: int) {
    if 0 <= i && i < s.len() {
        lemma_space_run_end(s, i + 1);
        lemma_word_run_end(s, i + 1);
    }
}

/// The tokens of the whole text.
pub open spec fn segment_model(s: Seq<char>) -> Seq<TokenModel> {
    segment_from(s, 0)
}

impl Token {
    /// An owned copy with the same text and class.
    pub fn duplicate(&self) -> (r: Token)
        ensures
            r@ == self@,
    {
        let n = self.text.len();
        let r = Token { text: copy_range(&self.text, 0, n), kind: self.kind };
        proof {
            assert(r.text@ =~= self.text@);
        }
        r
    }
}

/// Copy of `v[i..j]`.
fn copy_range(v: &Vec<char>, i: usize, j: usize) -> (r: Vec<char>)
    requires
        i <= j <= v@.len(),
    ensures
        r@ == v@.subrange(i as int, j as int),
{
    let mut r: Vec<char> = Vec::new();
    let mut k = i;
    while k < j
        invariant
            i <= k <= j <= v@.len(),
            r@ == v@.subrange(i as int, k as int),
        decreases j - k,
    {
        r.push(v[k]);
        k = k + 1;
        proof {
            assert(r@ =~= v@.subrange(i as int, k as int));
        }
    }
    r
}

/// Splits the source text into its ordered token sequence.
pub fn segment(text: &Vec<char>) -> (toks: Vec<Token>)
    ensures
        toks@.map_values(|t: Token| t@) == segment_model(text@),
{
    let ghost s = text@;
    let n = text.len();
    let mut toks: Vec<Token> = Vec::new();
    let mut i: usize = 0;
    while i < n
        invariant
            s == text@,
            n == s.len(),
            i <= n,
            segment_from(s, 0) == toks@.map_values(|t: Token| t@) + segment_from(s, i as int),
        decreases n - i,
    {
        let ghost toks_pre = toks@.map_values(|t: Token| t@);
        let c = text[i];
        if i + 1 < n && multi_pair(c, text[i + 1]) {
            let t = copy_range(text, i, i + 2);
            toks.push(Token { text: t, kind: TokenKind::MultiSpecial });
            proof {
                let tm = TokenModel { text: s.subrange(i as int, i + 2), kind: TokenKind::MultiSpecial };
                assert(segment_from(s, i as int) == seq![tm] + segment_from(s, i + 2));
                assert(toks@.map_values(|t: Token| t@) =~= toks_pre.push(tm));
                assert(toks_pre.push(tm) + segment_from(s, i + 2) =~= toks_pre + (seq![tm]
                    + segment_from(s, i + 2)));
            }
            i = i + 2;
        } else if cjk_atom(c) {
            let t = copy_range(text, i, i + 1);
            toks.push(Token { text: t, kind: TokenKind::CjkAtom });
            proof {
                let tm = TokenModel { text: s.subrange(i as int, i + 1), kind: TokenKind::CjkAtom };
                assert(segment_from(s, i as int) == seq![tm] + segment_from(s, i + 1));
                assert(toks@.map_values(|t: Token| t@) =~= toks_pre.push(tm));
                assert(toks_pre.push(tm) + segment_from(s, i + 1) =~= toks_pre + (seq![tm]
                    + segment_from(s, i + 1)));
            }
            i = i + 1;
        } else if space_char(c) {
            let mut j = i + 1;
            while j < n && space_char(text[j])
                invariant
                    s == text@,
                    n == s.len(),
                    i + 1 <= j <= n,
                    space_run_end(s, i + 1) == space_run_end(s, j as int),
                decreases n - j,
            {
                j = j + 1;
            }
            proof {
                assert(space_run_end(s, j as int) == j);
            }
            let t = copy_range(text, i, j);
            toks.push(Token { text: t, kind: TokenKind::Space });
            proof {
                let tm = TokenModel { text: s.subrange(i as int, j as int), kind: TokenKind::Space };
                assert(segment_from(s, i as int) == seq![tm] + segment_from(s, j as int));
                assert(toks@.map_values(|t: Token| t@) =~= toks_pre.push(tm));
                assert(toks_pre.push(tm) + segment_from(s, j as int) =~= toks_pre + (seq![tm]
                    + segment_from(s, j as int)));
            }
            i = j;
        } else if word_char(c) {
            let mut j = i + 1;
            while j < n && word_char(text[j])
                invariant
                    s == text@,
                    n == s.len(),
                    i + 1 <= j <= n,
                    word_run_end(s, i + 1) == word_run_end(s, j as int),
                decreases n - j,
            {
                j = j + 1;
            }
            proof {
                assert(word_run_end(s, j as int) == j);
            }
            let t = copy_range(text, i, j);
            toks.push(Token { text: t, kind: TokenKind::Word });
            proof {
                let tm = TokenModel { text: s.subrange(i as int, j as int), kind: TokenKind::Word };
                assert(segment_from(s, i as int) == seq![tm] + segment_from(s, j as int));
                assert(toks@.map_values(|t: Token| t@) =~= toks_pre.push(tm));
                assert(toks_pre.push(tm) + segment_from(s, j as int) =~= toks_pre + (seq![tm]
                    + segment_from(s, j as int)));
            }
            i = j;
        } else {
            proof {
                assert(segment_from(s, i as int) == segment_from(s, i + 1));
            }
            i = i + 1;
        }
    }
    proof {
        assert(segment_from(s, i as int) =~= Seq::<TokenModel>::empty());
        assert(toks@.map_values(|t: Token| t@) + Seq::<TokenModel>::empty() =~= toks@.map_values(
            |t: Token| t@,
        ));
    }
    toks
}

/// Concatenation of the texts of a token sequence.
pub open spec fn concat_texts(toks: Seq<TokenModel>) -> Seq<char>
    decreases toks.len(),
{
    if toks.len() == 0 {
        Seq::empty()
    } else {
        toks[0].text + concat_texts(toks.skip(1))
    }
}

/// Concatenation of the texts of the non-separator tokens.
pub open spec fn concat_nonspace_texts(toks: Seq<TokenModel>) -> Seq<char>
    decreases toks.len(),
{
    if toks.len() == 0 {
        Seq::empty()
    } else if toks[0].kind is Space {
        concat_nonspace_texts(toks.skip(1))
    } else {
        toks[0].text + concat_nonspace_texts(toks.skip(1))
    }
}

proof fn lemma_concat_cons(t: TokenModel, rest: Seq<TokenModel>)
    ensures
        concat_texts(seq![t] + rest) == t.text + concat_texts(rest),
        concat_nonspace_texts(seq![t] + rest) == if t.kind is Space {
            concat_nonspace_texts(rest)
        } else {
            t.text + concat_nonspace_texts(rest)
        },
{
    let w = seq![t] + rest;
    assert(w[0] == t);
    assert(w.skip(1) =~= rest);
}

proof fn lemma_filter_all_dropped(s: Seq<char>, pred: spec_fn(char) -> bool)
    requires
        forall|k: int| 0 <= k < s.len() ==> !pred(#[trigger] s[k]),
    ensures
        s.filter(pred) == Seq::<char>::empty(),
    decreases s.len(),
{
    reveal(Seq::filter);
    if s.len() > 0 {
        lemma_filter_all_dropped(s.drop_last(), pred);
    }
}

proof fn lemma_filter_all_kept(s: Seq<char>, pred: spec_fn(char) -> bool)
    requires
        forall|k: int| 0 <= k < s.len() ==> pred(#[trigger] s[k]),
    ensures
        s.filter(pred) == s,
    decreases s.len(),
{
    reveal(Seq::filter);
    if s.len() > 0 {
        lemma_filter_all_kept(s.drop_last(), pred);
        assert(s.filter(pred) =~= s);
    }
}

/// Concatenating the token texts in order restores the source text, as
/// long as every source character belongs to some token class.
pub proof fn lemma_segment_concat(s: Seq<char>, i: int)
    requires
        0 <= i <= s.len(),
        forall|k: int| i <= k < s.len() ==> is_classified(#[trigger] s[k]),
    ensures
        concat_texts(segment_from(s, i)) == s.subrange(i, s.len() as int),
    decreases s.len() - i,
{
    if i >= s.len() {
        assert(s.subrange(i, s.len() as int) =~= Seq::<char>::empty());
    } else {
        let e: int = if i + 1 < s.len() && is_multi_pair(s[i], s[i + 1]) {
            i + 2
        } else if is_cjk_atom(s[i]) {
            i + 1
        } else if is_space_char(s[i]) {
            space_run_end(s, i + 1)
        } else {
            word_run_end(s, i + 1)
        };
        lemma_space_run_end(s, i + 1);
        lemma_word_run_end(s, i + 1);
        let tm = segment_from(s, i)[0];
        assert(segment_from(s, i) == seq![tm] + segment_from(s, e));
        lemma_concat_cons(tm, segment_from(s, e));
        lemma_segment_concat(s, e);
        assert(s.subrange(i, s.len() as int) =~= s.subrange(i, e) + s.subrange(
            e,
            s.len() as int,
        ));
    }
}

/// Segmenting is idempotent: segmenting the concatenation of the tokens
/// yields the same tokens, as long as every source character belongs to
/// some token class.
pub proof fn lemma_segment_idempotent(s: Seq<char>)
    requires
        forall|k: int| 0 <= k < s.len() ==> is_classified(#[trigger] s[k]),
    ensures
        segment_model(concat_texts(segment_model(s))) == segment_model(s),
{
    lemma_segment_concat(s, 0);
    assert(s.subrange(0, s.len() as int) =~= s);
}

/// Concatenating the texts of the non-separator tokens in order yields the
/// source text with every separator character removed, as long as every
/// source character belongs to some token class.
pub proof fn lemma_segment_nonspace_concat(s: Seq<char>, i: int)
    requires
        0 <= i <= s.len(),
        forall|k: int| i <= k < s.len() ==> is_classified(#[trigger] s[k]),
    ensures
        concat_nonspace_texts(segment_from(s, i)) == s.subrange(i, s.len() as int).filter(
            |c: char| !is_space_char(c),
        ),
    decreases s.len() - i,
{
    broadcast use Seq::filter_distributes_over_add;

    let pred = |c: char| !is_space_char(c);
    if i >= s.len() {
        assert(s.subrange(i, s.len() as int) =~= Seq::<char>::empty());
        lemma_filter_all_dropped(Seq::<char>::empty(), pred);
    } else {
        let e: int = if i + 1 < s.len() && is_multi_pair(s[i], s[i + 1]) {
            i + 2
        } else if is_cjk_atom(s[i]) {
            i + 1
        } else if is_space_char(s[i]) {
            space_run_end(s, i + 1)
        } else {
            word_run_end(s, i + 1)
        };
        lemma_space_run_end(s, i + 1);
        lemma_word_run_end(s, i + 1);
        let tm = segment_from(s, i)[0];
        assert(segment_from(s, i) == seq![tm] + segment_from(s, e));
        lemma_concat_cons(tm, segment_from(s, e));
        lemma_segment_nonspace_concat(s, e);
        assert(s.subrange(i, s.len() as int) =~= s.subrange(i, e) + s.subrange(
            e,
            s.len() as int,
        ));
        if tm.kind is Space {
            lemma_filter_all_dropped(s.subrange(i, e), pred);
        } else {
            lemma_filter_all_kept(s.subrange(i, e), pred);
        }
    }
}

} // verus!
