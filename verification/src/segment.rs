//! Word segmentation.
//!
//! A text is split into alternating tokens: maximal runs of alphabetic
//! characters ("words") and maximal runs of everything else ("separators" —
//! whitespace, punctuation, digits, symbols). Concatenating the tokens in
//! order reproduces the text exactly.

use vstd::prelude::*;
use vstd::string::StrSliceExecFns;
use crate::unicode::{char_is_alphabetic, is_alpha, push_char};

verus! {

/// One token of a segmented text: a maximal run of alphabetic characters, or
/// a maximal run of non-alphabetic characters, exactly as it stood in the
/// input.
#[derive(Debug, PartialEq, Eq)]
pub enum Token {
    Word(String),
    Separator(String),
}

impl Token {
    /// The token's text, exactly as it stood in the input.
    pub open spec fn text(self) -> Seq<char> {
        match self {
            Token::Word(t) => t@,
            Token::Separator(t) => t@,
        }
    }

    /// Whether the token is a word.
    pub open spec fn is_word(self) -> bool {
        self is Word
    }

    /// A token is well formed when it is nonempty and its characters are
    /// alphabetic exactly when it is a word.
    pub open spec fn wf(self) -> bool {
        &&& self.text().len() > 0
        &&& forall|i: int|
            0 <= i < self.text().len() ==> is_alpha(#[trigger] self.text()[i]) == self.is_word()
    }
}

/// The concatenation of the tokens' texts, in order.
pub open spec fn tokens_text(ts: Seq<Token>) -> Seq<char>
    decreases ts.len(),
{
    if ts.len() == 0 {
        Seq::empty()
    } else {
        ts[0].text() + tokens_text(ts.drop_first())
    }
}

/// A well-formed segmentation: every token well formed, and adjacent tokens
/// of different kinds, so that every run is maximal.
pub open spec fn wf_tokens(ts: Seq<Token>) -> bool {
    &&& forall|i: int| 0 <= i < ts.len() ==> (#[trigger] ts[i]).wf()
    &&& forall|i: int|
        0 <= i && i + 1 < ts.len() ==> ((#[trigger] ts[i]).is_word() <==> !ts[i + 1].is_word())
}

proof fn lemma_tokens_text_push(ts: Seq<Token>, t: Token)
    ensures
        tokens_text(ts.push(t)) == tokens_text(ts) + t.text(),
    decreases ts.len(),
{
    if ts.len() == 0 {
        assert(ts.push(t).drop_first() =~= ts);
        assert(ts.push(t)[0] == t);
        assert(tokens_text(ts.push(t)) =~= tokens_text(ts) + t.text());
    } else {
        assert(ts.push(t).drop_first() =~= ts.drop_first().push(t));
        assert(ts.push(t)[0] == ts[0]);
        lemma_tokens_text_push(ts.drop_first(), t);
        assert(tokens_text(ts.push(t)) =~= tokens_text(ts) + t.text());
    }
}

/// Splits a text into its tokens. The segmentation is lossless —
/// concatenating the tokens' texts in order reproduces the text exactly —
/// and every token is a maximal run.
pub fn segment(text: &str) -> (r: Vec<Token>)
    ensures
        wf_tokens(r@),
        tokens_text(r@) == text@,
{
    let ghost s = text@;
    let n = text.unicode_len();
    let mut tokens: Vec<Token> = Vec::new();
    let mut current = String::new();
    let mut current_is_word = false;
    let mut i: usize = 0;
    while i < n
        invariant
            s == text@,
            n == s.len(),
            0 <= i <= n,
            wf_tokens(tokens@),
            current@.len() <= i,
            current@ == s.subrange(i - current@.len(), i as int),
            forall|t: int| 0 <= t < current@.len() ==> is_alpha(#[trigger] current@[t]) == current_is_word,
            tokens_text(tokens@) + current@ == s.take(i as int),
            current@.len() == 0 ==> tokens@.len() == 0 && i == 0,
            tokens@.len() > 0 ==> (tokens@.last().is_word() <==> !current_is_word),
        decreases n - i,
    {
        let c = text.get_char(i);
        let a = char_is_alphabetic(c);
        let ghost entry_tokens = tokens@;
        if current.as_str().is_empty() {
            current_is_word = a;
            push_char(&mut current, c);
        } else if a == current_is_word {
            push_char(&mut current, c);
        } else {
            let tok = if current_is_word {
                Token::Word(current)
            } else {
                Token::Separator(current)
            };
            proof {
                lemma_tokens_text_push(tokens@, tok);
                assert(tok.wf());
                assert forall|k: int| 0 <= k < entry_tokens.push(tok).len() implies (
                #[trigger] entry_tokens.push(tok)[k]).wf() by {
                    if k < entry_tokens.len() {
                        assert(entry_tokens.push(tok)[k] == entry_tokens[k]);
                    }
                }
            }
            tokens.push(tok);
            current = String::new();
            current_is_word = a;
            push_char(&mut current, c);
        }
        proof {
            assert(current@ =~= s.subrange(i + 1 - current@.len(), i + 1));
            assert(s.take(i + 1) =~= s.take(i as int) + seq![s[i as int]]);
            assert(tokens_text(tokens@) + current@ =~= s.take(i + 1));
        }
        i = i + 1;
    }
    if !current.as_str().is_empty() {
        let ghost entry_tokens = tokens@;
        let tok = if current_is_word {
            Token::Word(current)
        } else {
            Token::Separator(current)
        };
        proof {
            lemma_tokens_text_push(tokens@, tok);
            assert(tok.wf());
            assert forall|k: int| 0 <= k < entry_tokens.push(tok).len() implies (
            #[trigger] entry_tokens.push(tok)[k]).wf() by {
                if k < entry_tokens.len() {
                    assert(entry_tokens.push(tok)[k] == entry_tokens[k]);
                }
            }
        }
        tokens.push(tok);
    }
    proof {
        assert(s.take(n as int) =~= s);
        assert(tokens_text(tokens@) =~= s);
    }
    tokens
}

} // verus!
