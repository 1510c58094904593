//! Case-preserving substitution over a text.
//!
//! `convert_text` walks a text once, left to right. Maximal runs of
//! alphabetic characters are looked up case-insensitively in a dictionary and
//! replaced on a hit, with the replacement re-cased after the original word's
//! case pattern; every other character is copied verbatim. `convert_spec`
//! states the whole transformation: substitute the leading word, then convert
//! the rest.

use vstd::prelude::*;
use vstd::string::StrSliceExecFns;
use vstd::string::StringExecFns;
use crate::dict::Dictionary;
use crate::segment::{tokens_text, wf_tokens, Token};
use crate::unicode::{
    all_alpha, all_upper, char_is_alphabetic, char_is_uppercase, char_to_uppercase, char_upper_of,
    is_alpha, is_upper, lower_of, push_char, to_lowercase, to_uppercase, upper_of,
};

verus! {

/// The text emitted in place of a word whose original spelling is `orig` and
/// whose dictionary replacement is `repl`: the case pattern of `orig` is
/// carried over. All-uppercase words (vacuously, the empty word too) uppercase
/// the whole replacement; words that merely start uppercase uppercase the
/// replacement's first character and keep the rest as stored; anything else
/// takes the replacement as stored.
pub open spec fn apply_case_spec(orig: Seq<char>, repl: Seq<char>) -> Seq<char> {
    if all_upper(orig) {
        upper_of(repl)
    } else if 0 < orig.len() && is_upper(orig[0]) {
        if repl.len() == 0 {
            repl
        } else {
            char_upper_of(repl[0]) + repl.drop_first()
        }
    } else {
        repl
    }
}

/// What a word `w` becomes under dictionary `m`: the case-insensitive lookup
/// key is the lowercase form of `w`; a miss leaves `w` unchanged.
pub open spec fn subst_word(w: Seq<char>, m: Map<Seq<char>, Seq<char>>) -> Seq<char> {
    if m.contains_key(lower_of(w)) {
        apply_case_spec(w, m[lower_of(w)])
    } else {
        w
    }
}

/// Length of the leading run of alphabetic characters of `s`.
pub open spec fn alpha_run_len(s: Seq<char>) -> nat
    decreases s.len(),
{
    if s.len() == 0 || !is_alpha(s[0]) {
        0
    } else {
        1 + alpha_run_len(s.drop_first())
    }
}

/// A leading alphabetic run never exceeds the text it lies in.
pub proof fn lemma_alpha_run_len_le(s: Seq<char>)
    ensures
        alpha_run_len(s) <= s.len(),
    decreases s.len(),
{
    if s.len() != 0 && is_alpha(s[0]) {
        lemma_alpha_run_len_le(s.drop_first());
    }
}

/// The conversion of `s` under dictionary `m`: the leading word (if any) is
/// substituted, a leading non-alphabetic character is copied, and the rest is
/// converted in turn.
pub open spec fn convert_spec(s: Seq<char>, m: Map<Seq<char>, Seq<char>>) -> Seq<char>
    decreases s.len(),
    via convert_spec_decreases
{
    if s.len() == 0 {
        Seq::empty()
    } else if !is_alpha(s[0]) {
        seq![s[0]] + convert_spec(s.drop_first(), m)
    } else {
        let n = alpha_run_len(s) as int;
        subst_word(s.take(n), m) + convert_spec(s.skip(n), m)
    }
}

#[via_fn]
proof fn convert_spec_decreases(s: Seq<char>, m: Map<Seq<char>, Seq<char>>) {
    lemma_alpha_run_len_le(s);
}

/// The leading alphabetic run of `w + rest` is exactly `w` when `w` is all
/// alphabetic and `rest` does not begin with an alphabetic character.
pub proof fn lemma_alpha_run_len_concat(w: Seq<char>, rest: Seq<char>)
    requires
        all_alpha(w),
        rest.len() == 0 || !is_alpha(rest[0]),
    ensures
        alpha_run_len(w + rest) == w.len(),
    decreases w.len(),
{
    if w.len() == 0 {
        assert(w + rest =~= rest);
    } else {
        assert((w + rest)[0] == w[0]);
        assert((w + rest).drop_first() =~= w.drop_first() + rest);
        assert(all_alpha(w.drop_first()));
        lemma_alpha_run_len_concat(w.drop_first(), rest);
    }
}

/// Converting a text that begins with a whole word `w` substitutes `w` and
/// converts the rest independently.
pub proof fn lemma_convert_word_step(w: Seq<char>, rest: Seq<char>, m: Map<Seq<char>, Seq<char>>)
    requires
        w.len() > 0,
        all_alpha(w),
        rest.len() == 0 || !is_alpha(rest[0]),
    ensures
        convert_spec(w + rest, m) == subst_word(w, m) + convert_spec(rest, m),
{
    let s = w + rest;
    assert(s[0] == w[0]);
    lemma_alpha_run_len_concat(w, rest);
    assert(s.take(w.len() as int) =~= w);
    assert(s.skip(w.len() as int) =~= rest);
}

/// Converting a text that begins with a non-alphabetic character copies it
/// and converts the rest independently.
pub proof fn lemma_convert_sep_step(c: char, rest: Seq<char>, m: Map<Seq<char>, Seq<char>>)
    requires
        !is_alpha(c),
    ensures
        convert_spec(seq![c] + rest, m) == seq![c] + convert_spec(rest, m),
{
    let s = seq![c] + rest;
    assert(s[0] == c);
    assert(s.drop_first() =~= rest);
}

/// Converting a text that begins with a run of non-alphabetic characters
/// copies the run verbatim and converts the rest independently.
pub proof fn lemma_convert_sep_run_step(p: Seq<char>, rest: Seq<char>, m: Map<Seq<char>, Seq<char>>)
    requires
        forall|i: int| 0 <= i < p.len() ==> !is_alpha(p[i]),
    ensures
        convert_spec(p + rest, m) == p + convert_spec(rest, m),
    decreases p.len(),
{
    if p.len() == 0 {
        assert(p + rest =~= rest);
        assert(p + convert_spec(rest, m) =~= convert_spec(rest, m));
    } else {
        assert(p + rest =~= seq![p[0]] + (p.drop_first() + rest));
        lemma_convert_sep_step(p[0], p.drop_first() + rest, m);
        lemma_convert_sep_run_step(p.drop_first(), rest, m);
        assert(convert_spec(p + rest, m) =~= p + convert_spec(rest, m));
    }
}

/// The texts of a token sequence concatenated in order, with every word
/// substituted under `m` and every separator kept verbatim.
pub open spec fn subst_tokens(ts: Seq<Token>, m: Map<Seq<char>, Seq<char>>) -> Seq<char>
    decreases ts.len(),
{
    if ts.len() == 0 {
        Seq::empty()
    } else {
        let head = if ts[0].is_word() {
            subst_word(ts[0].text(), m)
        } else {
            ts[0].text()
        };
        head + subst_tokens(ts.drop_first(), m)
    }
}

/// The segmenter-substituter pipeline agrees with the one-pass conversion:
/// over a well-formed segmentation of a text, substituting each word token
/// and passing each separator token through yields the conversion of the
/// whole text. In particular the output keeps the input's token boundaries.
pub proof fn lemma_convert_via_tokens(ts: Seq<Token>, m: Map<Seq<char>, Seq<char>>)
    requires
        wf_tokens(ts),
    ensures
        convert_spec(tokens_text(ts), m) == subst_tokens(ts, m),
    decreases ts.len(),
{
    if ts.len() > 0 {
        let head = ts[0];
        let rest = ts.drop_first();
        assert(wf_tokens(rest)) by {
            assert forall|i: int| 0 <= i < rest.len() implies (#[trigger] rest[i]).wf() by {
                assert(rest[i] == ts[i + 1]);
            }
            assert forall|i: int| 0 <= i && i + 1 < rest.len() implies ((#[trigger] rest[i]).is_word()
                <==> !rest[i + 1].is_word()) by {
                assert(rest[i] == ts[i + 1]);
                assert(rest[i + 1] == ts[i + 2]);
            }
        }
        lemma_convert_via_tokens(rest, m);
        assert(head.wf());
        if head.is_word() {
            if rest.len() > 0 {
                assert(rest[0] == ts[1]);
                assert(ts[1].wf() && !ts[1].is_word());
                assert(tokens_text(rest)[0] == rest[0].text()[0]);
                assert(!is_alpha(tokens_text(rest)[0]));
            }
            assert(all_alpha(head.text()));
            lemma_convert_word_step(head.text(), tokens_text(rest), m);
        } else {
            lemma_convert_sep_run_step(head.text(), tokens_text(rest), m);
        }
        assert(convert_spec(tokens_text(ts), m) =~= subst_tokens(ts, m));
    }
}

/// Conversion under the empty dictionary is the identity: no word can match,
/// so every token is copied unchanged.
pub proof fn lemma_convert_empty_dictionary(s: Seq<char>)
    ensures
        convert_spec(s, Map::empty()) == s,
    decreases s.len(),
{
    let m = Map::<Seq<char>, Seq<char>>::empty();
    if s.len() == 0 {
        assert(convert_spec(s, m) =~= s);
    } else if !is_alpha(s[0]) {
        lemma_convert_empty_dictionary(s.drop_first());
        assert(seq![s[0]] + s.drop_first() =~= s);
    } else {
        let n = alpha_run_len(s) as int;
        lemma_alpha_run_len_le(s);
        lemma_convert_empty_dictionary(s.skip(n));
        assert(!m.contains_key(lower_of(s.take(n))));
        assert(s.take(n) + s.skip(n) =~= s);
    }
}

/// The empty text converts to the empty text under every dictionary.
pub proof fn lemma_convert_empty_text(m: Map<Seq<char>, Seq<char>>)
    ensures
        convert_spec(Seq::empty(), m) == Seq::<char>::empty(),
{
}

/// Whether every character of `w` is uppercase.
pub fn is_all_uppercase(w: &str) -> (r: bool)
    ensures
        r == all_upper(w@),
{
    let n = w.unicode_len();
    let mut i: usize = 0;
    while i < n
        invariant
            n == w@.len(),
            0 <= i <= n,
            forall|t: int| 0 <= t < i ==> is_upper(w@[t]),
        decreases n - i,
    {
        let c = w.get_char(i);
        if !char_is_uppercase(c) {
            return false;
        }
        i = i + 1;
    }
    true
}

/// Re-cases `replacement` after the case pattern of `original_word`: wholly
/// uppercased when `original_word` is all uppercase, first character
/// uppercased when `original_word` merely starts uppercase, as stored
/// otherwise.
pub fn apply_case_to_replacement(original_word: &str, replacement: &str) -> (r: String)
    ensures
        r@ == apply_case_spec(original_word@, replacement@),
{
    if is_all_uppercase(original_word) {
        return to_uppercase(replacement);
    }
    // Not all-uppercase, so the word has at least one character.
    assert(original_word@.len() > 0);
    let first = original_word.get_char(0);
    if char_is_uppercase(first) {
        let m = replacement.unicode_len();
        if m == 0 {
            let r = String::new();
            assert(r@ =~= replacement@);
            return r;
        }
        let mut r = char_to_uppercase(replacement.get_char(0));
        let tail = replacement.substring_char(1, m);
        r.append(tail);
        assert(r@ =~= char_upper_of(replacement@[0]) + replacement@.drop_first());
        r
    } else {
        replacement.to_owned()
    }
}

/// The text emitted in place of the word `word`: the dictionary is consulted
/// under the word's lowercase form; a hit is re-cased after the word, a miss
/// leaves the word unchanged.
pub fn substitute_word(word: &str, mapping: &Dictionary) -> (r: String)
    ensures
        r@ == subst_word(word@, mapping@),
{
    let key = to_lowercase(word);
    match mapping.get(&key) {
        Some(replacement) => apply_case_to_replacement(word, replacement.as_str()),
        None => word.to_owned(),
    }
}

/// Converts a text under a dictionary: each maximal run of alphabetic
/// characters is substituted as a word, every other character is copied
/// verbatim, in one left-to-right pass.
pub fn convert_text(text: &str, mapping: &Dictionary) -> (r: String)
    ensures
        r@ == convert_spec(text@, mapping@),
{
    let ghost s = text@;
    let ghost m = mapping@;
    let n = text.unicode_len();
    let mut converted = String::new();
    let mut current_word = String::new();
    let mut i: usize = 0;
    proof {
        assert(s.skip(0) =~= s);
    }
    while i < n
        invariant
            s == text@,
            m == mapping@,
            n == s.len(),
            0 <= i <= n,
            current_word@.len() <= i,
            current_word@ == s.subrange(i - current_word@.len(), i as int),
            all_alpha(current_word@),
            converted@ + convert_spec(s.skip(i - current_word@.len()), m) == convert_spec(s, m),
        decreases n - i,
    {
        let c = text.get_char(i);
        let ghost w = current_word@;
        let ghost j: int = i - w.len();
        let ghost entry_out = converted@;
        if char_is_alphabetic(c) {
            push_char(&mut current_word, c);
            proof {
                assert(current_word@ =~= s.subrange(i + 1 - current_word@.len(), i + 1));
                assert forall|t: int| 0 <= t < current_word@.len() implies is_alpha(
                    current_word@[t],
                ) by {
                    if t < w.len() {
                        assert(current_word@[t] == w[t]);
                    } else {
                        assert(current_word@[t] == c);
                    }
                }
            }
        } else {
            if !current_word.as_str().is_empty() {
                let replaced = substitute_word(current_word.as_str(), mapping);
                converted.append(replaced.as_str());
                current_word = String::new();
                proof {
                    assert(s.skip(j) =~= w + s.skip(i as int));
                    lemma_convert_word_step(w, s.skip(i as int), m);
                }
            }
            push_char(&mut converted, c);
            proof {
                assert(s.skip(i as int) =~= seq![c] + s.skip(i + 1));
                lemma_convert_sep_step(c, s.skip(i + 1), m);
                assert(converted@ + convert_spec(s.skip(i + 1), m) =~= entry_out + convert_spec(
                    s.skip(j),
                    m,
                ));
                assert(current_word@ =~= s.subrange(i + 1 - current_word@.len(), i + 1));
            }
        }
        i = i + 1;
    }
    let ghost w = current_word@;
    let ghost j: int = n - w.len();
    if !current_word.as_str().is_empty() {
        let replaced = substitute_word(current_word.as_str(), mapping);
        let ghost entry_out = converted@;
        converted.append(replaced.as_str());
        proof {
            assert(s.skip(j) =~= w + s.skip(n as int));
            assert(s.skip(n as int).len() == 0);
            lemma_convert_word_step(w, s.skip(n as int), m);
            assert(converted@ =~= entry_out + convert_spec(s.skip(j), m));
        }
    } else {
        proof {
            assert(s.skip(j).len() == 0);
            assert(converted@ + convert_spec(s.skip(j), m) =~= converted@);
        }
    }
    converted
}

} // verus!
