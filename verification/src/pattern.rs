//! Match patterns with wildcards, and the pattern that stands for a literal
//! key prefix.
//!
//! A pattern is read left to right. `%` stands for any run of characters,
//! `_` for any single character, and a backslash makes the character after it
//! stand for itself. A pattern that ends in a lone backslash is malformed.

use crate::text::{chars_of, lemma_scalar_value, push_char};
use vstd::prelude::*;

verus! {

/// One element of a pattern.
#[derive(Clone, Copy, Debug)]
pub enum Token {
    /// Any run of characters, the empty one included.
    AnyRun,
    /// Any single character.
    AnyOne,
    /// This character and no other.
    Literal(char),
}

/// Whether a character has a meaning of its own in a pattern.
pub open spec fn is_special(c: char) -> bool {
    c == '\\' || c == '%' || c == '_'
}

/// The characters that stand for the literal character `c` in a pattern.
pub open spec fn escaped_char(c: char) -> Seq<char> {
    if is_special(c) {
        seq!['\\', c]
    } else {
        seq![c]
    }
}

/// The text `s` with a backslash before each special character.
pub open spec fn escaped(s: Seq<char>) -> Seq<char>
    decreases s.len(),
{
    if s.len() == 0 {
        Seq::empty()
    } else {
        escaped_char(s[0]) + escaped(s.skip(1))
    }
}

/// The text `s` with `with` in place of each `c`.
pub open spec fn replaced(s: Seq<char>, c: char, with: Seq<char>) -> Seq<char>
    decreases s.len(),
{
    if s.len() == 0 {
        Seq::empty()
    } else {
        (if s[0] == c {
            with
        } else {
            seq![s[0]]
        }) + replaced(s.skip(1), c, with)
    }
}

/// The text `s` escaped in three passes over the whole text: the backslash
/// first, so that the backslashes that the later passes put in are not
/// themselves escaped, then the percent sign, then the underscore.
pub open spec fn escaped_in_passes(s: Seq<char>) -> Seq<char> {
    replaced(
        replaced(replaced(s, '\\', seq!['\\', '\\']), '%', seq!['\\', '%']),
        '_',
        seq!['\\', '_'],
    )
}

/// The pattern that is meant to accept the texts starting with `prefix`.
pub open spec fn prefix_pattern_of(prefix: Seq<char>) -> Seq<char> {
    escaped(prefix).push('%')
}

/// The token that an unescaped character stands for.
pub open spec fn token_of(c: char) -> Token {
    if c == '%' {
        Token::AnyRun
    } else if c == '_' {
        Token::AnyOne
    } else {
        Token::Literal(c)
    }
}

/// The tokens of a pattern, or `None` where the pattern is malformed.
pub open spec fn tokens_of(pattern: Seq<char>) -> Option<Seq<Token>>
    decreases pattern.len(),
{
    if pattern.len() == 0 {
        Some(Seq::empty())
    } else if pattern[0] == '\\' {
        if pattern.len() == 1 {
            None
        } else {
            match tokens_of(pattern.skip(2)) {
                Some(rest) => Some(seq![Token::Literal(pattern[1])] + rest),
                None => None,
            }
        }
    } else {
        match tokens_of(pattern.skip(1)) {
            Some(rest) => Some(seq![token_of(pattern[0])] + rest),
            None => None,
        }
    }
}

/// Whether the tokens accept the whole of `text`.
pub open spec fn tokens_match(tokens: Seq<Token>, text: Seq<char>) -> bool
    decreases tokens.len(), text.len(),
{
    if tokens.len() == 0 {
        text.len() == 0
    } else {
        match tokens[0] {
            Token::AnyRun => tokens_match(tokens.skip(1), text) || (text.len() > 0 && tokens_match(
                tokens,
                text.skip(1),
            )),
            Token::AnyOne => text.len() > 0 && tokens_match(tokens.skip(1), text.skip(1)),
            Token::Literal(c) => text.len() > 0 && text[0] == c && tokens_match(
                tokens.skip(1),
                text.skip(1),
            ),
        }
    }
}

/// Whether `pattern` accepts `text`, or `None` where the pattern is malformed.
pub open spec fn like_matches(pattern: Seq<char>, text: Seq<char>) -> Option<bool> {
    match tokens_of(pattern) {
        Some(tokens) => Some(tokens_match(tokens, text)),
        None => None,
    }
}

/// The tokens that accept exactly the text `s`.
pub open spec fn literals(s: Seq<char>) -> Seq<Token>
    decreases s.len(),
{
    if s.len() == 0 {
        Seq::empty()
    } else {
        seq![Token::Literal(s[0])] + literals(s.skip(1))
    }
}

/// Whether the tokens from position `i` on accept `text` from position `j` on.
pub open spec fn suffix_matches(tokens: Seq<Token>, text: Seq<char>, i: int, j: int) -> bool {
    tokens_match(tokens.skip(i), text.skip(j))
}

/// Escaping goes character by character: it distributes over concatenation.
pub proof fn lemma_escaped_concat(a: Seq<char>, b: Seq<char>)
    ensures
        escaped(a + b) == escaped(a) + escaped(b),
    decreases a.len(),
{
    if a.len() == 0 {
        assert(a + b =~= b);
        assert(escaped(a) + escaped(b) =~= escaped(b));
    } else {
        assert((a + b).skip(1) =~= a.skip(1) + b);
        lemma_escaped_concat(a.skip(1), b);
        assert(escaped(a + b) =~= escaped(a) + escaped(b));
    }
}

/// Escaping a text that ends in `c` is escaping what comes before, then `c`.
pub proof fn lemma_escaped_push(s: Seq<char>, c: char)
    ensures
        escaped(s.push(c)) == escaped(s) + escaped_char(c),
{
    reveal_with_fuel(escaped, 2);
    lemma_escaped_concat(s, seq![c]);
    assert(s.push(c) =~= s + seq![c]);
    assert(seq![c].skip(1) =~= Seq::<char>::empty());
    assert(escaped(seq![c]) =~= escaped_char(c));
}

/// Replacing goes character by character: it distributes over
/// concatenation.
pub proof fn lemma_replaced_concat(a: Seq<char>, b: Seq<char>, c: char, with: Seq<char>)
    ensures
        replaced(a + b, c, with) == replaced(a, c, with) + replaced(b, c, with),
    decreases a.len(),
{
    if a.len() == 0 {
        assert(a + b =~= b);
        assert(replaced(a, c, with) + replaced(b, c, with) =~= replaced(b, c, with));
    } else {
        assert((a + b).skip(1) =~= a.skip(1) + b);
        lemma_replaced_concat(a.skip(1), b, c, with);
        assert(replaced(a + b, c, with) =~= replaced(a, c, with) + replaced(b, c, with));
    }
}

/// Replacing a character in a text that does not hold it changes nothing.
pub proof fn lemma_replaced_absent(s: Seq<char>, c: char, with: Seq<char>)
    requires
        forall|i: int| 0 <= i < s.len() ==> s[i] != c,
    ensures
        replaced(s, c, with) == s,
    decreases s.len(),
{
    if s.len() > 0 {
        lemma_replaced_absent(s.skip(1), c, with);
        assert(seq![s[0]] + s.skip(1) =~= s);
    }
}

/// Replacing in a text of one character gives the replacement or the
/// character itself.
pub proof fn lemma_replaced_single(x: char, c: char, with: Seq<char>)
    ensures
        replaced(seq![x], c, with) == if x == c {
            with
        } else {
            seq![x]
        },
{
    reveal_with_fuel(replaced, 2);
    let head = seq![x];
    assert(head.skip(1) =~= Seq::<char>::empty());
    assert(with + Seq::<char>::empty() =~= with);
    assert(head + Seq::<char>::empty() =~= head);
}

/// Escaping in three passes, the backslash first, gives what escaping
/// character by character gives.
pub proof fn lemma_escaped_in_passes(s: Seq<char>)
    ensures
        escaped_in_passes(s) == escaped(s),
    decreases s.len(),
{
    let slashes = seq!['\\', '\\'];
    let percent = seq!['\\', '%'];
    let underscore = seq!['\\', '_'];
    if s.len() == 0 {
        assert(replaced(s, '\\', slashes) =~= Seq::<char>::empty());
    } else {
        let x = s[0];
        let head = seq![x];
        let rest = s.skip(1);
        assert(s =~= head + rest);
        lemma_escaped_in_passes(rest);
        let rest1 = replaced(rest, '\\', slashes);
        let rest2 = replaced(rest1, '%', percent);
        let head1 = replaced(head, '\\', slashes);
        let head2 = replaced(head1, '%', percent);
        let head3 = replaced(head2, '_', underscore);
        lemma_replaced_concat(head, rest, '\\', slashes);
        lemma_replaced_concat(head1, rest1, '%', percent);
        lemma_replaced_concat(head2, rest2, '_', underscore);
        lemma_replaced_single(x, '\\', slashes);
        lemma_replaced_single(x, '%', percent);
        lemma_replaced_single(x, '_', underscore);
        if x == '\\' {
            lemma_replaced_absent(head1, '%', percent);
            lemma_replaced_absent(head2, '_', underscore);
        } else if x == '%' {
            lemma_replaced_absent(head2, '_', underscore);
        }
        assert(head3 =~= escaped_char(x));
    }
}

/// An escaped text followed by a pattern reads as the literal text followed
/// by what the pattern reads as.
pub proof fn lemma_tokens_of_escaped(s: Seq<char>, rest: Seq<char>)
    ensures
        tokens_of(escaped(s) + rest) == match tokens_of(rest) {
            Some(tokens) => Some(literals(s) + tokens),
            None => None,
        },
    decreases s.len(),
{
    if s.len() == 0 {
        assert(escaped(s) + rest =~= rest);
        if let Some(tokens) = tokens_of(rest) {
            assert(literals(s) + tokens =~= tokens);
        }
    } else {
        let c = s[0];
        let whole = escaped(s) + rest;
        let after = escaped(s.skip(1)) + rest;
        lemma_tokens_of_escaped(s.skip(1), rest);
        if is_special(c) {
            assert(whole =~= seq!['\\', c] + after);
            assert(whole.skip(2) =~= after);
        } else {
            assert(whole =~= seq![c] + after);
            assert(whole.skip(1) =~= after);
        }
        if let Some(tokens) = tokens_of(rest) {
            assert(seq![Token::Literal(c)] + (literals(s.skip(1)) + tokens) =~= literals(s)
                + tokens);
        }
    }
}

/// A lone `%` accepts every text.
pub proof fn lemma_any_run_accepts(text: Seq<char>)
    ensures
        tokens_match(seq![Token::AnyRun], text),
    decreases text.len(),
{
    reveal_with_fuel(tokens_match, 2);
    let tokens = seq![Token::AnyRun];
    if text.len() == 0 {
        assert(tokens.skip(1) =~= Seq::<Token>::empty());
    } else {
        lemma_any_run_accepts(text.skip(1));
    }
}

/// The literal text `s` followed by `%` accepts exactly the texts that start
/// with `s`.
pub proof fn lemma_literals_then_any_run(s: Seq<char>, text: Seq<char>)
    ensures
        tokens_match(literals(s).push(Token::AnyRun), text) == s.is_prefix_of(text),
    decreases s.len(),
{
    let tokens = literals(s).push(Token::AnyRun);
    if s.len() == 0 {
        assert(tokens =~= seq![Token::AnyRun]);
        lemma_any_run_accepts(text);
    } else {
        lemma_scalar_value(s[0]);
        assert(tokens[0] == Token::Literal(s[0]));
        assert(tokens.skip(1) =~= literals(s.skip(1)).push(Token::AnyRun));
        if text.len() > 0 {
            lemma_literals_then_any_run(s.skip(1), text.skip(1));
            if s.is_prefix_of(text) {
                assert(s[0] == text.subrange(0, s.len() as int)[0]);
                assert(s.skip(1) =~= text.skip(1).subrange(0, s.len() - 1));
            }
            if text[0] == s[0] && s.skip(1).is_prefix_of(text.skip(1)) {
                assert(s =~= text.subrange(0, s.len() as int)) by {
                    assert forall|i: int| 0 <= i < s.len() implies s[i] == text[i] by {
                        if i > 0 {
                            assert(s.skip(1)[i - 1] == text.skip(1).subrange(0, s.len() - 1)[i
                                - 1]);
                        }
                    }
                }
            }
        }
    }
}

/// The pattern made from a prefix is well formed, and it accepts a text
/// exactly when the text starts with the prefix, character for character:
/// no character of the prefix acts as a wildcard.
pub proof fn lemma_prefix_pattern_accepts_prefixed(prefix: Seq<char>, text: Seq<char>)
    ensures
        tokens_of(prefix_pattern_of(prefix)) == Some(literals(prefix).push(Token::AnyRun)),
        like_matches(prefix_pattern_of(prefix), text) == Some(prefix.is_prefix_of(text)),
{
    reveal_with_fuel(tokens_of, 2);
    let tail = seq!['%'];
    assert(tail.skip(1) =~= Seq::<char>::empty());
    assert(tokens_of(tail) == Some(seq![Token::AnyRun] + Seq::<Token>::empty()));
    assert(seq![Token::AnyRun] + Seq::<Token>::empty() =~= seq![Token::AnyRun]);
    lemma_tokens_of_escaped(prefix, tail);
    assert(prefix_pattern_of(prefix) =~= escaped(prefix) + tail);
    assert(literals(prefix) + seq![Token::AnyRun] =~= literals(prefix).push(Token::AnyRun));
    lemma_literals_then_any_run(prefix, text);
}

/// How acceptance from one position follows from acceptance further on.
pub proof fn lemma_suffix_matches_step(tokens: Seq<Token>, text: Seq<char>, i: int, j: int)
    requires
        0 <= i <= tokens.len(),
        0 <= j <= text.len(),
    ensures
        suffix_matches(tokens, text, i, j) == if i == tokens.len() {
            j == text.len()
        } else {
            match tokens[i] {
                Token::AnyRun => suffix_matches(tokens, text, i + 1, j) || (j < text.len()
                    && suffix_matches(tokens, text, i, j + 1)),
                Token::AnyOne => j < text.len() && suffix_matches(tokens, text, i + 1, j + 1),
                Token::Literal(c) => j < text.len() && text[j] == c && suffix_matches(
                    tokens,
                    text,
                    i + 1,
                    j + 1,
                ),
            }
        },
{
    let ts = tokens.skip(i);
    let tx = text.skip(j);
    if i < tokens.len() {
        assert(ts[0] == tokens[i]);
        assert(ts.skip(1) =~= tokens.skip(i + 1));
        if j < text.len() {
            assert(tx[0] == text[j]);
            assert(tx.skip(1) =~= text.skip(j + 1));
        }
    }
}

/// Puts a backslash before each special character of `prefix`, so that the
/// result, read as a pattern, stands for `prefix` itself.
pub fn escape_like(prefix: &str) -> (r: String)
    ensures
        r@ == escaped(prefix@),
{
    let mut r = String::new();
    let it = prefix.chars();
    proof {
        vstd::string::axiom_spec_iter(prefix);
        assert(prefix@.take(0) =~= Seq::<char>::empty());
    }
    for c in iter: it
        invariant
            iter.seq() == prefix@,
            r@ == escaped(prefix@.take(iter.index())),
    {
        proof {
            lemma_escaped_push(prefix@.take(iter.index()), c);
            assert(prefix@.take(iter.index() + 1) =~= prefix@.take(iter.index()).push(c));
        }
        if c == '\\' || c == '%' || c == '_' {
            push_char(&mut r, '\\');
        }
        push_char(&mut r, c);
    }
    proof {
        assert(prefix@.take(prefix@.len() as int) =~= prefix@);
    }
    r
}

/// The pattern that accepts exactly the texts starting with `prefix`.
pub fn prefix_pattern(prefix: &str) -> (r: String)
    ensures
        r@ == prefix_pattern_of(prefix@),
{
    let mut r = escape_like(prefix);
    push_char(&mut r, '%');
    r
}

/// Reads a pattern into its tokens; `None` where it ends in a lone backslash.
pub fn parse_pattern(pattern: &str) -> (r: Option<Vec<Token>>)
    ensures
        match r {
            Some(tokens) => tokens_of(pattern@) == Some(tokens@),
            None => tokens_of(pattern@) is None,
        },
{
    let chars = chars_of(pattern);
    let mut tokens: Vec<Token> = Vec::new();
    let mut i: usize = 0;
    proof {
        assert(chars@.skip(0) =~= chars@);
        if let Some(rest) = tokens_of(chars@) {
            assert(tokens@ + rest =~= rest);
        }
    }
    while i < chars.len()
        invariant
            i <= chars.len(),
            chars@ == pattern@,
            tokens_of(chars@) == match tokens_of(chars@.skip(i as int)) {
                Some(rest) => Some(tokens@ + rest),
                None => None,
            },
        decreases chars.len() - i,
    {
        let ghost here = chars@.skip(i as int);
        let ghost before = tokens@;
        let c = chars[i];
        if c == '\\' {
            if i + 1 < chars.len() {
                tokens.push(Token::Literal(chars[i + 1]));
                i += 2;
                proof {
                    assert(here.skip(2) =~= chars@.skip(i as int));
                    if let Some(rest) = tokens_of(here.skip(2)) {
                        assert(before + (seq![Token::Literal(here[1])] + rest) =~= tokens@
                            + rest);
                    }
                }
            } else {
                return None;
            }
        } else {
            let token = if c == '%' {
                Token::AnyRun
            } else if c == '_' {
                Token::AnyOne
            } else {
                Token::Literal(c)
            };
            tokens.push(token);
            i += 1;
            proof {
                assert(here.skip(1) =~= chars@.skip(i as int));
                if let Some(rest) = tokens_of(here.skip(1)) {
                    assert(before + (seq![token_of(here[0])] + rest) =~= tokens@ + rest);
                }
            }
        }
    }
    proof {
        assert(tokens@ + Seq::<Token>::empty() =~= tokens@);
    }
    Some(tokens)
}

/// Whether the tokens accept the whole of `text`.
///
/// Works backwards through the tokens, keeping for each position of the text
/// whether the tokens read so far accept the text from there on.
pub fn tokens_accept(tokens: &Vec<Token>, text: &Vec<char>) -> (r: bool)
    ensures
        r == tokens_match(tokens@, text@),
{
    let n = text.len();
    let mut row: Vec<bool> = Vec::new();
    let mut j: usize = 0;
    while j < n
        invariant
            n == text.len(),
            j <= n,
            row.len() == j,
            forall|k: int| 0 <= k < j ==> !row[k],
        decreases n - j,
    {
        row.push(false);
        j += 1;
    }
    row.push(true);
    let mut i: usize = tokens.len();
    proof {
        assert forall|k: int| 0 <= k <= n implies row[k] == suffix_matches(
            tokens@,
            text@,
            i as int,
            k,
        ) by {
            lemma_suffix_matches_step(tokens@, text@, i as int, k);
        }
    }
    while i > 0
        invariant
            n == text.len(),
            i <= tokens.len(),
            row.len() == n + 1,
            forall|k: int| 0 <= k <= n ==> row[k] == suffix_matches(tokens@, text@, i as int, k),
        decreases i,
    {
        i -= 1;
        match tokens[i] {
            Token::AnyRun => {
                proof {
                    lemma_suffix_matches_step(tokens@, text@, i as int, n as int);
                }
                let mut j: usize = n;
                while j > 0
                    invariant
                        n == text.len(),
                        i < tokens.len(),
                        tokens[i as int] is AnyRun,
                        j <= n,
                        row.len() == n + 1,
                        forall|k: int|
                            j <= k <= n ==> row[k] == suffix_matches(tokens@, text@, i as int, k),
                        forall|k: int|
                            0 <= k < j ==> row[k] == suffix_matches(
                                tokens@,
                                text@,
                                i + 1,
                                k,
                            ),
                    decreases j,
                {
                    j -= 1;
                    proof {
                        lemma_suffix_matches_step(tokens@, text@, i as int, j as int);
                    }
                    let here = row[j] || row[j + 1];
                    row.set(j, here);
                }
            },
            Token::AnyOne => {
                let mut j: usize = 0;
                while j < n
                    invariant
                        n == text.len(),
                        i < tokens.len(),
                        tokens[i as int] is AnyOne,
                        j <= n,
                        row.len() == n + 1,
                        forall|k: int|
                            0 <= k < j ==> row[k] == suffix_matches(tokens@, text@, i as int, k),
                        forall|k: int|
                            j <= k <= n ==> row[k] == suffix_matches(
                                tokens@,
                                text@,
                                i + 1,
                                k,
                            ),
                    decreases n - j,
                {
                    proof {
                        lemma_suffix_matches_step(tokens@, text@, i as int, j as int);
                    }
                    let here = row[j + 1];
                    row.set(j, here);
                    j += 1;
                }
                proof {
                    lemma_suffix_matches_step(tokens@, text@, i as int, n as int);
                }
                row.set(n, false);
            },
            Token::Literal(c) => {
                let mut j: usize = 0;
                while j < n
                    invariant
                        n == text.len(),
                        i < tokens.len(),
                        tokens[i as int] == Token::Literal(c),
                        j <= n,
                        row.len() == n + 1,
                        forall|k: int|
                            0 <= k < j ==> row[k] == suffix_matches(tokens@, text@, i as int, k),
                        forall|k: int|
                            j <= k <= n ==> row[k] == suffix_matches(
                                tokens@,
                                text@,
                                i + 1,
                                k,
                            ),
                    decreases n - j,
                {
                    proof {
                        lemma_suffix_matches_step(tokens@, text@, i as int, j as int);
                    }
                    let here = text[j] == c && row[j + 1];
                    row.set(j, here);
                    j += 1;
                }
                proof {
                    lemma_suffix_matches_step(tokens@, text@, i as int, n as int);
                }
                row.set(n, false);
            },
        }
    }
    proof {
        assert(tokens@.skip(0) =~= tokens@);
        assert(text@.skip(0) =~= text@);
    }
    row[0]
}

/// Whether `pattern` accepts `text`; `None` where the pattern is malformed.
pub fn like(pattern: &str, text: &str) -> (r: Option<bool>)
    ensures
        r == like_matches(pattern@, text@),
{
    match parse_pattern(pattern) {
        Some(tokens) => {
            let chars = chars_of(text);
            Some(tokens_accept(&tokens, &chars))
        },
        None => None,
    }
}

} // verus!
