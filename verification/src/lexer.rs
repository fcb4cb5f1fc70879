//! The tokenizer: one forward pass over a slice of characters.
//!
//! `tokens` says what the tokens of a text are; `Lexer` hands them out one
//! by one, and `tokenize` all at once.

use crate::chars::{
    ascii_uppercase, class_of, classify, is_whitespace, lemma_uppercase_keeps_solid, whitespace,
    CharClass,
};
use vstd::prelude::*;
use vstd::slice::slice_subrange;

verus! {

/// Whitespace: what separates tokens.
pub open spec fn is_space() -> spec_fn(char) -> bool {
    |c: char| is_whitespace(c)
}

/// The characters of a number token.
pub open spec fn is_digit() -> spec_fn(char) -> bool {
    |c: char| class_of(c) == CharClass::Digit
}

/// The characters of a word token: letters and digits.
pub open spec fn is_word_char() -> spec_fn(char) -> bool {
    |c: char| class_of(c) == CharClass::Digit || class_of(c) == CharClass::Letter
}

/// The length of the longest prefix of `s` whose characters all satisfy
/// `accepts`.
pub open spec fn run_length(s: Seq<char>, accepts: spec_fn(char) -> bool) -> nat
    decreases s.len(),
{
    if s.len() > 0 && accepts(s[0]) {
        1 + run_length(s.drop_first(), accepts)
    } else {
        0
    }
}

/// `s` without its leading whitespace.
pub open spec fn trimmed(s: Seq<char>) -> Seq<char> {
    s.skip(run_length(s, is_space()) as int)
}

/// How many characters the token at the start of `s` takes. Meant for an `s`
/// that is not empty and does not start with whitespace.
pub open spec fn token_length(s: Seq<char>) -> nat {
    match class_of(s[0]) {
        CharClass::Digit => run_length(s, is_digit()),
        CharClass::Letter => run_length(s, is_word_char()),
        _ => 1,
    }
}

/// The token at the start of `s`: a run of digits or a single character as
/// it stands, a word with its letters `a` to `z` in upper case.
pub open spec fn token_text(s: Seq<char>) -> Seq<char> {
    let run = s.take(token_length(s) as int);
    if class_of(s[0]) == CharClass::Letter {
        run.map_values(|c: char| ascii_uppercase(c))
    } else {
        run
    }
}

/// The tokens of `s`, in the order in which they occur.
pub open spec fn tokens(s: Seq<char>) -> Seq<Seq<char>>
    decreases s.len(),
    via tokens_decreases
{
    let rest = trimmed(s);
    if rest.len() == 0 {
        Seq::empty()
    } else {
        seq![token_text(rest)] + tokens(rest.skip(token_length(rest) as int))
    }
}

#[via_fn]
proof fn tokens_decreases(s: Seq<char>) {
    lemma_run_length(s, is_space());
    if trimmed(s).len() > 0 {
        lemma_token_length(trimmed(s));
    }
}

/// A run is a prefix, all of its characters are accepted, and the character
/// after it, if there is one, is not.
pub proof fn lemma_run_length(s: Seq<char>, accepts: spec_fn(char) -> bool)
    ensures
        run_length(s, accepts) <= s.len(),
        forall|i: int| 0 <= i < run_length(s, accepts) ==> accepts(#[trigger] s[i]),
        run_length(s, accepts) < s.len() ==> !accepts(s[run_length(s, accepts) as int]),
    decreases s.len(),
{
    if s.len() > 0 && accepts(s[0]) {
        let tail = s.drop_first();
        lemma_run_length(tail, accepts);
        assert forall|i: int| 0 <= i < run_length(s, accepts) implies accepts(#[trigger] s[i]) by {
            if i > 0 {
                assert(s[i] == tail[i - 1]);
            }
        }
        if run_length(s, accepts) < s.len() {
            assert(s[run_length(s, accepts) as int] == tail[run_length(tail, accepts) as int]);
        }
    }
}

/// The run is the only prefix that is accepted throughout and cannot be
/// made longer.
pub proof fn lemma_run_length_unique(s: Seq<char>, accepts: spec_fn(char) -> bool, n: int)
    requires
        0 <= n <= s.len(),
        forall|i: int| 0 <= i < n ==> accepts(#[trigger] s[i]),
        n < s.len() ==> !accepts(s[n]),
    ensures
        run_length(s, accepts) == n,
    decreases s.len(),
{
    if n > 0 {
        let tail = s.drop_first();
        assert(accepts(s[0]));
        assert forall|i: int| 0 <= i < n - 1 implies accepts(#[trigger] tail[i]) by {
            assert(tail[i] == s[i + 1]);
        }
        if n < s.len() {
            assert(tail[n - 1] == s[n]);
        }
        lemma_run_length_unique(tail, accepts, n - 1);
    }
}

/// A token takes at least one character and no more than there are, and
/// none of the characters it takes is whitespace.
pub proof fn lemma_token_length(s: Seq<char>)
    requires
        s.len() > 0,
    ensures
        1 <= token_length(s) <= s.len(),
        !is_whitespace(s[0]) ==> forall|i: int|
            0 <= i < token_length(s) ==> !is_whitespace(#[trigger] s[i]),
{
    lemma_run_length(s, is_digit());
    lemma_run_length(s, is_word_char());
}

/// What is left after the leading whitespace is empty or starts with a
/// character that is not whitespace.
pub proof fn lemma_trimmed(s: Seq<char>)
    ensures
        trimmed(s).len() <= s.len(),
        trimmed(s).len() > 0 ==> !is_whitespace(trimmed(s)[0]),
        trimmed(trimmed(s)) == trimmed(s),
{
    lemma_run_length(s, is_space());
    let rest = trimmed(s);
    lemma_run_length_unique(rest, is_space(), 0);
}

/// No token is empty and no token holds a whitespace character.
pub proof fn lemma_tokens_are_solid(s: Seq<char>)
    ensures
        forall|k: int|
            0 <= k < tokens(s).len() ==> {
                &&& (#[trigger] tokens(s)[k]).len() > 0
                &&& forall|i: int|
                    0 <= i < tokens(s)[k].len() ==> !is_whitespace(#[trigger] tokens(s)[k][i])
            },
    decreases s.len(),
{
    let rest = trimmed(s);
    lemma_trimmed(s);
    if rest.len() > 0 {
        lemma_token_length(rest);
        lemma_token_text_is_solid(rest);
        let after = rest.skip(token_length(rest) as int);
        lemma_tokens_are_solid(after);
        assert forall|k: int| 0 <= k < tokens(s).len() implies {
            &&& (#[trigger] tokens(s)[k]).len() > 0
            &&& forall|i: int|
                0 <= i < tokens(s)[k].len() ==> !is_whitespace(#[trigger] tokens(s)[k][i])
        } by {
            if k > 0 {
                assert(tokens(s)[k] == tokens(after)[k - 1]);
            }
        }
    }
}

/// The token at the start of a text that does not start with whitespace is
/// not empty and holds no whitespace.
pub proof fn lemma_token_text_is_solid(s: Seq<char>)
    requires
        s.len() > 0,
        !is_whitespace(s[0]),
    ensures
        token_text(s).len() == token_length(s),
        token_text(s).len() > 0,
        forall|i: int| 0 <= i < token_text(s).len() ==> !is_whitespace(#[trigger] token_text(s)[i]),
{
    lemma_token_length(s);
    assert forall|i: int| 0 <= i < token_text(s).len() implies !is_whitespace(
        #[trigger] token_text(s)[i],
    ) by {
        assert(!is_whitespace(s[i]));
        lemma_uppercase_keeps_solid(s[i]);
    }
}

/// A tokenizer over a slice of characters. It only ever moves forward: what
/// it has handed out is gone from its view.
pub struct Lexer<'a> {
    content: &'a [char],
}

impl<'a> View for Lexer<'a> {
    type V = Seq<char>;

    /// The characters that are still to be read.
    closed spec fn view(&self) -> Seq<char> {
        self.content@
    }
}

impl<'a> Lexer<'a> {
    /// A tokenizer at the start of `content`.
    pub fn new(content: &'a [char]) -> (lexer: Self)
        ensures
            lexer@ == content@,
    {
        Self { content }
    }

    /// Drops the leading whitespace.
    pub fn trim_left(&mut self)
        ensures
            final(self)@ == trimmed(old(self)@),
    {
        let mut n: usize = 0;
        while n < self.content.len() && whitespace(self.content[n])
            invariant
                n <= self.content@.len(),
                forall|i: int| 0 <= i < n ==> is_whitespace(#[trigger] self.content@[i]),
            decreases self.content@.len() - n,
        {
            n += 1;
        }
        proof {
            lemma_run_length_unique(self.content@, is_space(), n as int);
        }
        self.content = slice_subrange(self.content, n, self.content.len());
    }

    /// Takes the first `n` characters.
    pub fn chop(&mut self, n: usize) -> (token: &'a [char])
        requires
            n <= old(self)@.len(),
        ensures
            token@ == old(self)@.take(n as int),
            final(self)@ == old(self)@.skip(n as int),
    {
        let token = slice_subrange(self.content, 0, n);
        self.content = slice_subrange(self.content, n, self.content.len());
        token
    }

    /// Takes the longest prefix that `predicate` accepts throughout.
    pub fn chop_while<P: Fn(&char) -> bool>(&mut self, predicate: P) -> (token: &'a [char])
        requires
            forall|c: char| call_requires(predicate, (&c,)),
        ensures
            token@.len() <= old(self)@.len(),
            token@ == old(self)@.take(token@.len() as int),
            final(self)@ == old(self)@.skip(token@.len() as int),
            forall|i: int|
                0 <= i < token@.len() ==> call_ensures(predicate, (&#[trigger] old(self)@[i],), true),
            token@.len() < old(self)@.len() ==> call_ensures(
                predicate,
                (&old(self)@[token@.len() as int],),
                false,
            ),
    {
        let mut n: usize = 0;
        while n < self.content.len() && predicate(&self.content[n])
            invariant
                n <= self.content@.len(),
                forall|c: char| call_requires(predicate, (&c,)),
                forall|i: int|
                    0 <= i < n ==> call_ensures(predicate, (&#[trigger] self.content@[i],), true),
            decreases self.content@.len() - n,
        {
            n += 1;
        }
        self.chop(n)
    }

    /// The next token, or `None` when only whitespace is left.
    pub fn next_token(&mut self) -> (token: Option<String>)
        ensures
            token is None <==> trimmed(old(self)@).len() == 0,
            token is None ==> final(self)@.len() == 0,
            token matches Some(text) ==> {
                let rest = trimmed(old(self)@);
                &&& text@ == token_text(rest)
                &&& final(self)@ == rest.skip(token_length(rest) as int)
                &&& final(self)@.len() < old(self)@.len()
                &&& text@.len() > 0
                &&& forall|i: int| 0 <= i < text@.len() ==> !is_whitespace(#[trigger] text@[i])
            },
            tokens(old(self)@) == match token {
                None => Seq::<Seq<char>>::empty(),
                Some(text) => seq![text@] + tokens(final(self)@),
            },
    {
        self.trim_left();
        let ghost rest = self@;
        proof {
            lemma_trimmed(old(self)@);
        }
        if self.content.len() == 0 {
            return None;
        }
        proof {
            lemma_token_length(rest);
            lemma_token_text_is_solid(rest);
        }
        let text = match classify(self.content[0]) {
            CharClass::Digit => {
                let run = self.chop_while(digit);
                proof {
                    lemma_run_length_unique(rest, is_digit(), run@.len() as int);
                }
                string_of(run)
            },
            CharClass::Letter => {
                let run = self.chop_while(word_char);
                proof {
                    lemma_run_length_unique(rest, is_word_char(), run@.len() as int);
                }
                uppercase_string_of(run)
            },
            _ => string_of(self.chop(1)),
        };
        Some(text)
    }
}

/// Decides `is_digit`.
pub fn digit(c: &char) -> (b: bool)
    ensures
        b == (class_of(*c) == CharClass::Digit),
{
    classify(*c) == CharClass::Digit
}

/// Decides `is_word_char`.
pub fn word_char(c: &char) -> (b: bool)
    ensures
        b == (class_of(*c) == CharClass::Digit || class_of(*c) == CharClass::Letter),
{
    let class = classify(*c);
    class == CharClass::Digit || class == CharClass::Letter
}

/// The characters of `run` as a string.
pub fn string_of(run: &[char]) -> (text: String)
    ensures
        text@ == run@,
{
    let mut text = String::new();
    let mut i: usize = 0;
    while i < run.len()
        invariant
            i <= run@.len(),
            text@ == run@.take(i as int),
        decreases run@.len() - i,
    {
        text.push(run[i]);
        i += 1;
        assert(run@.take(i as int) == run@.take(i - 1).push(run@[i - 1]));
    }
    assert(run@.take(i as int) == run@);
    text
}

/// The characters of `run` as a string, with the letters `a` to `z` in
/// upper case.
pub fn uppercase_string_of(run: &[char]) -> (text: String)
    ensures
        text@ == run@.map_values(|c: char| ascii_uppercase(c)),
{
    let mut text = String::new();
    let mut i: usize = 0;
    while i < run.len()
        invariant
            i <= run@.len(),
            text@ == run@.take(i as int).map_values(|c: char| ascii_uppercase(c)),
        decreases run@.len() - i,
    {
        text.push(run[i].to_ascii_uppercase());
        i += 1;
        assert(run@.take(i as int) == run@.take(i - 1).push(run@[i - 1]));
        assert(run@.take(i as int).map_values(|c: char| ascii_uppercase(c)) == run@.take(
            i - 1,
        ).map_values(|c: char| ascii_uppercase(c)).push(ascii_uppercase(run@[i - 1])));
    }
    assert(run@.take(i as int) == run@);
    text
}

/// The characters of `text`.
pub fn chars_of(text: &str) -> (list: Vec<char>)
    ensures
        list@ == text@,
{
    let mut list: Vec<char> = Vec::new();
    for c in iter: text.chars()
        invariant
            iter.seq() == text@,
            list@ == iter.seq().take(iter.index() as int),
    {
        list.push(c);
        assert(iter.seq().take(iter.index() + 1) == iter.seq().take(iter.index() as int).push(c));
    }
    assert(text@.take(text@.len() as int) == text@);
    list
}

/// The views of the strings of `list`, in order.
pub open spec fn texts(list: Seq<String>) -> Seq<Seq<char>> {
    list.map_values(|text: String| text@)
}

/// All the tokens of `content`.
pub fn tokenize(content: &[char]) -> (list: Vec<String>)
    ensures
        texts(list@) == tokens(content@),
        forall|k: int|
            0 <= k < list@.len() ==> {
                &&& (#[trigger] list@[k])@.len() > 0
                &&& forall|i: int| 0 <= i < list@[k]@.len() ==> !is_whitespace(#[trigger] list@[k]@[i])
            },
{
    let mut lexer = Lexer::new(content);
    let mut list: Vec<String> = Vec::new();
    loop
        invariant_except_break
            texts(list@) + tokens(lexer@) == tokens(content@),
        ensures
            texts(list@) == tokens(content@),
        decreases lexer@.len(),
    {
        match lexer.next_token() {
            None => {
                assert(texts(list@) + Seq::<Seq<char>>::empty() == texts(list@));
                break ;
            },
            Some(text) => {
                let ghost before = list@;
                list.push(text);
                assert(texts(list@) == texts(before).push(text@));
                assert(texts(before).push(text@) + tokens(lexer@) == texts(before) + (seq![text@]
                    + tokens(lexer@)));
            },
        }
    }
    proof {
        lemma_tokens_are_solid(content@);
        assert forall|k: int| 0 <= k < list@.len() implies {
            &&& (#[trigger] list@[k])@.len() > 0
            &&& forall|i: int| 0 <= i < list@[k]@.len() ==> !is_whitespace(#[trigger] list@[k]@[i])
        } by {
            assert(texts(list@)[k] == list@[k]@);
        }
    }
    list
}

} // verus!
