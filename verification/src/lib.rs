//! A streaming, non-validating tokenizer for ECMAScript source text.
//!
//! The lexer turns a sequence of characters into classified tokens while
//! preserving the original text.  Its heart is the context-sensitive
//! disambiguation machine that tells a division `/` from the start of a
//! regular-expression literal; the machine is specified in `model`, the
//! executable engine is proved to follow it step by step, and `props` holds
//! the library-wide laws (round-trip, progress, trivia transparency,
//! bracket balance).

use vstd::prelude::*;

pub mod lex_stream;
pub mod model;
mod consumers;
pub mod props;

verus! {

use crate::lex_stream::LexStream;
use crate::model::{
    alpha_char, alpha_char_hi, numeric_char, numeric_char_hi, is_ws_char, is_lt_char,
    is_digit_char, is_oct_char, is_hex_char, is_lower_char, is_word_start, is_word_char,
    is_restricted_kw, is_nonexpr_kw, kw_return, kw_yield, kw_continue, kw_break, kw_throw, kw_if,
    kw_for, kw_while, Tok, FsmState, LexState, init_state, lex_run, lex_step,
};

// ---------------------------------------------------------------------------
// Trusted views of the outside world
// ---------------------------------------------------------------------------

/// Relies on `char::is_alphabetic`: on ASCII it holds exactly of the
/// letters; beyond ASCII its result depends on the character alone and is
/// named by `alpha_char_hi`.
pub assume_specification[ char::is_alphabetic ](c: char) -> (r: bool)
    ensures
        r == alpha_char(c),
        (c as u32) >= 128 ==> r == alpha_char_hi(c),
;

/// Relies on `char::is_alphanumeric`, documented as
/// `is_alphabetic() || is_numeric()`: on ASCII it holds exactly of the
/// letters and digits; beyond ASCII both results depend on the character
/// alone and are named by `alpha_char_hi` and `numeric_char_hi`.
pub assume_specification[ char::is_alphanumeric ](c: char) -> (r: bool)
    ensures
        r == (alpha_char(c) || numeric_char(c)),
        (c as u32) >= 128 ==> r == (alpha_char_hi(c) || numeric_char_hi(c)),
;

/// Relies on `String`'s `FromIterator<char>`: collecting characters yields
/// the string holding exactly those characters, in order.
#[verifier::external_body]
pub(crate) fn chars_to_string(v: &Vec<char>) -> (s: String)
    ensures
        s@ == v@,
{
    v.iter().collect()
}

/// Relies on `str::chars`: the characters of the string, in order.
#[verifier::external_body]
pub(crate) fn str_to_chars(s: &str) -> (v: Vec<char>)
    ensures
        v@ == s@,
{
    s.chars().collect()
}

// ---------------------------------------------------------------------------
// Character classifiers
// ---------------------------------------------------------------------------

pub(crate) fn is_ws_x(c: char) -> (r: bool)
    ensures
        r == is_ws_char(c),
{
    c == ' ' || c == '\t' || c == '\u{000b}' || c == '\u{000c}' || c == '\u{00a0}'
}

pub(crate) fn is_lt_x(c: char) -> (r: bool)
    ensures
        r == is_lt_char(c),
{
    c == '\r' || c == '\n'
}

pub(crate) fn is_digit_x(c: char) -> (r: bool)
    ensures
        r == is_digit_char(c),
{
    let u = c as u32;
    48 <= u && u <= 57
}

pub(crate) fn is_oct_x(c: char) -> (r: bool)
    ensures
        r == is_oct_char(c),
{
    let u = c as u32;
    48 <= u && u <= 55
}

pub(crate) fn is_hex_x(c: char) -> (r: bool)
    ensures
        r == is_hex_char(c),
{
    let u = c as u32;
    (48 <= u && u <= 57) || (97 <= u && u <= 102) || (65 <= u && u <= 70)
}

pub(crate) fn is_lower_x(c: char) -> (r: bool)
    ensures
        r == is_lower_char(c),
{
    let u = c as u32;
    97 <= u && u <= 122
}

pub(crate) fn is_word_start_x(c: char) -> (r: bool)
    ensures
        r == is_word_start(c),
{
    c == '_' || c == '$' || c.is_alphabetic()
}

pub(crate) fn is_word_char_x(c: char) -> (r: bool)
    ensures
        r == is_word_char(c),
{
    c == '_' || c == '$' || c.is_alphanumeric()
}

// ---------------------------------------------------------------------------
// Keyword tests
// ---------------------------------------------------------------------------

pub(crate) fn word_is_restricted(w: &String) -> (r: bool)
    ensures
        r == is_restricted_kw(w@),
{
    proof {
        reveal_strlit("return");
        reveal_strlit("continue");
        reveal_strlit("break");
        reveal_strlit("throw");
        reveal_strlit("yield");
        assert("return"@ =~= kw_return());
        assert("continue"@ =~= kw_continue());
        assert("break"@ =~= kw_break());
        assert("throw"@ =~= kw_throw());
        assert("yield"@ =~= kw_yield());
    }
    *w == "return".to_owned() || *w == "continue".to_owned() || *w == "break".to_owned() || *w
        == "throw".to_owned() || *w == "yield".to_owned()
}

pub(crate) fn word_is_return_or_yield(w: &String) -> (r: bool)
    ensures
        r == (w@ == kw_return() || w@ == kw_yield()),
{
    proof {
        reveal_strlit("return");
        reveal_strlit("yield");
        assert("return"@ =~= kw_return());
        assert("yield"@ =~= kw_yield());
    }
    *w == "return".to_owned() || *w == "yield".to_owned()
}

pub(crate) fn word_is_nonexpr(w: &String) -> (r: bool)
    ensures
        r == is_nonexpr_kw(w@),
{
    proof {
        reveal_strlit("if");
        reveal_strlit("for");
        reveal_strlit("while");
        assert("if"@ =~= kw_if());
        assert("for"@ =~= kw_for());
        assert("while"@ =~= kw_while());
    }
    *w == "if".to_owned() || *w == "for".to_owned() || *w == "while".to_owned()
}

pub(crate) fn word_is_for(w: &String) -> (r: bool)
    ensures
        r == (w@ == kw_for()),
{
    proof {
        reveal_strlit("for");
        assert("for"@ =~= kw_for());
    }
    *w == "for".to_owned()
}

// ---------------------------------------------------------------------------
// Tokens
// ---------------------------------------------------------------------------

/// A lexical token; every variant carries its text.  `LineComment` holds
/// the body without the leading `//`, `MultilineComment` the body without
/// either delimiter, `RegexpLiteral` the body between the slashes and the
/// trailing flags; every other variant carries its verbatim lexeme.
#[derive(Clone, Debug, PartialEq, Eq)]
pub enum JsToken {
    Whitespace(String),
    LineTerminator(String),
    LineComment(String),
    MultilineComment(String),
    Word(String),
    StringLiteral(String),
    NumberLiteral(String),
    RegexpLiteral(String, String),
    Punctuation(String),
    Unknown(String),
}

impl View for JsToken {
    type V = Tok;

    open spec fn view(&self) -> Tok {
        match self {
            JsToken::Whitespace(s) => Tok::Whitespace(s@),
            JsToken::LineTerminator(s) => Tok::LineTerminator(s@),
            JsToken::LineComment(s) => Tok::LineComment(s@),
            JsToken::MultilineComment(s) => Tok::MultilineComment(s@),
            JsToken::Word(s) => Tok::Word(s@),
            JsToken::StringLiteral(s) => Tok::StringLiteral(s@),
            JsToken::NumberLiteral(s) => Tok::NumberLiteral(s@),
            JsToken::RegexpLiteral(b, f) => Tok::RegexpLiteral(b@, f@),
            JsToken::Punctuation(s) => Tok::Punctuation(s@),
            JsToken::Unknown(s) => Tok::Unknown(s@),
        }
    }
}

/// The token views of a token vector, in order.
pub open spec fn views_of(ts: Seq<JsToken>) -> Seq<Tok> {
    ts.map_values(|t: JsToken| t@)
}

// ---------------------------------------------------------------------------
// The token iterator
// ---------------------------------------------------------------------------

struct LexerVars {
    is_new_line: bool,
    last_token_disallows_newline: bool,
    last_token_nonexpr_paren: bool,
    last_token_for: bool,
}

/// The pull-driven token engine: each call of `next` consumes one token's
/// characters and emits the token, following `model::lex_step` exactly.
pub struct JsTokenIterator {
    char_iter: LexStream,
    state_stack: Vec<(char, FsmState, bool)>,
    state: FsmState,
    in_for: bool,
    lexer_vars: LexerVars,
}

impl JsTokenIterator {
    /// The characters not yet consumed.
    pub closed spec fn stream(&self) -> Seq<char> {
        self.char_iter@
    }

    /// The disambiguation state between tokens.
    pub closed spec fn ctl(&self) -> LexState {
        LexState {
            fsm: self.state,
            stack: self.state_stack@,
            in_for: self.in_for,
            is_new_line: self.lexer_vars.is_new_line,
            disallows_newline: self.lexer_vars.last_token_disallows_newline,
            nonexpr_paren: self.lexer_vars.last_token_nonexpr_paren,
            last_for: self.lexer_vars.last_token_for,
        }
    }
}

/// A tokenizer over the given characters, in its initial state.
pub fn tokenize_chars(src: Vec<char>) -> (t: JsTokenIterator)
    ensures
        t.ctl() == init_state(),
        t.stream() == src@,
{
    let t = JsTokenIterator {
        char_iter: LexStream::new(src),
        state_stack: Vec::new(),
        state: FsmState::Initial,
        in_for: false,
        lexer_vars: LexerVars {
            is_new_line: true,
            last_token_disallows_newline: false,
            last_token_nonexpr_paren: false,
            last_token_for: false,
        },
    };
    proof {
        assert(t.ctl() =~= init_state());
    }
    t
}

/// A tokenizer over the characters of a string.
pub fn tokenize_str(src: &str) -> (t: JsTokenIterator)
    ensures
        t.ctl() == init_state(),
        t.stream() == src@,
{
    tokenize_chars(str_to_chars(src))
}

/// All tokens of `src`, in input order.
pub fn tokenize(src: &str) -> (r: Vec<JsToken>)
    ensures
        views_of(r@) == lex_run(init_state(), src@).0,
{
    let mut it = tokenize_str(src);
    let ghost s0 = src@;
    let mut result: Vec<JsToken> = Vec::new();
    loop
        invariant
            lex_run(init_state(), s0).0 == views_of(result@) + lex_run(it.ctl(), it.stream()).0,
        ensures
            it.stream().len() == 0,
        decreases it.stream().len(),
    {
        let ghost m_pre = it.ctl();
        let ghost s_pre = it.stream();
        match it.next() {
            Some(t) => {
                proof {
                    crate::model::lemma_step_progress(m_pre, s_pre);
                    assert(lex_run(m_pre, s_pre).0 =~= seq![lex_step(m_pre, s_pre).tok] + lex_run(
                        it.ctl(),
                        it.stream(),
                    ).0);
                }
                result.push(t);
                proof {
                    assert(views_of(result@) =~= views_of(result@.drop_last()).push(t@));
                    assert(lex_run(init_state(), s0).0 =~= views_of(result@) + lex_run(
                        it.ctl(),
                        it.stream(),
                    ).0);
                }
            },
            None => {
                break ;
            },
        }
    }
    proof {
        assert(lex_run(it.ctl(), it.stream()).0 =~= Seq::<Tok>::empty());
        assert(views_of(result@) =~= lex_run(init_state(), s0).0);
    }
    result
}

} // verus!
