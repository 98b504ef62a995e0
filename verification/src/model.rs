//! The mathematical model of the tokenizer.
//!
//! Everything here is specification-level: character classes, the scan
//! lengths of the individual token forms, the disambiguation state, and the
//! step function `lex_step` that says which token the lexer emits next, how
//! many characters it consumes, and what state it leaves behind.  The
//! executable engine is proved to agree with this model token by token.

use vstd::prelude::*;

verus! {

// ---------------------------------------------------------------------------
// Character classes
// ---------------------------------------------------------------------------

/// Horizontal whitespace: space, tab, vertical tab, form feed, NBSP.
pub open spec fn is_ws_char(c: char) -> bool {
    c == ' ' || c == '\t' || c == '\u{000b}' || c == '\u{000c}' || c == '\u{00a0}'
}

/// Line terminators: carriage return and line feed.
pub open spec fn is_lt_char(c: char) -> bool {
    c == '\r' || c == '\n'
}

pub open spec fn is_digit_char(c: char) -> bool {
    48 <= (c as u32) && (c as u32) <= 57
}

pub open spec fn is_oct_char(c: char) -> bool {
    48 <= (c as u32) && (c as u32) <= 55
}

pub open spec fn is_hex_char(c: char) -> bool {
    is_digit_char(c) || (97 <= (c as u32) && (c as u32) <= 102) || (65 <= (c as u32) && (c as u32)
        <= 70)
}

/// Lowercase ASCII letters, the alphabet of regular-expression flags.
pub open spec fn is_lower_char(c: char) -> bool {
    97 <= (c as u32) && (c as u32) <= 122
}

/// Names the result of `char::is_alphabetic` beyond ASCII, where it depends
/// on the character alone.
pub uninterp spec fn alpha_char_hi(c: char) -> bool;

/// Names the result of `char::is_numeric` beyond ASCII, where it depends on
/// the character alone.
pub uninterp spec fn numeric_char_hi(c: char) -> bool;

/// What `char::is_alphabetic` returns: on ASCII exactly the letters, beyond
/// ASCII the character's Alphabetic property.
pub open spec fn alpha_char(c: char) -> bool {
    if (c as u32) < 128 {
        (65 <= (c as u32) && (c as u32) <= 90) || (97 <= (c as u32) && (c as u32) <= 122)
    } else {
        alpha_char_hi(c)
    }
}

/// What `char::is_numeric` returns: on ASCII exactly the digits, beyond
/// ASCII the character's numeric general category.
pub open spec fn numeric_char(c: char) -> bool {
    if (c as u32) < 128 {
        is_digit_char(c)
    } else {
        numeric_char_hi(c)
    }
}

/// A character that may begin a word token.
pub open spec fn is_word_start(c: char) -> bool {
    c == '_' || c == '$' || alpha_char(c)
}

/// A character that may continue a word token.
pub open spec fn is_word_char(c: char) -> bool {
    c == '_' || c == '$' || alpha_char(c) || numeric_char(c)
}

// ---------------------------------------------------------------------------
// Greedy runs
// ---------------------------------------------------------------------------

/// Length of the longest prefix of `s` whose characters all satisfy `p`.
pub open spec fn run_len(s: Seq<char>, p: spec_fn(char) -> bool) -> nat
    decreases s.len(),
{
    if s.len() > 0 && p(s[0]) {
        (1 + run_len(s.skip(1), p)) as nat
    } else {
        0
    }
}

pub open spec fn ws_pred() -> spec_fn(char) -> bool {
    |c: char| is_ws_char(c)
}

pub open spec fn lt_pred() -> spec_fn(char) -> bool {
    |c: char| is_lt_char(c)
}

pub open spec fn not_lt_pred() -> spec_fn(char) -> bool {
    |c: char| !is_lt_char(c)
}

pub open spec fn digit_pred() -> spec_fn(char) -> bool {
    |c: char| is_digit_char(c)
}

pub open spec fn lower_pred() -> spec_fn(char) -> bool {
    |c: char| is_lower_char(c)
}

pub open spec fn word_pred() -> spec_fn(char) -> bool {
    |c: char| is_word_char(c)
}

pub open spec fn ws_run(s: Seq<char>) -> nat {
    run_len(s, ws_pred())
}

pub open spec fn lt_run(s: Seq<char>) -> nat {
    run_len(s, lt_pred())
}

/// The body of a line comment: everything up to the next line terminator.
pub open spec fn nlt_run(s: Seq<char>) -> nat {
    run_len(s, not_lt_pred())
}

pub open spec fn digits_run(s: Seq<char>) -> nat {
    run_len(s, digit_pred())
}

pub open spec fn lower_run(s: Seq<char>) -> nat {
    run_len(s, lower_pred())
}

pub open spec fn word_run(s: Seq<char>) -> nat {
    run_len(s, word_pred())
}

pub proof fn lemma_run_len(s: Seq<char>, p: spec_fn(char) -> bool)
    ensures
        run_len(s, p) <= s.len(),
        forall|i: int| 0 <= i < run_len(s, p) ==> p(s[i]),
        run_len(s, p) < s.len() ==> !p(s[run_len(s, p) as int]),
    decreases s.len(),
{
    if s.len() > 0 && p(s[0]) {
        lemma_run_len(s.skip(1), p);
        assert forall|i: int| 0 <= i < run_len(s, p) implies p(s[i]) by {
            if i > 0 {
                assert(s.skip(1)[i - 1] == s[i]);
            }
        }
    }
}

/// A run over a concatenation: if every character of `w` satisfies `p` and
/// `s` does not start with one, the run covers exactly `w`.
pub proof fn lemma_run_len_concat(w: Seq<char>, s: Seq<char>, p: spec_fn(char) -> bool)
    requires
        forall|i: int| 0 <= i < w.len() ==> p(w[i]),
        s.len() == 0 || !p(s[0]),
    ensures
        run_len(w + s, p) == w.len(),
    decreases w.len(),
{
    if w.len() == 0 {
        assert(w + s =~= s);
    } else {
        assert((w + s)[0] == w[0]);
        assert((w + s).skip(1) =~= w.skip(1) + s);
        lemma_run_len_concat(w.skip(1), s, p);
    }
}

// ---------------------------------------------------------------------------
// The number scanner
// ---------------------------------------------------------------------------

/// The inner states of the number scanner.
#[derive(Clone, Copy)]
pub enum NumSt {
    Start,
    Zero,
    Bin,
    Oct,
    Dec,
    Hex,
}

/// Runs the mantissa scanner from `st`; yields characters consumed and the
/// state in which it stopped.
pub open spec fn num_scan(s: Seq<char>, st: NumSt) -> (nat, NumSt)
    decreases s.len(),
{
    if s.len() == 0 {
        (0, st)
    } else {
        let c = s[0];
        match st {
            NumSt::Start => if c == '0' {
                let r = num_scan(s.skip(1), NumSt::Zero);
                ((1 + r.0) as nat, r.1)
            } else if is_digit_char(c) {
                let r = num_scan(s.skip(1), NumSt::Dec);
                ((1 + r.0) as nat, r.1)
            } else {
                (0, st)
            },
            NumSt::Zero => if c == 'b' || c == 'B' {
                let r = num_scan(s.skip(1), NumSt::Bin);
                ((1 + r.0) as nat, r.1)
            } else if c == 'o' || c == 'O' {
                let r = num_scan(s.skip(1), NumSt::Oct);
                ((1 + r.0) as nat, r.1)
            } else if c == 'x' || c == 'X' {
                let r = num_scan(s.skip(1), NumSt::Hex);
                ((1 + r.0) as nat, r.1)
            } else if is_digit_char(c) {
                let r = num_scan(s.skip(1), NumSt::Zero);
                ((1 + r.0) as nat, r.1)
            } else {
                (0, st)
            },
            NumSt::Bin => if c == '0' || c == '1' {
                let r = num_scan(s.skip(1), NumSt::Bin);
                ((1 + r.0) as nat, r.1)
            } else {
                (0, st)
            },
            NumSt::Oct => if is_oct_char(c) {
                let r = num_scan(s.skip(1), NumSt::Oct);
                ((1 + r.0) as nat, r.1)
            } else {
                (0, st)
            },
            NumSt::Dec => if is_digit_char(c) {
                let r = num_scan(s.skip(1), NumSt::Dec);
                ((1 + r.0) as nat, r.1)
            } else {
                (0, st)
            },
            NumSt::Hex => if is_hex_char(c) {
                let r = num_scan(s.skip(1), NumSt::Hex);
                ((1 + r.0) as nat, r.1)
            } else {
                (0, st)
            },
        }
    }
}

pub proof fn lemma_num_scan_le(s: Seq<char>, st: NumSt)
    ensures
        num_scan(s, st).0 <= s.len(),
    decreases s.len(),
{
    if s.len() > 0 {
        lemma_num_scan_le(s.skip(1), NumSt::Zero);
        lemma_num_scan_le(s.skip(1), NumSt::Bin);
        lemma_num_scan_le(s.skip(1), NumSt::Oct);
        lemma_num_scan_le(s.skip(1), NumSt::Dec);
        lemma_num_scan_le(s.skip(1), NumSt::Hex);
    }
}

/// The length of a number literal starting at `s`: the mantissa, and on a
/// plain decimal mantissa an optional fraction and an optional exponent
/// (whose sign may only be `-`).
pub open spec fn num_len(s: Seq<char>) -> nat {
    let r = num_scan(s, NumSt::Start);
    if r.1 is Dec {
        let s1 = s.skip(r.0 as int);
        let frac: nat = if s1.len() > 0 && s1[0] == '.' {
            (1 + digits_run(s1.skip(1))) as nat
        } else {
            0
        };
        let s2 = s1.skip(frac as int);
        let ex: nat = if s2.len() > 0 && (s2[0] == 'e' || s2[0] == 'E') {
            let neg: nat = if s2.len() > 1 && s2[1] == '-' {
                1
            } else {
                0
            };
            (1 + neg + digits_run(s2.skip(1 + neg as int))) as nat
        } else {
            0
        };
        (r.0 + frac + ex) as nat
    } else {
        r.0
    }
}

pub proof fn lemma_num_len_bounds(s: Seq<char>)
    requires
        s.len() > 0,
        is_digit_char(s[0]),
    ensures
        1 <= num_len(s) <= s.len(),
{
    lemma_num_scan_le(s, NumSt::Start);
    let r = num_scan(s, NumSt::Start);
    assert(r.0 >= 1);
    if r.1 is Dec {
        let s1 = s.skip(r.0 as int);
        lemma_run_len(s1.skip(1), digit_pred());
        let frac: nat = if s1.len() > 0 && s1[0] == '.' {
            (1 + digits_run(s1.skip(1))) as nat
        } else {
            0
        };
        assert(frac <= s1.len());
        let s2 = s1.skip(frac as int);
        if s2.len() > 0 && (s2[0] == 'e' || s2[0] == 'E') {
            let neg: nat = if s2.len() > 1 && s2[1] == '-' {
                1
            } else {
                0
            };
            lemma_run_len(s2.skip(1 + neg as int), digit_pred());
        }
    }
}

// ---------------------------------------------------------------------------
// The string-literal scanner
// ---------------------------------------------------------------------------

/// Characters consumed up to and including the first `}`, or all of `s`
/// when there is none: the `\u{...}` escape form.
pub open spec fn u_brace_run(s: Seq<char>) -> nat
    decreases s.len(),
{
    if s.len() == 0 {
        0
    } else if s[0] == '}' {
        1
    } else {
        (1 + u_brace_run(s.skip(1))) as nat
    }
}

pub proof fn lemma_u_brace_run_le(s: Seq<char>)
    ensures
        u_brace_run(s) <= s.len(),
    decreases s.len(),
{
    if s.len() > 0 && s[0] != '}' {
        lemma_u_brace_run_le(s.skip(1));
    }
}

/// Characters of the string body consumed after the opening quote `q`,
/// including the closing quote when the literal is terminated.  `esc` is
/// true directly after a backslash.
pub open spec fn str_scan(s: Seq<char>, q: char, esc: bool) -> nat
    decreases s.len(),
{
    if s.len() == 0 {
        0
    } else if !esc {
        if s[0] == q {
            1
        } else if s[0] == '\\' {
            (1 + str_scan(s.skip(1), q, true)) as nat
        } else {
            (1 + str_scan(s.skip(1), q, false)) as nat
        }
    } else {
        if s[0] == 'x' {
            let k: int = if s.len() >= 3 {
                3
            } else {
                s.len() as int
            };
            (k + str_scan(s.skip(k), q, false)) as nat
        } else if s[0] == 'u' {
            if s.len() >= 2 && s[1] == '{' {
                let k: int = 2 + u_brace_run(s.skip(2)) as int;
                if k <= s.len() {
                    (k + str_scan(s.skip(k), q, false)) as nat
                } else {
                    s.len()
                }
            } else {
                let k: int = if s.len() >= 5 {
                    5
                } else {
                    s.len() as int
                };
                (k + str_scan(s.skip(k), q, false)) as nat
            }
        } else {
            (1 + str_scan(s.skip(1), q, false)) as nat
        }
    }
}

pub proof fn lemma_str_scan_le(s: Seq<char>, q: char, esc: bool)
    ensures
        str_scan(s, q, esc) <= s.len(),
    decreases s.len(),
{
    if s.len() == 0 {
    } else if !esc {
        if s[0] != q {
            lemma_str_scan_le(s.skip(1), q, s[0] == '\\');
        }
    } else {
        if s[0] == 'x' {
            let k: int = if s.len() >= 3 {
                3
            } else {
                s.len() as int
            };
            lemma_str_scan_le(s.skip(k), q, false);
        } else if s[0] == 'u' {
            if s.len() >= 2 && s[1] == '{' {
                lemma_u_brace_run_le(s.skip(2));
                let k: int = 2 + u_brace_run(s.skip(2)) as int;
                lemma_str_scan_le(s.skip(k), q, false);
            } else {
                let k: int = if s.len() >= 5 {
                    5
                } else {
                    s.len() as int
                };
                lemma_str_scan_le(s.skip(k), q, false);
            }
        } else {
            lemma_str_scan_le(s.skip(1), q, false);
        }
    }
}

// ---------------------------------------------------------------------------
// Comments and regular expressions
// ---------------------------------------------------------------------------

/// Body length of a multiline comment: characters before the first `*/`,
/// or all of `s` when the comment is unterminated.
pub open spec fn ml_body_len(s: Seq<char>) -> nat
    decreases s.len(),
{
    if s.len() == 0 {
        0
    } else if s[0] == '*' && s.len() >= 2 && s[1] == '/' {
        0
    } else {
        (1 + ml_body_len(s.skip(1))) as nat
    }
}

pub proof fn lemma_ml_body_len(s: Seq<char>)
    ensures
        ml_body_len(s) <= s.len(),
        ml_body_len(s) < s.len() ==> ml_body_len(s) + 2 <= s.len() && s[ml_body_len(s) as int]
            == '*' && s[ml_body_len(s) as int + 1] == '/',
    decreases s.len(),
{
    if s.len() > 0 && !(s[0] == '*' && s.len() >= 2 && s[1] == '/') {
        lemma_ml_body_len(s.skip(1));
    }
}

/// Body length of a regular-expression literal after the leading slash: a
/// backslash escapes the following character, an unescaped `/` ends the
/// body.  When there is no closing slash the body runs to the end.
pub open spec fn re_body_len(s: Seq<char>) -> nat
    decreases s.len(),
{
    if s.len() == 0 {
        0
    } else if s[0] == '/' {
        0
    } else if s[0] == '\\' && s.len() >= 2 {
        (2 + re_body_len(s.skip(2))) as nat
    } else {
        (1 + re_body_len(s.skip(1))) as nat
    }
}

pub proof fn lemma_re_body_len(s: Seq<char>)
    ensures
        re_body_len(s) <= s.len(),
        re_body_len(s) < s.len() ==> s[re_body_len(s) as int] == '/',
    decreases s.len(),
{
    if s.len() == 0 {
    } else if s[0] == '/' {
    } else if s[0] == '\\' && s.len() >= 2 {
        lemma_re_body_len(s.skip(2));
    } else {
        lemma_re_body_len(s.skip(1));
    }
}

// ---------------------------------------------------------------------------
// Tokens and the disambiguation state
// ---------------------------------------------------------------------------

/// The specification-level form of a token; payloads are character sequences.
#[verifier::ext_equal]
pub enum Tok {
    Whitespace(Seq<char>),
    LineTerminator(Seq<char>),
    LineComment(Seq<char>),
    MultilineComment(Seq<char>),
    Word(Seq<char>),
    StringLiteral(Seq<char>),
    NumberLiteral(Seq<char>),
    RegexpLiteral(Seq<char>, Seq<char>),
    Punctuation(Seq<char>),
    Unknown(Seq<char>),
}

/// The expression-position state of the disambiguation machine.
#[derive(Clone, Copy, Debug)]
pub enum FsmState {
    /// Statement position: `/` begins a regular expression.
    Initial,
    /// Just after something that can end an expression: `/` is division.
    AfterExpr,
    /// Just after an operator that demands an expression: `/` begins a regular expression.
    ExpectExpr,
}

/// A saved bracket context: expected closer, state to restore, enclosing `in_for`.
pub type BracketFrame = (char, FsmState, bool);

/// The whole running state of the lexer between two tokens.
#[verifier::ext_equal]
pub struct LexState {
    pub fsm: FsmState,
    pub stack: Seq<BracketFrame>,
    pub in_for: bool,
    pub is_new_line: bool,
    pub disallows_newline: bool,
    pub nonexpr_paren: bool,
    pub last_for: bool,
}

/// The state the lexer starts in.
pub open spec fn init_state() -> LexState {
    LexState {
        fsm: FsmState::Initial,
        stack: Seq::empty(),
        in_for: false,
        is_new_line: true,
        disallows_newline: false,
        nonexpr_paren: false,
        last_for: false,
    }
}

// ---------------------------------------------------------------------------
// Keywords
// ---------------------------------------------------------------------------

pub open spec fn kw_return() -> Seq<char> {
    seq!['r', 'e', 't', 'u', 'r', 'n']
}

pub open spec fn kw_yield() -> Seq<char> {
    seq!['y', 'i', 'e', 'l', 'd']
}

pub open spec fn kw_continue() -> Seq<char> {
    seq!['c', 'o', 'n', 't', 'i', 'n', 'u', 'e']
}

pub open spec fn kw_break() -> Seq<char> {
    seq!['b', 'r', 'e', 'a', 'k']
}

pub open spec fn kw_throw() -> Seq<char> {
    seq!['t', 'h', 'r', 'o', 'w']
}

pub open spec fn kw_if() -> Seq<char> {
    seq!['i', 'f']
}

pub open spec fn kw_for() -> Seq<char> {
    seq!['f', 'o', 'r']
}

pub open spec fn kw_while() -> Seq<char> {
    seq!['w', 'h', 'i', 'l', 'e']
}

/// The restricted-production keywords: a line terminator after one of these
/// cancels its effect on the following token.
pub open spec fn is_restricted_kw(w: Seq<char>) -> bool {
    w == kw_return() || w == kw_continue() || w == kw_break() || w == kw_throw() || w == kw_yield()
}

/// The words whose parenthesized head is a statement head, not an expression.
pub open spec fn is_nonexpr_kw(w: Seq<char>) -> bool {
    w == kw_if() || w == kw_for() || w == kw_while()
}

// ---------------------------------------------------------------------------
// One lexing step
// ---------------------------------------------------------------------------

/// The result of one step: the token, how many characters it consumed, and
/// the state left behind.
#[verifier::ext_equal]
pub struct StepRes {
    pub tok: Tok,
    pub n: nat,
    pub st: LexState,
}

/// The state that `++`/`--` leave: postfix keeps `AfterExpr`, prefix demands
/// an expression.
pub open spec fn incdec_fsm(m: LexState) -> FsmState {
    if m.fsm is AfterExpr && !m.is_new_line {
        FsmState::AfterExpr
    } else {
        FsmState::ExpectExpr
    }
}

/// Dispatch on the first character: which token is consumed and how the
/// positional state (fsm, bracket stack, `in_for`) changes.  The per-token
/// memory flags are updated afterwards by `post_update`.
pub open spec fn lex_dispatch(m: LexState, s: Seq<char>) -> StepRes {
    if s.len() == 0 {
        StepRes { tok: Tok::Unknown(s), n: 0, st: m }
    } else {
        let c = s[0];
        if is_digit_char(c) {
            let n = num_len(s);
            StepRes {
                tok: Tok::NumberLiteral(s.take(n as int)),
                n,
                st: LexState { fsm: FsmState::AfterExpr, ..m },
            }
        } else if is_ws_char(c) {
            let n = ws_run(s);
            StepRes { tok: Tok::Whitespace(s.take(n as int)), n, st: m }
        } else if is_lt_char(c) {
            let n = lt_run(s);
            StepRes { tok: Tok::LineTerminator(s.take(n as int)), n, st: m }
        } else if c == '\'' || c == '"' {
            let n = (1 + str_scan(s.skip(1), c, false)) as nat;
            StepRes { tok: Tok::StringLiteral(s.take(n as int)), n, st: m }
        } else if is_word_start(c) {
            let n = word_run(s);
            let w = s.take(n as int);
            let f = if w == kw_return() || w == kw_yield() {
                FsmState::ExpectExpr
            } else {
                FsmState::AfterExpr
            };
            StepRes { tok: Tok::Word(w), n, st: LexState { fsm: f, ..m } }
        } else if c == '(' {
            let saved = if m.nonexpr_paren {
                FsmState::Initial
            } else {
                FsmState::AfterExpr
            };
            StepRes {
                tok: Tok::Punctuation(s.take(1)),
                n: 1,
                st: LexState {
                    fsm: FsmState::ExpectExpr,
                    stack: m.stack.push((')', saved, m.in_for)),
                    in_for: m.last_for,
                    ..m
                },
            }
        } else if c == '{' {
            let saved = if m.fsm is ExpectExpr {
                FsmState::AfterExpr
            } else {
                FsmState::Initial
            };
            StepRes {
                tok: Tok::Punctuation(s.take(1)),
                n: 1,
                st: LexState {
                    fsm: FsmState::Initial,
                    stack: m.stack.push(('}', saved, m.in_for)),
                    in_for: false,
                    ..m
                },
            }
        } else if c == '[' {
            StepRes {
                tok: Tok::Punctuation(s.take(1)),
                n: 1,
                st: LexState {
                    fsm: FsmState::ExpectExpr,
                    stack: m.stack.push((']', FsmState::AfterExpr, m.in_for)),
                    ..m
                },
            }
        } else if c == ')' || c == '}' || c == ']' {
            let matched = m.stack.len() > 0 && m.stack.last().0 == c;
            let frame = if matched {
                m.stack.last()
            } else {
                (c, FsmState::Initial, false)
            };
            let rest = if m.stack.len() > 0 {
                m.stack.drop_last()
            } else {
                m.stack
            };
            StepRes {
                tok: Tok::Punctuation(s.take(1)),
                n: 1,
                st: LexState { fsm: frame.1, stack: rest, in_for: frame.2, ..m },
            }
        } else if c == '!' || c == '=' {
            let n: nat = if s.len() >= 3 && s[1] == '=' && s[2] == '=' {
                3
            } else if s.len() >= 2 && s[1] == '=' {
                2
            } else {
                1
            };
            StepRes {
                tok: Tok::Punctuation(s.take(n as int)),
                n,
                st: LexState { fsm: FsmState::ExpectExpr, ..m },
            }
        } else if c == '<' || c == '>' {
            let n: nat = if s.len() >= 3 && s[1] == c && s[2] == '=' {
                3
            } else if s.len() >= 2 && (s[1] == c || s[1] == '=') {
                2
            } else {
                1
            };
            StepRes {
                tok: Tok::Punctuation(s.take(n as int)),
                n,
                st: LexState { fsm: FsmState::ExpectExpr, ..m },
            }
        } else if c == '&' || c == '|' {
            let n: nat = if s.len() >= 2 && (s[1] == c || s[1] == '=') {
                2
            } else {
                1
            };
            StepRes {
                tok: Tok::Punctuation(s.take(n as int)),
                n,
                st: LexState { fsm: FsmState::ExpectExpr, ..m },
            }
        } else if c == '+' || c == '-' {
            if s.len() >= 2 && s[1] == '=' {
                StepRes {
                    tok: Tok::Punctuation(s.take(2)),
                    n: 2,
                    st: LexState { fsm: FsmState::ExpectExpr, ..m },
                }
            } else if s.len() >= 2 && s[1] == c {
                StepRes {
                    tok: Tok::Punctuation(s.take(2)),
                    n: 2,
                    st: LexState { fsm: incdec_fsm(m), ..m },
                }
            } else {
                StepRes {
                    tok: Tok::Punctuation(s.take(1)),
                    n: 1,
                    st: LexState { fsm: FsmState::ExpectExpr, ..m },
                }
            }
        } else if c == '*' || c == '%' || c == '^' {
            let n: nat = if s.len() >= 2 && s[1] == '=' {
                2
            } else {
                1
            };
            StepRes {
                tok: Tok::Punctuation(s.take(n as int)),
                n,
                st: LexState { fsm: FsmState::ExpectExpr, ..m },
            }
        } else if c == ',' || c == ':' || c == '~' || c == '?' {
            StepRes {
                tok: Tok::Punctuation(s.take(1)),
                n: 1,
                st: LexState { fsm: FsmState::ExpectExpr, ..m },
            }
        } else if c == '/' {
            if s.len() >= 2 && s[1] == '/' {
                let b = nlt_run(s.skip(2));
                StepRes { tok: Tok::LineComment(s.skip(2).take(b as int)), n: (2 + b) as nat, st: m }
            } else if s.len() >= 2 && s[1] == '*' {
                let u = s.skip(2);
                let b = ml_body_len(u);
                let close: nat = if b + 2 <= u.len() {
                    2
                } else {
                    0
                };
                StepRes { tok: Tok::MultilineComment(u.take(b as int)), n: (2 + b + close) as nat, st: m }
            } else if s.len() >= 2 && s[1] == '=' {
                StepRes {
                    tok: Tok::Punctuation(s.take(2)),
                    n: 2,
                    st: LexState { fsm: FsmState::ExpectExpr, ..m },
                }
            } else if m.fsm is AfterExpr {
                StepRes {
                    tok: Tok::Punctuation(s.take(1)),
                    n: 1,
                    st: LexState { fsm: FsmState::ExpectExpr, ..m },
                }
            } else {
                let t = s.skip(1);
                let b = re_body_len(t);
                let found = b < t.len();
                let fl: nat = if found {
                    lower_run(t.skip(b as int + 1))
                } else {
                    0
                };
                let flags = if found {
                    t.skip(b as int + 1).take(fl as int)
                } else {
                    Seq::<char>::empty()
                };
                let n: nat = if found {
                    (1 + b + 1 + fl) as nat
                } else {
                    (1 + b) as nat
                };
                StepRes {
                    tok: Tok::RegexpLiteral(t.take(b as int), flags),
                    n,
                    st: LexState { fsm: FsmState::AfterExpr, ..m },
                }
            }
        } else if c == '.' {
            StepRes {
                tok: Tok::Punctuation(s.take(1)),
                n: 1,
                st: LexState { fsm: FsmState::Initial, ..m },
            }
        } else if c == ';' {
            let f = if m.in_for {
                FsmState::ExpectExpr
            } else {
                FsmState::Initial
            };
            StepRes { tok: Tok::Punctuation(s.take(1)), n: 1, st: LexState { fsm: f, ..m } }
        } else {
            StepRes {
                tok: Tok::Unknown(s.take(1)),
                n: 1,
                st: LexState { fsm: FsmState::Initial, ..m },
            }
        }
    }
}

/// Whether a token counts as a new line for the memory flags: a line
/// terminator, or a multiline comment whose body holds a line feed.
pub open spec fn is_newline_tok(t: Tok) -> bool {
    t is LineTerminator || (t matches Tok::MultilineComment(b) && b.contains('\n'))
}

/// Trivia that leaves every memory flag untouched.
pub open spec fn is_ws_or_lc(t: Tok) -> bool {
    t is Whitespace || t is LineComment
}

/// The per-token memory-flag bookkeeping applied after every emitted token.
pub open spec fn post_update(m: LexState, t: Tok) -> LexState {
    let nl_tok = is_newline_tok(t);
    let restricted = t matches Tok::Word(w) && is_restricted_kw(w);
    let nonexpr = t matches Tok::Word(w) && is_nonexpr_kw(w);
    let for_word = t matches Tok::Word(w) && w == kw_for();
    let trivia = is_ws_or_lc(t) || t is LineTerminator || t is MultilineComment;
    LexState {
        fsm: if nl_tok && m.disallows_newline {
            FsmState::Initial
        } else if restricted {
            FsmState::ExpectExpr
        } else {
            m.fsm
        },
        is_new_line: if nl_tok {
            true
        } else if is_ws_or_lc(t) {
            m.is_new_line
        } else {
            false
        },
        disallows_newline: if restricted {
            true
        } else if nl_tok || is_ws_or_lc(t) {
            m.disallows_newline
        } else {
            false
        },
        nonexpr_paren: if nonexpr {
            true
        } else if trivia {
            m.nonexpr_paren
        } else {
            false
        },
        last_for: if for_word {
            true
        } else if trivia {
            m.last_for
        } else {
            false
        },
        ..m
    }
}

/// One full step of the lexer: dispatch, then flag bookkeeping.
pub open spec fn lex_step(m: LexState, s: Seq<char>) -> StepRes {
    let d = lex_dispatch(m, s);
    StepRes { tok: d.tok, n: d.n, st: post_update(d.st, d.tok) }
}

/// Every step on nonempty input consumes at least one character and at most
/// the whole input: the lexer is total and makes progress.
pub proof fn lemma_step_progress(m: LexState, s: Seq<char>)
    requires
        s.len() > 0,
    ensures
        1 <= lex_step(m, s).n <= s.len(),
        lex_step(m, s).n == lex_dispatch(m, s).n,
{
    let c = s[0];
    if is_digit_char(c) {
        lemma_num_len_bounds(s);
    } else if is_ws_char(c) {
        lemma_run_len(s, ws_pred());
    } else if is_lt_char(c) {
        lemma_run_len(s, lt_pred());
    } else if c == '\'' || c == '"' {
        lemma_str_scan_le(s.skip(1), c, false);
    } else if is_word_start(c) {
        lemma_run_len(s, word_pred());
    } else if c == '/' {
        if s.len() >= 2 && s[1] == '/' {
            lemma_run_len(s.skip(2), not_lt_pred());
        } else if s.len() >= 2 && s[1] == '*' {
            lemma_ml_body_len(s.skip(2));
        } else if s.len() >= 2 && s[1] == '=' {
        } else if m.fsm is AfterExpr {
        } else {
            let t = s.skip(1);
            lemma_re_body_len(t);
            if re_body_len(t) < t.len() {
                lemma_run_len(t.skip(re_body_len(t) as int + 1), lower_pred());
            }
        }
    }
}

// ---------------------------------------------------------------------------
// Running the lexer to the end of the input
// ---------------------------------------------------------------------------

/// All tokens of `s` from state `m`, together with the final state.
pub open spec fn lex_run(m: LexState, s: Seq<char>) -> (Seq<Tok>, LexState)
    decreases s.len(),
{
    if s.len() == 0 {
        (Seq::empty(), m)
    } else {
        let st = lex_step(m, s);
        if 1 <= st.n <= s.len() {
            let r = lex_run(st.st, s.skip(st.n as int));
            (seq![st.tok] + r.0, r.1)
        } else {
            (seq![st.tok], st.st)
        }
    }
}

} // verus!
