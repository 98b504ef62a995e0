//! The library-wide laws, stated and proved over the model: the lexer makes
//! progress on every input (with `model::lemma_step_progress`), reassembling
//! the tokens reproduces the input, no token is empty, whitespace and line
//! comments are transparent to disambiguation, and closing a balanced run
//! of round or square brackets lands after an expression while a brace
//! group restores the position it was opened in.

use vstd::prelude::*;

use crate::model::{
    Tok, LexState, FsmState, lex_run, lex_step, lex_dispatch, lemma_step_progress,
    lemma_num_len_bounds,
    lemma_run_len, lemma_run_len_concat, lemma_str_scan_le, lemma_ml_body_len,
    lemma_re_body_len, is_ws_char, is_lt_char, is_digit_char, is_word_start, ws_pred, lt_pred,
    not_lt_pred, word_pred, lower_pred, nlt_run, ml_body_len, re_body_len,
};

verus! {

// ---------------------------------------------------------------------------
// Reassembly and round trip
// ---------------------------------------------------------------------------

/// The text a consumer would write back for a token: the `//` is
/// re-prepended to a line comment, `/*` and `*/` are put back around a
/// multiline comment, and a regular expression is recomposed as
/// `/` + body + `/` + flags; every other token carries its text verbatim.
pub open spec fn reassemble(t: Tok) -> Seq<char> {
    match t {
        Tok::Whitespace(s) => s,
        Tok::LineTerminator(s) => s,
        Tok::LineComment(b) => seq!['/', '/'] + b,
        Tok::MultilineComment(b) => seq!['/', '*'] + b + seq!['*', '/'],
        Tok::Word(s) => s,
        Tok::StringLiteral(s) => s,
        Tok::NumberLiteral(s) => s,
        Tok::RegexpLiteral(b, f) => seq!['/'] + b + seq!['/'] + f,
        Tok::Punctuation(s) => s,
        Tok::Unknown(s) => s,
    }
}

/// The reassembled text of a token sequence.
pub open spec fn reassembled(ts: Seq<Tok>) -> Seq<char>
    decreases ts.len(),
{
    if ts.len() == 0 {
        Seq::empty()
    } else {
        reassemble(ts[0]) + reassembled(ts.skip(1))
    }
}

/// Whether the next token loses text on reassembly: only an unterminated
/// multiline comment (its `*/` is put back although the input had none) and
/// an unterminated regular expression (its closing `/` likewise) do.
pub open spec fn step_clean(m: LexState, s: Seq<char>) -> bool {
    s.len() == 0 || {
        let c = s[0];
        if is_digit_char(c) || is_ws_char(c) || is_lt_char(c) || c == '\'' || c == '"'
            || is_word_start(c) {
            true
        } else if c == '/' {
            if s.len() >= 2 && s[1] == '/' {
                true
            } else if s.len() >= 2 && s[1] == '*' {
                ml_body_len(s.skip(2)) + 2 <= s.skip(2).len()
            } else if s.len() >= 2 && s[1] == '=' {
                true
            } else if m.fsm is AfterExpr {
                true
            } else {
                re_body_len(s.skip(1)) < s.skip(1).len()
            }
        } else {
            true
        }
    }
}

/// Every step of the run is clean: no unterminated multiline comment or
/// regular expression was emitted.
pub open spec fn lex_clean(m: LexState, s: Seq<char>) -> bool
    decreases s.len(),
{
    if s.len() == 0 {
        true
    } else {
        let st = lex_step(m, s);
        step_clean(m, s) && if 1 <= st.n <= s.len() {
            lex_clean(st.st, s.skip(st.n as int))
        } else {
            true
        }
    }
}

/// A clean step consumes exactly the text that its token reassembles to.
pub proof fn lemma_step_raw(m: LexState, s: Seq<char>)
    requires
        s.len() > 0,
        step_clean(m, s),
    ensures
        reassemble(lex_dispatch(m, s).tok) == s.take(lex_dispatch(m, s).n as int),
{
    let c = s[0];
    let d = lex_dispatch(m, s);
    if is_digit_char(c) {
        assert(reassemble(d.tok) =~= s.take(d.n as int));
    } else if is_ws_char(c) || is_lt_char(c) {
        assert(reassemble(d.tok) =~= s.take(d.n as int));
    } else if c == '\'' || c == '"' {
        assert(reassemble(d.tok) =~= s.take(d.n as int));
    } else if is_word_start(c) {
        assert(reassemble(d.tok) =~= s.take(d.n as int));
    } else if c == '/' && s.len() >= 2 && s[1] == '/' {
        lemma_run_len(s.skip(2), not_lt_pred());
        assert(reassemble(d.tok) =~= s.take(d.n as int));
    } else if c == '/' && s.len() >= 2 && s[1] == '*' {
        lemma_ml_body_len(s.skip(2));
        assert(reassemble(d.tok) =~= s.take(d.n as int));
    } else if c == '/' && !(s.len() >= 2 && (s[1] == '/' || s[1] == '*' || s[1] == '='))
        && !(m.fsm is AfterExpr) {
        let t = s.skip(1);
        lemma_re_body_len(t);
        let b = re_body_len(t) as int;
        assert(b < t.len());
        lemma_run_len(t.skip(b + 1), lower_pred());
        assert(reassemble(d.tok) =~= s.take(d.n as int));
    } else {
        assert(reassemble(d.tok) =~= s.take(d.n as int));
    }
}

/// Every token reassembles to at least one character.
pub proof fn lemma_step_nonempty(m: LexState, s: Seq<char>)
    requires
        s.len() > 0,
    ensures
        reassemble(lex_dispatch(m, s).tok).len() > 0,
{
    let c = s[0];
    if is_digit_char(c) {
        lemma_num_len_bounds(s);
    } else if is_ws_char(c) {
        lemma_run_len(s, ws_pred());
    } else if is_lt_char(c) {
        lemma_run_len(s, lt_pred());
    } else if c == '\'' || c == '"' {
        lemma_str_scan_le(s.skip(1), c, false);
    } else if is_word_start(c) {
        lemma_run_len(s, word_pred());
    }
}

proof fn lemma_reassembled_cons(t: Tok, ts: Seq<Tok>)
    ensures
        reassembled(seq![t] + ts) == reassemble(t) + reassembled(ts),
{
    assert((seq![t] + ts)[0] == t);
    assert((seq![t] + ts).skip(1) =~= ts);
}

/// Round trip: as long as the lexer emits no unterminated multiline comment
/// and no unterminated regular expression, concatenating the reassembled
/// texts of all tokens reproduces the input exactly.
pub proof fn lemma_round_trip(m: LexState, s: Seq<char>)
    requires
        lex_clean(m, s),
    ensures
        reassembled(lex_run(m, s).0) == s,
    decreases s.len(),
{
    if s.len() == 0 {
        assert(reassembled(lex_run(m, s).0) =~= s);
    } else {
        lemma_step_progress(m, s);
        lemma_step_raw(m, s);
        let st = lex_step(m, s);
        let rest = s.skip(st.n as int);
        lemma_round_trip(st.st, rest);
        lemma_reassembled_cons(st.tok, lex_run(st.st, rest).0);
        assert(s =~= s.take(st.n as int) + rest);
    }
}

/// Totality: a finite input yields finitely many tokens — at most one per
/// input character, since every step consumes at least one.
pub proof fn lemma_finite_tokens(m: LexState, s: Seq<char>)
    ensures
        lex_run(m, s).0.len() <= s.len(),
    decreases s.len(),
{
    if s.len() > 0 {
        lemma_step_progress(m, s);
        let st = lex_step(m, s);
        lemma_finite_tokens(st.st, s.skip(st.n as int));
    }
}

/// No empty tokens: every emitted token stands for at least one character
/// of text.
pub proof fn lemma_no_empty_tokens(m: LexState, s: Seq<char>)
    ensures
        forall|i: int|
            0 <= i < lex_run(m, s).0.len() ==> reassemble(#[trigger] lex_run(m, s).0[i]).len()
                > 0,
    decreases s.len(),
{
    if s.len() > 0 {
        lemma_step_progress(m, s);
        lemma_step_nonempty(m, s);
        let st = lex_step(m, s);
        let rest = s.skip(st.n as int);
        lemma_no_empty_tokens(st.st, rest);
        let r = lex_run(st.st, rest).0;
        assert forall|i: int| 0 <= i < lex_run(m, s).0.len() implies reassemble(
            #[trigger] lex_run(m, s).0[i],
        ).len() > 0 by {
            if i > 0 {
                assert(lex_run(m, s).0[i] == r[i - 1]);
            }
        }
    }
}

// ---------------------------------------------------------------------------
// Trivia transparency
// ---------------------------------------------------------------------------

/// Trivia: tokens without syntactic content.
pub open spec fn is_trivia_tok(t: Tok) -> bool {
    t is Whitespace || t is LineTerminator || t is LineComment || t is MultilineComment
}

/// The subsequence of non-trivia tokens.
pub open spec fn nontrivia(ts: Seq<Tok>) -> Seq<Tok>
    decreases ts.len(),
{
    if ts.len() == 0 {
        Seq::empty()
    } else if is_trivia_tok(ts[0]) {
        nontrivia(ts.skip(1))
    } else {
        seq![ts[0]] + nontrivia(ts.skip(1))
    }
}

/// Whitespace transparency: a whitespace token inserted in front of the
/// rest of the input (not running into further whitespace) leaves the
/// machine state and therefore the non-trivia token sequence unchanged.
pub proof fn lemma_whitespace_transparent(m: LexState, w: Seq<char>, s: Seq<char>)
    requires
        w.len() > 0,
        forall|i: int| 0 <= i < w.len() ==> is_ws_char(#[trigger] w[i]),
        s.len() == 0 || !is_ws_char(s[0]),
    ensures
        nontrivia(lex_run(m, w + s).0) == nontrivia(lex_run(m, s).0),
        lex_run(m, w + s).1 == lex_run(m, s).1,
{
    let full = w + s;
    assert(full[0] == w[0]);
    lemma_run_len_concat(w, s, ws_pred());
    lemma_step_progress(m, full);
    let st = lex_step(m, full);
    assert(st.tok == Tok::Whitespace(full.take(w.len() as int)));
    assert(st.st =~= m);
    assert(full.skip(w.len() as int) =~= s);
    let r = lex_run(m, s).0;
    assert(lex_run(m, full).0 =~= seq![st.tok] + r);
    assert((seq![st.tok] + r)[0] == st.tok);
    assert((seq![st.tok] + r).skip(1) =~= r);
}

/// Line-comment transparency: a line comment inserted in front of the rest
/// of the input (which must be empty or start with the line terminator that
/// ends the comment) leaves the machine state and therefore the non-trivia
/// token sequence unchanged.
pub proof fn lemma_line_comment_transparent(m: LexState, b: Seq<char>, s: Seq<char>)
    requires
        forall|i: int| 0 <= i < b.len() ==> !is_lt_char(#[trigger] b[i]),
        s.len() == 0 || is_lt_char(s[0]),
    ensures
        nontrivia(lex_run(m, seq!['/', '/'] + b + s).0) == nontrivia(lex_run(m, s).0),
        lex_run(m, seq!['/', '/'] + b + s).1 == lex_run(m, s).1,
{
    let full = seq!['/', '/'] + b + s;
    assert(full[0] == '/');
    assert(full[1] == '/');
    assert(full.skip(2) =~= b + s);
    lemma_run_len_concat(b, s, not_lt_pred());
    lemma_step_progress(m, full);
    let st = lex_step(m, full);
    assert(nlt_run(full.skip(2)) == b.len());
    assert(st.tok == Tok::LineComment(full.skip(2).take(b.len() as int)));
    assert(st.st =~= m);
    assert(full.skip(2 + b.len() as int) =~= s);
    let r = lex_run(m, s).0;
    assert(lex_run(m, full).0 =~= seq![st.tok] + r);
    assert((seq![st.tok] + r)[0] == st.tok);
    assert((seq![st.tok] + r).skip(1) =~= r);
}
// ---------------------------------------------------------------------------
// Bracket balance
// ---------------------------------------------------------------------------

/// A round or square bracket: the brackets whose frames always restore
/// after-expression position when pushed outside a statement head.
pub open spec fn is_round_bracket(c: char) -> bool {
    c == '(' || c == ')' || c == '[' || c == ']'
}

pub open spec fn all_round_brackets(s: Seq<char>) -> bool {
    forall|i: int| 0 <= i < s.len() ==> is_round_bracket(#[trigger] s[i])
}

/// Any of the six bracket characters.
pub open spec fn is_bracket_char(c: char) -> bool {
    is_round_bracket(c) || c == '{' || c == '}'
}

pub open spec fn all_bracket_chars(s: Seq<char>) -> bool {
    forall|i: int| 0 <= i < s.len() ==> is_bracket_char(#[trigger] s[i])
}

/// Proper nesting of a bracket string against a stack of expected closers
/// (innermost last): every closer closes the innermost open bracket, and
/// at the end nothing stays open.
pub open spec fn nest_ok(s: Seq<char>, pending: Seq<char>) -> bool
    decreases s.len(),
{
    if s.len() == 0 {
        pending.len() == 0
    } else {
        let c = s[0];
        if c == '(' {
            nest_ok(s.skip(1), pending.push(')'))
        } else if c == '[' {
            nest_ok(s.skip(1), pending.push(']'))
        } else if c == '{' {
            nest_ok(s.skip(1), pending.push('}'))
        } else {
            pending.len() > 0 && pending.last() == c && nest_ok(s.skip(1), pending.drop_last())
        }
    }
}

proof fn lemma_brackets_aux(m: LexState, s: Seq<char>, pending: Seq<char>)
    requires
        s.len() > 0,
        all_round_brackets(s),
        nest_ok(s, pending),
        pending.len() <= m.stack.len(),
        !m.nonexpr_paren,
        forall|i: int|
            0 <= i < pending.len() ==> (#[trigger] m.stack[m.stack.len() - pending.len() + i]).0
                == pending[i] && m.stack[m.stack.len() - pending.len() + i].1 is AfterExpr,
    ensures
        ({
            let m2 = lex_run(m, s).1;
            &&& !m2.nonexpr_paren
            &&& m2.stack == m.stack.take(m.stack.len() - pending.len())
            &&& m2.fsm is AfterExpr
        }),
    decreases s.len(),
{
    let c = s[0];
    assert(is_round_bracket(c));
    assert(!is_digit_char(c) && !is_ws_char(c) && !is_lt_char(c) && !is_word_start(c));
    lemma_step_progress(m, s);
    let st = lex_step(m, s);
    assert(st.n == 1);
    let m1 = st.st;
    assert(!m1.nonexpr_paren);
    let rest = s.skip(1);
    assert(all_round_brackets(rest)) by {
        assert(forall|i: int| 0 <= i < rest.len() ==> rest[i] == s[i + 1]);
    }
    if c == '(' || c == '[' {
        let cl = if c == '(' {
            ')'
        } else {
            ']'
        };
        let pend1 = pending.push(cl);
        assert(m1.stack == m.stack.push((cl, FsmState::AfterExpr, m.in_for)));
        assert(rest.len() > 0) by {
            if rest.len() == 0 {
                assert(!nest_ok(rest, pend1));
            }
        }
        assert forall|i: int|
            0 <= i < pend1.len() implies (#[trigger] m1.stack[m1.stack.len() - pend1.len() + i]).0
                == pend1[i] && m1.stack[m1.stack.len() - pend1.len() + i].1 is AfterExpr by {
            if i < pending.len() {
                assert(m.stack[m.stack.len() - pending.len() + i].0 == pending[i]
                    && m.stack[m.stack.len() - pending.len() + i].1 is AfterExpr);
                assert(m1.stack[m1.stack.len() - pend1.len() + i] == m.stack[m.stack.len()
                    - pending.len() + i]);
            } else {
                assert(m1.stack[m1.stack.len() - pend1.len() + i] == (
                    cl,
                    FsmState::AfterExpr,
                    m.in_for,
                ));
            }
        }
        lemma_brackets_aux(m1, rest, pend1);
        assert(m1.stack.take(m1.stack.len() - pend1.len()) =~= m.stack.take(
            m.stack.len() - pending.len(),
        ));
    } else {
        assert(pending.len() >= 1 && pending.last() == c);
        let p = pending.len() as int;
        assert(m.stack[m.stack.len() - p + (p - 1)].0 == pending[p - 1] && m.stack[m.stack.len()
            - p + (p - 1)].1 is AfterExpr);
        assert(m.stack.last() == m.stack[m.stack.len() - 1]);
        assert(m.stack.last().0 == c && m.stack.last().1 is AfterExpr);
        assert(m1.fsm is AfterExpr);
        assert(m1.stack == m.stack.drop_last());
        let pend1 = pending.drop_last();
        assert(forall|i: int|
            0 <= i < pend1.len() ==> (#[trigger] m1.stack[m1.stack.len() - pend1.len() + i]).0
                == pend1[i] && m1.stack[m1.stack.len() - pend1.len() + i].1 is AfterExpr) by {
            assert(forall|i: int|
                0 <= i < pend1.len() ==> #[trigger] m1.stack[m1.stack.len() - pend1.len() + i]
                    == m.stack[m.stack.len() - pending.len() + i]);
        }
        if rest.len() == 0 {
            assert(nest_ok(rest, pend1));
            assert(pend1.len() == 0);
            assert(lex_run(m1, rest).1 == m1);
            assert(lex_run(m, s).1 == m1);
            assert(m1.stack =~= m.stack.take(m.stack.len() - pending.len()));
        } else {
            lemma_brackets_aux(m1, rest, pend1);
            assert(m1.stack.take(m1.stack.len() - pend1.len()) =~= m.stack.take(
                m.stack.len() - pending.len(),
            ));
        }
    }
}

/// The closer rule: a closing bracket that matches the top frame's
/// expected closer restores that frame's saved state and `in_for`; an
/// unmatched closer (empty stack) or a mismatched one (top frame expects a
/// different closer) resets to statement position with `in_for` cleared.
pub proof fn lemma_closer_rule(m: LexState, s: Seq<char>)
    requires
        s.len() > 0,
        s[0] == ')' || s[0] == '}' || s[0] == ']',
    ensures
        lex_step(m, s).n == 1,
        m.stack.len() > 0 && m.stack.last().0 == s[0] ==> lex_step(m, s).st.fsm
            == m.stack.last().1 && lex_step(m, s).st.in_for == m.stack.last().2,
        m.stack.len() == 0 || m.stack.last().0 != s[0] ==> lex_step(m, s).st.fsm is Initial
            && !lex_step(m, s).st.in_for,
        lex_step(m, s).st.stack == (if m.stack.len() > 0 {
            m.stack.drop_last()
        } else {
            m.stack
        }),
{
    let c = s[0];
    assert(!is_digit_char(c) && !is_ws_char(c) && !is_lt_char(c) && !is_word_start(c));
}

/// Bracket-stack balance: a properly nested, nonempty run of round and
/// square brackets, lexed from any state outside a statement head, ends
/// with the machine after an expression — the state the close of the
/// outermost bracket restores.  A brace pair behaves differently (see
/// `lemma_brace_group`), and a mismatched or unmatched closer resets to
/// statement position instead.
pub proof fn lemma_bracket_balance(m: LexState, s: Seq<char>)
    requires
        s.len() > 0,
        all_round_brackets(s),
        nest_ok(s, Seq::<char>::empty()),
        !m.nonexpr_paren,
    ensures
        lex_run(m, s).1.fsm is AfterExpr,
{
    lemma_brackets_aux(m, s, Seq::<char>::empty());
}

/// Bracket tokens are single characters and the dispatch reads nothing
/// beyond them, so over a bracket-only prefix the final state composes.
proof fn lemma_bracket_run_append(m: LexState, s: Seq<char>, rest: Seq<char>)
    requires
        all_bracket_chars(s),
    ensures
        lex_run(m, s + rest).1 == lex_run(lex_run(m, s).1, rest).1,
    decreases s.len(),
{
    if s.len() == 0 {
        assert(s + rest =~= rest);
    } else {
        let full = s + rest;
        let c = s[0];
        assert(full[0] == c);
        assert(is_bracket_char(c));
        assert(!is_digit_char(c) && !is_ws_char(c) && !is_lt_char(c) && !is_word_start(c));
        lemma_step_progress(m, full);
        lemma_step_progress(m, s);
        let stf = lex_step(m, full);
        let sts = lex_step(m, s);
        assert(stf.n == 1 && sts.n == 1);
        assert(stf.st =~= sts.st);
        assert(full.skip(1) =~= s.skip(1) + rest);
        assert(all_bracket_chars(s.skip(1))) by {
            assert(forall|i: int| 0 <= i < s.skip(1).len() ==> s.skip(1)[i] == s[i + 1]);
        }
        lemma_bracket_run_append(sts.st, s.skip(1), rest);
    }
}

/// A brace group: `{` opened while the machine expects an expression is an
/// object literal, and its `}` closes back to after-expression position;
/// opened anywhere else it is a statement block and closes to statement
/// position.  The body may hold any properly nested round and square
/// brackets.
pub proof fn lemma_brace_group(m: LexState, t: Seq<char>)
    requires
        all_round_brackets(t),
        nest_ok(t, Seq::<char>::empty()),
        !m.nonexpr_paren,
    ensures
        lex_run(m, seq!['{'] + t + seq!['}']).1.fsm == (if m.fsm is ExpectExpr {
            FsmState::AfterExpr
        } else {
            FsmState::Initial
        }),
{
    let full = seq!['{'] + t + seq!['}'];
    assert(full[0] == '{');
    lemma_step_progress(m, full);
    let st1 = lex_step(m, full);
    let saved = if m.fsm is ExpectExpr {
        FsmState::AfterExpr
    } else {
        FsmState::Initial
    };
    assert(st1.n == 1);
    assert(st1.st.stack == m.stack.push(('}', saved, m.in_for)));
    assert(!st1.st.nonexpr_paren);
    assert(full.skip(1) =~= t + seq!['}']);
    assert(lex_run(m, full).1 == lex_run(st1.st, t + seq!['}']).1);
    assert(all_bracket_chars(t)) by {
        assert(forall|i: int| 0 <= i < t.len() ==> is_round_bracket(#[trigger] t[i]));
    }
    lemma_bracket_run_append(st1.st, t, seq!['}']);
    let m2 = lex_run(st1.st, t).1;
    if t.len() > 0 {
        lemma_brackets_aux(st1.st, t, Seq::<char>::empty());
        assert(m2.stack =~= st1.st.stack);
        assert(!m2.nonexpr_paren);
    } else {
        assert(lex_run(st1.st, t).1 == st1.st);
    }
    let u = seq!['}'];
    assert(u[0] == '}');
    assert(!is_digit_char('}') && !is_ws_char('}') && !is_lt_char('}') && !is_word_start('}'));
    lemma_step_progress(m2, u);
    assert(m2.stack == st1.st.stack);
    assert(st1.st.stack.last() == ('}', saved, m.in_for));
    assert(m2.stack.last() == ('}', saved, m.in_for));
    let st2 = lex_step(m2, u);
    assert(st2.n == 1);
    assert(st2.st.fsm == saved);
    assert(u.skip(1).len() == 0);
    assert(lex_run(st2.st, u.skip(1)).1 == st2.st);
    assert(lex_run(m2, u).1 == st2.st);
}

} // verus!
