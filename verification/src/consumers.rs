//! The token sub-consumers and the dispatch engine.
//!
//! Each consumer eats the characters of one token form and is proved to
//! take exactly the scan length that the model assigns; `next` dispatches
//! on the first character and is proved to perform one `model::lex_step`.

use vstd::prelude::*;

use crate::model::{
    is_ws_char, is_lt_char, is_digit_char, is_word_start, digit_pred, ws_run, lt_run, nlt_run,
    digits_run, lower_run, word_run, NumSt, num_scan, num_len, u_brace_run, str_scan,
    ml_body_len, re_body_len, Tok, FsmState, lex_dispatch, lex_step, post_update,
};
use crate::{
    JsToken, JsTokenIterator, chars_to_string, is_ws_x, is_lt_x, is_digit_x, is_oct_x, is_hex_x,
    is_lower_x, is_word_char_x, is_word_start_x, word_is_restricted, word_is_return_or_yield,
    word_is_nonexpr, word_is_for,
};
use vstd::string::StrSliceExecFns;

verus! {

// ---------------------------------------------------------------------------
// Small string builders
// ---------------------------------------------------------------------------

fn one_char_string(c: char) -> (s: String)
    ensures
        s@ == seq![c],
{
    let mut v: Vec<char> = Vec::new();
    v.push(c);
    let s = chars_to_string(&v);
    proof {
        assert(s@ =~= seq![c]);
    }
    s
}

fn two_char_string(a: char, b: char) -> (s: String)
    ensures
        s@ == seq![a, b],
{
    let mut v: Vec<char> = Vec::new();
    v.push(a);
    v.push(b);
    let s = chars_to_string(&v);
    proof {
        assert(s@ =~= seq![a, b]);
    }
    s
}

fn three_char_string(a: char, b: char, c: char) -> (s: String)
    ensures
        s@ == seq![a, b, c],
{
    let mut v: Vec<char> = Vec::new();
    v.push(a);
    v.push(b);
    v.push(c);
    let s = chars_to_string(&v);
    proof {
        assert(s@ =~= seq![a, b, c]);
    }
    s
}

/// Whether the string holds a line feed.
fn string_contains_nl(x: &String) -> (r: bool)
    ensures
        r == x@.contains('\n'),
{
    let s: &str = x.as_str();
    let n: usize = s.unicode_len();
    let mut i: usize = 0;
    while i < n
        invariant
            s@ == x@,
            n == x@.len(),
            i <= n,
            forall|j: int| 0 <= j < i ==> x@[j] != '\n',
        decreases n - i,
    {
        if s.get_char(i) == '\n' {
            proof {
                assert(x@.contains('\n')) by {
                    assert(x@[i as int] == '\n');
                }
            }
            return true;
        }
        i = i + 1;
    }
    proof {
        assert(!x@.contains('\n')) by {
            if x@.contains('\n') {
                let j = choose|j: int| 0 <= j < x@.len() && x@[j] == '\n';
                assert(false);
            }
        }
    }
    false
}

// ---------------------------------------------------------------------------
// Sub-consumers
// ---------------------------------------------------------------------------

impl JsTokenIterator {
    pub(crate) fn consume_whitespace(&mut self) -> (t: JsToken)
        requires
            old(self).stream().len() > 0,
            is_ws_char(old(self).stream()[0]),
        ensures
            final(self).ctl() == old(self).ctl(),
            final(self).stream() == old(self).stream().skip(ws_run(old(self).stream()) as int),
            t@ == Tok::Whitespace(old(self).stream().take(ws_run(old(self).stream()) as int)),
    {
        let ghost orig = self.stream();
        let ghost m0 = self.ctl();
        let mut result: Vec<char> = Vec::new();
        loop
            invariant
                self.ctl() == m0,
                result@.len() <= orig.len(),
                result@ == orig.take(result@.len() as int),
                self.stream() == orig.skip(result@.len() as int),
                ws_run(orig) == result@.len() + ws_run(self.stream()),
            ensures
                self.ctl() == m0,
                result@ == orig.take(result@.len() as int),
                self.stream() == orig.skip(result@.len() as int),
                ws_run(orig) == result@.len(),
            decreases self.stream().len(),
        {
            let cur_opt = self.char_iter.lookahead(0);
            match cur_opt {
                Some(c) => {
                    if is_ws_x(c) {
                        proof {
                            assert(ws_run(self.stream()) == 1 + ws_run(self.stream().skip(1)));
                        }
                        result.push(c);
                        let _ = self.char_iter.read();
                        proof {
                            assert(result@ =~= orig.take(result@.len() as int));
                            assert(self.stream() =~= orig.skip(result@.len() as int));
                        }
                    } else {
                        proof {
                            assert(ws_run(self.stream()) == 0);
                        }
                        break ;
                    }
                },
                None => {
                    proof {
                        assert(ws_run(self.stream()) == 0);
                    }
                    break ;
                },
            }
        }
        JsToken::Whitespace(chars_to_string(&result))
    }

    pub(crate) fn consume_line_terminator(&mut self) -> (t: JsToken)
        requires
            old(self).stream().len() > 0,
            is_lt_char(old(self).stream()[0]),
        ensures
            final(self).ctl() == old(self).ctl(),
            final(self).stream() == old(self).stream().skip(lt_run(old(self).stream()) as int),
            t@ == Tok::LineTerminator(old(self).stream().take(lt_run(old(self).stream()) as int)),
    {
        let ghost orig = self.stream();
        let ghost m0 = self.ctl();
        let mut result: Vec<char> = Vec::new();
        loop
            invariant
                self.ctl() == m0,
                result@.len() <= orig.len(),
                result@ == orig.take(result@.len() as int),
                self.stream() == orig.skip(result@.len() as int),
                lt_run(orig) == result@.len() + lt_run(self.stream()),
            ensures
                self.ctl() == m0,
                result@ == orig.take(result@.len() as int),
                self.stream() == orig.skip(result@.len() as int),
                lt_run(orig) == result@.len(),
            decreases self.stream().len(),
        {
            let cur_opt = self.char_iter.lookahead(0);
            match cur_opt {
                Some(c) => {
                    if is_lt_x(c) {
                        proof {
                            assert(lt_run(self.stream()) == 1 + lt_run(self.stream().skip(1)));
                        }
                        result.push(c);
                        let _ = self.char_iter.read();
                        proof {
                            assert(result@ =~= orig.take(result@.len() as int));
                            assert(self.stream() =~= orig.skip(result@.len() as int));
                        }
                    } else {
                        proof {
                            assert(lt_run(self.stream()) == 0);
                        }
                        break ;
                    }
                },
                None => {
                    proof {
                        assert(lt_run(self.stream()) == 0);
                    }
                    break ;
                },
            }
        }
        JsToken::LineTerminator(chars_to_string(&result))
    }

    pub(crate) fn consume_word(&mut self) -> (t: JsToken)
        requires
            old(self).stream().len() > 0,
            is_word_start(old(self).stream()[0]),
        ensures
            final(self).ctl() == old(self).ctl(),
            final(self).stream() == old(self).stream().skip(word_run(old(self).stream()) as int),
            t@ == Tok::Word(old(self).stream().take(word_run(old(self).stream()) as int)),
    {
        let ghost orig = self.stream();
        let ghost m0 = self.ctl();
        let mut result: Vec<char> = Vec::new();
        loop
            invariant
                self.ctl() == m0,
                result@.len() <= orig.len(),
                result@ == orig.take(result@.len() as int),
                self.stream() == orig.skip(result@.len() as int),
                word_run(orig) == result@.len() + word_run(self.stream()),
            ensures
                self.ctl() == m0,
                result@ == orig.take(result@.len() as int),
                self.stream() == orig.skip(result@.len() as int),
                word_run(orig) == result@.len(),
            decreases self.stream().len(),
        {
            let cur_opt = self.char_iter.lookahead(0);
            match cur_opt {
                Some(c) => {
                    if is_word_char_x(c) {
                        proof {
                            assert(word_run(self.stream()) == 1 + word_run(self.stream().skip(1)));
                        }
                        result.push(c);
                        let _ = self.char_iter.read();
                        proof {
                            assert(result@ =~= orig.take(result@.len() as int));
                            assert(self.stream() =~= orig.skip(result@.len() as int));
                        }
                    } else {
                        proof {
                            assert(word_run(self.stream()) == 0);
                        }
                        break ;
                    }
                },
                None => {
                    proof {
                        assert(word_run(self.stream()) == 0);
                    }
                    break ;
                },
            }
        }
        JsToken::Word(chars_to_string(&result))
    }

    pub(crate) fn consume_line_comment(&mut self) -> (t: JsToken)
        requires
            old(self).stream().len() >= 2,
            old(self).stream()[0] == '/',
            old(self).stream()[1] == '/',
        ensures
            final(self).ctl() == old(self).ctl(),
            final(self).stream() == old(self).stream().skip(
                2 + nlt_run(old(self).stream().skip(2)) as int,
            ),
            t@ == Tok::LineComment(
                old(self).stream().skip(2).take(nlt_run(old(self).stream().skip(2)) as int),
            ),
    {
        let ghost orig = self.stream();
        let ghost m0 = self.ctl();
        let _ = self.char_iter.read();
        let _ = self.char_iter.read();
        let ghost base = self.stream();
        proof {
            assert(base =~= orig.skip(2));
        }
        let mut result: Vec<char> = Vec::new();
        loop
            invariant
                self.ctl() == m0,
                result@.len() <= base.len(),
                result@ == base.take(result@.len() as int),
                self.stream() == base.skip(result@.len() as int),
                nlt_run(base) == result@.len() + nlt_run(self.stream()),
            ensures
                self.ctl() == m0,
                result@ == base.take(result@.len() as int),
                self.stream() == base.skip(result@.len() as int),
                nlt_run(base) == result@.len(),
            decreases self.stream().len(),
        {
            let cur_opt = self.char_iter.lookahead(0);
            match cur_opt {
                Some(c) => {
                    if !is_lt_x(c) {
                        proof {
                            assert(nlt_run(self.stream()) == 1 + nlt_run(self.stream().skip(1)));
                        }
                        result.push(c);
                        let _ = self.char_iter.read();
                        proof {
                            assert(result@ =~= base.take(result@.len() as int));
                            assert(self.stream() =~= base.skip(result@.len() as int));
                        }
                    } else {
                        proof {
                            assert(nlt_run(self.stream()) == 0);
                        }
                        break ;
                    }
                },
                None => {
                    proof {
                        assert(nlt_run(self.stream()) == 0);
                    }
                    break ;
                },
            }
        }
        proof {
            assert(self.stream() =~= orig.skip(2 + nlt_run(orig.skip(2)) as int));
        }
        JsToken::LineComment(chars_to_string(&result))
    }

    pub(crate) fn consume_multiline_comment(&mut self) -> (t: JsToken)
        requires
            old(self).stream().len() >= 2,
            old(self).stream()[0] == '/',
            old(self).stream()[1] == '*',
        ensures
            final(self).ctl() == old(self).ctl(),
            ({
                let u = old(self).stream().skip(2);
                let b = ml_body_len(u) as int;
                &&& t@ == Tok::MultilineComment(u.take(b))
                &&& final(self).stream() == (if b + 2 <= u.len() {
                    u.skip(b + 2)
                } else {
                    u.skip(b)
                })
            }),
    {
        let ghost orig = self.stream();
        let ghost m0 = self.ctl();
        let _ = self.char_iter.read();
        let _ = self.char_iter.read();
        let ghost u = self.stream();
        proof {
            assert(u =~= orig.skip(2));
        }
        let mut result: Vec<char> = Vec::new();
        loop
            invariant_except_break
                self.stream() == u.skip(result@.len() as int),
                ml_body_len(u) == result@.len() + ml_body_len(self.stream()),
            invariant
                self.ctl() == m0,
                result@.len() <= u.len(),
                result@ == u.take(result@.len() as int),
            ensures
                self.ctl() == m0,
                result@ == u.take(result@.len() as int),
                ml_body_len(u) == result@.len(),
                self.stream() == (if ml_body_len(u) + 2 <= u.len() {
                    u.skip(ml_body_len(u) as int + 2)
                } else {
                    u.skip(ml_body_len(u) as int)
                }),
            decreases self.stream().len(),
        {
            let cur_opt = self.char_iter.lookahead(0);
            match cur_opt {
                Some(c) => {
                    if c == '*' {
                        let c2_opt = self.char_iter.lookahead(1);
                        match c2_opt {
                            Some('/') => {
                                proof {
                                    assert(ml_body_len(self.stream()) == 0);
                                }
                                let _ = self.char_iter.read();
                                let _ = self.char_iter.read();
                                proof {
                                    assert(self.stream() =~= u.skip(
                                        ml_body_len(u) as int + 2,
                                    ));
                                }
                                break ;
                            },
                            _ => {
                                proof {
                                    assert(ml_body_len(self.stream()) == 1 + ml_body_len(
                                        self.stream().skip(1),
                                    ));
                                }
                                result.push(c);
                                let _ = self.char_iter.read();
                                proof {
                                    assert(result@ =~= u.take(result@.len() as int));
                                    assert(self.stream() =~= u.skip(result@.len() as int));
                                }
                            },
                        }
                    } else {
                        proof {
                            assert(ml_body_len(self.stream()) == 1 + ml_body_len(
                                self.stream().skip(1),
                            ));
                        }
                        result.push(c);
                        let _ = self.char_iter.read();
                        proof {
                            assert(result@ =~= u.take(result@.len() as int));
                            assert(self.stream() =~= u.skip(result@.len() as int));
                        }
                    }
                },
                None => {
                    proof {
                        assert(ml_body_len(self.stream()) == 0);
                    }
                    break ;
                },
            }
        }
        JsToken::MultilineComment(chars_to_string(&result))
    }

    /// Append the digit run at the head of the stream to `result`.
    fn take_digits(&mut self, result: &mut Vec<char>)
        ensures
            final(self).ctl() == old(self).ctl(),
            final(self).stream() == old(self).stream().skip(digits_run(old(self).stream()) as int),
            final(result)@ == old(result)@ + old(self).stream().take(
                digits_run(old(self).stream()) as int,
            ),
    {
        let ghost orig = self.stream();
        let ghost m0 = self.ctl();
        let ghost r0 = result@;
        loop
            invariant
                self.ctl() == m0,
                result@.len() >= r0.len(),
                result@.len() - r0.len() <= orig.len(),
                result@ == r0 + orig.take(result@.len() - r0.len()),
                self.stream() == orig.skip(result@.len() - r0.len()),
                digits_run(orig) == (result@.len() - r0.len()) + digits_run(self.stream()),
            ensures
                self.ctl() == m0,
                result@ == r0 + orig.take(result@.len() - r0.len()),
                self.stream() == orig.skip(result@.len() - r0.len()),
                digits_run(orig) == result@.len() - r0.len(),
            decreases self.stream().len(),
        {
            let cur_opt = self.char_iter.lookahead(0);
            match cur_opt {
                Some(c) => {
                    if is_digit_x(c) {
                        proof {
                            assert(digits_run(self.stream()) == 1 + digits_run(
                                self.stream().skip(1),
                            ));
                        }
                        result.push(c);
                        let _ = self.char_iter.read();
                        proof {
                            assert(result@ =~= r0 + orig.take(result@.len() - r0.len()));
                            assert(self.stream() =~= orig.skip(result@.len() - r0.len()));
                        }
                    } else {
                        proof {
                            assert(digits_run(self.stream()) == 0);
                        }
                        break ;
                    }
                },
                None => {
                    proof {
                        assert(digits_run(self.stream()) == 0);
                    }
                    break ;
                },
            }
        }
        proof {
            assert(result@ =~= r0 + orig.take(digits_run(orig) as int));
        }
    }

    #[verifier::rlimit(100)]
    pub(crate) fn consume_number(&mut self) -> (t: JsToken)
        requires
            old(self).stream().len() > 0,
            is_digit_char(old(self).stream()[0]),
        ensures
            final(self).ctl() == old(self).ctl(),
            final(self).stream() == old(self).stream().skip(num_len(old(self).stream()) as int),
            t@ == Tok::NumberLiteral(old(self).stream().take(num_len(old(self).stream()) as int)),
    {
        let ghost orig = self.stream();
        let ghost m0 = self.ctl();
        let mut result: Vec<char> = Vec::new();
        let mut st = NumSt::Start;
        loop
            invariant
                self.ctl() == m0,
                result@.len() <= orig.len(),
                result@ == orig.take(result@.len() as int),
                self.stream() == orig.skip(result@.len() as int),
                num_scan(orig, NumSt::Start).0 == result@.len() + num_scan(self.stream(), st).0,
                num_scan(orig, NumSt::Start).1 == num_scan(self.stream(), st).1,
            ensures
                self.ctl() == m0,
                result@ == orig.take(result@.len() as int),
                self.stream() == orig.skip(result@.len() as int),
                num_scan(orig, NumSt::Start).0 == result@.len(),
                num_scan(orig, NumSt::Start).1 == st,
            decreases self.stream().len(),
        {
            let cur_opt = self.char_iter.lookahead(0);
            let c = match cur_opt {
                Some(c) => c,
                None => {
                    break ;
                },
            };
            let step: Option<NumSt> = match st {
                NumSt::Start => if c == '0' {
                    Some(NumSt::Zero)
                } else if is_digit_x(c) {
                    Some(NumSt::Dec)
                } else {
                    None
                },
                NumSt::Zero => if c == 'b' || c == 'B' {
                    Some(NumSt::Bin)
                } else if c == 'o' || c == 'O' {
                    Some(NumSt::Oct)
                } else if c == 'x' || c == 'X' {
                    Some(NumSt::Hex)
                } else if is_digit_x(c) {
                    Some(NumSt::Zero)
                } else {
                    None
                },
                NumSt::Bin => if c == '0' || c == '1' {
                    Some(NumSt::Bin)
                } else {
                    None
                },
                NumSt::Oct => if is_oct_x(c) {
                    Some(NumSt::Oct)
                } else {
                    None
                },
                NumSt::Dec => if is_digit_x(c) {
                    Some(NumSt::Dec)
                } else {
                    None
                },
                NumSt::Hex => if is_hex_x(c) {
                    Some(NumSt::Hex)
                } else {
                    None
                },
            };
            match step {
                Some(st2) => {
                    proof {
                        assert(num_scan(self.stream(), st).0 == 1 + num_scan(
                            self.stream().skip(1),
                            st2,
                        ).0);
                        assert(num_scan(self.stream(), st).1 == num_scan(
                            self.stream().skip(1),
                            st2,
                        ).1);
                    }
                    result.push(c);
                    let _ = self.char_iter.read();
                    st = st2;
                    proof {
                        assert(result@ =~= orig.take(result@.len() as int));
                        assert(self.stream() =~= orig.skip(result@.len() as int));
                    }
                },
                None => {
                    proof {
                        assert(num_scan(self.stream(), st).0 == 0);
                        assert(num_scan(self.stream(), st).1 == st);
                    }
                    break ;
                },
            }
        }
        let ghost n1 = num_scan(orig, NumSt::Start).0;
        let ghost s1 = orig.skip(n1 as int);
        if matches!(st, NumSt::Dec) {
            // optional fraction
            let d_opt = self.char_iter.lookahead(0);
            if matches!(d_opt, Some('.')) {
                result.push('.');
                self.char_iter.skip(1);
                proof {
                    assert(result@ =~= orig.take(result@.len() as int));
                    assert(self.stream() =~= orig.skip(result@.len() as int));
                }
                let ghost pre = self.stream();
                self.take_digits(&mut result);
                proof {
                    crate::model::lemma_run_len(pre, digit_pred());
                    assert(result@ =~= orig.take(result@.len() as int));
                    assert(self.stream() =~= orig.skip(result@.len() as int));
                    assert(pre =~= s1.skip(1));
                }
            }
            let ghost frac: nat = if s1.len() > 0 && s1[0] == '.' {
                (1 + digits_run(s1.skip(1))) as nat
            } else {
                0
            };
            proof {
                assert(result@.len() == n1 + frac);
                assert(self.stream() =~= s1.skip(frac as int));
            }
            let ghost s2 = s1.skip(frac as int);
            // optional exponent
            let e_opt = self.char_iter.lookahead(0);
            match e_opt {
                Some(e) => {
                    if e == 'e' || e == 'E' {
                        result.push(e);
                        self.char_iter.skip(1);
                        proof {
                            assert(result@ =~= orig.take(result@.len() as int));
                            assert(self.stream() =~= orig.skip(result@.len() as int));
                        }
                        let m_opt = self.char_iter.lookahead(0);
                        if matches!(m_opt, Some('-')) {
                            result.push('-');
                            self.char_iter.skip(1);
                            proof {
                                assert(result@ =~= orig.take(result@.len() as int));
                                assert(self.stream() =~= orig.skip(result@.len() as int));
                            }
                        }
                        let ghost pre = self.stream();
                        self.take_digits(&mut result);
                        proof {
                            crate::model::lemma_run_len(pre, digit_pred());
                            assert(result@ =~= orig.take(result@.len() as int));
                            assert(self.stream() =~= orig.skip(result@.len() as int));
                            let neg: nat = if s2.len() > 1 && s2[1] == '-' {
                                1
                            } else {
                                0
                            };
                            assert(pre =~= s2.skip(1 + neg as int));
                            assert(result@.len() == n1 + frac + 1 + neg + digits_run(
                                s2.skip(1 + neg as int),
                            ));
                        }
                    }
                },
                None => {},
            }
            proof {
                assert(result@.len() == num_len(orig));
            }
        } else {
            proof {
                assert(result@.len() == num_len(orig));
            }
        }
        JsToken::NumberLiteral(chars_to_string(&result))
    }

    #[verifier::rlimit(100)]
    pub(crate) fn consume_string_literal(&mut self) -> (t: JsToken)
        requires
            old(self).stream().len() > 0,
            old(self).stream()[0] == '\'' || old(self).stream()[0] == '"',
        ensures
            final(self).ctl() == old(self).ctl(),
            ({
                let s = old(self).stream();
                let n = 1 + str_scan(s.skip(1), s[0], false) as int;
                &&& t@ == Tok::StringLiteral(s.take(n))
                &&& final(self).stream() == s.skip(n)
            }),
    {
        let ghost orig = self.stream();
        let ghost m0 = self.ctl();
        let q = self.char_iter.read().unwrap();
        let ghost body = self.stream();
        proof {
            assert(body =~= orig.skip(1));
        }
        let mut result: Vec<char> = Vec::new();
        result.push(q);
        proof {
            assert(result@ =~= orig.take(1));
        }
        let mut esc: bool = false;
        loop
            invariant_except_break
                str_scan(body, q, false) == (result@.len() - 1) + str_scan(
                    self.stream(),
                    q,
                    esc,
                ),
            invariant
                self.ctl() == m0,
                1 <= result@.len() <= orig.len(),
                result@ == orig.take(result@.len() as int),
                self.stream() == orig.skip(result@.len() as int),
            ensures
                self.ctl() == m0,
                result@ == orig.take(result@.len() as int),
                self.stream() == orig.skip(result@.len() as int),
                str_scan(body, q, false) == result@.len() - 1,
            decreases self.stream().len(),
        {
            let cur_opt = self.char_iter.lookahead(0);
            let c = match cur_opt {
                Some(c) => c,
                None => {
                    proof {
                        assert(str_scan(self.stream(), q, esc) == 0);
                    }
                    break ;
                },
            };
            if !esc {
                if c == q {
                    proof {
                        assert(str_scan(self.stream(), q, false) == 1);
                    }
                    result.push(c);
                    let _ = self.char_iter.read();
                    proof {
                        assert(result@ =~= orig.take(result@.len() as int));
                        assert(self.stream() =~= orig.skip(result@.len() as int));
                    }
                    break ;
                } else if c == '\\' {
                    proof {
                        assert(str_scan(self.stream(), q, false) == 1 + str_scan(
                            self.stream().skip(1),
                            q,
                            true,
                        ));
                    }
                    result.push(c);
                    let _ = self.char_iter.read();
                    esc = true;
                    proof {
                        assert(result@ =~= orig.take(result@.len() as int));
                        assert(self.stream() =~= orig.skip(result@.len() as int));
                    }
                } else {
                    proof {
                        assert(str_scan(self.stream(), q, false) == 1 + str_scan(
                            self.stream().skip(1),
                            q,
                            false,
                        ));
                    }
                    result.push(c);
                    let _ = self.char_iter.read();
                    proof {
                        assert(result@ =~= orig.take(result@.len() as int));
                        assert(self.stream() =~= orig.skip(result@.len() as int));
                    }
                }
            } else {
                if c == 'x' {
                    let ghost cur = self.stream();
                    result.push(c);
                    let _ = self.char_iter.read();
                    let r1 = self.char_iter.read();
                    match r1 {
                        Some(c1) => {
                            result.push(c1);
                        },
                        None => {},
                    }
                    let r2 = self.char_iter.read();
                    match r2 {
                        Some(c2) => {
                            result.push(c2);
                        },
                        None => {},
                    }
                    esc = false;
                    proof {
                        let k: int = if cur.len() >= 3 {
                            3
                        } else {
                            cur.len() as int
                        };
                        assert(str_scan(cur, q, true) == k + str_scan(cur.skip(k), q, false));
                        assert(result@ =~= orig.take(result@.len() as int));
                        assert(self.stream() =~= orig.skip(result@.len() as int));
                        assert(self.stream() =~= cur.skip(k));
                    }
                } else if c == 'u' {
                    let ghost cur = self.stream();
                    result.push(c);
                    let _ = self.char_iter.read();
                    let brace_opt = self.char_iter.lookahead(0);
                    if matches!(brace_opt, Some('{')) {
                        let b0 = self.char_iter.read().unwrap();
                        result.push(b0);
                        proof {
                            assert(result@ =~= orig.take(result@.len() as int));
                            assert(self.stream() =~= orig.skip(result@.len() as int));
                        }
                        let ghost base = self.stream();
                        let ghost kb = result@.len();
                        proof {
                            assert(base =~= cur.skip(2));
                        }
                        loop
                            invariant_except_break
                                u_brace_run(base) == (result@.len() - kb) + u_brace_run(
                                    self.stream(),
                                ),
                            invariant
                                self.ctl() == m0,
                                kb <= result@.len() <= orig.len(),
                                result@ == orig.take(result@.len() as int),
                                self.stream() == orig.skip(result@.len() as int),
                            ensures
                                self.ctl() == m0,
                                kb <= result@.len() <= orig.len(),
                                result@ == orig.take(result@.len() as int),
                                self.stream() == orig.skip(result@.len() as int),
                                u_brace_run(base) == result@.len() - kb,
                            decreases self.stream().len(),
                        {
                            let ghost pre = self.stream();
                            let r = self.char_iter.read();
                            match r {
                                Some(c2) => {
                                    proof {
                                        if c2 == '}' {
                                            assert(u_brace_run(pre) == 1);
                                        } else {
                                            assert(u_brace_run(pre) == 1 + u_brace_run(
                                                pre.skip(1),
                                            ));
                                        }
                                    }
                                    result.push(c2);
                                    proof {
                                        assert(result@ =~= orig.take(result@.len() as int));
                                        assert(self.stream() =~= orig.skip(
                                            result@.len() as int,
                                        ));
                                    }
                                    if c2 == '}' {
                                        break ;
                                    }
                                },
                                None => {
                                    proof {
                                        assert(u_brace_run(self.stream()) == 0);
                                    }
                                    break ;
                                },
                            }
                        }
                        esc = false;
                        proof {
                            let k: int = 2 + u_brace_run(cur.skip(2)) as int;
                            crate::model::lemma_u_brace_run_le(cur.skip(2));
                            assert(str_scan(cur, q, true) == k + str_scan(cur.skip(k), q, false));
                            assert(self.stream() =~= cur.skip(k));
                        }
                    } else {
                        let ghost kb = result@.len();
                        proof {
                            assert(result@ =~= orig.take(result@.len() as int));
                            assert(self.stream() =~= orig.skip(result@.len() as int));
                        }
                        let r1 = self.char_iter.read();
                        match r1 {
                            Some(c1) => {
                                result.push(c1);
                            },
                            None => {},
                        }
                        let r2 = self.char_iter.read();
                        match r2 {
                            Some(c1) => {
                                result.push(c1);
                            },
                            None => {},
                        }
                        let r3 = self.char_iter.read();
                        match r3 {
                            Some(c1) => {
                                result.push(c1);
                            },
                            None => {},
                        }
                        let r4 = self.char_iter.read();
                        match r4 {
                            Some(c1) => {
                                result.push(c1);
                            },
                            None => {},
                        }
                        esc = false;
                        proof {
                            let k: int = if cur.len() >= 5 {
                                5
                            } else {
                                cur.len() as int
                            };
                            assert(str_scan(cur, q, true) == k + str_scan(cur.skip(k), q, false));
                            assert(result@ =~= orig.take(result@.len() as int));
                            assert(self.stream() =~= orig.skip(result@.len() as int));
                            assert(self.stream() =~= cur.skip(k));
                        }
                    }
                } else {
                    proof {
                        assert(str_scan(self.stream(), q, true) == 1 + str_scan(
                            self.stream().skip(1),
                            q,
                            false,
                        ));
                    }
                    result.push(c);
                    let _ = self.char_iter.read();
                    esc = false;
                    proof {
                        assert(result@ =~= orig.take(result@.len() as int));
                        assert(self.stream() =~= orig.skip(result@.len() as int));
                    }
                }
            }
        }
        JsToken::StringLiteral(chars_to_string(&result))
    }

    /// Consume a regular-expression literal; the leading slash has already
    /// been consumed.
    pub(crate) fn consume_regexp(&mut self) -> (t: JsToken)
        ensures
            final(self).ctl() == old(self).ctl(),
            ({
                let s = old(self).stream();
                let b = re_body_len(s) as int;
                let found = b < s.len();
                let fl = if found {
                    lower_run(s.skip(b + 1)) as int
                } else {
                    0
                };
                &&& t@ == Tok::RegexpLiteral(
                    s.take(b),
                    if found {
                        s.skip(b + 1).take(fl)
                    } else {
                        Seq::<char>::empty()
                    },
                )
                &&& final(self).stream() == (if found {
                    s.skip(b + 1 + fl)
                } else {
                    s.skip(b)
                })
            }),
    {
        let ghost orig = self.stream();
        let ghost m0 = self.ctl();
        let mut result: Vec<char> = Vec::new();
        let mut found_end: bool = false;
        loop
            invariant_except_break
                !found_end,
                self.stream() == orig.skip(result@.len() as int),
                re_body_len(orig) == result@.len() + re_body_len(self.stream()),
            invariant
                self.ctl() == m0,
                result@.len() <= orig.len(),
                result@ == orig.take(result@.len() as int),
            ensures
                self.ctl() == m0,
                result@ == orig.take(result@.len() as int),
                re_body_len(orig) == result@.len(),
                found_end == (re_body_len(orig) < orig.len()),
                self.stream() == (if found_end {
                    orig.skip(result@.len() as int + 1)
                } else {
                    orig.skip(result@.len() as int)
                }),
            decreases self.stream().len(),
        {
            let cur_opt = self.char_iter.lookahead(0);
            let c = match cur_opt {
                Some(c) => c,
                None => {
                    proof {
                        assert(re_body_len(self.stream()) == 0);
                    }
                    break ;
                },
            };
            if c == '/' {
                proof {
                    assert(re_body_len(self.stream()) == 0);
                }
                found_end = true;
                self.char_iter.skip(1);
                proof {
                    assert(self.stream() =~= orig.skip(result@.len() as int + 1));
                }
                break ;
            } else if c == '\\' {
                let c2_opt = self.char_iter.lookahead(1);
                match c2_opt {
                    Some(c2) => {
                        proof {
                            assert(re_body_len(self.stream()) == 2 + re_body_len(
                                self.stream().skip(2),
                            ));
                        }
                        self.char_iter.skip(2);
                        result.push('\\');
                        result.push(c2);
                        proof {
                            assert(result@ =~= orig.take(result@.len() as int));
                            assert(self.stream() =~= orig.skip(result@.len() as int));
                        }
                    },
                    None => {
                        proof {
                            assert(re_body_len(self.stream()) == 1 + re_body_len(
                                self.stream().skip(1),
                            ));
                        }
                        result.push(c);
                        self.char_iter.skip(1);
                        proof {
                            assert(result@ =~= orig.take(result@.len() as int));
                            assert(self.stream() =~= orig.skip(result@.len() as int));
                        }
                    },
                }
            } else {
                proof {
                    assert(re_body_len(self.stream()) == 1 + re_body_len(self.stream().skip(1)));
                }
                result.push(c);
                self.char_iter.skip(1);
                proof {
                    assert(result@ =~= orig.take(result@.len() as int));
                    assert(self.stream() =~= orig.skip(result@.len() as int));
                }
            }
        }
        let mut flags: Vec<char> = Vec::new();
        if found_end {
            let ghost fbase = self.stream();
            loop
                invariant
                    self.ctl() == m0,
                    flags@.len() <= fbase.len(),
                    flags@ == fbase.take(flags@.len() as int),
                    self.stream() == fbase.skip(flags@.len() as int),
                    lower_run(fbase) == flags@.len() + lower_run(self.stream()),
                ensures
                    self.ctl() == m0,
                    flags@ == fbase.take(flags@.len() as int),
                    self.stream() == fbase.skip(flags@.len() as int),
                    lower_run(fbase) == flags@.len(),
                decreases self.stream().len(),
            {
                let cur_opt = self.char_iter.lookahead(0);
                match cur_opt {
                    Some(c) => {
                        if is_lower_x(c) {
                            proof {
                                assert(lower_run(self.stream()) == 1 + lower_run(
                                    self.stream().skip(1),
                                ));
                            }
                            flags.push(c);
                            self.char_iter.skip(1);
                            proof {
                                assert(flags@ =~= fbase.take(flags@.len() as int));
                                assert(self.stream() =~= fbase.skip(flags@.len() as int));
                            }
                        } else {
                            proof {
                                assert(lower_run(self.stream()) == 0);
                            }
                            break ;
                        }
                    },
                    None => {
                        proof {
                            assert(lower_run(self.stream()) == 0);
                        }
                        break ;
                    },
                }
            }
            proof {
                let b = re_body_len(orig) as int;
                assert(fbase =~= orig.skip(b + 1));
                assert(self.stream() =~= orig.skip(b + 1 + lower_run(fbase) as int));
            }
        }
        JsToken::RegexpLiteral(chars_to_string(&result), chars_to_string(&flags))
    }

    /// The per-token memory-flag bookkeeping, applied once after every
    /// emitted token; mirrors `model::post_update`.
    fn apply_bookkeeping(&mut self, t: &JsToken)
        ensures
            final(self).stream() == old(self).stream(),
            final(self).ctl() == post_update(old(self).ctl(), t@),
    {
        let nl_tok = match t {
            JsToken::LineTerminator(_) => true,
            JsToken::MultilineComment(x) => string_contains_nl(x),
            _ => false,
        };
        let ws_or_lc = matches!(t, JsToken::Whitespace(_) | JsToken::LineComment(_));
        let trivia = matches!(
            t,
            JsToken::Whitespace(_) | JsToken::LineComment(_) | JsToken::LineTerminator(_)
                | JsToken::MultilineComment(_)
        );
        // new-line memory
        if nl_tok {
            self.lexer_vars.is_new_line = true;
        } else if !ws_or_lc {
            self.lexer_vars.is_new_line = false;
        }
        // restricted keywords and the forced statement position
        let restricted = match t {
            JsToken::Word(w) => word_is_restricted(w),
            _ => false,
        };
        if nl_tok {
            if self.lexer_vars.last_token_disallows_newline {
                self.state = FsmState::Initial;
            }
        } else if restricted {
            self.lexer_vars.last_token_disallows_newline = true;
            self.state = FsmState::ExpectExpr;
        } else if !ws_or_lc {
            self.lexer_vars.last_token_disallows_newline = false;
        }
        // statement-head parentheses
        let nonexpr = match t {
            JsToken::Word(w) => word_is_nonexpr(w),
            _ => false,
        };
        if nonexpr {
            self.lexer_vars.last_token_nonexpr_paren = true;
        } else if !trivia {
            self.lexer_vars.last_token_nonexpr_paren = false;
        }
        // the head of a `for`
        let for_word = match t {
            JsToken::Word(w) => word_is_for(w),
            _ => false,
        };
        if for_word {
            self.lexer_vars.last_token_for = true;
        } else if !trivia {
            self.lexer_vars.last_token_for = false;
        }
        proof {
            assert(self.ctl() =~= post_update(old(self).ctl(), t@));
        }
    }

    /// One bracket, operator, punctuation, or unknown-character token:
    /// everything the dispatch handles without a sub-consumer, except the
    /// slash.
    #[verifier::rlimit(100)]
    fn lex_punct(&mut self, c: char) -> (token: JsToken)
        requires
            old(self).stream().len() > 0,
            old(self).stream()[0] == c,
            !is_digit_char(c),
            !is_ws_char(c),
            !is_lt_char(c),
            c != '\'',
            c != '"',
            !is_word_start(c),
            c != '/',
        ensures
            ({
                let d = lex_dispatch(old(self).ctl(), old(self).stream());
                &&& token@ == d.tok
                &&& final(self).ctl() == d.st
                &&& final(self).stream() == old(self).stream().skip(d.n as int)
            }),
    {
        let ghost s = self.stream();
        let ghost m = self.ctl();
        let token: JsToken;
        if c == '(' {
            let _ = self.char_iter.read();
            token = JsToken::Punctuation(one_char_string(c));
            let after_state = if self.lexer_vars.last_token_nonexpr_paren {
                FsmState::Initial
            } else {
                FsmState::AfterExpr
            };
            self.state_stack.push((')', after_state, self.in_for));
            self.in_for = self.lexer_vars.last_token_for;
            self.state = FsmState::ExpectExpr;
        } else if c == '{' {
            let _ = self.char_iter.read();
            token = JsToken::Punctuation(one_char_string(c));
            let after_state = match self.state {
                FsmState::ExpectExpr => FsmState::AfterExpr,
                _ => FsmState::Initial,
            };
            self.state_stack.push(('}', after_state, self.in_for));
            self.in_for = false;
            self.state = FsmState::Initial;
        } else if c == '[' {
            let _ = self.char_iter.read();
            token = JsToken::Punctuation(one_char_string(c));
            self.state_stack.push((']', FsmState::AfterExpr, self.in_for));
            self.state = FsmState::ExpectExpr;
        } else if c == ')' || c == '}' || c == ']' {
            let _ = self.char_iter.read();
            token = JsToken::Punctuation(one_char_string(c));
            let popped = self.state_stack.pop();
            match popped {
                Some(f) => {
                    if f.0 == c {
                        self.state = f.1;
                        self.in_for = f.2;
                    } else {
                        self.state = FsmState::Initial;
                        self.in_for = false;
                    }
                },
                None => {
                    self.state = FsmState::Initial;
                    self.in_for = false;
                },
            }
        } else if c == '!' || c == '=' {
            let l1 = self.char_iter.lookahead(1);
            let l2 = self.char_iter.lookahead(2);
            if matches!(l1, Some('=')) && matches!(l2, Some('=')) {
                self.char_iter.skip(3);
                token = JsToken::Punctuation(three_char_string(c, '=', '='));
            } else if matches!(l1, Some('=')) {
                self.char_iter.skip(2);
                token = JsToken::Punctuation(two_char_string(c, '='));
            } else {
                self.char_iter.skip(1);
                token = JsToken::Punctuation(one_char_string(c));
            }
            self.state = FsmState::ExpectExpr;
        } else if c == '<' || c == '>' {
            let l1 = self.char_iter.lookahead(1);
            let l2 = self.char_iter.lookahead(2);
            let l1_same = match l1 {
                Some(x) => x == c,
                None => false,
            };
            let l1_eq = matches!(l1, Some('='));
            let l2_eq = matches!(l2, Some('='));
            if l1_same && l2_eq {
                self.char_iter.skip(3);
                token = JsToken::Punctuation(three_char_string(c, c, '='));
            } else if l1_same {
                self.char_iter.skip(2);
                token = JsToken::Punctuation(two_char_string(c, c));
            } else if l1_eq {
                self.char_iter.skip(2);
                token = JsToken::Punctuation(two_char_string(c, '='));
            } else {
                self.char_iter.skip(1);
                token = JsToken::Punctuation(one_char_string(c));
            }
            self.state = FsmState::ExpectExpr;
        } else if c == '&' || c == '|' {
            let l1 = self.char_iter.lookahead(1);
            let l1_same = match l1 {
                Some(x) => x == c,
                None => false,
            };
            let l1_eq = matches!(l1, Some('='));
            if l1_same {
                self.char_iter.skip(2);
                token = JsToken::Punctuation(two_char_string(c, c));
            } else if l1_eq {
                self.char_iter.skip(2);
                token = JsToken::Punctuation(two_char_string(c, '='));
            } else {
                self.char_iter.skip(1);
                token = JsToken::Punctuation(one_char_string(c));
            }
            self.state = FsmState::ExpectExpr;
        } else if c == '+' || c == '-' {
            let l1 = self.char_iter.lookahead(1);
            let l1_same = match l1 {
                Some(x) => x == c,
                None => false,
            };
            let l1_eq = matches!(l1, Some('='));
            if l1_eq {
                self.char_iter.skip(2);
                token = JsToken::Punctuation(two_char_string(c, '='));
                self.state = FsmState::ExpectExpr;
            } else if l1_same {
                self.char_iter.skip(2);
                token = JsToken::Punctuation(two_char_string(c, c));
                let postfix = matches!(self.state, FsmState::AfterExpr)
                    && !self.lexer_vars.is_new_line;
                self.state = if postfix {
                    FsmState::AfterExpr
                } else {
                    FsmState::ExpectExpr
                };
            } else {
                self.char_iter.skip(1);
                token = JsToken::Punctuation(one_char_string(c));
                self.state = FsmState::ExpectExpr;
            }
        } else if c == '*' || c == '%' || c == '^' {
            let l1 = self.char_iter.lookahead(1);
            if matches!(l1, Some('=')) {
                self.char_iter.skip(2);
                token = JsToken::Punctuation(two_char_string(c, '='));
            } else {
                self.char_iter.skip(1);
                token = JsToken::Punctuation(one_char_string(c));
            }
            self.state = FsmState::ExpectExpr;
        } else if c == ',' || c == ':' || c == '~' || c == '?' {
            let _ = self.char_iter.read();
            token = JsToken::Punctuation(one_char_string(c));
            self.state = FsmState::ExpectExpr;
        } else if c == '.' {
            let _ = self.char_iter.read();
            token = JsToken::Punctuation(one_char_string(c));
            self.state = FsmState::Initial;
        } else if c == ';' {
            let _ = self.char_iter.read();
            token = JsToken::Punctuation(one_char_string(c));
            self.state = if self.in_for {
                FsmState::ExpectExpr
            } else {
                FsmState::Initial
            };
        } else {
            let _ = self.char_iter.read();
            token = JsToken::Unknown(one_char_string(c));
            self.state = FsmState::Initial;
        }
        proof {
            let d = lex_dispatch(m, s);
            assert(token@ =~= d.tok);
            assert(self.ctl() =~= d.st);
            assert(self.stream() =~= s.skip(d.n as int));
        }
        token
    }

    /// Consume and return the next token, or `None` at end of input.  One
    /// call performs exactly one `model::lex_step`.
    #[verifier::rlimit(100)]
    pub fn next(&mut self) -> (r: Option<JsToken>)
        ensures
            ({
                let s = old(self).stream();
                let m = old(self).ctl();
                match r {
                    None => s.len() == 0 && final(self).stream() == s && final(self).ctl() == m,
                    Some(t) => {
                        &&& s.len() > 0
                        &&& t@ == lex_step(m, s).tok
                        &&& final(self).ctl() == lex_step(m, s).st
                        &&& final(self).stream() == s.skip(lex_step(m, s).n as int)
                    },
                }
            }),
    {
        let ghost s = self.stream();
        let ghost m = self.ctl();
        let c_opt = self.char_iter.lookahead(0);
        let c = match c_opt {
            Some(c) => c,
            None => {
                return None;
            },
        };
        let token: JsToken;
        if is_digit_x(c) {
            token = self.consume_number();
            self.state = FsmState::AfterExpr;
        } else if is_ws_x(c) {
            token = self.consume_whitespace();
        } else if is_lt_x(c) {
            token = self.consume_line_terminator();
        } else if c == '\'' || c == '"' {
            token = self.consume_string_literal();
        } else if is_word_start_x(c) {
            let w = self.consume_word();
            let is_ry = match &w {
                JsToken::Word(ws) => word_is_return_or_yield(ws),
                _ => false,
            };
            self.state = if is_ry {
                FsmState::ExpectExpr
            } else {
                FsmState::AfterExpr
            };
            token = w;
        } else if c == '/' {
            let l1 = self.char_iter.lookahead(1);
            match l1 {
                Some('/') => {
                    token = self.consume_line_comment();
                },
                Some('*') => {
                    token = self.consume_multiline_comment();
                    proof {
                        let u = s.skip(2);
                        crate::model::lemma_ml_body_len(u);
                        let b = ml_body_len(u) as int;
                        if b + 2 <= u.len() {
                            assert(u.skip(b + 2) =~= s.skip(2 + b + 2));
                        } else {
                            assert(u.skip(b) =~= s.skip(2 + b));
                        }
                    }
                },
                Some('=') => {
                    self.char_iter.skip(2);
                    token = JsToken::Punctuation(two_char_string('/', '='));
                    self.state = FsmState::ExpectExpr;
                },
                _ => {
                    if matches!(self.state, FsmState::AfterExpr) {
                        self.char_iter.skip(1);
                        token = JsToken::Punctuation(one_char_string('/'));
                        self.state = FsmState::ExpectExpr;
                    } else {
                        let _ = self.char_iter.read();
                        token = self.consume_regexp();
                        self.state = FsmState::AfterExpr;
                        proof {
                            let t0 = s.skip(1);
                            crate::model::lemma_re_body_len(t0);
                            let b = re_body_len(t0) as int;
                            if re_body_len(t0) < t0.len() {
                                crate::model::lemma_run_len(
                                    t0.skip(b + 1),
                                    crate::model::lower_pred(),
                                );
                            }
                            let found = b < t0.len();
                            let fl: int = if found {
                                lower_run(t0.skip(b + 1)) as int
                            } else {
                                0
                            };
                            if found {
                                assert(t0.skip(b + 1 + fl) =~= s.skip(1 + b + 1 + fl));
                            } else {
                                assert(t0.skip(b) =~= s.skip(1 + b));
                            }
                        }
                    }
                },
            }
        } else {
            token = self.lex_punct(c);
        }
        proof {
            let d = lex_dispatch(m, s);
            assert(token@ =~= d.tok);
            assert(self.ctl() =~= d.st);
            assert(self.stream() =~= s.skip(d.n as int));
        }
        self.apply_bookkeeping(&token);
        Some(token)
    }
}

} // verus!
