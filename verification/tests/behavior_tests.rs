use js_lex_rs::{tokenize, tokenize_chars, tokenize_str, JsToken};

fn nontrivia_tokens(s: &str) -> Vec<JsToken> {
    tokenize(s)
        .into_iter()
        .filter(|x| match *x {
            JsToken::Whitespace(_)
            | JsToken::LineTerminator(_)
            | JsToken::MultilineComment(_)
            | JsToken::LineComment(_) => false,
            _ => true,
        })
        .collect()
}

fn token_text(t: &JsToken) -> String {
    match t {
        JsToken::Whitespace(s)
        | JsToken::LineTerminator(s)
        | JsToken::Word(s)
        | JsToken::StringLiteral(s)
        | JsToken::NumberLiteral(s)
        | JsToken::Punctuation(s)
        | JsToken::Unknown(s) => s.clone(),
        JsToken::LineComment(b) => format!("//{}", b),
        JsToken::MultilineComment(b) => format!("/*{}*/", b),
        JsToken::RegexpLiteral(b, f) => format!("/{}/{}", b, f),
    }
}

#[test]
pub fn empty_input() {
    let tokens = tokenize("");
    assert_eq!(0, tokens.len());
}

#[test]
pub fn lone_slash_start_regexp() {
    let tokens = tokenize("/");
    assert_eq!(1, tokens.len());
    assert_eq!(JsToken::RegexpLiteral("".to_string(), "".to_string()), tokens[0]);
}

#[test]
pub fn num_prefix_hex_only() {
    let tokens = tokenize("0x");
    assert_eq!(1, tokens.len());
    assert_eq!(JsToken::NumberLiteral("0x".to_string()), tokens[0]);
}

#[test]
pub fn num_prefix_binary_only() {
    let tokens = tokenize("0b");
    assert_eq!(1, tokens.len());
    assert_eq!(JsToken::NumberLiteral("0b".to_string()), tokens[0]);
}

#[test]
pub fn num_prefix_octal_only() {
    let tokens = tokenize("0o");
    assert_eq!(1, tokens.len());
    assert_eq!(JsToken::NumberLiteral("0o".to_string()), tokens[0]);
}

#[test]
pub fn word_after_dot_restricted() {
    let tokens = nontrivia_tokens("x.return /q/");
    assert_eq!(4, tokens.len());
    assert_eq!(JsToken::Word("x".to_string()), tokens[0]);
    assert_eq!(JsToken::Punctuation(".".to_string()), tokens[1]);
    assert_eq!(JsToken::Word("return".to_string()), tokens[2]);
    assert_eq!(JsToken::RegexpLiteral("q".to_string(), "".to_string()), tokens[3]);
}

#[test]
pub fn word_after_dot_plain() {
    let tokens = nontrivia_tokens("x.foo /q/e");
    assert_eq!(7, tokens.len());
    assert_eq!(JsToken::Word("foo".to_string()), tokens[2]);
    assert_eq!(JsToken::Punctuation("/".to_string()), tokens[3]);
    assert_eq!(JsToken::Word("q".to_string()), tokens[4]);
    assert_eq!(JsToken::Punctuation("/".to_string()), tokens[5]);
    assert_eq!(JsToken::Word("e".to_string()), tokens[6]);
}

#[test]
pub fn dot_property_if_paren() {
    let tokens = nontrivia_tokens("obj.if(x)/q/");
    assert_eq!(7, tokens.len());
    assert_eq!(JsToken::Word("if".to_string()), tokens[2]);
    assert_eq!(JsToken::RegexpLiteral("q".to_string(), "".to_string()), tokens[6]);
}

#[test]
pub fn round_trip_reassembly() {
    let src = "var x = 10; // set\nif (x) { y = /re/gi; }\n'str\\n' + \"a\" /*k*/ 0x1f";
    let tokens = tokenize(src);
    let mut rebuilt = String::new();
    for t in &tokens {
        rebuilt.push_str(&token_text(t));
    }
    assert_eq!(src, rebuilt);
}

#[test]
pub fn tokens_nonempty() {
    let src = "a+b /q/ 'x' // c\n/*m*/ 1.5e-2 @ ;";
    for t in &tokenize(src) {
        assert!(token_text(t).len() > 0);
    }
}

#[test]
pub fn trivia_transparency_whitespace() {
    assert_eq!(nontrivia_tokens("a+b"), nontrivia_tokens("a \t+\u{000b}b"));
}

#[test]
pub fn trivia_transparency_line_comment() {
    assert_eq!(nontrivia_tokens("a+\nb"), nontrivia_tokens("a+//c\nb"));
}

#[test]
pub fn bracket_balance_div() {
    let tokens = nontrivia_tokens("[]/q");
    assert_eq!(JsToken::Punctuation("/".to_string()), tokens[2]);
    let tokens = nontrivia_tokens("([])/q");
    assert_eq!(JsToken::Punctuation("/".to_string()), tokens[4]);
}

#[test]
pub fn mismatched_closer_resets() {
    let tokens = nontrivia_tokens("(}/q/");
    assert_eq!(3, tokens.len());
    assert_eq!(JsToken::Punctuation("(".to_string()), tokens[0]);
    assert_eq!(JsToken::Punctuation("}".to_string()), tokens[1]);
    assert_eq!(JsToken::RegexpLiteral("q".to_string(), "".to_string()), tokens[2]);
}

#[test]
pub fn unmatched_closer_resets() {
    let tokens = nontrivia_tokens(")/q/");
    assert_eq!(2, tokens.len());
    assert_eq!(JsToken::Punctuation(")".to_string()), tokens[0]);
    assert_eq!(JsToken::RegexpLiteral("q".to_string(), "".to_string()), tokens[1]);
}

#[test]
pub fn brace_group_in_expression_position() {
    let tokens = nontrivia_tokens("++{[]}/2");
    assert_eq!(7, tokens.len());
    assert_eq!(JsToken::Punctuation("/".to_string()), tokens[5]);
    assert_eq!(JsToken::NumberLiteral("2".to_string()), tokens[6]);
}

#[test]
pub fn unknown_char() {
    let tokens = tokenize("@#");
    assert_eq!(2, tokens.len());
    assert_eq!(JsToken::Unknown("@".to_string()), tokens[0]);
    assert_eq!(JsToken::Unknown("#".to_string()), tokens[1]);
}

#[test]
pub fn unicode_word() {
    let tokens = tokenize("h\u{00e9}llo");
    assert_eq!(1, tokens.len());
    assert_eq!(JsToken::Word("h\u{00e9}llo".to_string()), tokens[0]);
}

#[test]
pub fn word_shapes() {
    let tokens = nontrivia_tokens("x1 $a _b");
    assert_eq!(3, tokens.len());
    assert_eq!(JsToken::Word("x1".to_string()), tokens[0]);
    assert_eq!(JsToken::Word("$a".to_string()), tokens[1]);
    assert_eq!(JsToken::Word("_b".to_string()), tokens[2]);
}

#[test]
pub fn ml_comment_without_newline_keeps_postfix() {
    let tokens = nontrivia_tokens("1 /**/ ++{}/q/");
    assert_eq!(5, tokens.len());
    assert_eq!(JsToken::RegexpLiteral("q".to_string(), "".to_string()), tokens[4]);
}

#[test]
pub fn ml_comment_with_newline_forces_prefix() {
    let tokens = nontrivia_tokens("1 /*\n*/ ++{}/q/");
    assert_eq!(7, tokens.len());
    assert_eq!(JsToken::Punctuation("/".to_string()), tokens[4]);
    assert_eq!(JsToken::Word("q".to_string()), tokens[5]);
    assert_eq!(JsToken::Punctuation("/".to_string()), tokens[6]);
}

#[test]
pub fn iterator_pull() {
    let mut it = tokenize_str("a b");
    assert_eq!(Some(JsToken::Word("a".to_string())), it.next());
    assert_eq!(Some(JsToken::Whitespace(" ".to_string())), it.next());
    assert_eq!(Some(JsToken::Word("b".to_string())), it.next());
    assert_eq!(None, it.next());
}

#[test]
pub fn iterator_from_chars() {
    let mut it = tokenize_chars(vec!['1', '+', '2']);
    assert_eq!(Some(JsToken::NumberLiteral("1".to_string())), it.next());
    assert_eq!(Some(JsToken::Punctuation("+".to_string())), it.next());
    assert_eq!(Some(JsToken::NumberLiteral("2".to_string())), it.next());
    assert_eq!(None, it.next());
}

#[test]
pub fn unterminated_string() {
    let tokens = tokenize("'abc");
    assert_eq!(1, tokens.len());
    assert_eq!(JsToken::StringLiteral("'abc".to_string()), tokens[0]);
}

#[test]
pub fn unterminated_ml_comment() {
    let tokens = tokenize("/*abc");
    assert_eq!(1, tokens.len());
    assert_eq!(JsToken::MultilineComment("abc".to_string()), tokens[0]);
}

#[test]
pub fn unterminated_regexp() {
    let tokens = tokenize("/abc");
    assert_eq!(1, tokens.len());
    assert_eq!(JsToken::RegexpLiteral("abc".to_string(), "".to_string()), tokens[0]);
}

#[test]
pub fn empty_ml_comment() {
    let tokens = tokenize("/**/x");
    assert_eq!(2, tokens.len());
    assert_eq!(JsToken::MultilineComment("".to_string()), tokens[0]);
    assert_eq!(JsToken::Word("x".to_string()), tokens[1]);
}

#[test]
pub fn empty_line_comment() {
    let tokens = tokenize("//");
    assert_eq!(1, tokens.len());
    assert_eq!(JsToken::LineComment("".to_string()), tokens[0]);
}

#[test]
pub fn escaped_slash_opens_regexp_body() {
    let tokens = tokenize("/\\//");
    assert_eq!(1, tokens.len());
    assert_eq!(JsToken::RegexpLiteral("\\/".to_string(), "".to_string()), tokens[0]);
}
