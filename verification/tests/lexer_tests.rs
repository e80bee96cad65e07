use lexer::Lexer;
use lexer::LexErrorKind;
use lexer::SemInfo;
use lexer::Source;
use lexer::Token;
use lexer::CHAR_COLON;
use lexer::CHAR_COMMA;
use lexer::CHAR_DOT;
use lexer::CHAR_EQUAL;
use lexer::CHAR_FSLASH;
use lexer::CHAR_GT;
use lexer::CHAR_HYPEN;
use lexer::CHAR_LBRACE;
use lexer::CHAR_LBRACKET;
use lexer::CHAR_LPAREN;
use lexer::CHAR_LT;
use lexer::CHAR_RBRACE;
use lexer::CHAR_RPAREN;
use lexer::CHAR_TILDE;
use lexer::EOZ;
use lexer::FIRST_RESERVED;
use lexer::TOK_AND;
use lexer::TOK_CONCAT;
use lexer::TOK_DBCOLON;
use lexer::TOK_DEFER;
use lexer::TOK_DOTS;
use lexer::TOK_EOS;
use lexer::TOK_EQ;
use lexer::TOK_GE;
use lexer::TOK_IDIV;
use lexer::TOK_LE;
use lexer::TOK_NAME;
use lexer::TOK_NE;
use lexer::TOK_RETURN;
use lexer::TOK_SHL;
use lexer::TOK_SHR;
use lexer::TOK_STRING;
use lexer::TOK_WHILE;

fn lex(input: &str) -> Lexer {
    Lexer::new(Source::new(input))
}

/// All token kinds up to and including the end-of-stream token.
fn kinds(input: &str) -> Vec<i32> {
    let mut lx = lex(input);
    let mut out = Vec::new();
    loop {
        let tk = lx.advance().unwrap();
        out.push(tk.token);
        if tk.token == TOK_EOS {
            return out;
        }
    }
}

/// The text carried by a token's string payload.
fn payload_text(lx: &Lexer, tk: &Token) -> Vec<u8> {
    match tk.seminfo {
        Some(SemInfo::StringLit(r)) => lx.text_of(r).unwrap(),
        _ => panic!("expected a string payload"),
    }
}

/// The line number after lexing the whole input.
fn lines_after(input: &str) -> usize {
    let mut lx = lex(input);
    loop {
        if lx.advance().unwrap().token == TOK_EOS {
            return lx.line_number();
        }
    }
}

#[test]
fn test_lexer() {
    let source_string = "
-- a comment
- { } ,
--[[ a
long string
]]
--[==[ another
multi line
 string
]==]
 ( )
  [[ a string ]]
= == < <= << > >= >> // / ~ ~= :: :
        ";

    let source = Source::new(source_string);
    let mut lexer = Lexer::new(source);
    lexer.next_token().unwrap();
    assert_eq!(CHAR_HYPEN, lexer.t.as_ref().unwrap().token);
    lexer.next_token().unwrap();
    assert_eq!(CHAR_LBRACE, lexer.t.as_ref().unwrap().token);
    lexer.next_token().unwrap();
    assert_eq!(CHAR_RBRACE, lexer.t.as_ref().unwrap().token);
    lexer.next_token().unwrap();
    assert_eq!(CHAR_COMMA, lexer.t.as_ref().unwrap().token);
    lexer.next_token().unwrap();
    assert_eq!(CHAR_LPAREN, lexer.t.as_ref().unwrap().token);
    lexer.next_token().unwrap();
    assert_eq!(CHAR_RPAREN, lexer.t.as_ref().unwrap().token);
    lexer.next_token().unwrap();
    assert_eq!(TOK_STRING, lexer.t.as_ref().unwrap().token);
    let tk = lexer.t.clone().unwrap();
    assert_eq!(" a string ".as_bytes().to_vec(), payload_text(&lexer, &tk));
    lexer.next_token().unwrap();
    assert_eq!(CHAR_EQUAL, lexer.t.as_ref().unwrap().token);
    lexer.next_token().unwrap();
    assert_eq!(TOK_EQ, lexer.t.as_ref().unwrap().token);
    lexer.next_token().unwrap();
    assert_eq!(CHAR_LT, lexer.t.as_ref().unwrap().token);
    lexer.next_token().unwrap();
    assert_eq!(TOK_LE, lexer.t.as_ref().unwrap().token);
    lexer.next_token().unwrap();
    assert_eq!(TOK_SHL, lexer.t.as_ref().unwrap().token);
    lexer.next_token().unwrap();
    assert_eq!(CHAR_GT, lexer.t.as_ref().unwrap().token);
    lexer.next_token().unwrap();
    assert_eq!(TOK_GE, lexer.t.as_ref().unwrap().token);
    lexer.next_token().unwrap();
    assert_eq!(TOK_SHR, lexer.t.as_ref().unwrap().token);
    lexer.next_token().unwrap();
    assert_eq!(TOK_IDIV, lexer.t.as_ref().unwrap().token);
    lexer.next_token().unwrap();
    assert_eq!(CHAR_FSLASH, lexer.t.as_ref().unwrap().token);
    lexer.next_token().unwrap();
    assert_eq!(CHAR_TILDE, lexer.t.as_ref().unwrap().token);
    lexer.next_token().unwrap();
    assert_eq!(TOK_NE, lexer.t.as_ref().unwrap().token);
    lexer.next_token().unwrap();
    assert_eq!(TOK_DBCOLON, lexer.t.as_ref().unwrap().token);
    lexer.next_token().unwrap();
    assert_eq!(CHAR_COLON, lexer.t.as_ref().unwrap().token);
    lexer.next_token().unwrap();
    assert_eq!(TOK_EOS, lexer.t.as_ref().unwrap().token);
}

#[test]
fn source_yields_bytes_then_sentinel() {
    let mut src = Source::new("ab");
    assert_eq!(97, src.getc());
    assert_eq!(98, src.getc());
    assert_eq!(EOZ, src.getc());
    assert_eq!(EOZ, src.getc());
}

#[test]
fn punctuation_scenario() {
    assert_eq!(
        vec![CHAR_HYPEN, CHAR_LBRACE, CHAR_RBRACE, CHAR_COMMA, CHAR_LPAREN, CHAR_RPAREN, TOK_EOS],
        kinds("- { } , ( )")
    );
}

#[test]
fn operator_disambiguation_scenario() {
    assert_eq!(
        vec![
            CHAR_EQUAL, TOK_EQ, CHAR_LT, TOK_LE, TOK_SHL, CHAR_GT, TOK_GE, TOK_SHR, TOK_IDIV,
            CHAR_FSLASH, CHAR_TILDE, TOK_NE, TOK_DBCOLON, CHAR_COLON, TOK_EOS
        ],
        kinds("= == < <= << > >= >> // / ~ ~= :: :")
    );
}

#[test]
fn dot_operators() {
    assert_eq!(vec![CHAR_DOT, TOK_CONCAT, TOK_DOTS, TOK_EOS], kinds(". .. ..."));
}

#[test]
fn single_string_scenario() {
    let mut lx = lex("[[ a string ]]");
    let tk = lx.advance().unwrap();
    assert_eq!(TOK_STRING, tk.token);
    assert_eq!(" a string ".as_bytes().to_vec(), payload_text(&lx, &tk));
    assert_eq!(TOK_EOS, lx.advance().unwrap().token);
}

#[test]
fn single_identifier_scenario() {
    let mut lx = lex("x");
    let tk = lx.advance().unwrap();
    assert_eq!(TOK_NAME, tk.token);
    assert_eq!(b"x".to_vec(), payload_text(&lx, &tk));
    assert_eq!(TOK_EOS, lx.advance().unwrap().token);
}

#[test]
fn comment_then_keyword_scenario() {
    assert_eq!(vec![TOK_RETURN, TOK_EOS], kinds("--[[ comment ]] return"));
}

#[test]
fn long_comment_lines_scenario() {
    let mut lx = lex("--[==[ a\nb\n]==]");
    assert_eq!(TOK_EOS, lx.advance().unwrap().token);
    assert_eq!(2, lx.line_number());
}

#[test]
fn whitespace_only_yields_one_eos() {
    assert_eq!(vec![TOK_EOS], kinds(""));
    assert_eq!(vec![TOK_EOS], kinds("   \t\n  \r\n "));
    assert_eq!(vec![TOK_EOS], kinds("-- just a comment"));
    assert_eq!(vec![TOK_EOS], kinds(" -- one\n--[[ two ]] --[===[three]===]\n\t"));
    // advancing past the end keeps yielding the end-of-stream token
    let mut lx = lex(" -- nothing here\n");
    assert_eq!(TOK_EOS, lx.advance().unwrap().token);
    assert_eq!(TOK_EOS, lx.advance().unwrap().token);
    assert_eq!(TOK_EOS, lx.advance().unwrap().token);
}

#[test]
fn long_bracket_level_matching() {
    // a level-2 opener ignores level-1 and level-3 closers
    let mut lx = lex("[==[ x ]=] ]==]");
    let tk = lx.advance().unwrap();
    assert_eq!(TOK_STRING, tk.token);
    assert_eq!(" x ]=] ".as_bytes().to_vec(), payload_text(&lx, &tk));

    let mut lx = lex("[==[ x ]===] ]==]");
    let tk = lx.advance().unwrap();
    assert_eq!(TOK_STRING, tk.token);
    assert_eq!(" x ]===] ".as_bytes().to_vec(), payload_text(&lx, &tk));

    // a level-0 opener closes at the first ']]'
    let mut lx = lex("[[ x ]]]");
    let tk = lx.advance().unwrap();
    assert_eq!(TOK_STRING, tk.token);
    assert_eq!(" x ".as_bytes().to_vec(), payload_text(&lx, &tk));
}

#[test]
fn newline_conventions_count_lines() {
    assert_eq!(1, lines_after("\n"));
    assert_eq!(1, lines_after("\r"));
    assert_eq!(1, lines_after("\r\n"));
    assert_eq!(1, lines_after("\n\r"));
    assert_eq!(2, lines_after("\n\n"));
    assert_eq!(2, lines_after("\r\r"));
    assert_eq!(2, lines_after("\r\n\r\n"));
    assert_eq!(2, lines_after("\n\r\n"));
    assert_eq!(3, lines_after("\r\n\n\r\n"));
    // a lone `\n` straight before a `\r` spells the two-byte pair `\n\r`:
    // the middle two bytes here count once, not twice
    assert_eq!(3, lines_after("\n\n\r\r"));
}

#[test]
fn token_line_is_where_the_token_starts() {
    let mut lx = lex("a\nb\r\n  c --[[x\ny]] d");
    let a = lx.advance().unwrap();
    assert_eq!((TOK_NAME, 0), (a.token, a.line));
    let b = lx.advance().unwrap();
    assert_eq!((TOK_NAME, 1), (b.token, b.line));
    let c = lx.advance().unwrap();
    assert_eq!((TOK_NAME, 2), (c.token, c.line));
    let d = lx.advance().unwrap();
    assert_eq!((TOK_NAME, 3), (d.token, d.line));
}

#[test]
fn string_newlines_are_normalized() {
    let mut lx = lex("[[a\r\nb\rc\nd]]");
    let tk = lx.advance().unwrap();
    assert_eq!(TOK_STRING, tk.token);
    assert_eq!(b"a\nb\nc\nd".to_vec(), payload_text(&lx, &tk));
    assert_eq!(3, lx.line_number());
}

#[test]
fn string_leading_newline_is_skipped() {
    let mut lx = lex("[[\nabc]]");
    let tk = lx.advance().unwrap();
    assert_eq!(TOK_STRING, tk.token);
    assert_eq!(b"abc".to_vec(), payload_text(&lx, &tk));
    assert_eq!(1, lx.line_number());
}

#[test]
fn keywords_have_contiguous_kinds() {
    let all = "and break do else elseif end false for function goto if in local defer \
               nil not or repeat return then true until while";
    let ks = kinds(all);
    assert_eq!(24, ks.len());
    for (i, k) in ks.iter().take(23).enumerate() {
        assert_eq!(FIRST_RESERVED + i as i32, *k);
    }
    assert_eq!(TOK_AND, ks[0]);
    assert_eq!(TOK_DEFER, ks[13]);
    assert_eq!(TOK_WHILE, ks[22]);
}

#[test]
fn keyword_prefix_is_an_identifier() {
    let mut lx = lex("android defers");
    let tk = lx.advance().unwrap();
    assert_eq!(TOK_NAME, tk.token);
    assert_eq!(b"android".to_vec(), payload_text(&lx, &tk));
    let tk = lx.advance().unwrap();
    assert_eq!(TOK_NAME, tk.token);
    assert_eq!(b"defers".to_vec(), payload_text(&lx, &tk));
}

#[test]
fn unhandled_bytes_come_out_verbatim() {
    assert_eq!(vec!['@' as i32, TOK_EOS], kinds("@"));
    assert_eq!(vec!['+' as i32, '*' as i32, '%' as i32, TOK_EOS], kinds("+*%"));
    assert_eq!(vec!['5' as i32, TOK_EOS], kinds("5"));
    assert_eq!(vec![CHAR_LBRACKET, ']' as i32, TOK_EOS], kinds("[]"));
}

#[test]
fn peek_buffers_one_token() {
    let mut lx = lex("a b");
    let p1 = lx.peek().unwrap();
    let p2 = lx.peek().unwrap();
    assert_eq!(p1.token, p2.token);
    assert_eq!(p1.seminfo, p2.seminfo);
    let a = lx.advance().unwrap();
    assert_eq!(p1.token, a.token);
    assert_eq!(p1.seminfo, a.seminfo);
    let b = lx.advance().unwrap();
    assert_eq!(TOK_NAME, b.token);
    assert_ne!(a.seminfo, b.seminfo);
    assert_eq!(TOK_EOS, lx.peek().unwrap().token);
    assert_eq!(TOK_EOS, lx.advance().unwrap().token);
}

#[test]
fn unterminated_long_string_is_an_error() {
    let mut lx = lex("[[abc");
    let e = lx.advance().unwrap_err();
    assert_eq!(LexErrorKind::UnterminatedLongString, e.kind);
    assert_eq!(0, e.line);

    let mut lx = lex("\n\n[=[a\nbc]]");
    let e = lx.advance().unwrap_err();
    assert_eq!(LexErrorKind::UnterminatedLongString, e.kind);
    assert_eq!(3, e.line);
}

#[test]
fn unterminated_long_comment_is_an_error() {
    let mut lx = lex("--[[abc");
    let e = lx.advance().unwrap_err();
    assert_eq!(LexErrorKind::UnterminatedLongComment, e.kind);
    assert_eq!(0, e.line);
}

#[test]
fn invalid_long_bracket_delimiter_is_an_error() {
    let mut lx = lex("[=a");
    let e = lx.advance().unwrap_err();
    assert_eq!(LexErrorKind::InvalidLongBracketDelimiter, e.kind);
    assert_eq!(0, e.line);

    let mut lx = lex("[===");
    let e = lx.advance().unwrap_err();
    assert_eq!(LexErrorKind::InvalidLongBracketDelimiter, e.kind);
}

#[test]
fn oversized_literal_is_an_error() {
    // an identifier longer than one arena page cannot be interned
    let long_name = "x".repeat(lexer::PAGE_CAPACITY + 1);
    let mut lx = lex(&long_name);
    let e = lx.advance().unwrap_err();
    assert_eq!(LexErrorKind::StringTooLargeForArena, e.kind);

    // the same for a long-bracket string literal
    let mut body = String::from("[[");
    body.push_str(&"y".repeat(lexer::PAGE_CAPACITY + 1));
    body.push_str("]]");
    let mut lx = lex(&body);
    let e = lx.advance().unwrap_err();
    assert_eq!(LexErrorKind::StringTooLargeForArena, e.kind);

    // one page exactly still fits
    let fits = "z".repeat(lexer::PAGE_CAPACITY);
    let mut lx = lex(&fits);
    assert_eq!(TOK_NAME, lx.advance().unwrap().token);
}

#[test]
fn malformed_bracket_after_comment_is_a_short_comment() {
    // `--[=x` is not a long-comment head: the rest of the line is skipped
    assert_eq!(vec![TOK_NAME, TOK_EOS], kinds("--[=x whatever\nok"));
}

#[test]
fn peek_reports_errors_without_buffering() {
    let mut lx = lex("[=a");
    let e = lx.peek().unwrap_err();
    assert_eq!(LexErrorKind::InvalidLongBracketDelimiter, e.kind);
    assert!(lx.t.is_none());
    // the malformed delimiter was consumed; scanning goes on after it
    let tk = lx.advance().unwrap();
    assert_eq!(TOK_NAME, tk.token);
}
