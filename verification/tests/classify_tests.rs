use lexer::ctype::lisdigit;
use lexer::ctype::lislalnum;
use lexer::ctype::lislalpha;
use lexer::ctype::lisprint;
use lexer::ctype::lisspace;
use lexer::ctype::lisxdigit;
use lexer::keywords::keyword_code;
use lexer::EOZ;
use lexer::TOK_DEFER;
use lexer::TOK_WHILE;

#[test]
fn classification_follows_the_ascii_table() {
    assert!(lislalpha('a' as i32));
    assert!(lislalpha('Z' as i32));
    assert!(lislalpha('_' as i32));
    assert!(!lislalpha('0' as i32));
    assert!(!lislalpha(' ' as i32));

    assert!(lisdigit('0' as i32));
    assert!(lisdigit('9' as i32));
    assert!(!lisdigit('a' as i32));

    assert!(lislalnum('x' as i32));
    assert!(lislalnum('7' as i32));
    assert!(lislalnum('_' as i32));
    assert!(!lislalnum('-' as i32));

    assert!(lisspace(' ' as i32));
    assert!(lisspace('\t' as i32));
    assert!(lisspace('\n' as i32));
    assert!(lisspace('\r' as i32));
    assert!(lisspace(11));
    assert!(lisspace(12));
    assert!(!lisspace('x' as i32));

    assert!(lisxdigit('0' as i32));
    assert!(lisxdigit('a' as i32));
    assert!(lisxdigit('F' as i32));
    assert!(!lisxdigit('g' as i32));

    assert!(lisprint(' ' as i32));
    assert!(lisprint('~' as i32));
    assert!(!lisprint(127));
    assert!(!lisprint(7));
}

#[test]
fn the_end_of_input_sentinel_is_in_no_class() {
    assert!(!lislalpha(EOZ));
    assert!(!lislalnum(EOZ));
    assert!(!lisdigit(EOZ));
    assert!(!lisspace(EOZ));
    assert!(!lisxdigit(EOZ));
    assert!(!lisprint(EOZ));
}

#[test]
fn keyword_lookup_is_an_exact_byte_match() {
    assert_eq!(Some(TOK_DEFER), keyword_code(&b"defer".to_vec()));
    assert_eq!(Some(TOK_WHILE), keyword_code(&b"while".to_vec()));
    assert_eq!(None, keyword_code(&b"defers".to_vec()));
    assert_eq!(None, keyword_code(&b"defe".to_vec()));
    assert_eq!(None, keyword_code(&b"While".to_vec()));
    assert_eq!(None, keyword_code(&b"".to_vec()));
}
