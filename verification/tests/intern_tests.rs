use lexer::InternError;
use lexer::Interner;
use lexer::Lexer;
use lexer::SemInfo;
use lexer::Source;
use lexer::StringRef;
use lexer::Token;
use lexer::PAGE_CAPACITY;
use lexer::TOK_NAME;
use lexer::TOK_STRING;

fn handle_of(tk: &Token) -> StringRef {
    match tk.seminfo {
        Some(SemInfo::StringLit(r)) => r,
        _ => panic!("expected a string payload"),
    }
}

#[test]
fn interning_is_idempotent() {
    let mut it = Interner::new();
    let a = it.intern(&b"hello".to_vec()).unwrap();
    let b = it.intern(&b"world".to_vec()).unwrap();
    let a2 = it.intern(&b"hello".to_vec()).unwrap();
    assert_eq!(a, a2);
    assert_ne!(a, b);
    assert_eq!(2, it.count());
}

#[test]
fn resolving_reproduces_the_bytes() {
    let mut it = Interner::new();
    // embedded zero bytes round-trip exactly
    let bytes = vec![104u8, 0, 105, 0, 0, 106];
    let r = it.intern(&bytes).unwrap();
    assert_eq!(bytes, it.resolve(r).unwrap());
    let empty = it.intern(&Vec::new()).unwrap();
    assert_eq!(Vec::<u8>::new(), it.resolve(empty).unwrap());
    assert_ne!(r, empty);
}

#[test]
fn unknown_handles_do_not_resolve() {
    let mut it = Interner::new();
    let r = it.intern(&b"only".to_vec()).unwrap();
    assert_eq!(b"only".to_vec(), it.resolve(r).unwrap());
    assert!(it.resolve(StringRef { idx: 1 }).is_none());
    assert!(it.resolve(StringRef { idx: 77 }).is_none());
}

#[test]
fn oversized_sequences_are_rejected() {
    let mut it = Interner::new();
    let big = vec![7u8; PAGE_CAPACITY + 1];
    assert_eq!(InternError::StringTooLarge, it.intern(&big).unwrap_err());
    assert_eq!(0, it.count());
    let exact = vec![7u8; PAGE_CAPACITY];
    assert!(it.intern(&exact).is_ok());
    assert_eq!(1, it.count());
}

#[test]
fn many_small_and_large_strings_share_the_arena() {
    // mixed sizes force several pages and first-fit reuse of earlier pages
    let mut it = Interner::new();
    let mut handles = Vec::new();
    let mut i: usize = 0;
    while i < 100 {
        let len = if i % 3 == 0 { 700 } else { 40 + i };
        let mut v = vec![(i % 251) as u8; len];
        v.push((i / 251) as u8);
        handles.push((v.clone(), it.intern(&v).unwrap()));
        i += 1;
    }
    for (v, h) in &handles {
        assert_eq!(*v, it.resolve(*h).unwrap());
        assert_eq!(*h, it.intern(v).unwrap());
    }
    assert_eq!(100, it.count());
}

#[test]
fn equal_identifiers_share_one_handle() {
    let mut lx = Lexer::new(Source::new("foo bar foo [[foo]]"));
    let t1 = lx.advance().unwrap();
    let t2 = lx.advance().unwrap();
    let t3 = lx.advance().unwrap();
    let t4 = lx.advance().unwrap();
    assert_eq!(TOK_NAME, t1.token);
    assert_eq!(TOK_NAME, t2.token);
    assert_eq!(TOK_NAME, t3.token);
    assert_eq!(TOK_STRING, t4.token);
    assert_eq!(handle_of(&t1), handle_of(&t3));
    assert_ne!(handle_of(&t1), handle_of(&t2));
    // a string literal with the same bytes as an identifier shares its handle
    assert_eq!(handle_of(&t1), handle_of(&t4));
    assert_eq!(b"foo".to_vec(), lx.text_of(handle_of(&t3)).unwrap());
}
