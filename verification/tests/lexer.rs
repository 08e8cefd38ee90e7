use repairjson::lexer::Lexer;

#[test]
fn cursor_reads_inside_the_fences() {
    let mut lexer = Lexer::new("  ```json\n{a}\n```  ");
    assert_eq!(lexer.peek(), Some(b'{'));
    assert!(!lexer.is_eof());
    assert_eq!(lexer.next(), Some(b'{'));
    assert!(lexer.consume_if(b'a'));
    assert!(!lexer.consume_if(b'a'));
    assert!(lexer.bump());
    assert!(lexer.is_eof());
    assert_eq!(lexer.peek(), None);
    assert_eq!(lexer.next(), None);
    assert!(!lexer.bump());
}

#[test]
fn byte_order_mark_is_not_read() {
    let lexer = Lexer::new("\u{feff}x");
    assert_eq!(lexer.peek(), Some(b'x'));
}

#[test]
fn trivia_and_tokens() {
    let mut lexer = Lexer::new("  /* c */ // line\n abc,def");
    lexer.skip_trivia();
    assert_eq!(lexer.peek(), Some(b'a'));
    assert_eq!(lexer.read_bare_token(), b"abc");
    assert_eq!(lexer.peek(), Some(b','));
    assert_eq!(lexer.read_bare_token(), b"");
    assert!(lexer.bump());
    assert_eq!(lexer.read_bare_token(), b"def");
    assert!(lexer.is_eof());
}

#[test]
fn lookahead_leaves_the_cursor() {
    let lexer = Lexer::new("  key : 1");
    assert!(lexer.bare_key_follows());
    assert_eq!(lexer.next_significant_byte(), Some(b'k'));
    assert_eq!(lexer.peek(), Some(b'k'));

    let lexer = Lexer::new("abc def:1");
    assert!(!lexer.bare_key_follows());

    let lexer = Lexer::new(" /* c */ x");
    assert_eq!(lexer.next_significant_byte(), Some(b'x'));
    assert_eq!(lexer.peek(), Some(b'/'));
}

#[test]
fn structural_start_skips_prose() {
    let mut lexer = Lexer::new("say {a}");
    lexer.prefer_structural_value_start();
    assert_eq!(lexer.peek(), Some(b'{'));

    let mut lexer = Lexer::new("it's here: [1]");
    lexer.prefer_structural_value_start();
    assert_eq!(lexer.peek(), Some(b'['));

    let mut lexer = Lexer::new("'{quoted}' plain");
    lexer.prefer_structural_value_start();
    assert_eq!(lexer.peek(), Some(b'\''));

    let mut lexer = Lexer::new("  42");
    lexer.prefer_structural_value_start();
    assert_eq!(lexer.peek(), Some(b'4'));
}
