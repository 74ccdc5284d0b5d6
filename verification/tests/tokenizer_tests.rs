use varant::tokenizer::{Token, TokenKind, Tokenizer};

#[test]
fn test_simple_words() {
    let tokenizer = Tokenizer::new();
    let tokens = tokenizer.tokenize("hello world");

    assert_eq!(tokens.len(), 2);
    assert_eq!(tokens[0].text, "hello");
    assert_eq!(tokens[0].kind, TokenKind::Word);
    assert_eq!(tokens[0].byte_start, 0);
    assert_eq!(tokens[0].byte_end, 5);

    assert_eq!(tokens[1].text, "world");
    assert_eq!(tokens[1].byte_start, 6);
}

#[test]
fn tokenizer_test_punctuation() {
    let tokenizer = Tokenizer::new();
    let tokens = tokenizer.tokenize("Hello, world!");

    assert_eq!(tokens.len(), 4);
    assert_eq!(tokens[0].text, "Hello");
    assert_eq!(tokens[1].text, ",");
    assert_eq!(tokens[1].kind, TokenKind::Punctuation);
    assert_eq!(tokens[2].text, "world");
    assert_eq!(tokens[3].text, "!");
}

#[test]
fn test_contractions() {
    let tokenizer = Tokenizer::new();
    let tokens = tokenizer.tokenize("don't stop");

    assert_eq!(tokens.len(), 2);
    assert_eq!(tokens[0].text, "don't");
    assert_eq!(tokens[0].kind, TokenKind::Word);
}

#[test]
fn test_curly_apostrophe() {
    let tokenizer = Tokenizer::new();
    let tokens = tokenizer.tokenize("won\u{2019}t fail");

    assert_eq!(tokens.len(), 2);
    assert_eq!(tokens[0].text, "won\u{2019}t");
    assert_eq!(tokens[0].kind, TokenKind::Word);
}

#[test]
fn test_twas() {
    let tokenizer = Tokenizer::new();
    let tokens = tokenizer.tokenize("'twas the night");

    assert_eq!(tokens.len(), 3);
    assert_eq!(tokens[0].text, "'twas");
    assert_eq!(tokens[0].kind, TokenKind::Word);
}

#[test]
fn test_numbers() {
    let tokenizer = Tokenizer::new();
    let tokens = tokenizer.tokenize("42 items 3.14");

    assert_eq!(tokens.len(), 3);
    assert_eq!(tokens[0].text, "42");
    assert_eq!(tokens[0].kind, TokenKind::Number);
    assert_eq!(tokens[2].text, "3.14");
    assert_eq!(tokens[2].kind, TokenKind::Number);
}

#[test]
fn test_mixed_alphanumeric() {
    let tokenizer = Tokenizer::new();
    let tokens = tokenizer.tokenize("COVID-19 B52");

    assert_eq!(tokens.len(), 2);
    assert_eq!(tokens[0].text, "COVID-19");
    assert_eq!(tokens[0].kind, TokenKind::Mixed);
    assert_eq!(tokens[1].text, "B52");
    assert_eq!(tokens[1].kind, TokenKind::Mixed);
}

#[test]
fn test_unicode_emdash() {
    let tokenizer = Tokenizer::new();
    let tokens = tokenizer.tokenize("word\u{2014}another");

    assert_eq!(tokens.len(), 3);
    assert_eq!(tokens[0].text, "word");
    assert_eq!(tokens[1].text, "\u{2014}");
    assert_eq!(tokens[1].kind, TokenKind::Punctuation);
    assert_eq!(tokens[2].text, "another");
}

#[test]
fn test_curly_quotes() {
    let tokenizer = Tokenizer::new();
    let tokens = tokenizer.tokenize("\u{201C}Hello\u{201D}");

    assert_eq!(tokens.len(), 3);
    assert_eq!(tokens[0].text, "\u{201C}");
    assert_eq!(tokens[0].kind, TokenKind::Punctuation);
    assert_eq!(tokens[1].text, "Hello");
    assert_eq!(tokens[2].text, "\u{201D}");
}

#[test]
fn tokenizer_test_hyphenated_name() {
    let tokenizer = Tokenizer::new();
    let tokens = tokenizer.tokenize("Sally-Anne walked");

    assert_eq!(tokens.len(), 2);
    assert_eq!(tokens[0].text, "Sally-Anne");
    assert_eq!(tokens[0].kind, TokenKind::Word);
}

#[test]
fn test_byte_offsets_unicode() {
    let tokenizer = Tokenizer::new();
    // "café" has 5 bytes (é is 2 bytes in UTF-8)
    let tokens = tokenizer.tokenize("caf\u{e9} time");

    assert_eq!(tokens.len(), 2);
    assert_eq!(tokens[0].text, "caf\u{e9}");
    assert_eq!(tokens[0].byte_start, 0);
    assert_eq!(tokens[0].byte_end, 5);
    assert_eq!(tokens[1].byte_start, 6);
}

#[test]
fn test_with_whitespace() {
    let tokenizer = Tokenizer::with_whitespace();
    let tokens = tokenizer.tokenize("a b");

    assert_eq!(tokens.len(), 3);
    assert_eq!(tokens[1].kind, TokenKind::Whitespace);
}

#[test]
fn test_possessive_split() {
    let tokenizer = Tokenizer::new();
    let tokens = tokenizer.tokenize("Sally's book");

    // Possessives are kept as one token, like contractions
    assert_eq!(tokens.len(), 2);
    assert_eq!(tokens[0].text, "Sally's");
    assert_eq!(tokens[1].text, "book");
}

#[test]
fn tokenize_words_drops_numbers_and_punctuation() {
    let tokenizer = Tokenizer::new();
    let tokens = tokenizer.tokenize_words("Hello, 42 B52 world!");
    let texts: Vec<&str> = tokens.iter().map(|t| t.text.as_str()).collect();
    assert_eq!(texts, vec!["Hello", "B52", "world"]);
}

#[test]
fn empty_text_has_no_tokens() {
    assert!(Tokenizer::new().tokenize("").is_empty());
    assert!(Tokenizer::with_whitespace().tokenize("").is_empty());
}

#[test]
fn token_spans_cover_text_with_whitespace() {
    let text = "Hi, there  you";
    let tokens = Tokenizer::with_whitespace().tokenize(text);
    let mut pos = 0;
    for t in &tokens {
        assert_eq!(t.byte_start, pos);
        assert_eq!(&text[t.byte_start..t.byte_end], t.text);
        pos = t.byte_end;
    }
    assert_eq!(pos, text.len());
}

#[test]
fn token_helpers() {
    let t = Token::new("abc", TokenKind::Word, 3, 6);
    assert_eq!(t.len(), 3);
    assert!(!t.is_empty());
    let d = t.duplicate();
    assert_eq!(d.text, "abc");
    assert_eq!(d.byte_end, 6);
}

#[test]
fn word_tokens_are_the_words_of_all_tokens() {
    let tokenizer = Tokenizer::new();
    let text = "Frodo's 3 rings, B52 and\u{00A0}more.";
    let all = tokenizer.tokenize(text);
    let words = tokenizer.tokenize_words(text);
    let filtered: Vec<&Token> = all
        .iter()
        .filter(|t| t.kind == TokenKind::Word || t.kind == TokenKind::Mixed)
        .collect();
    assert_eq!(words.len(), filtered.len());
    for (w, f) in words.iter().zip(filtered) {
        assert_eq!(w.text, f.text);
        assert_eq!((w.byte_start, w.byte_end), (f.byte_start, f.byte_end));
    }
}

#[test]
fn tokens_with_whitespace_rebuild_the_text() {
    let tokenizer = Tokenizer::with_whitespace();
    let text = "  café — it's\u{2003}done!\n";
    let joined: String = tokenizer.tokenize(text).iter().map(|t| t.text.as_str()).collect();
    assert_eq!(joined, text);
    // U+00A0 and U+2003 are whitespace
    let toks = tokenizer.tokenize("a\u{00A0}b");
    assert_eq!(toks[1].kind, TokenKind::Whitespace);
}

#[test]
fn whitespace_tokens_tile_the_text_and_are_the_only_difference() {
    let text = "a b,  c";
    let with_ws = Tokenizer::with_whitespace().tokenize(text);
    assert_eq!(with_ws[0].byte_start, 0);
    for w in with_ws.windows(2) {
        assert_eq!(w[0].byte_end, w[1].byte_start);
    }
    assert_eq!(with_ws.last().unwrap().byte_end, text.len());
    let without = Tokenizer::new().tokenize(text);
    let kept: Vec<(String, usize, usize)> = with_ws
        .iter()
        .filter(|t| t.kind != TokenKind::Whitespace)
        .map(|t| (t.text.clone(), t.byte_start, t.byte_end))
        .collect();
    let got: Vec<(String, usize, usize)> =
        without.iter().map(|t| (t.text.clone(), t.byte_start, t.byte_end)).collect();
    assert_eq!(got, kept);
    for t in &without {
        assert!(t.byte_start < t.byte_end);
    }
    assert!(Tokenizer::new().tokenize("").is_empty());
}
