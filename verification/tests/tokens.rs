use template_engine::error::CompileError;
use template_engine::token::{decode, decode_attributes, decode_token, RawToken, Token};

#[test]
fn bytes_are_decoded_as_utf8() {
    assert_eq!(decode(b"div".to_vec()), Ok("div".to_string()));
    assert_eq!(decode(vec![]), Ok(String::new()));
    assert_eq!(decode("gr\u{fc}n \u{1f600}".as_bytes().to_vec()), Ok("gr\u{fc}n \u{1f600}".to_string()));
}

#[test]
fn bytes_that_are_not_utf8_are_refused() {
    for bytes in [
        vec![0xff],
        vec![0xc3],
        vec![0xc0, 0x80],
        vec![0xed, 0xa0, 0x80],
        vec![0xf4, 0x90, 0x80, 0x80],
        vec![b'a', 0x80],
    ] {
        assert_eq!(decode(bytes), Err(CompileError::InvalidUtf8));
    }
}

#[test]
fn attributes_are_decoded_in_order() {
    let raw = vec![(b"b".to_vec(), b"2".to_vec()), (b"a".to_vec(), vec![])];
    assert_eq!(
        decode_attributes(raw),
        Ok(vec![("b".to_string(), "2".to_string()), ("a".to_string(), String::new())])
    );
    assert_eq!(decode_attributes(vec![]), Ok(vec![]));
    assert_eq!(
        decode_attributes(vec![(b"a".to_vec(), b"1".to_vec()), (vec![0xff], b"2".to_vec())]),
        Err(CompileError::InvalidUtf8)
    );
    assert_eq!(
        decode_attributes(vec![(b"a".to_vec(), vec![0xff])]),
        Err(CompileError::InvalidUtf8)
    );
}

#[test]
fn each_kind_of_token_is_decoded() {
    assert_eq!(
        decode_token(RawToken::Doctype { name: b"html".to_vec() }),
        Ok(Token::Doctype { name: "html".to_string() })
    );
    assert_eq!(
        decode_token(RawToken::StartTag {
            name: b"a".to_vec(),
            attributes: vec![(b"href".to_vec(), b"x".to_vec())],
            self_closing: true,
        }),
        Ok(Token::StartTag {
            name: "a".to_string(),
            attributes: vec![("href".to_string(), "x".to_string())],
            self_closing: true,
        })
    );
    assert_eq!(
        decode_token(RawToken::EndTag { name: b"a".to_vec() }),
        Ok(Token::EndTag { name: "a".to_string() })
    );
    assert_eq!(decode_token(RawToken::Text(b"hi".to_vec())), Ok(Token::Text("hi".to_string())));
    assert_eq!(decode_token(RawToken::Comment(vec![0xff, b'x'])), Ok(Token::Comment));
    assert_eq!(
        decode_token(RawToken::Error("eof-in-tag".to_string())),
        Ok(Token::Error("eof-in-tag".to_string()))
    );
}

#[test]
fn a_token_with_bad_bytes_is_refused() {
    assert_eq!(decode_token(RawToken::Doctype { name: vec![0xff] }), Err(CompileError::InvalidUtf8));
    assert_eq!(decode_token(RawToken::EndTag { name: vec![0xff] }), Err(CompileError::InvalidUtf8));
    assert_eq!(decode_token(RawToken::Text(vec![0xff])), Err(CompileError::InvalidUtf8));
    assert_eq!(
        decode_token(RawToken::StartTag { name: vec![0xff], attributes: vec![], self_closing: false }),
        Err(CompileError::InvalidUtf8)
    );
}
