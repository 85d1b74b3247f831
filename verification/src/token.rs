//! Lexical tokens of a markup source, as bytes and as text.

use crate::error::{CompileError, CompileErrorView};
use html5gum::{Token as HtmlToken, Tokenizer};
use vstd::prelude::*;
use vstd::utf8::*;

verus! {

/// A token as the lexer delivers it: names and text are byte strings.
#[derive(Debug, PartialEq, Eq)]
pub enum RawToken {
    Doctype { name: Vec<u8> },
    StartTag { name: Vec<u8>, attributes: Vec<(Vec<u8>, Vec<u8>)>, self_closing: bool },
    EndTag { name: Vec<u8> },
    Text(Vec<u8>),
    Comment(Vec<u8>),
    /// A lexer error, by its diagnostic code.
    Error(String),
}

/// The mathematical value of a [`RawToken`].
pub enum RawTokenView {
    Doctype { name: Seq<u8> },
    StartTag { name: Seq<u8>, attributes: Seq<(Seq<u8>, Seq<u8>)>, self_closing: bool },
    EndTag { name: Seq<u8> },
    Text(Seq<u8>),
    Comment(Seq<u8>),
    Error(Seq<char>),
}

impl View for RawToken {
    type V = RawTokenView;

    open spec fn view(&self) -> RawTokenView {
        match *self {
            RawToken::Doctype { name } => RawTokenView::Doctype { name: name@ },
            RawToken::StartTag { name, attributes, self_closing } => RawTokenView::StartTag {
                name: name@,
                attributes: attributes.deep_view(),
                self_closing,
            },
            RawToken::EndTag { name } => RawTokenView::EndTag { name: name@ },
            RawToken::Text(text) => RawTokenView::Text(text@),
            RawToken::Comment(text) => RawTokenView::Comment(text@),
            RawToken::Error(code) => RawTokenView::Error(code@),
        }
    }
}

impl DeepView for RawToken {
    type V = RawTokenView;

    open spec fn deep_view(&self) -> RawTokenView {
        self@
    }
}

/// A token whose names and text have been decoded.
#[derive(Debug, PartialEq, Eq)]
pub enum Token {
    Doctype { name: String },
    StartTag { name: String, attributes: Vec<(String, String)>, self_closing: bool },
    EndTag { name: String },
    Text(String),
    Comment,
    /// A lexer error, by its diagnostic code.
    Error(String),
}

/// The mathematical value of a [`Token`].
pub enum TokenView {
    Doctype { name: Seq<char> },
    StartTag { name: Seq<char>, attributes: Seq<(Seq<char>, Seq<char>)>, self_closing: bool },
    EndTag { name: Seq<char> },
    Text(Seq<char>),
    Comment,
    Error(Seq<char>),
}

impl View for Token {
    type V = TokenView;

    open spec fn view(&self) -> TokenView {
        match *self {
            Token::Doctype { name } => TokenView::Doctype { name: name@ },
            Token::StartTag { name, attributes, self_closing } => TokenView::StartTag {
                name: name@,
                attributes: attributes.deep_view(),
                self_closing,
            },
            Token::EndTag { name } => TokenView::EndTag { name: name@ },
            Token::Text(text) => TokenView::Text(text@),
            Token::Comment => TokenView::Comment,
            Token::Error(code) => TokenView::Error(code@),
        }
    }
}

impl DeepView for Token {
    type V = TokenView;

    open spec fn deep_view(&self) -> TokenView {
        self@
    }
}

/// The text that a byte string encodes, if it is UTF-8.
pub open spec fn decoded(bytes: Seq<u8>) -> Option<Seq<char>> {
    if valid_utf8(bytes) {
        Some(decode_utf8(bytes))
    } else {
        None
    }
}

/// The attributes of a start tag decoded pair by pair, if every name and
/// value is UTF-8.
pub open spec fn decoded_attributes(raw: Seq<(Seq<u8>, Seq<u8>)>) -> Option<
    Seq<(Seq<char>, Seq<char>)>,
> {
    if forall|i: int| 0 <= i < raw.len() ==> valid_utf8(#[trigger] raw[i].0) && valid_utf8(raw[i].1) {
        Some(Seq::new(raw.len(), |i: int| (decode_utf8(raw[i].0), decode_utf8(raw[i].1))))
    } else {
        None
    }
}

/// The decoded form of a raw token. The bytes of a comment are not looked at.
pub open spec fn decoded_token(raw: RawTokenView) -> Option<TokenView> {
    match raw {
        RawTokenView::Doctype { name } => match decoded(name) {
            Some(name) => Some(TokenView::Doctype { name }),
            None => None,
        },
        RawTokenView::StartTag { name, attributes, self_closing } => match (
            decoded(name),
            decoded_attributes(attributes),
        ) {
            (Some(name), Some(attributes)) => Some(
                TokenView::StartTag { name, attributes, self_closing },
            ),
            _ => None,
        },
        RawTokenView::EndTag { name } => match decoded(name) {
            Some(name) => Some(TokenView::EndTag { name }),
            None => None,
        },
        RawTokenView::Text(text) => match decoded(text) {
            Some(text) => Some(TokenView::Text(text)),
            None => None,
        },
        RawTokenView::Comment(_) => Some(TokenView::Comment),
        RawTokenView::Error(code) => Some(TokenView::Error(code)),
    }
}

/// The tokens that the lexer yields for a source, in order.
pub uninterp spec fn html_tokens(source: Seq<u8>) -> Seq<RawTokenView>;

/// `html5gum::Tokenizer::new` on a byte slice, iterated to its end: the
/// tokens depend on the bytes of `source` alone. The reader of a byte slice
/// cannot fail, so `flatten` drops nothing. Each token is copied field by
/// field, the attributes of a start tag in the order of the map that holds
/// them; an error token keeps the code of `html5gum::Error::as_str`.
#[verifier::external_body]
pub(crate) fn lex(source: &[u8]) -> (tokens: Vec<RawToken>)
    ensures
        tokens.deep_view() == html_tokens(source@),
{
    Tokenizer::new(source).flatten().map(|token| match token {
        HtmlToken::StartTag(tag) => RawToken::StartTag {
            name: tag.name.0,
            attributes: tag.attributes.into_iter().map(|(k, v)| (k.0, v.value.0)).collect(),
            self_closing: tag.self_closing,
        },
        HtmlToken::EndTag(tag) => RawToken::EndTag { name: tag.name.0 },
        HtmlToken::String(text) => RawToken::Text(text.value.0),
        HtmlToken::Comment(text) => RawToken::Comment(text.value.0),
        HtmlToken::Doctype(doctype) => RawToken::Doctype { name: doctype.value.name.0 },
        HtmlToken::Error(error) => RawToken::Error(error.value.as_str().to_string()),
    }).collect()
}

/// `String::from_utf8`: the text that `bytes` encodes, or `None` where
/// they are not UTF-8.
#[verifier::external_body]
fn utf8_text(bytes: Vec<u8>) -> (r: Option<String>)
    ensures
        r is Some <==> valid_utf8(bytes@),
        r matches Some(text) ==> text@ == decode_utf8(bytes@),
{
    String::from_utf8(bytes).ok()
}

/// Decodes a byte string.
pub fn decode(bytes: Vec<u8>) -> (r: Result<String, CompileError>)
    ensures
        match r {
            Ok(text) => decoded(bytes@) == Some(text@),
            Err(e) => decoded(bytes@) is None && e@ == CompileErrorView::InvalidUtf8,
        },
{
    match utf8_text(bytes) {
        Some(text) => Ok(text),
        None => Err(CompileError::InvalidUtf8),
    }
}

/// Decodes the attributes of a start tag, in their order.
pub fn decode_attributes(raw: Vec<(Vec<u8>, Vec<u8>)>) -> (r: Result<
    Vec<(String, String)>,
    CompileError,
>)
    ensures
        match r {
            Ok(attributes) => decoded_attributes(raw.deep_view()) == Some(attributes.deep_view()),
            Err(e) => decoded_attributes(raw.deep_view()) is None && e@
                == CompileErrorView::InvalidUtf8,
        },
{
    let ghost all = raw.deep_view();
    let mut out: Vec<(String, String)> = Vec::new();
    for pair in it: raw
        invariant
            it.seq() == raw@,
            all == raw.deep_view(),
            out@.len() == it.index(),
            forall|j: int|
                0 <= j < it.index() ==> valid_utf8(#[trigger] all[j].0) && valid_utf8(all[j].1),
            forall|j: int|
                0 <= j < it.index() ==> (#[trigger] out@[j]).0@ == decode_utf8(all[j].0)
                    && out@[j].1@ == decode_utf8(all[j].1),
    {
        let ghost k = it.index() as int;
        assert(all[k] == (pair.0@, pair.1@));
        let (name, value) = pair;
        let name = match utf8_text(name) {
            Some(name) => name,
            None => {
                assert(!valid_utf8(all[k].0));
                return Err(CompileError::InvalidUtf8);
            },
        };
        let value = match utf8_text(value) {
            Some(value) => value,
            None => {
                assert(valid_utf8(all[k].0) && !valid_utf8(all[k].1));
                return Err(CompileError::InvalidUtf8);
            },
        };
        out.push((name, value));
    }
    assert(out.deep_view() =~= Seq::new(
        all.len(),
        |i: int| (decode_utf8(all[i].0), decode_utf8(all[i].1)),
    ));
    Ok(out)
}

/// Decodes one token.
pub fn decode_token(raw: RawToken) -> (r: Result<Token, CompileError>)
    ensures
        match r {
            Ok(token) => decoded_token(raw@) == Some(token@),
            Err(e) => decoded_token(raw@) is None && e@ == CompileErrorView::InvalidUtf8,
        },
{
    match raw {
        RawToken::Doctype { name } => {
            let name = decode(name)?;
            Ok(Token::Doctype { name })
        },
        RawToken::StartTag { name, attributes, self_closing } => {
            let name = decode(name)?;
            let attributes = decode_attributes(attributes)?;
            Ok(Token::StartTag { name, attributes, self_closing })
        },
        RawToken::EndTag { name } => {
            let name = decode(name)?;
            Ok(Token::EndTag { name })
        },
        RawToken::Text(text) => {
            let text = decode(text)?;
            Ok(Token::Text(text))
        },
        RawToken::Comment(_) => Ok(Token::Comment),
        RawToken::Error(code) => Ok(Token::Error(code)),
    }
}

} // verus!
