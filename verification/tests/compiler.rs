use template_engine::error::CompileError;
use template_engine::template::{
    find_attribute, is_void_element, PathEntry, Route, Template, TemplatePart,
};
use template_engine::token::{RawToken, Token};

fn content(text: &str) -> TemplatePart {
    TemplatePart::Content(text.to_string())
}

fn content_of(template: &Template) -> String {
    let mut text = String::new();
    for part in template.parts() {
        if let TemplatePart::Content(s) = part {
            text.push_str(s);
        }
    }
    text
}

fn start(name: &str, attributes: &[(&str, &str)], self_closing: bool) -> Token {
    Token::StartTag {
        name: name.to_string(),
        attributes: attributes.iter().map(|(k, v)| (k.to_string(), v.to_string())).collect(),
        self_closing,
    }
}

fn end(name: &str) -> Token {
    Token::EndTag { name: name.to_string() }
}

#[test]
fn balanced_tags_compile_to_their_markup() {
    let template = Template::compile_source(b"<div><span></span></div>").unwrap();
    assert_eq!(content_of(&template), "<div><span></span></div>");
    for part in template.parts() {
        assert!(matches!(part, TemplatePart::Content(_)));
    }
}

#[test]
fn mismatched_end_tag_is_an_error() {
    let result = Template::compile_source(b"<div><span></div>");
    assert_eq!(
        result,
        Err(CompileError::MismatchedEndTag { expected: "span".to_string(), found: "div".to_string() })
    );
}

#[test]
fn head_and_body_get_their_injections() {
    let template = Template::compile_source(b"<head></head><body></body>").unwrap();
    let markers: Vec<&TemplatePart> = template
        .parts()
        .iter()
        .filter(|part| !matches!(part, TemplatePart::Content(_)))
        .collect();
    assert_eq!(markers, vec![&TemplatePart::HeadInjection, &TemplatePart::BodyInjection]);
    assert_eq!(content_of(&template), "<head></head><body></body>");
    assert_eq!(
        template.parts(),
        &vec![
            content(""),
            content("<head"),
            content(">"),
            TemplatePart::HeadInjection,
            content("</head>"),
            content("<body"),
            content(">"),
            TemplatePart::BodyInjection,
            content("</body>"),
        ]
    );
}

#[test]
fn compilation_starts_with_one_empty_content_part() {
    let template = Template::compile(vec![]).unwrap();
    assert_eq!(template.parts(), &vec![content("")]);
}

#[test]
fn doctype_is_rendered() {
    let template = Template::compile(vec![Token::Doctype { name: "html".to_string() }]).unwrap();
    assert_eq!(template.parts(), &vec![content(""), content("<!DOCTYPE html>")]);
    let lexed = Template::compile_source(b"<!DOCTYPE html>").unwrap();
    assert_eq!(lexed.parts(), &vec![content(""), content("<!DOCTYPE html>")]);
}

#[test]
fn text_becomes_one_content_part() {
    let template = Template::compile(vec![Token::Text("hello".to_string())]).unwrap();
    assert_eq!(template.parts(), &vec![content(""), content("hello")]);
}

#[test]
fn comments_emit_nothing() {
    let template = Template::compile(vec![Token::Comment]).unwrap();
    assert_eq!(template.parts(), &vec![content("")]);
    let lexed = Template::compile_source(b"<p><!-- note --></p>").unwrap();
    assert_eq!(content_of(&lexed), "<p></p>");
}

#[test]
fn attributes_are_rendered_in_order_each_after_a_space() {
    let template = Template::compile(vec![
        start("a", &[("class", "big"), ("href", "x.html")], false),
        end("a"),
    ])
    .unwrap();
    assert_eq!(
        template.parts(),
        &vec![
            content(""),
            content("<a"),
            content(" "),
            content("class"),
            content("=\"big\""),
            content(" "),
            content("href"),
            content("=\"x.html\""),
            content(">"),
            content("</a>"),
        ]
    );
    assert_eq!(content_of(&template), "<a class=\"big\" href=\"x.html\"></a>");
}

#[test]
fn an_attribute_without_value_is_rendered_by_its_name() {
    let template =
        Template::compile(vec![start("input", &[("disabled", ""), ("type", "text")], false)]).unwrap();
    assert_eq!(content_of(&template), "<input disabled type=\"text\">");
}

#[test]
fn lexed_attributes_come_in_the_order_of_their_names() {
    let template = Template::compile_source(b"<a href=\"x.html\" class=\"big\"></a>").unwrap();
    assert_eq!(content_of(&template), "<a class=\"big\" href=\"x.html\"></a>");
}

#[test]
fn a_self_closing_tag_is_rendered_with_a_slash_and_closed() {
    let template = Template::compile(vec![start("widget", &[], true)]).unwrap();
    assert_eq!(template.parts(), &vec![content(""), content("<widget"), content("/"), content(">")]);
    assert!(template.parts().len() == 4);
}

#[test]
fn void_elements_need_no_end_tag() {
    let template = Template::compile_source(b"<p><br><img src=\"a.png\"></p>").unwrap();
    assert_eq!(content_of(&template), "<p><br><img src=\"a.png\"></p>");
}

#[test]
fn the_void_elements() {
    for name in [
        "area", "base", "br", "col", "embed", "hr", "img", "input", "link", "meta", "source",
        "track", "wbr", "x-path", "x-embed",
    ] {
        assert!(is_void_element(&name.to_string()), "{}", name);
    }
    for name in ["div", "x-route", "span", "", "BR", "br ", "x-", "script"] {
        assert!(!is_void_element(&name.to_string()), "{}", name);
    }
}

#[test]
fn a_source_attribute_becomes_a_source_part() {
    let template = Template::compile_source(b"<script x-source=\"chart.js\"></script>").unwrap();
    assert_eq!(
        template.parts(),
        &vec![
            content(""),
            content("<script"),
            TemplatePart::Source("chart.js".to_string()),
            content(">"),
            content("</script>"),
        ]
    );
    assert_eq!(content_of(&template), "<script></script>");
}

#[test]
fn an_unknown_directive_attribute_is_dropped() {
    let template =
        Template::compile(vec![start("div", &[("id", "a"), ("x-later", "1")], false), end("div")])
            .unwrap();
    assert_eq!(content_of(&template), "<div id=\"a\"></div>");
    assert_eq!(
        template.ignored_attributes(),
        &vec![("x-later".to_string(), "1".to_string())]
    );
}

#[test]
fn dropped_attributes_are_recorded_in_source_order() {
    let template = Template::compile_source(
        b"<p x-b=\"2\" id=\"i\" x-a><img x-source=\"s.js\" x-c=\"3\"></p><x-embed file=\"f.html\" x-d=\"4\">",
    )
    .unwrap();
    assert_eq!(
        template.ignored_attributes(),
        &vec![
            ("x-a".to_string(), "".to_string()),
            ("x-b".to_string(), "2".to_string()),
            ("x-c".to_string(), "3".to_string()),
        ]
    );
    let plain = Template::compile_source(b"<p id=\"i\" x-source=\"s.js\"></p>").unwrap();
    assert!(plain.ignored_attributes().is_empty());
}

#[test]
fn an_embed_tag_becomes_an_embed_part() {
    let template = Template::compile_source(b"<div><x-embed file=\"nav.html\"></div>").unwrap();
    assert_eq!(
        template.parts(),
        &vec![
            content(""),
            content("<div"),
            content(">"),
            TemplatePart::Embed("nav.html".to_string()),
            content("</div>"),
        ]
    );
}

#[test]
fn an_embed_tag_without_file_is_an_error() {
    assert_eq!(
        Template::compile_source(b"<x-embed src=\"nav.html\">"),
        Err(CompileError::MissingEmbedFile)
    );
    assert_eq!(
        Template::compile(vec![start("x-embed", &[], false)]),
        Err(CompileError::MissingEmbedFile)
    );
}

#[test]
fn a_route_collects_its_entries() {
    let source = b"<x-route><x-path url=\"weather\" file=\"weather.html\"><x-path url=\"about\" file=\"about.html\"></x-route>";
    let template = Template::compile_source(source).unwrap();
    let route = Route {
        paths: vec![
            PathEntry { url: Some("weather".to_string()), file: Some("weather.html".to_string()) },
            PathEntry { url: Some("about".to_string()), file: Some("about.html".to_string()) },
        ],
    };
    assert_eq!(template.parts(), &vec![content(""), TemplatePart::Route(route)]);
}

#[test]
fn a_route_entry_keeps_only_url_and_file() {
    let template = Template::compile(vec![
        start("x-route", &[], false),
        start("x-path", &[("class", "x"), ("file", "a.html")], false),
        start("x-path", &[("url", "b")], true),
        end("x-route"),
    ])
    .unwrap();
    let route = Route {
        paths: vec![
            PathEntry { url: None, file: Some("a.html".to_string()) },
            PathEntry { url: Some("b".to_string()), file: None },
        ],
    };
    assert_eq!(template.parts(), &vec![content(""), TemplatePart::Route(route)]);
}

#[test]
fn a_self_closing_route_is_an_empty_route() {
    let template = Template::compile(vec![start("x-route", &[], true)]).unwrap();
    assert_eq!(template.parts(), &vec![content(""), TemplatePart::Route(Route { paths: vec![] })]);
}

#[test]
fn the_first_attribute_of_a_name_counts() {
    let template = Template::compile(vec![start(
        "x-embed",
        &[("file", "first.html"), ("file", "second.html")],
        false,
    )])
    .unwrap();
    assert_eq!(template.parts(), &vec![content(""), TemplatePart::Embed("first.html".to_string())]);
}

#[test]
fn a_nested_route_is_an_error() {
    assert_eq!(
        Template::compile_source(b"<x-route><x-route></x-route></x-route>"),
        Err(CompileError::NestedRoute)
    );
}

#[test]
fn a_second_route_after_the_first_is_closed_is_fine() {
    let template = Template::compile_source(b"<x-route></x-route><x-route></x-route>").unwrap();
    assert_eq!(
        template.parts(),
        &vec![
            content(""),
            TemplatePart::Route(Route { paths: vec![] }),
            TemplatePart::Route(Route { paths: vec![] }),
        ]
    );
}

#[test]
fn a_route_entry_outside_a_route_is_an_error() {
    assert_eq!(
        Template::compile_source(b"<div><x-path url=\"a\" file=\"a.html\"></div>"),
        Err(CompileError::PathOutsideRoute)
    );
}

#[test]
fn an_end_tag_with_nothing_open_is_an_error() {
    assert_eq!(
        Template::compile_source(b"</div>"),
        Err(CompileError::UnexpectedEndTag("div".to_string()))
    );
}

#[test]
fn an_unclosed_tag_is_an_error() {
    assert_eq!(
        Template::compile_source(b"<div><span></span>"),
        Err(CompileError::UnclosedTag("div".to_string()))
    );
    assert_eq!(
        Template::compile_source(b"<x-route><x-path url=\"a\" file=\"a.html\">"),
        Err(CompileError::UnclosedTag("x-route".to_string()))
    );
}

#[test]
fn a_lexer_error_aborts_with_its_diagnostic() {
    assert_eq!(
        Template::compile(vec![Token::Error("eof-in-tag".to_string())]),
        Err(CompileError::Lexer("eof-in-tag".to_string()))
    );
    assert_eq!(
        Template::compile_source(b"<div a=\"1\" a=\"2\"></div>"),
        Err(CompileError::Lexer("duplicate-attribute".to_string()))
    );
}

#[test]
fn the_first_error_is_reported() {
    assert_eq!(
        Template::compile(vec![
            start("div", &[], false),
            end("span"),
            Token::Error("eof-in-tag".to_string()),
        ]),
        Err(CompileError::MismatchedEndTag { expected: "div".to_string(), found: "span".to_string() })
    );
}

#[test]
fn bytes_that_are_not_utf8_are_an_error() {
    assert_eq!(
        Template::compile_raw(vec![RawToken::Text(vec![0xff, 0xfe])]),
        Err(CompileError::InvalidUtf8)
    );
    assert_eq!(
        Template::compile_raw(vec![RawToken::StartTag {
            name: b"div".to_vec(),
            attributes: vec![(b"id".to_vec(), vec![0xc3])],
            self_closing: false,
        }]),
        Err(CompileError::InvalidUtf8)
    );
    assert_eq!(Template::compile_source(b"<p>\xff</p>"), Err(CompileError::InvalidUtf8));
}

#[test]
fn the_bytes_of_a_comment_are_not_looked_at() {
    let template = Template::compile_raw(vec![RawToken::Comment(vec![0xff])]).unwrap();
    assert_eq!(template.parts(), &vec![content("")]);
}

#[test]
fn raw_tokens_are_decoded_one_by_one() {
    let result = Template::compile_raw(vec![
        RawToken::EndTag { name: b"div".to_vec() },
        RawToken::Text(vec![0xff]),
    ]);
    assert_eq!(result, Err(CompileError::UnexpectedEndTag("div".to_string())));
}

#[test]
fn raw_tokens_compile_like_their_text() {
    let raw = vec![
        RawToken::Doctype { name: b"html".to_vec() },
        RawToken::StartTag {
            name: b"p".to_vec(),
            attributes: vec![("title".as_bytes().to_vec(), "caf\u{e9}".as_bytes().to_vec())],
            self_closing: false,
        },
        RawToken::Text("gr\u{fc}n".as_bytes().to_vec()),
        RawToken::EndTag { name: b"p".to_vec() },
    ];
    let text = vec![
        Token::Doctype { name: "html".to_string() },
        start("p", &[("title", "caf\u{e9}")], false),
        Token::Text("gr\u{fc}n".to_string()),
        end("p"),
    ];
    assert_eq!(Template::compile_raw(raw), Template::compile(text));
}

#[test]
fn directive_end_tags_are_not_rendered() {
    let template = Template::compile(vec![start("x-frame", &[], false), end("x-frame")]).unwrap();
    assert_eq!(template.parts(), &vec![content(""), content("<x-frame"), content(">")]);
}

#[test]
fn an_attribute_is_found_by_its_name() {
    let attributes = vec![
        ("url".to_string(), "a".to_string()),
        ("file".to_string(), "a.html".to_string()),
        ("url".to_string(), "b".to_string()),
        ("".to_string(), "empty".to_string()),
    ];
    assert_eq!(find_attribute(&attributes, "url"), Some("a".to_string()));
    assert_eq!(find_attribute(&attributes, "file"), Some("a.html".to_string()));
    assert_eq!(find_attribute(&attributes, ""), Some("empty".to_string()));
    assert_eq!(find_attribute(&attributes, "File"), None);
    assert_eq!(find_attribute(&vec![], "url"), None);
}

#[test]
fn parts_can_be_copied() {
    let template = Template::compile_source(
        b"<head></head><x-route><x-path url=\"a\" file=\"a.html\"></x-route><x-embed file=\"b.html\"><i x-source=\"c.js\"></i>",
    )
    .unwrap();
    let copies: Vec<TemplatePart> = template.parts().iter().map(|part| part.clone()).collect();
    assert_eq!(&copies, template.parts());
}
