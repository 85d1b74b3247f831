use template_engine::collection::{SourceFile, TemplateCollection, MAX_DEPTH};
use template_engine::error::{AssemblyError, CompileError, RefreshError};
use template_engine::template::{Template, TemplatePart};

fn file(name: &str, content: &str) -> SourceFile {
    SourceFile { name: name.to_string(), content: content.as_bytes().to_vec() }
}

fn collection(files: &[(&str, &str)]) -> TemplateCollection {
    let mut templates = TemplateCollection::new("templates".to_string(), "boot();".to_string());
    let files: Vec<SourceFile> = files.iter().map(|(n, c)| file(n, c)).collect();
    templates.recompile(1, &files).unwrap();
    templates
}

fn site() -> TemplateCollection {
    collection(&[
        (
            "index.html",
            "<html><head></head><body><x-embed file=\"nav.html\"><x-route><x-path url=\"weather\" file=\"weather.html\"><x-path url=\"about\" file=\"about.html\"></x-route></body></html>",
        ),
        ("nav.html", "<nav>menu</nav>"),
        (
            "weather.html",
            "<h1>Weather</h1><script x-source=\"chart.js\"></script><x-route><x-path url=\"today\" file=\"today.html\"><x-path url=\"\" file=\"today.html\"></x-route>",
        ),
        ("today.html", "<p x-source=\"day.js\">sunny</p>"),
        ("about.html", "<h1>About</h1>"),
    ])
}

fn head(manifest: &str) -> String {
    format!(
        "\n            <script>\n              const sources = {}\n              boot();\n            </script>\n        ",
        manifest
    )
}

const BODY: &str = "<script type=\"module\" src=\"index.js\"></script>";

#[test]
fn a_new_collection_is_empty_with_digest_zero() {
    let templates = TemplateCollection::new("dir".to_string(), String::new());
    assert_eq!(templates.cache_key(), 0);
    assert_eq!(templates.len(), 0);
    assert_eq!(templates.directory(), "dir");
    assert!(templates.get("index.html").is_none());
    assert!(!templates.check(0));
    assert!(templates.check(1));
}

#[test]
fn a_refresh_compiles_every_file_and_stores_the_digest() {
    let templates = site();
    assert_eq!(templates.cache_key(), 1);
    assert_eq!(templates.len(), 5);
    assert!(!templates.check(1));
    assert!(templates.check(2));
    let nav = templates.get("nav.html").unwrap();
    assert_eq!(nav, &Template::compile_source(b"<nav>menu</nav>").unwrap());
    assert!(templates.get("missing.html").is_none());
}

#[test]
fn a_refresh_with_the_stored_digest_changes_nothing() {
    let mut templates = site();
    let other = vec![file("index.html", "<p>other</p>")];
    assert_eq!(templates.recompile(1, &other), Ok(()));
    assert_eq!(templates.cache_key(), 1);
    assert_eq!(templates.len(), 5);
    assert_eq!(templates.get("nav.html"), Some(&Template::compile_source(b"<nav>menu</nav>").unwrap()));
    let broken = vec![file("index.html", "<p>")];
    assert_eq!(templates.recompile(1, &broken), Ok(()));
    assert_eq!(templates.len(), 5);
}

#[test]
fn a_second_refresh_leaves_templates_and_digest_as_they_are() {
    let files = vec![file("index.html", "<p>one</p>"), file("a.html", "<p>a</p>")];
    let mut templates = TemplateCollection::new("dir".to_string(), String::new());
    templates.recompile(42, &files).unwrap();
    let first = templates.get_page("/".to_string());
    templates.recompile(42, &files).unwrap();
    assert_eq!(templates.cache_key(), 42);
    assert_eq!(templates.len(), 2);
    assert_eq!(templates.get_page("/".to_string()), first);
}

#[test]
fn a_refresh_replaces_the_templates_as_a_whole() {
    let mut templates = site();
    let files = vec![file("index.html", "<p>new</p>")];
    templates.recompile(2, &files).unwrap();
    assert_eq!(templates.cache_key(), 2);
    assert_eq!(templates.len(), 1);
    assert!(templates.get("nav.html").is_none());
    assert_eq!(templates.get_page("/".to_string()), Ok("<p>new</p>".to_string()));
}

#[test]
fn a_failed_refresh_leaves_the_collection_as_it_was() {
    let mut templates = site();
    let files = vec![
        file("index.html", "<p>new</p>"),
        file("broken.html", "<div><span></div>"),
        file("worse.html", "</p>"),
    ];
    assert_eq!(
        templates.recompile(2, &files),
        Err(RefreshError {
            file: "broken.html".to_string(),
            error: CompileError::MismatchedEndTag {
                expected: "span".to_string(),
                found: "div".to_string()
            },
        })
    );
    assert_eq!(templates.cache_key(), 1);
    assert_eq!(templates.len(), 5);
    assert!(templates.check(2));
    assert!(templates.get("nav.html").is_some());
}

#[test]
fn a_later_file_replaces_an_earlier_one_of_the_same_name() {
    let templates =
        collection(&[("index.html", "<p>one</p>"), ("a.html", "x"), ("index.html", "<p>two</p>")]);
    assert_eq!(templates.len(), 2);
    assert_eq!(templates.get_page("/".to_string()), Ok("<p>two</p>".to_string()));
}

#[test]
fn installing_templates_replaces_the_collection() {
    let mut templates = site();
    let compiled =
        vec![("index.html".to_string(), Template::compile_source(b"<b>x</b>").unwrap())];
    templates.install(9, compiled);
    assert_eq!(templates.cache_key(), 9);
    assert_eq!(templates.len(), 1);
    assert_eq!(templates.get_page("".to_string()), Ok("<b>x</b>".to_string()));
}

#[test]
fn compile_templates_keeps_the_order_of_the_files() {
    let files = vec![file("b.html", "<p>b</p>"), file("a.html", "<p>a</p>")];
    let compiled = TemplateCollection::compile_templates(&files).unwrap();
    assert_eq!(compiled.len(), 2);
    assert_eq!(compiled[0].0, "b.html");
    assert_eq!(compiled[1].0, "a.html");
    assert_eq!(compiled[1].1, Template::compile_source(b"<p>a</p>").unwrap());
}

#[test]
fn a_page_is_assembled_along_the_path() {
    let templates = site();
    let html = templates.get_page("/weather/today".to_string()).unwrap();
    assert_eq!(
        html,
        format!(
            "<html><head>{}</head><body><nav>menu</nav><h1>Weather</h1><script></script><p>sunny</p>{}</body></html>",
            head("[\"chart.js\",\"day.js\"]"),
            BODY
        )
    );
}

#[test]
fn another_path_gives_another_page() {
    let templates = site();
    let html = templates.get_page("/about".to_string()).unwrap();
    assert_eq!(
        html,
        format!(
            "<html><head>{}</head><body><nav>menu</nav><h1>About</h1>{}</body></html>",
            head("[]"),
            BODY
        )
    );
}

#[test]
fn segments_that_no_route_consumes_are_left_unread() {
    let templates = site();
    assert_eq!(
        templates.get_page("/about/more/and/more".to_string()),
        templates.get_page("/about".to_string())
    );
}

#[test]
fn a_source_is_collected_and_not_rendered() {
    let templates = collection(&[("index.html", "<script x-source=\"chart.js\"></script>")]);
    let page = templates.assemble("/".to_string()).unwrap();
    assert_eq!(page.sources(), &vec!["chart.js"]);
    assert!(page.sources().contains(&"chart.js".to_string()));
    for part in page.parts() {
        match part {
            TemplatePart::Content(text) => {
                assert!(!text.contains("x-source"));
                assert!(!text.contains("chart.js"));
            }
            other => panic!("{:?}", other),
        }
    }
    assert_eq!(page.render(), "<script></script>");
}

#[test]
fn a_page_holds_only_content_and_injections() {
    let templates = site();
    let page = templates.assemble("/weather/today".to_string()).unwrap();
    for part in page.parts() {
        assert!(matches!(
            part,
            TemplatePart::Content(_) | TemplatePart::HeadInjection | TemplatePart::BodyInjection
        ));
    }
    assert_eq!(page.sources(), &vec!["chart.js", "day.js"]);
}

#[test]
fn an_unmatched_segment_is_a_routing_failure() {
    let templates = site();
    let error = templates.get_page("/missing".to_string()).unwrap_err();
    assert_eq!(
        error,
        AssemblyError::NoMatch { segment: "missing".to_string(), remainder: "".to_string() }
    );
    assert!(error.is_not_found());
}

#[test]
fn a_route_met_with_the_path_used_up_is_a_routing_failure() {
    let templates = site();
    assert_eq!(
        templates.get_page("/weather".to_string()),
        Err(AssemblyError::NoMatch { segment: "".to_string(), remainder: "".to_string() })
    );
    assert_eq!(
        templates.get_page("weather".to_string()),
        Err(AssemblyError::NoMatch { segment: "".to_string(), remainder: "weather".to_string() })
    );
}

#[test]
fn a_trailing_separator_is_an_empty_segment() {
    let templates = site();
    assert_eq!(
        templates.get_page("/weather/".to_string()),
        templates.get_page("/weather/today".to_string())
    );
}

#[test]
fn an_unknown_file_is_a_reference_failure() {
    let templates = collection(&[("index.html", "<x-embed file=\"nav.html\">")]);
    let error = templates.get_page("/".to_string()).unwrap_err();
    assert_eq!(error, AssemblyError::UnknownTemplate("nav.html".to_string()));
    assert!(!error.is_not_found());
    let empty = TemplateCollection::new("dir".to_string(), String::new());
    assert_eq!(
        empty.get_page("/".to_string()),
        Err(AssemblyError::UnknownTemplate("index.html".to_string()))
    );
}

#[test]
fn a_route_to_an_unknown_file_is_a_reference_failure() {
    let templates =
        collection(&[("index.html", "<x-route><x-path url=\"a\" file=\"a.html\"></x-route>")]);
    assert_eq!(
        templates.get_page("/a".to_string()),
        Err(AssemblyError::UnknownTemplate("a.html".to_string()))
    );
}

#[test]
fn a_cycle_of_embeds_is_an_error() {
    let templates = collection(&[
        ("index.html", "<p><x-embed file=\"a.html\"></p>"),
        ("a.html", "<x-embed file=\"index.html\">"),
    ]);
    assert_eq!(templates.get_page("/".to_string()), Err(AssemblyError::TooDeep));
    let own = collection(&[("index.html", "<x-embed file=\"index.html\">")]);
    assert_eq!(own.get_page("/".to_string()), Err(AssemblyError::TooDeep));
}

#[test]
fn templates_may_nest_up_to_the_limit() {
    let mut files: Vec<SourceFile> = Vec::new();
    files.push(file("index.html", "<x-embed file=\"f1.html\">"));
    for i in 1..MAX_DEPTH - 1 {
        files.push(file(&format!("f{}.html", i), &format!("<x-embed file=\"f{}.html\">", i + 1)));
    }
    files.push(file(&format!("f{}.html", MAX_DEPTH - 1), "end"));
    let mut templates = TemplateCollection::new("dir".to_string(), String::new());
    templates.recompile(1, &files).unwrap();
    assert_eq!(templates.len(), MAX_DEPTH);
    assert_eq!(templates.get_page("/".to_string()), Ok("end".to_string()));

    let last = files.len() - 1;
    files[last] = file(
        &format!("f{}.html", MAX_DEPTH - 1),
        &format!("<x-embed file=\"f{}.html\">", MAX_DEPTH),
    );
    files.push(file(&format!("f{}.html", MAX_DEPTH), "end"));
    templates.recompile(2, &files).unwrap();
    assert_eq!(templates.get_page("/".to_string()), Err(AssemblyError::TooDeep));
}

#[test]
fn collect_parts_walks_one_file_into_a_page() {
    let templates = site();
    let mut page = template_engine::page::Page::new(String::new());
    let mut path = "/today/rest".to_string();
    templates.collect_parts(&mut path, "weather.html".to_string(), &mut page, 2).unwrap();
    assert_eq!(path, "/rest");
    assert_eq!(page.render(), "<h1>Weather</h1><script></script><p>sunny</p>");
    assert_eq!(page.sources(), &vec!["chart.js", "day.js"]);

    let mut page = template_engine::page::Page::new(String::new());
    let mut path = "/today".to_string();
    assert_eq!(
        templates.collect_parts(&mut path, "weather.html".to_string(), &mut page, 1),
        Err(AssemblyError::TooDeep)
    );
    let mut path = "/today".to_string();
    assert_eq!(
        templates.collect_parts(&mut path, "weather.html".to_string(), &mut page, 0),
        Err(AssemblyError::TooDeep)
    );
}

#[test]
fn resolve_reference_names_the_file_of_a_part() {
    let templates = site();
    let mut path = "/a/b".to_string();
    assert_eq!(
        templates.resolve_reference(&mut path, &TemplatePart::Embed("x.html".to_string())),
        Ok(Some("x.html".to_string()))
    );
    assert_eq!(path, "/a/b");
    assert_eq!(
        templates.resolve_reference(&mut path, &TemplatePart::Content("x".to_string())),
        Ok(None)
    );
    assert_eq!(templates.resolve_reference(&mut path, &TemplatePart::HeadInjection), Ok(None));
    assert_eq!(
        templates.resolve_reference(&mut path, &TemplatePart::Source("x.js".to_string())),
        Ok(None)
    );
    assert_eq!(path, "/a/b");
}

#[test]
fn a_refresh_from_a_listing_follows_the_directory() {
    let listing = vec![(10, "index.html".to_string()), (12, "nav.html".to_string())];
    let shuffled = vec![(12, "nav.html".to_string()), (10, "index.html".to_string())];
    let touched = vec![(13, "nav.html".to_string()), (10, "index.html".to_string())];
    let files = vec![file("index.html", "<x-embed file=\"nav.html\">"), file("nav.html", "one")];
    let edited = vec![file("index.html", "<x-embed file=\"nav.html\">"), file("nav.html", "two")];

    let mut templates = TemplateCollection::new("dir".to_string(), String::new());
    assert!(templates.is_stale(listing.clone()));
    templates.refresh(listing.clone(), &files).unwrap();
    assert!(!templates.is_stale(listing.clone()));
    assert!(!templates.is_stale(shuffled.clone()));
    assert_eq!(templates.get_page("/".to_string()), Ok("one".to_string()));

    let key = templates.cache_key();
    templates.refresh(shuffled, &edited).unwrap();
    assert_eq!(templates.cache_key(), key);
    assert_eq!(templates.get_page("/".to_string()), Ok("one".to_string()));

    assert!(templates.is_stale(touched.clone()));
    templates.refresh(touched, &edited).unwrap();
    assert_ne!(templates.cache_key(), key);
    assert_eq!(templates.get_page("/".to_string()), Ok("two".to_string()));
}
