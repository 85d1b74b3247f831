use template_engine::error::AssemblyError;
use template_engine::template::{PathEntry, Route};

fn entry(url: &str, file: &str) -> PathEntry {
    PathEntry { url: Some(url.to_string()), file: Some(file.to_string()) }
}

fn site() -> Route {
    Route { paths: vec![entry("weather", "weather.html"), entry("about", "about.html")] }
}

#[test]
fn a_route_resolves_the_leading_segment() {
    let mut path = "/weather".to_string();
    assert_eq!(site().match_path(&mut path), Ok("weather.html".to_string()));
    assert_eq!(path, "");
}

#[test]
fn a_missing_segment_is_no_match() {
    let mut path = "/missing".to_string();
    assert_eq!(
        site().match_path(&mut path),
        Err(AssemblyError::NoMatch { segment: "missing".to_string(), remainder: "".to_string() })
    );
}

#[test]
fn exactly_one_segment_is_consumed() {
    let mut path = "/about/team/lead".to_string();
    assert_eq!(site().match_path(&mut path), Ok("about.html".to_string()));
    assert_eq!(path, "/team/lead");
}

#[test]
fn the_segment_is_consumed_when_nothing_matches() {
    let mut path = "/nowhere/else".to_string();
    assert_eq!(
        site().match_path(&mut path),
        Err(AssemblyError::NoMatch {
            segment: "nowhere".to_string(),
            remainder: "/else".to_string()
        })
    );
    assert_eq!(path, "/else");
}

#[test]
fn the_first_matching_entry_wins() {
    let route = Route { paths: vec![entry("a", "first.html"), entry("a", "second.html")] };
    let mut path = "/a".to_string();
    assert_eq!(route.match_path(&mut path), Ok("first.html".to_string()));
}

#[test]
fn an_empty_segment_matches_an_empty_url() {
    let route = Route { paths: vec![entry("", "home.html"), entry("a", "a.html")] };
    let mut path = "/".to_string();
    assert_eq!(route.match_path(&mut path), Ok("home.html".to_string()));
    assert_eq!(path, "");
    let mut path = "//a".to_string();
    assert_eq!(route.match_path(&mut path), Ok("home.html".to_string()));
    assert_eq!(path, "/a");
}

#[test]
fn an_entry_without_url_matches_nothing() {
    let route = Route {
        paths: vec![PathEntry { url: None, file: Some("x.html".to_string()) }, entry("a", "a.html")],
    };
    let mut path = "/a".to_string();
    assert_eq!(route.match_path(&mut path), Ok("a.html".to_string()));
    let mut path = "/".to_string();
    assert_eq!(
        route.match_path(&mut path),
        Err(AssemblyError::NoMatch { segment: "".to_string(), remainder: "".to_string() })
    );
}

#[test]
fn a_matching_entry_without_file_is_an_error() {
    let route = Route {
        paths: vec![PathEntry { url: Some("a".to_string()), file: None }, entry("a", "a.html")],
    };
    let mut path = "/a/b".to_string();
    assert_eq!(route.match_path(&mut path), Err(AssemblyError::MissingTarget("a".to_string())));
    assert_eq!(path, "/b");
}

#[test]
fn segments_are_compared_character_by_character() {
    let route = Route { paths: vec![entry("caf\u{e9}", "cafe.html")] };
    let mut path = "/caf\u{e9}/men\u{fc}".to_string();
    assert_eq!(route.match_path(&mut path), Ok("cafe.html".to_string()));
    assert_eq!(path, "/men\u{fc}");
}

#[test]
fn an_empty_route_matches_nothing() {
    let route = Route { paths: vec![] };
    let mut path = "/a".to_string();
    assert_eq!(
        route.match_path(&mut path),
        Err(AssemblyError::NoMatch { segment: "a".to_string(), remainder: "".to_string() })
    );
}

#[test]
fn the_files_of_a_route() {
    let route = Route {
        paths: vec![
            entry("a", "a.html"),
            PathEntry { url: Some("b".to_string()), file: None },
            entry("c", "c.html"),
            entry("d", "a.html"),
        ],
    };
    assert_eq!(route.get_files(), vec!["a.html", "c.html", "a.html"]);
    assert_eq!(Route { paths: vec![] }.get_files(), Vec::<String>::new());
}

#[test]
fn a_routing_failure_is_not_found() {
    let mut path = "/missing".to_string();
    let error = site().match_path(&mut path).unwrap_err();
    assert!(error.is_not_found());
    assert!(!AssemblyError::UnknownTemplate("a.html".to_string()).is_not_found());
    assert!(!AssemblyError::TooDeep.is_not_found());
    assert!(!AssemblyError::MissingTarget("a".to_string()).is_not_found());
}

#[test]
fn a_matched_file_is_among_the_files_of_the_route() {
    let route = site();
    for url in ["/weather", "/about/x"] {
        let mut path = url.to_string();
        let file = route.match_path(&mut path).unwrap();
        assert!(route.get_files().contains(&file));
    }
}
