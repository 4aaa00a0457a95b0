use smart_proxy::config_file::ConfigLoader;
use smart_proxy::outcome::RoutingError;
use smart_proxy::outcome::OutboundOutcome;
use smart_proxy::router::{destination_uris, invalid_destination, to_uri, ProxyRouter};
use smart_proxy::routes::{Config, HashMapConfig};
use smart_proxy::text::is_space_char;

fn chars(s: &str) -> Vec<char> {
    s.chars().collect()
}

fn strings(v: &[&str]) -> Vec<String> {
    v.iter().map(|s| s.to_string()).collect()
}

#[test]
fn table_add_and_get() {
    let mut c = HashMapConfig::new();
    c.add_dests("/a".to_string(), strings(&["http://x/a", "http://y/a"]));
    assert_eq!(c.get_dests(&"/a".to_string()), Some(&strings(&["http://x/a", "http://y/a"])));
    assert_eq!(c.get_dests(&"/b".to_string()), None);
}

#[test]
fn table_replaces_earlier_destinations() {
    let mut c = HashMapConfig::default();
    c.add_dests("/a".to_string(), strings(&["http://x/1"]));
    c.add_dests("/b".to_string(), strings(&["http://x/2"]));
    c.add_dests("/a".to_string(), strings(&["http://x/3", "http://y/3"]));
    assert_eq!(c.get_dests(&"/a".to_string()), Some(&strings(&["http://x/3", "http://y/3"])));
    assert_eq!(c.get_dests(&"/b".to_string()), Some(&strings(&["http://x/2"])));
}

#[test]
fn parse_line_well_formed() {
    let r = ConfigLoader::parse_line(&chars("  /foo/bar ->  https://h:9090/foo/bar , https://g:9898/foo/bar  "));
    assert_eq!(
        r,
        Some(("/foo/bar".to_string(), strings(&["https://h:9090/foo/bar", "https://g:9898/foo/bar"])))
    );
}

#[test]
fn parse_line_single_destination() {
    let r = ConfigLoader::parse_line(&chars("/p->http://one/p"));
    assert_eq!(r, Some(("/p".to_string(), strings(&["http://one/p"]))));
}

#[test]
fn parse_line_missing_arrow() {
    assert_eq!(ConfigLoader::parse_line(&chars("/foo http://x/foo")), None);
    assert_eq!(ConfigLoader::parse_line(&chars("")), None);
    assert_eq!(ConfigLoader::parse_line(&chars("/foo - > http://x")), None);
}

#[test]
fn parse_line_two_arrows() {
    assert_eq!(ConfigLoader::parse_line(&chars("/a -> /b -> http://x")), None);
}

#[test]
fn parse_line_empty_destination_list() {
    assert_eq!(ConfigLoader::parse_line(&chars("/a ->")), None);
    assert_eq!(ConfigLoader::parse_line(&chars("/a ->   ")), None);
    assert_eq!(ConfigLoader::parse_line(&chars("/a -> \t\r")), None);
}

#[test]
fn parse_line_keeps_empty_items_of_a_non_empty_list() {
    assert_eq!(
        ConfigLoader::parse_line(&chars("/a -> http://x, ,http://y")),
        Some(("/a".to_string(), strings(&["http://x", "", "http://y"])))
    );
    assert_eq!(
        ConfigLoader::parse_line(&chars("/a -> http://x,")),
        Some(("/a".to_string(), strings(&["http://x", ""])))
    );
    assert_eq!(
        ConfigLoader::parse_line(&chars("/a -> ,")),
        Some(("/a".to_string(), strings(&["", ""])))
    );
}

#[test]
fn load_keeps_line_with_trailing_comma() {
    let c = ConfigLoader::load_from_str("/p -> b,\n");
    assert_eq!(c.get_dests(&"/p".to_string()), Some(&strings(&["b", ""])));
    let router = ProxyRouter::new(c);
    assert_eq!(router.resolve(&"/p".to_string()), Ok(strings(&["b", ""])));
}

#[test]
fn parse_line_dash_before_arrow() {
    let r = ConfigLoader::parse_line(&chars("/a-->http://x"));
    assert_eq!(r, Some(("/a-".to_string(), strings(&["http://x"]))));
}

#[test]
fn parse_line_unicode_space_trimmed() {
    let r = ConfigLoader::parse_line(&chars("\u{3000}/a\u{a0}->\thttp://x\u{2003}"));
    assert_eq!(r, Some(("/a".to_string(), strings(&["http://x"]))));
}

#[test]
fn space_characters() {
    for c in [' ', '\t', '\n', '\r', '\u{b}', '\u{c}', '\u{85}', '\u{a0}', '\u{1680}', '\u{2000}', '\u{200a}', '\u{2028}', '\u{2029}', '\u{202f}', '\u{205f}', '\u{3000}'] {
        assert!(is_space_char(c), "{:?}", c);
        assert_eq!(is_space_char(c), c.is_whitespace());
    }
    for c in ['a', '-', '>', ',', '\u{200b}', '\u{feff}', '\u{0}'] {
        assert!(!is_space_char(c), "{:?}", c);
        assert_eq!(is_space_char(c), c.is_whitespace());
    }
}

#[test]
fn load_keeps_file_order_and_last_wins() {
    let text = "/a -> http://p/a, http://s/a\n/b -> http://p/b\n/a -> http://q/a, http://r/a, http://t/a\n";
    let c = ConfigLoader::load_from_str(text);
    assert_eq!(
        c.get_dests(&"/a".to_string()),
        Some(&strings(&["http://q/a", "http://r/a", "http://t/a"]))
    );
    assert_eq!(c.get_dests(&"/b".to_string()), Some(&strings(&["http://p/b"])));
}

#[test]
fn load_skips_malformed_lines() {
    let text = "garbage line\n/a -> http://p/a\n/b ->\n/c -> x -> y\n\n/d -> http://p/d, http://s/d";
    let c = ConfigLoader::load_from_str(text);
    assert_eq!(c.get_dests(&"/a".to_string()), Some(&strings(&["http://p/a"])));
    assert_eq!(c.get_dests(&"/b".to_string()), None);
    assert_eq!(c.get_dests(&"/c".to_string()), None);
    assert_eq!(c.get_dests(&"garbage line".to_string()), None);
    assert_eq!(c.get_dests(&"/d".to_string()), Some(&strings(&["http://p/d", "http://s/d"])));
}

#[test]
fn load_crlf_lines() {
    let c = ConfigLoader::load_from_str("/a -> http://p/a, http://s/a\r\n/b -> http://p/b\r\n");
    assert_eq!(c.get_dests(&"/a".to_string()), Some(&strings(&["http://p/a", "http://s/a"])));
    assert_eq!(c.get_dests(&"/b".to_string()), Some(&strings(&["http://p/b"])));
}

#[test]
fn load_empty_text() {
    let c = ConfigLoader::load_from_str("");
    assert_eq!(c.get_dests(&"".to_string()), None);
}

#[test]
fn resolve_configured_route() {
    let router = ProxyRouter::new(ConfigLoader::load_from_str("/a -> http://p/a, http://s/a"));
    assert_eq!(router.resolve(&"/a".to_string()), Ok(strings(&["http://p/a", "http://s/a"])));
}

#[test]
fn resolve_unconfigured_route() {
    let router = ProxyRouter::new(ConfigLoader::load_from_str("/a -> http://p/a"));
    assert_eq!(router.resolve(&"/b".to_string()), Err(RoutingError::RouteNotFound));
    assert_eq!(router.resolve(&"/a/".to_string()), Err(RoutingError::RouteNotFound));
}

#[test]
fn resolve_empty_route_is_not_found() {
    let mut c = HashMapConfig::new();
    c.add_dests("/e".to_string(), Vec::new());
    let router = ProxyRouter::new(c);
    assert_eq!(router.resolve(&"/e".to_string()), Err(RoutingError::RouteNotFound));
}

#[test]
fn uri_of_destination() {
    let u = to_uri(&"http://localhost:9090/foo/bar".to_string()).unwrap();
    assert_eq!(u.host(), Some("localhost"));
    assert_eq!(u.port_u16(), Some(9090));
    assert_eq!(u.path(), "/foo/bar");
    assert!(to_uri(&"http://bad host/".to_string()).is_none());
    assert!(to_uri(&"".to_string()).is_none());
}

#[test]
fn uris_in_destination_order() {
    let us = destination_uris(&strings(&["http://a/1", "not a uri", "http://b/2"]));
    assert_eq!(us.len(), 3);
    assert_eq!(us[0].as_ref().unwrap().host(), Some("a"));
    assert!(us[1].is_none());
    assert_eq!(us[2].as_ref().unwrap().path(), "/2");
}

#[test]
fn uri_is_the_parse_of_its_destination() {
    let text = "http://h:81/a?b=c";
    assert_eq!(to_uri(&text.to_string()), Some(text.parse::<http::Uri>().unwrap()));
    let us = destination_uris(&strings(&["http://a/1", "http://b/2"]));
    assert_eq!(us[0], Some("http://a/1".parse::<http::Uri>().unwrap()));
    assert_eq!(us[1], Some("http://b/2".parse::<http::Uri>().unwrap()));
}

#[test]
fn invalid_destination_is_an_upstream_error() {
    match invalid_destination(&"bad host".to_string()) {
        OutboundOutcome::UpstreamError(m) => assert_eq!(m, "invalid destination uri bad host"),
        other => panic!("unexpected {:?}", other),
    }
}
