//! Domain pattern behaviour: parsing, rendering, and suffix matching.

use cluvio_agent::dns::{DnsPattern, HostName, is_valid_hostname, str_eq_nocase};

fn pattern(text: &str) -> DnsPattern {
    DnsPattern::parse(text).expect("valid pattern")
}

#[test]
fn read_show_id() {
    for text in ["*.", "*.example.com", "*.cluvio.com", "*.a.b.c.example", "*.x0-y.org"] {
        let p = pattern(text);
        let shown = p.to_text();
        assert_eq!(shown.as_str(), text);
        let q = pattern(shown.as_str());
        assert_eq!(q.to_text().as_str(), text);
    }
}

#[test]
fn matches_itself() {
    for text in ["*.example.com", "*.cluvio.com", "*.a.b.c.example"] {
        let p = pattern(text);
        let suffix = &text[2..];
        assert!(p.matches(suffix));
    }
}

#[test]
fn matches_domain_with_pattern_as_suffix() {
    let p = pattern("*.example.com");
    for prefix in ["a", "api", "x9", "many.levels.deep", "UPPER"] {
        let domain = format!("{}.example.com", prefix);
        assert!(p.matches(&domain));
    }
    assert!(p.matches("Api.EXAMPLE.Com"));
}

#[test]
fn prefix_needs_to_finish_with_dot() {
    let p = pattern("*.example.com");
    for prefix in ["a", "api", "x9"] {
        let domain = format!("{}example.com", prefix);
        assert!(!p.matches(&domain));
    }
    assert!(!p.matches("foo-example.com"));
}

#[test]
fn empty_pattern_matches_all() {
    let p = DnsPattern::wildcard();
    for domain in ["", "a", "example.com", "deep.sub.example.org"] {
        assert!(p.matches(domain));
    }
}

#[test]
fn hostname_grammar() {
    assert!(is_valid_hostname("example.com"));
    assert!(is_valid_hostname("a.b.c"));
    assert!(is_valid_hostname("xn--bcher-kva.example"));
    assert!(is_valid_hostname("example.com."));
    assert!(is_valid_hostname("under_score.example"));
    assert!(!is_valid_hostname(""));
    assert!(!is_valid_hostname("."));
    assert!(!is_valid_hostname("a..b"));
    assert!(!is_valid_hostname("-leading.example"));
    assert!(!is_valid_hostname("trailing-.example"));
    assert!(!is_valid_hostname("1.2.3.4"));
    assert!(!is_valid_hostname("ex ample.com"));
    let long_label = "a".repeat(64);
    assert!(!is_valid_hostname(&format!("{}.com", long_label)));
    let ok_label = "a".repeat(63);
    assert!(is_valid_hostname(&format!("{}.com", ok_label)));
}

#[test]
fn hostname_case_insensitive_eq() {
    let h = HostName::parse("Db.Example.Com").expect("valid host");
    assert!(h.eq_ignore_case("db.example.com"));
    assert!(h.eq_ignore_case("DB.EXAMPLE.COM"));
    assert!(!h.eq_ignore_case("db.example.org"));
    assert!(str_eq_nocase("AbC", "aBc"));
    assert!(!str_eq_nocase("abc", "abd"));
}
