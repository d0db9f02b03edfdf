use sitemap_archive::discovered::DiscoveredSet;
use sitemap_archive::sitemap::{extract_locs, is_nested_sitemap};

#[test]
fn extracts_locs_in_document_order() {
    let xml = "<urlset><url><loc>https://example.com/a</loc></url><url><loc>https://example.com/b</loc></url></urlset>";
    assert_eq!(extract_locs(xml), vec!["https://example.com/a", "https://example.com/b"]);
}

#[test]
fn no_tags_yield_nothing() {
    assert!(extract_locs("").is_empty());
    assert!(extract_locs("<urlset></urlset>").is_empty());
}

#[test]
fn unclosed_loc_yields_nothing() {
    assert!(extract_locs("<loc>http://example.com/a").is_empty());
    assert!(extract_locs("<urlset><loc>http://example.com/a</urlset>").is_empty());
}

#[test]
fn empty_loc_passes_through() {
    assert_eq!(extract_locs("<loc></loc>"), vec![String::new()]);
}

#[test]
fn unclosed_fragment_is_dropped_but_later_ones_count() {
    assert_eq!(extract_locs("<loc>a<loc>b</loc>"), vec!["b"]);
    assert_eq!(extract_locs("<loc>a</loc><loc>b"), vec!["a"]);
}

#[test]
fn closing_tag_before_any_opening_is_ignored() {
    assert_eq!(extract_locs("x</loc><loc>y</loc>"), vec!["y"]);
}

#[test]
fn surrounding_whitespace_is_trimmed() {
    assert_eq!(extract_locs("<loc>  http://example.com/x  </loc>"), vec!["http://example.com/x"]);
    assert_eq!(extract_locs("<loc>\n\t http://example.com/y\r\n</loc>"), vec!["http://example.com/y"]);
    assert_eq!(extract_locs("<loc>\u{a0}http://example.com/z\u{3000}</loc>"), vec!["http://example.com/z"]);
    assert_eq!(extract_locs("<loc>   </loc>"), vec![String::new()]);
}

#[test]
fn inner_whitespace_is_kept() {
    assert_eq!(extract_locs("<loc> a b </loc>"), vec!["a b"]);
}

#[test]
fn tag_match_is_case_sensitive() {
    assert!(extract_locs("<LOC>http://example.com/a</LOC>").is_empty());
    assert!(extract_locs("<Loc>http://example.com/a</Loc>").is_empty());
}

#[test]
fn non_ascii_text_is_kept_whole() {
    assert_eq!(extract_locs("<loc>https://例え.jp/ページ</loc>"), vec!["https://例え.jp/ページ"]);
}

#[test]
fn xml_suffix_names_a_sitemap() {
    assert!(is_nested_sitemap("https://example.com/sub.xml"));
    assert!(is_nested_sitemap(".xml"));
}

#[test]
fn text_after_xml_suffix_names_a_page() {
    assert!(!is_nested_sitemap("https://example.com/sub.xml?x=1"));
    assert!(!is_nested_sitemap("https://example.com/sub.xml/"));
    assert!(!is_nested_sitemap("https://example.com/sub.XML"));
    assert!(!is_nested_sitemap("xml"));
    assert!(!is_nested_sitemap(""));
    assert!(!is_nested_sitemap("https://example.com/page"));
}

#[test]
fn discovered_set_holds_each_url_once() {
    let mut set = DiscoveredSet::new();
    assert!(set.insert("https://example.com/a".to_string()));
    assert!(!set.insert("https://example.com/a".to_string()));
    assert!(set.insert("https://example.com/a/".to_string()));
    assert!(set.insert("https://example.com/A".to_string()));
    assert_eq!(set.len(), 3);
    assert!(set.contains(&"https://example.com/a".to_string()));
    assert!(!set.contains(&"https://example.com/b".to_string()));
    assert_eq!(set.urls(), vec!["https://example.com/a", "https://example.com/a/", "https://example.com/A"]);
}

#[test]
fn empty_discovered_set() {
    let set = DiscoveredSet::new();
    assert_eq!(set.len(), 0);
    assert!(set.urls().is_empty());
}
