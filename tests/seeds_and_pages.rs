use sitemap_archive::archive::{document_path, page_path, MAX_SLUG_LEN, OUTPUT_DIR};
use sitemap_archive::robots::{robots_url, sitemap_urls};

#[test]
fn robots_url_joins_domain() {
    assert_eq!(robots_url("https://www.heygoody.com"), "https://www.heygoody.com/robots.txt");
    assert_eq!(robots_url("https://www.heygoody.com/"), "https://www.heygoody.com/robots.txt");
    assert_eq!(robots_url("https://example.com///"), "https://example.com/robots.txt");
    assert_eq!(robots_url(""), "/robots.txt");
}

#[test]
fn sitemap_directives_in_any_case() {
    let robots = "User-agent: *\nSitemap: https://a.test/s.xml\r\nsitemap:  https://b.test/t.xml \nDisallow: /x\nSITEMAP:https://c.test/u.xml";
    assert_eq!(
        sitemap_urls(robots),
        vec!["https://a.test/s.xml", "https://b.test/t.xml", "https://c.test/u.xml"]
    );
}

#[test]
fn lines_without_directive_are_ignored() {
    assert!(sitemap_urls("").is_empty());
    assert!(sitemap_urls("User-agent: *\nDisallow:\n").is_empty());
    assert!(sitemap_urls(" Sitemap: https://a.test/s.xml").is_empty());
    assert!(sitemap_urls("Sitemap https://a.test/s.xml").is_empty());
}

#[test]
fn empty_directive_value_is_kept() {
    assert_eq!(sitemap_urls("Sitemap:\n"), vec![String::new()]);
}

#[test]
fn document_path_under_output_dir() {
    assert_eq!(document_path("abc"), "output/abc.md");
    assert_eq!(document_path(""), "output/.md");
    assert_eq!(OUTPUT_DIR, "output");
}

#[test]
fn page_path_comes_from_url_slug() {
    assert_eq!(page_path("https://example.com/Page One"), "output/https-example-com-page-one.md");
}

#[test]
fn page_path_names_a_file_inside_output_dir() {
    let path = page_path("https://example.com/a/b/c?q=1&r=x/y#frag");
    let slug = path.strip_prefix("output/").unwrap().strip_suffix(".md").unwrap();
    assert!(!slug.is_empty());
    assert!(!slug.contains('/'));
    assert!(slug.chars().all(|c| c.is_ascii_lowercase() || c.is_ascii_digit() || c == '-'));
}

#[test]
fn long_url_slug_is_bounded() {
    let url = format!("https://example.com/{}", "segment-".repeat(40));
    let path = page_path(&url);
    let slug = path.strip_prefix("output/").unwrap().strip_suffix(".md").unwrap();
    assert!(slug.len() <= MAX_SLUG_LEN);
    assert!(slug.starts_with("https-example-com-segment"));
    assert!(!slug.ends_with('-'));
}
