use sitemap_archive::resolver::{Resolver, Step};

/// Drives a resolver over an in-memory site. A missing document ends the run
/// with an error, as a failed fetch does.
fn resolve_offline(seeds: &[&str], site: &[(&str, &str)]) -> Result<Vec<String>, String> {
    let mut resolver = Resolver::new(seeds.iter().map(|s| s.to_string()).collect());
    loop {
        match resolver.step() {
            Step::Fetch(url) => {
                let body = site
                    .iter()
                    .find(|(u, _)| *u == url)
                    .map(|(_, b)| *b)
                    .ok_or(format!("not found: {}", url))?;
                resolver.feed(body);
            }
            Step::Progress => {}
            Step::Cycle(url) => return Err(format!("cycle: {}", url)),
            Step::Done => break,
        }
    }
    let mut urls = resolver.found().urls();
    urls.sort();
    Ok(urls)
}

#[test]
fn end_to_end_seed_with_nested_sitemap() {
    let site = [
        ("https://example.com/sitemap.xml", "<urlset><url><loc>https://example.com/sub.xml</loc></url></urlset>"),
        (
            "https://example.com/sub.xml",
            "<urlset><url><loc>https://example.com/page-1</loc></url><url><loc>https://example.com/page-2</loc></url></urlset>",
        ),
    ];
    let found = resolve_offline(&["https://example.com/sitemap.xml"], &site).unwrap();
    assert_eq!(found, vec!["https://example.com/page-1", "https://example.com/page-2"]);
    assert_eq!(found.len(), 2);
}

#[test]
fn three_level_chain_yields_leaf_pages() {
    let site = [
        ("https://s.test/a.xml", "<sitemapindex><sitemap><loc>https://s.test/b.xml</loc></sitemap></sitemapindex>"),
        ("https://s.test/b.xml", "<sitemapindex><sitemap><loc>https://s.test/c.xml</loc></sitemap></sitemapindex>"),
        ("https://s.test/c.xml", "<urlset><url><loc>https://s.test/p1</loc></url><url><loc>https://s.test/p2</loc></url><url><loc>https://s.test/p3</loc></url></urlset>"),
    ];
    let found = resolve_offline(&["https://s.test/a.xml"], &site).unwrap();
    assert_eq!(found, vec!["https://s.test/p1", "https://s.test/p2", "https://s.test/p3"]);
}

#[test]
fn duplicate_url_in_one_document_is_found_once() {
    let site = [(
        "https://s.test/map.xml",
        "<urlset><url><loc>https://s.test/p</loc></url><url><loc>https://s.test/p</loc></url></urlset>",
    )];
    let found = resolve_offline(&["https://s.test/map.xml"], &site).unwrap();
    assert_eq!(found, vec!["https://s.test/p"]);
}

#[test]
fn duplicates_across_sitemaps_and_seeds_collapse() {
    let site = [
        ("https://s.test/1", "<loc>https://s.test/p</loc><loc>https://s.test/q</loc>"),
        ("https://s.test/2", "<loc>https://s.test/q</loc><loc>https://s.test/r</loc>"),
    ];
    let found = resolve_offline(&["https://s.test/1", "https://s.test/2", "https://s.test/1"], &site).unwrap();
    assert_eq!(found, vec!["https://s.test/p", "https://s.test/q", "https://s.test/r"]);
}

#[test]
fn seed_is_fetched_whatever_its_suffix() {
    let site = [("https://s.test/sitemap_index", "<loc>https://s.test/p</loc>")];
    let found = resolve_offline(&["https://s.test/sitemap_index"], &site).unwrap();
    assert_eq!(found, vec!["https://s.test/p"]);
}

#[test]
fn query_after_xml_is_recorded_as_page() {
    let site = [("https://s.test/m.xml", "<loc>https://s.test/feed.xml?x=1</loc>")];
    let found = resolve_offline(&["https://s.test/m.xml"], &site).unwrap();
    assert_eq!(found, vec!["https://s.test/feed.xml?x=1"]);
}

#[test]
fn leaf_named_xml_is_walked_as_index() {
    let site = [
        ("https://s.test/m.xml", "<loc>https://s.test/leaf.xml</loc>"),
        ("https://s.test/leaf.xml", "<urlset><url><loc>https://s.test/pages.xml</loc></url></urlset>"),
        ("https://s.test/pages.xml", "<urlset></urlset>"),
    ];
    let found = resolve_offline(&["https://s.test/m.xml"], &site).unwrap();
    assert!(found.is_empty());
}

#[test]
fn no_seeds_resolve_to_nothing() {
    let found = resolve_offline(&[], &[]).unwrap();
    assert!(found.is_empty());
}

#[test]
fn failed_fetch_aborts_resolution() {
    let site = [("https://s.test/m.xml", "<loc>https://s.test/p</loc><loc>https://s.test/gone.xml</loc>")];
    let err = resolve_offline(&["https://s.test/m.xml"], &site).unwrap_err();
    assert_eq!(err, "not found: https://s.test/gone.xml");
}

#[test]
fn self_reference_is_reported_as_cycle() {
    let site = [("https://s.test/m.xml", "<loc>https://s.test/m.xml</loc>")];
    let err = resolve_offline(&["https://s.test/m.xml"], &site).unwrap_err();
    assert_eq!(err, "cycle: https://s.test/m.xml");
}

#[test]
fn mutual_reference_is_reported_as_cycle() {
    let site = [
        ("https://s.test/a.xml", "<loc>https://s.test/b.xml</loc>"),
        ("https://s.test/b.xml", "<loc>https://s.test/a.xml</loc>"),
    ];
    let err = resolve_offline(&["https://s.test/a.xml"], &site).unwrap_err();
    assert_eq!(err, "cycle: https://s.test/a.xml");
}

#[test]
fn shared_child_is_no_cycle() {
    let site = [
        ("https://s.test/a.xml", "<loc>https://s.test/c.xml</loc><loc>https://s.test/c.xml</loc>"),
        ("https://s.test/c.xml", "<loc>https://s.test/p</loc>"),
    ];
    let found = resolve_offline(&["https://s.test/a.xml"], &site).unwrap();
    assert_eq!(found, vec!["https://s.test/p"]);
}

#[test]
fn step_sequence_follows_document_order() {
    let mut r = Resolver::new(vec!["https://s.test/m.xml".to_string()]);
    assert!(!r.is_waiting());
    assert!(matches!(r.step(), Step::Fetch(u) if u == "https://s.test/m.xml"));
    assert!(r.is_waiting());
    r.feed("<loc>https://s.test/p</loc><loc>https://s.test/n.xml</loc>");
    assert!(!r.is_waiting());
    assert!(matches!(r.step(), Step::Progress));
    assert_eq!(r.found().len(), 1);
    assert!(matches!(r.step(), Step::Fetch(u) if u == "https://s.test/n.xml"));
    r.feed("");
    assert!(matches!(r.step(), Step::Progress));
    assert!(matches!(r.step(), Step::Progress));
    assert!(matches!(r.step(), Step::Done));
    assert!(matches!(r.step(), Step::Done));
}
