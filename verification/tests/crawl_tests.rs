use maxtract::{Address, Crawler, Graph, Node, PatternType};

/// Drive a crawl to completion, serving each target from `pages`: a list of
/// (address, body) pairs. Panics if an address outside `pages` is requested.
fn crawl(root: &str, pattern: &str, max_depth: Option<usize>, pages: &[(&str, &str)]) -> Graph {
    let root = Address::parse(root).expect("root must parse");
    let mut crawler = Crawler::new(&root, pattern, max_depth);
    while let Some(target) = crawler.next_target() {
        let body = pages
            .iter()
            .find(|(addr, _)| *addr == target.as_str())
            .map(|(_, body)| *body)
            .unwrap_or_else(|| panic!("no page for {}", target.as_str()));
        assert!(crawler.process_page(body));
    }
    crawler.into_graph()
}

fn keys(graph: &Graph) -> Vec<String> {
    graph.iter().iter().map(|n| n.address.to_text()).collect()
}

#[test]
fn three_page_site_scopes_to_domain() {
    // Root links to /a and /b on its own domain and to another domain; /a
    // carries a phone-like string; /b has nothing.
    let phone = PatternType::get_regexp(PatternType::Phone);
    let graph = crawl(
        "https://site.example/",
        &phone,
        None,
        &[
            (
                "https://site.example/",
                "<html><body>\
                 <a href=\"/a\">a</a>\
                 <a href=\"/b\">b</a>\
                 <a href=\"https://other.example/x\">x</a>\
                 </body></html>",
            ),
            ("https://site.example/a", "<p>call 012 345 6789 now</p>"),
            ("https://site.example/b", "<p>nothing here</p>"),
        ],
    );
    assert_eq!(
        keys(&graph),
        vec![
            "https://site.example/".to_string(),
            "https://site.example/a".to_string(),
            "https://site.example/b".to_string(),
        ]
    );
    let root = graph.get(&Address::parse("https://site.example/").unwrap()).unwrap();
    assert!(root.matches.is_empty());
    let a = graph.get(&Address::parse("https://site.example/a").unwrap()).unwrap();
    assert_eq!(a.matches, vec!["012 345 6789".to_string()]);
    let b = graph.get(&Address::parse("https://site.example/b").unwrap()).unwrap();
    assert!(b.matches.is_empty());
    assert!(graph.get(&Address::parse("https://other.example/x").unwrap()).is_none());
}

#[test]
fn two_page_cycle_terminates() {
    // A and B link to each other; the crawl ends with exactly two nodes,
    // each listing the other as its sole child.
    let graph = crawl(
        "https://cycle.example/a",
        "z+",
        None,
        &[
            ("https://cycle.example/a", "<a href=\"/b\">to b</a>"),
            ("https://cycle.example/b", "<a href=\"/a\">to a</a>"),
        ],
    );
    assert_eq!(graph.len(), 2);
    let a = graph.get(&Address::parse("https://cycle.example/a").unwrap()).unwrap();
    let b = graph.get(&Address::parse("https://cycle.example/b").unwrap()).unwrap();
    assert_eq!(a.children.len(), 1);
    assert_eq!(a.children[0].as_str(), "https://cycle.example/b");
    assert_eq!(b.children.len(), 1);
    assert_eq!(b.children[0].as_str(), "https://cycle.example/a");
}

#[test]
fn self_link_fetched_once() {
    let graph = crawl(
        "https://loop.example/",
        "z+",
        None,
        &[("https://loop.example/", "<a href=\"/\">again</a>")],
    );
    assert_eq!(graph.len(), 1);
    let n = graph.get(&Address::parse("https://loop.example/").unwrap()).unwrap();
    assert_eq!(n.children.len(), 1);
    assert_eq!(n.children[0].as_str(), "https://loop.example/");
}

#[test]
fn depth_zero_fetches_only_root() {
    let graph = crawl(
        "https://deep.example/",
        "z+",
        Some(0),
        &[("https://deep.example/", "<a href=\"/next\">next</a>")],
    );
    assert_eq!(graph.len(), 1);
    assert_eq!(keys(&graph), vec!["https://deep.example/".to_string()]);
}

#[test]
fn depth_one_stops_after_first_level() {
    // /far is linked from /near but lies at depth 2: it is never fetched.
    let graph = crawl(
        "https://deep.example/",
        "z+",
        Some(1),
        &[
            ("https://deep.example/", "<a href=\"/near\">near</a>"),
            ("https://deep.example/near", "<a href=\"/far\">far</a>"),
        ],
    );
    assert_eq!(
        keys(&graph),
        vec![
            "https://deep.example/".to_string(),
            "https://deep.example/near".to_string(),
        ]
    );
}

#[test]
fn duplicate_links_fetched_once() {
    let graph = crawl(
        "https://dup.example/",
        "z+",
        None,
        &[
            (
                "https://dup.example/",
                "<a href=\"/a\">one</a><a href=\"/a\">two</a>",
            ),
            ("https://dup.example/a", "<p>leaf</p>"),
        ],
    );
    assert_eq!(graph.len(), 2);
    // The node keeps both occurrences in document order; the engine fetches
    // the address once.
    let root = graph.get(&Address::parse("https://dup.example/").unwrap()).unwrap();
    assert_eq!(root.children.len(), 2);
    assert_eq!(root.children[0].as_str(), "https://dup.example/a");
    assert_eq!(root.children[1].as_str(), "https://dup.example/a");
}

#[test]
fn matches_are_sorted_and_deduplicated() {
    let graph = crawl(
        "https://m.example/",
        "[a-z]+@[a-z]+\\.org",
        None,
        &[(
            "https://m.example/",
            "<p>zed@zed.org then ann@ann.org then zed@zed.org</p>",
        )],
    );
    let n = graph.get(&Address::parse("https://m.example/").unwrap()).unwrap();
    assert_eq!(
        n.matches,
        vec!["ann@ann.org".to_string(), "zed@zed.org".to_string()]
    );
}

#[test]
fn unresolvable_and_foreign_links_are_dropped() {
    let node = Node::new(
        &Address::parse("https://n.example/dir/").unwrap(),
        "z+",
        "<a href=\"ok.html\">ok</a>\
         <a href=\"https://elsewhere.example/\">far</a>\
         <a name=\"no-href\">skip</a>",
    )
    .unwrap();
    assert_eq!(node.address.as_str(), "https://n.example/dir/");
    assert_eq!(node.children.len(), 1);
    assert_eq!(node.children[0].as_str(), "https://n.example/dir/ok.html");
}

#[test]
fn invalid_pattern_is_reported() {
    assert!(!maxtract::pattern_is_valid("("));
    assert!(maxtract::pattern_is_valid("[a-z]+"));
    let root = Address::parse("https://p.example/").unwrap();
    assert!(Node::new(&root, "(", "<p>text</p>").is_none());
    let mut crawler = Crawler::new(&root, "(", None);
    assert!(crawler.next_target().is_some());
    assert!(!crawler.process_page("<p>text</p>"));
}

#[test]
fn empty_frontier_ends_crawl() {
    let root = Address::parse("https://end.example/").unwrap();
    let mut crawler = Crawler::new(&root, "z+", None);
    assert!(!crawler.is_done());
    let target = crawler.next_target().unwrap();
    assert_eq!(target.as_str(), "https://end.example/");
    assert!(crawler.process_page("<p>no links</p>"));
    assert!(crawler.is_done());
    assert!(crawler.next_target().is_none());
}

#[test]
fn builtin_patterns_text() {
    assert_eq!(
        PatternType::get_regexp(PatternType::Phone),
        "\\(\\d{3}\\)\\s?\\d{3}[-.]\\d{4}|\\d{3}[-./\\s]\\d{3}[-.\\s]\\d{4}".to_string()
    );
    assert_eq!(
        PatternType::get_regexp(PatternType::Email),
        "([0-9a-zA-Z]([-.\\w]*[0-9a-zA-Z])*@([0-9a-zA-Z][-\\w]*[0-9a-zA-Z]\\.)+[a-zA-Z]{2,9})"
            .to_string()
    );
    assert_eq!(
        PatternType::get_regexp(PatternType::Regex("child_\\d+")),
        "child_\\d+".to_string()
    );
}

#[test]
fn phone_and_email_patterns_match_expected_forms() {
    let phone = PatternType::get_regexp(PatternType::Phone);
    let email = PatternType::get_regexp(PatternType::Email);
    let combined = format!("{}|{}", phone, email);
    let graph = crawl(
        "https://pe.example/",
        &combined,
        None,
        &[(
            "https://pe.example/",
            "<p>(985) 655-2500 and 123-123-1234 and 123.123.1234 and \
             123/123.1234 and test.email@test.org</p>",
        )],
    );
    let n = graph.get(&Address::parse("https://pe.example/").unwrap()).unwrap();
    assert_eq!(
        n.matches,
        vec![
            "(985) 655-2500".to_string(),
            "123-123-1234".to_string(),
            "123.123.1234".to_string(),
            "123/123.1234".to_string(),
            "test.email@test.org".to_string(),
        ]
    );
}

#[test]
fn breadth_first_fetch_order() {
    // Children are fetched strictly after their whole parent level: the
    // frontier is first-in-first-out, and within one page children are
    // queued in document order.
    let pages: Vec<(&str, &str)> = vec![
        (
            "https://bfs.example/",
            "<a href=\"/b\">b</a><a href=\"/a\">a</a>",
        ),
        ("https://bfs.example/b", "<a href=\"/c\">c</a>"),
        ("https://bfs.example/a", ""),
        ("https://bfs.example/c", ""),
    ];
    let root = Address::parse("https://bfs.example/").unwrap();
    let mut crawler = Crawler::new(&root, "z+", None);
    let mut order: Vec<String> = vec![];
    while let Some(target) = crawler.next_target() {
        order.push(target.to_text());
        let body = pages
            .iter()
            .find(|(addr, _)| *addr == target.as_str())
            .map(|(_, body)| *body)
            .unwrap();
        assert!(crawler.process_page(body));
    }
    assert_eq!(
        order,
        vec![
            "https://bfs.example/".to_string(),
            "https://bfs.example/b".to_string(),
            "https://bfs.example/a".to_string(),
            "https://bfs.example/c".to_string(),
        ]
    );
}
