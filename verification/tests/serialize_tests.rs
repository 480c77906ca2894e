use maxtract::{Address, Crawler, Graph};

fn crawl(root: &str, pattern: &str, pages: &[(&str, &str)]) -> Graph {
    let root = Address::parse(root).expect("root must parse");
    let mut crawler = Crawler::new(&root, pattern, None);
    while let Some(target) = crawler.next_target() {
        let body = pages
            .iter()
            .find(|(addr, _)| *addr == target.as_str())
            .map(|(_, body)| *body)
            .unwrap_or_else(|| panic!("no page for {}", target.as_str()));
        assert!(crawler.process_page(body));
    }
    crawler.into_graph()
}

#[test]
fn serialize_single_node() {
    let graph = crawl("https://ex.example/", "x+", &[("https://ex.example/", "xx yx")]);
    assert_eq!(
        graph.serialize(),
        "{\"https://ex.example/\":{\"address\":\"https://ex.example/\",\
         \"matches\":[\"x\",\"xx\"],\"children\":[]}}"
            .to_string()
    );
}

#[test]
fn serialize_orders_entries_by_address() {
    let graph = crawl(
        "https://s.example/",
        "z+",
        &[
            (
                "https://s.example/",
                "<a href=\"/b\">b</a><a href=\"/a\">a</a>",
            ),
            ("https://s.example/a", "zz"),
            ("https://s.example/b", ""),
        ],
    );
    // /b was discovered (and fetched) before /a, yet the serialization is in
    // ascending address order.
    assert_eq!(
        graph.serialize(),
        "{\"https://s.example/\":{\"address\":\"https://s.example/\",\"matches\":[],\
         \"children\":[\"https://s.example/b\",\"https://s.example/a\"]},\
         \"https://s.example/a\":{\"address\":\"https://s.example/a\",\"matches\":[\"zz\"],\
         \"children\":[]},\
         \"https://s.example/b\":{\"address\":\"https://s.example/b\",\"matches\":[],\
         \"children\":[]}}"
            .to_string()
    );
}

#[test]
fn serialize_escapes_special_characters() {
    let graph = crawl(
        "https://esc.example/",
        "\"[a-z]+\"",
        &[("https://esc.example/", "say \"hello\" twice")],
    );
    assert_eq!(
        graph.serialize(),
        "{\"https://esc.example/\":{\"address\":\"https://esc.example/\",\
         \"matches\":[\"\\\"hello\\\"\"],\"children\":[]}}"
            .to_string()
    );
}

#[test]
fn serialize_twice_is_identical() {
    let graph = crawl(
        "https://twice.example/",
        "[a-z]+@[a-z]+\\.com",
        &[(
            "https://twice.example/",
            "<p>bob@mail.com and amy@mail.com</p>",
        )],
    );
    let first = graph.serialize();
    let second = graph.serialize();
    assert_eq!(first, second);
    assert_eq!(
        first,
        "{\"https://twice.example/\":{\"address\":\"https://twice.example/\",\
         \"matches\":[\"amy@mail.com\",\"bob@mail.com\"],\"children\":[]}}"
            .to_string()
    );
}
