use linkpath::cache::CrawlerCache;
use linkpath::frontier::PQEntry;
use linkpath::search::{SearchEngine, SearchStep, PREFETCH_SIZE};

fn site(pages: &[(&str, &[&str])]) -> CrawlerCache {
    let mut cache = CrawlerCache::new();
    for (link, links) in pages {
        let links = links.iter().map(|l| l.to_string()).collect();
        cache.complete(link, Ok(links)).unwrap();
    }
    cache
}

fn path(engine: &SearchEngine, index: usize) -> Vec<String> {
    engine.graph().path_to_root(index)
}

#[test]
fn new_engine_queues_the_root_at_its_distance() {
    let engine = SearchEngine::new("/wiki/kitten", "/wiki/sitting");
    assert_eq!(engine.graph().len(), 1);
    assert_eq!(engine.graph().get(0).link, "/wiki/kitten");
    assert_eq!(engine.graph().get(0).parent, None);
    assert_eq!(engine.frontier().peek_best_n(5), vec![PQEntry { distance: 3, idx: 0 }]);
    assert_eq!(engine.goal(), None);
}

#[test]
fn source_linking_to_target_gives_a_two_node_path() {
    let cache = site(&[("A", &["B", "C"])]);
    let mut engine = SearchEngine::new("A", "C");
    assert_eq!(engine.search(&cache), SearchStep::Found(2));
    assert_eq!(path(&engine, 2), vec!["A".to_string(), "C".to_string()]);
    assert_eq!(engine.goal(), Some(2));
    assert_eq!(engine.graph().depth(2), 1);
    let queued = engine.frontier().peek_best_n(5);
    assert_eq!(queued, vec![PQEntry { distance: 1, idx: 2 }, PQEntry { distance: 2, idx: 1 }]);
}

#[test]
fn target_equal_to_source_is_found_without_expansion() {
    let cache = CrawlerCache::new();
    let mut engine = SearchEngine::new("A", "A");
    assert_eq!(engine.search(&cache), SearchStep::Found(0));
    assert_eq!(path(&engine, 0), vec!["A".to_string()]);
    assert_eq!(engine.graph().len(), 1);
    assert!(engine.frontier().is_empty());
}

#[test]
fn unreachable_target_exhausts_the_search() {
    let cache = site(&[("A", &["B", "C"]), ("B", &["A", "C"]), ("C", &["A"]), ("Z", &["A"])]);
    let mut engine = SearchEngine::new("A", "Z");
    assert_eq!(engine.search(&cache), SearchStep::Exhausted);
    assert_eq!(engine.graph().len(), 3);
    assert!(engine.frontier().is_empty());
    assert_eq!(engine.goal(), None);
    assert!(!engine.graph().contains("Z"));
}

#[test]
fn reachable_target_is_found_through_several_pages() {
    let cache = site(&[
        ("/w/start", &["/w/aaaa", "/w/bbbb"]),
        ("/w/aaaa", &["/w/start", "/w/cccc"]),
        ("/w/bbbb", &["/w/dddd"]),
        ("/w/cccc", &[]),
        ("/w/dddd", &["/w/goal"]),
    ]);
    let mut engine = SearchEngine::new("/w/start", "/w/goal");
    let step = engine.search(&cache);
    let index = match step {
        SearchStep::Found(index) => index,
        other => panic!("expected a path, got {:?}", other),
    };
    assert_eq!(
        path(&engine, index),
        vec![
            "/w/start".to_string(),
            "/w/bbbb".to_string(),
            "/w/dddd".to_string(),
            "/w/goal".to_string()
        ]
    );
}

#[test]
fn found_path_is_a_parent_chain_over_links_of_the_site() {
    let pages: &[(&str, &[&str])] = &[
        ("s", &["a", "b", "c"]),
        ("a", &["d", "s"]),
        ("b", &["e"]),
        ("c", &["a", "f"]),
        ("d", &[]),
        ("e", &["g"]),
        ("f", &["t"]),
        ("g", &["s"]),
    ];
    let cache = site(pages);
    let mut engine = SearchEngine::new("s", "t");
    let index = match engine.search(&cache) {
        SearchStep::Found(index) => index,
        other => panic!("expected a path, got {:?}", other),
    };
    let found = path(&engine, index);
    assert_eq!(found.first().map(String::as_str), Some("s"));
    assert_eq!(found.last().map(String::as_str), Some("t"));
    for pair in found.windows(2) {
        let links = cache.get(&pair[0]).expect("every page on the path is cached");
        assert!(links.contains(&pair[1]));
    }
    let mut at = index;
    for link in found.iter().rev() {
        assert_eq!(&engine.graph().get(at).link, link);
        at = engine.graph().get(at).parent.unwrap_or(0);
    }
}

#[test]
fn links_are_registered_once_and_in_page_order() {
    let cache = site(&[("A", &["B", "A", "C", "B", "D"]), ("B", &[]), ("C", &[]), ("D", &[])]);
    let mut engine = SearchEngine::new("A", "Z");
    assert_eq!(engine.search(&cache), SearchStep::Exhausted);
    let links: Vec<String> =
        (0..engine.graph().len()).map(|i| engine.graph().get(i).link.clone()).collect();
    assert_eq!(links, vec!["A", "B", "C", "D"]);
    for i in 1..engine.graph().len() {
        assert_eq!(engine.graph().get(i).parent, Some(0));
    }
}

#[test]
fn discovery_of_the_target_ends_the_expansion_at_once() {
    let cache = site(&[("A", &["B", "C", "D", "E"])]);
    let mut engine = SearchEngine::new("A", "C");
    assert_eq!(engine.search(&cache), SearchStep::Found(2));
    assert_eq!(engine.graph().len(), 3);
    assert!(!engine.graph().contains("D"));
    assert!(!engine.graph().contains("E"));
}

#[test]
fn missing_page_stops_the_run_until_it_is_cached() {
    let mut cache = site(&[("A", &["B"])]);
    let mut engine = SearchEngine::new("A", "C");
    assert_eq!(engine.search(&cache), SearchStep::Miss(1));
    assert_eq!(engine.graph().get(1).link, "B");
    assert_eq!(engine.frontier().len(), 1);
    assert_eq!(engine.search(&cache), SearchStep::Miss(1));
    cache.complete("B", Ok(vec!["C".to_string()])).unwrap();
    assert_eq!(engine.search(&cache), SearchStep::Found(2));
    assert_eq!(path(&engine, 2), vec!["A".to_string(), "B".to_string(), "C".to_string()]);
}

#[test]
fn search_of_an_empty_cache_misses_the_source() {
    let cache = CrawlerCache::new();
    let mut engine = SearchEngine::new("A", "B");
    assert_eq!(engine.search(&cache), SearchStep::Miss(0));
    assert_eq!(engine.graph().len(), 1);
}

#[test]
fn finished_search_keeps_its_result() {
    let cache = site(&[("A", &["B", "C"])]);
    let mut engine = SearchEngine::new("A", "C");
    assert_eq!(engine.search(&cache), SearchStep::Found(2));
    assert_eq!(engine.search(&cache), SearchStep::Found(2));
    let mut lost = SearchEngine::new("A", "Z");
    let closed = site(&[("A", &[])]);
    assert_eq!(lost.search(&closed), SearchStep::Exhausted);
    assert_eq!(lost.search(&closed), SearchStep::Exhausted);
}

#[test]
fn cheaper_node_is_expanded_first() {
    let cache = site(&[
        ("/start", &["/zzzzzz", "/goat"]),
        ("/goat", &["/goal"]),
        ("/zzzzzz", &["/wwwwww"]),
    ]);
    let mut engine = SearchEngine::new("/start", "/goal");
    assert_eq!(engine.search(&cache), SearchStep::Found(3));
    assert_eq!(path(&engine, 3), vec!["/start", "/goat", "/goal"]);
    assert!(!engine.graph().contains("/wwwwww"));
}

#[test]
fn search_returns_a_path_that_need_not_be_shortest() {
    let cache = site(&[
        ("/s", &["/goax", "/zzzzzzzz"]),
        ("/goax", &["/goay"]),
        ("/goay", &["/goal"]),
        ("/zzzzzzzz", &["/goal"]),
    ]);
    let mut engine = SearchEngine::new("/s", "/goal");
    let index = match engine.search(&cache) {
        SearchStep::Found(index) => index,
        other => panic!("expected a path, got {:?}", other),
    };
    assert_eq!(path(&engine, index), vec!["/s", "/goax", "/goay", "/goal"]);
}

#[test]
fn prefetch_candidates_follow_the_head_of_the_queue() {
    let cache = site(&[("/s", &["/aaaa", "/goax", "/gozz", "/gzzz"])]);
    let mut engine = SearchEngine::new("/s", "/goal");
    assert_eq!(engine.search(&cache), SearchStep::Miss(2));
    assert_eq!(engine.prefetch_candidates(PREFETCH_SIZE), vec!["/gozz", "/gzzz", "/aaaa"]);
    assert_eq!(engine.prefetch_candidates(2), vec!["/gozz", "/gzzz"]);
    assert_eq!(engine.prefetch_candidates(0), Vec::<String>::new());
}

#[test]
fn prefetch_candidates_of_a_short_queue_are_few() {
    let engine = SearchEngine::new("A", "B");
    assert_eq!(engine.prefetch_candidates(PREFETCH_SIZE), Vec::<String>::new());
    let mut done = SearchEngine::new("A", "A");
    done.search(&CrawlerCache::new());
    assert_eq!(done.prefetch_candidates(PREFETCH_SIZE), Vec::<String>::new());
}
