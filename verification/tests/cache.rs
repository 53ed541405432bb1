use linkpath::cache::{Claim, CrawlError, CrawlerCache};

fn list(links: &[&str]) -> Vec<String> {
    links.iter().map(|link| link.to_string()).collect()
}

#[test]
fn new_cache_holds_nothing() {
    let cache = CrawlerCache::new();
    assert_eq!(cache.get("A"), None);
    assert_eq!(cache.get(""), None);
}

#[test]
fn first_claim_is_told_to_fetch() {
    let mut cache = CrawlerCache::new();
    assert_eq!(cache.claim("A"), Claim::Fetch);
    assert_eq!(cache.get("A"), None);
}

#[test]
fn concurrent_claims_delegate_exactly_once() {
    let mut cache = CrawlerCache::new();
    let mut fetches = 0;
    let mut joins = 0;
    for _ in 0..16 {
        match cache.claim("A") {
            Claim::Fetch => fetches += 1,
            Claim::Join => joins += 1,
            Claim::Cached(_) => panic!("nothing was fetched yet"),
        }
    }
    assert_eq!(fetches, 1);
    assert_eq!(joins, 15);
    let delivered = cache.complete("A", Ok(list(&["B", "C"])));
    assert_eq!(delivered, Ok(list(&["B", "C"])));
    for _ in 0..16 {
        assert_eq!(cache.claim("A"), Claim::Cached(list(&["B", "C"])));
    }
}

#[test]
fn claims_of_other_identifiers_are_independent() {
    let mut cache = CrawlerCache::new();
    assert_eq!(cache.claim("A"), Claim::Fetch);
    assert_eq!(cache.claim("B"), Claim::Fetch);
    assert_eq!(cache.claim("A"), Claim::Join);
    assert_eq!(cache.complete("B", Ok(list(&["A"]))), Ok(list(&["A"])));
    assert_eq!(cache.claim("A"), Claim::Join);
    assert_eq!(cache.claim("B"), Claim::Cached(list(&["A"])));
}

#[test]
fn cached_fetch_is_idempotent() {
    let mut cache = CrawlerCache::new();
    assert_eq!(cache.claim("A"), Claim::Fetch);
    cache.complete("A", Ok(list(&["B", "C", "B"]))).unwrap();
    let first = cache.claim("A");
    let second = cache.claim("A");
    assert_eq!(first, Claim::Cached(list(&["B", "C", "B"])));
    assert_eq!(first, second);
    assert_eq!(cache.get("A"), Some(&list(&["B", "C", "B"])));
}

#[test]
fn cached_entry_never_changes() {
    let mut cache = CrawlerCache::new();
    cache.complete("A", Ok(list(&["B"]))).unwrap();
    assert_eq!(cache.complete("A", Ok(list(&["X", "Y"]))), Ok(list(&["B"])));
    assert_eq!(cache.complete("A", Err(CrawlError::Fetch)), Ok(list(&["B"])));
    assert_eq!(cache.get("A"), Some(&list(&["B"])));
}

#[test]
fn failed_fetch_is_not_cached_and_may_be_retried() {
    let mut cache = CrawlerCache::new();
    assert_eq!(cache.claim("A"), Claim::Fetch);
    assert_eq!(cache.claim("A"), Claim::Join);
    assert_eq!(cache.complete("A", Err(CrawlError::Fetch)), Err(CrawlError::Fetch));
    assert_eq!(cache.get("A"), None);
    assert_eq!(cache.claim("A"), Claim::Fetch);
    assert_eq!(cache.complete("A", Ok(list(&[]))), Ok(list(&[])));
    assert_eq!(cache.claim("A"), Claim::Cached(list(&[])));
}

#[test]
fn parse_failure_is_handed_on_like_a_fetch_failure() {
    let mut cache = CrawlerCache::new();
    assert_eq!(cache.claim("A"), Claim::Fetch);
    assert_eq!(cache.complete("A", Err(CrawlError::Parse)), Err(CrawlError::Parse));
    assert_eq!(cache.get("A"), None);
    assert_eq!(cache.claim("A"), Claim::Fetch);
}

#[test]
fn empty_page_is_cached_as_such() {
    let mut cache = CrawlerCache::new();
    cache.complete("A", Ok(Vec::new())).unwrap();
    assert_eq!(cache.get("A"), Some(&Vec::new()));
    assert_eq!(cache.get("B"), None);
}
