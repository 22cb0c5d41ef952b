use krtk::record::{AttrValue, Item};
use krtk::store::UrlShortener;

fn row(id: &str, ts: i64) -> Item {
    Item {
        link_id: id.to_string(),
        original_link: Some(AttrValue::S(format!("https://{id}.com"))),
        clicks: Some(AttrValue::N("0".to_string())),
        title: None,
        description: None,
        content_type: None,
        image: None,
        timestamp: Some(AttrValue::N(ts.to_string())),
    }
}

#[test]
fn twelve_records_page_newest_first_without_gaps() {
    let mut store = UrlShortener::new();
    for i in 0..12i64 {
        store.create(row(&format!("id{i:02}"), 1000 + i)).unwrap();
    }
    let mut seen: Vec<(String, i64)> = Vec::new();
    let mut cursor: Option<(String, String)> = None;
    let mut pages = 0;
    loop {
        let page = match &cursor {
            None => store.list_urls(None, None).unwrap(),
            Some((id, ts)) => store
                .list_urls(Some(id.as_str()), Some(ts.as_str()))
                .unwrap(),
        };
        pages += 1;
        for u in &page.short_urls {
            seen.push((u.link_id.clone(), u.timestamp));
        }
        assert_eq!(page.has_more, page.last_evaluated_id.is_some());
        assert_eq!(page.has_more, page.last_evaluated_timestamp.is_some());
        match (page.last_evaluated_id, page.last_evaluated_timestamp) {
            (Some(id), Some(ts)) => cursor = Some((id, ts)),
            _ => break,
        }
        assert!(pages < 10, "pagination should terminate");
    }
    assert_eq!(pages, 3);
    assert_eq!(seen.len(), 12);
    for w in seen.windows(2) {
        assert!(w[0].1 > w[1].1, "timestamps must strictly decrease");
    }
    let mut ids: Vec<String> = seen.iter().map(|p| p.0.clone()).collect();
    ids.sort();
    ids.dedup();
    assert_eq!(ids.len(), 12, "no duplicates and no omissions");
}

#[test]
fn page_size_is_five_and_cursor_is_last_record() {
    let mut store = UrlShortener::new();
    for i in 0..7i64 {
        store.create(row(&format!("id{i}"), 100 + i)).unwrap();
    }
    let page = store.list_urls(None, None).unwrap();
    assert_eq!(page.short_urls.len(), 5);
    assert!(page.has_more);
    let last = page.short_urls.last().unwrap();
    assert_eq!(page.last_evaluated_id.as_deref(), Some(last.link_id.as_str()));
    assert_eq!(
        page.last_evaluated_timestamp.as_deref(),
        Some(last.timestamp.to_string().as_str())
    );
}

#[test]
fn exact_multiple_of_page_size_signals_more() {
    let mut store = UrlShortener::new();
    for i in 0..5i64 {
        store.create(row(&format!("id{i}"), 100 + i)).unwrap();
    }
    let page = store.list_urls(None, None).unwrap();
    assert_eq!(page.short_urls.len(), 5);
    assert!(!page.has_more);
    assert!(page.last_evaluated_id.is_none());
}

#[test]
fn equal_timestamps_order_by_descending_id() {
    let mut store = UrlShortener::new();
    store.create(row("aa", 100)).unwrap();
    store.create(row("zz", 100)).unwrap();
    store.create(row("mm", 100)).unwrap();
    let page = store.list_urls(None, None).unwrap();
    let ids: Vec<&str> = page.short_urls.iter().map(|u| u.link_id.as_str()).collect();
    assert_eq!(ids, ["zz", "mm", "aa"]);
}

#[test]
fn malformed_rows_are_skipped_not_reported() {
    let mut store = UrlShortener::new();
    store.create(row("good1", 300)).unwrap();
    let mut broken = row("broken", 200);
    broken.clicks = Some(AttrValue::N("not-a-number".to_string()));
    store.create(broken).unwrap();
    store.create(row("good2", 100)).unwrap();
    let page = store.list_urls(None, None).unwrap();
    let ids: Vec<&str> = page.short_urls.iter().map(|u| u.link_id.as_str()).collect();
    assert_eq!(ids, ["good1", "good2"]);
    assert!(!page.has_more);
}

#[test]
fn page_limit_counts_rows_before_parsing() {
    let mut store = UrlShortener::new();
    for i in 0..6i64 {
        let mut item = row(&format!("id{i}"), 100 + i);
        if i == 3 {
            item.original_link = None;
        }
        store.create(item).unwrap();
    }
    let page = store.list_urls(None, None).unwrap();
    let ids: Vec<&str> = page.short_urls.iter().map(|u| u.link_id.as_str()).collect();
    assert_eq!(ids, ["id5", "id4", "id2", "id1"]);
    assert!(page.has_more);
    assert_eq!(page.last_evaluated_id.as_deref(), Some("id1"));
    let rest = store
        .list_urls(
            page.last_evaluated_id.as_deref(),
            page.last_evaluated_timestamp.as_deref(),
        )
        .unwrap();
    let rest_ids: Vec<&str> = rest.short_urls.iter().map(|u| u.link_id.as_str()).collect();
    assert_eq!(rest_ids, ["id0"]);
    assert!(!rest.has_more);
}

#[test]
fn rows_without_timestamp_are_not_indexed() {
    let mut store = UrlShortener::new();
    let mut unstamped = row("ghost", 0);
    unstamped.timestamp = None;
    store.create(unstamped).unwrap();
    store.create(row("real", 10)).unwrap();
    let page = store.list_urls(None, None).unwrap();
    let ids: Vec<&str> = page.short_urls.iter().map(|u| u.link_id.as_str()).collect();
    assert_eq!(ids, ["real"]);
    assert_eq!(
        store.retrieve_url_and_increment_count("ghost").unwrap(),
        Some("https://ghost.com".to_string())
    );
}

#[test]
fn partial_cursor_means_no_cursor() {
    let mut store = UrlShortener::new();
    for i in 0..3i64 {
        store.create(row(&format!("id{i}"), 100 + i)).unwrap();
    }
    let full = store.list_urls(None, None).unwrap();
    let id_only = store.list_urls(Some("id1"), None).unwrap();
    let ts_only = store.list_urls(None, Some("101")).unwrap();
    let full_ids: Vec<String> = full.short_urls.iter().map(|u| u.link_id.clone()).collect();
    let id_only_ids: Vec<String> =
        id_only.short_urls.iter().map(|u| u.link_id.clone()).collect();
    let ts_only_ids: Vec<String> =
        ts_only.short_urls.iter().map(|u| u.link_id.clone()).collect();
    assert_eq!(full_ids, id_only_ids);
    assert_eq!(full_ids, ts_only_ids);
}

#[test]
fn unparseable_cursor_timestamp_is_an_error() {
    let store = UrlShortener::new();
    assert!(store.list_urls(Some("id1"), Some("soon")).is_err());
}

#[test]
fn cursor_position_works_without_the_named_record() {
    let mut store = UrlShortener::new();
    store.create(row("a", 100)).unwrap();
    store.create(row("b", 200)).unwrap();
    store.create(row("c", 300)).unwrap();
    let page = store.list_urls(Some("never-stored"), Some("250")).unwrap();
    let ids: Vec<&str> = page.short_urls.iter().map(|u| u.link_id.as_str()).collect();
    assert_eq!(ids, ["b", "a"]);
}
