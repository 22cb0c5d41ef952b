use krtk::record::{AttrValue, Item, ShortUrl};
use krtk::store::{CreateError, UrlShortener};
use krtk::url_info::UrlDetails;
use krtk::urls::ShortenUrlRequest;

fn plain_item(id: &str, url: &str, clicks: &str, ts: &str) -> Item {
    Item {
        link_id: id.to_string(),
        original_link: Some(AttrValue::S(url.to_string())),
        clicks: Some(AttrValue::N(clicks.to_string())),
        title: None,
        description: None,
        content_type: None,
        image: None,
        timestamp: Some(AttrValue::N(ts.to_string())),
    }
}

fn clicks_of(store: &UrlShortener, id: &str) -> u32 {
    let page = store.list_urls(None, None).unwrap();
    page.short_urls
        .iter()
        .find(|u| u.link_id == id)
        .expect("record should be listed")
        .clicks
}

#[test]
fn create_then_same_id_is_rejected_and_unchanged() {
    let mut store = UrlShortener::new();
    assert!(store.create(plain_item("abc", "https://a.com", "0", "100")).is_ok());
    let second = plain_item("abc", "https://b.com", "0", "200");
    assert!(matches!(
        store.create(second),
        Err(CreateError::AlreadyExists)
    ));
    let url = store.retrieve_url_and_increment_count("abc").unwrap();
    assert_eq!(url, Some("https://a.com".to_string()));
}

#[test]
fn repeated_visits_count_exactly() {
    let mut store = UrlShortener::new();
    store.create(plain_item("abc", "https://a.com", "0", "100")).unwrap();
    for _ in 0..4 {
        let url = store.retrieve_url_and_increment_count("abc").unwrap();
        assert_eq!(url, Some("https://a.com".to_string()));
    }
    assert_eq!(clicks_of(&store, "abc"), 4);
}

#[test]
fn unknown_id_resolves_to_none_and_stays_free() {
    let mut store = UrlShortener::new();
    store.create(plain_item("abc", "https://a.com", "0", "100")).unwrap();
    assert_eq!(store.retrieve_url_and_increment_count("nope").unwrap(), None);
    assert!(store.create(plain_item("nope", "https://n.com", "0", "50")).is_ok());
    assert_eq!(
        store.retrieve_url_and_increment_count("nope").unwrap(),
        Some("https://n.com".to_string())
    );
}

#[test]
fn malformed_counter_is_an_error_and_writes_nothing() {
    let mut store = UrlShortener::new();
    store.create(plain_item("bad", "https://a.com", "zero", "100")).unwrap();
    assert!(store.retrieve_url_and_increment_count("bad").is_err());
    let page = store.list_urls(None, None).unwrap();
    assert!(page.short_urls.is_empty());
}

#[test]
fn try_from_reads_a_full_row() {
    let mut item = plain_item("abc", "https://a.com", "7", "123");
    item.title = Some(AttrValue::S("T".to_string()));
    item.description = Some(AttrValue::S("D".to_string()));
    item.content_type = Some(AttrValue::S("text/html".to_string()));
    item.image = Some(AttrValue::S("https://a.com/i.png".to_string()));
    let u = ShortUrl::try_from(&item).unwrap();
    assert_eq!(u.link_id, "abc");
    assert_eq!(u.original_link, "https://a.com");
    assert_eq!(u.clicks, 7);
    assert_eq!(u.title.as_deref(), Some("T"));
    assert_eq!(u.description.as_deref(), Some("D"));
    assert_eq!(u.content_type.as_deref(), Some("text/html"));
    assert_eq!(u.image.as_deref(), Some("https://a.com/i.png"));
    assert_eq!(u.timestamp, 123);
}

#[test]
fn try_from_reports_missing_and_malformed_attributes() {
    let mut item = plain_item("abc", "https://a.com", "0", "1");
    item.original_link = None;
    assert_eq!(
        ShortUrl::try_from(&item).unwrap_err(),
        "OriginalLink not found"
    );
    let mut item = plain_item("abc", "https://a.com", "0", "1");
    item.clicks = Some(AttrValue::N("many".to_string()));
    assert_eq!(
        ShortUrl::try_from(&item).unwrap_err(),
        "Cannot convert Clicks into u32"
    );
    let mut item = plain_item("abc", "https://a.com", "0", "1");
    item.clicks = Some(AttrValue::S("3".to_string()));
    assert_eq!(ShortUrl::try_from(&item).unwrap_err(), "Clicks is not a Number");
    let mut item = plain_item("abc", "https://a.com", "0", "1");
    item.timestamp = None;
    assert_eq!(ShortUrl::try_from(&item).unwrap_err(), "TimeStamp not found");
    let mut item = plain_item("abc", "https://a.com", "4294967296", "1");
    assert!(ShortUrl::try_from(&item).is_err());
}

#[test]
fn shorten_url_normalizes_and_stores() {
    let mut store = UrlShortener::new();
    let req = ShortenUrlRequest {
        url_to_shorten: "example.com".to_string(),
    };
    let details = UrlDetails::default();
    let record = store.shorten_url(req, &details).unwrap();
    assert_eq!(record.original_link, "https://example.com");
    assert_eq!(record.clicks, 0);
    assert_eq!(record.link_id.len(), 10);
    let req = ShortenUrlRequest {
        url_to_shorten: "https://a.com".to_string(),
    };
    let second = store.shorten_url(req, &details).unwrap();
    assert_eq!(second.original_link, "https://a.com");
    assert_ne!(record.link_id, second.link_id);

    let url = store
        .retrieve_url_and_increment_count(&record.link_id)
        .unwrap();
    assert_eq!(url, Some("https://example.com".to_string()));
    let page = store.list_urls(None, None).unwrap();
    let stored = page
        .short_urls
        .iter()
        .find(|u| u.link_id == record.link_id)
        .expect("created record should be listed");
    assert_eq!(stored.clicks, 1);
    assert_eq!(store.retrieve_url_and_increment_count("unknown").unwrap(), None);
}

#[test]
fn shorten_url_rejects_invalid_input() {
    let mut store = UrlShortener::new();
    let req = ShortenUrlRequest {
        url_to_shorten: "https://".to_string(),
    };
    let details = UrlDetails::default();
    assert_eq!(
        store.shorten_url(req, &details).unwrap_err(),
        "Invalid URL Provided"
    );
    assert!(store.list_urls(None, None).unwrap().short_urls.is_empty());
}

#[test]
fn shorten_url_attaches_metadata() {
    let mut store = UrlShortener::new();
    let req = ShortenUrlRequest {
        url_to_shorten: "example.com".to_string(),
    };
    let details = UrlDetails {
        content_type: Some("text/html".to_string()),
        title: Some("Example".to_string()),
        description: Some("An example".to_string()),
        image: Some("https://example.com/i.png".to_string()),
    };
    let record = store.shorten_url(req, &details).unwrap();
    assert_eq!(record.title.as_deref(), Some("Example"));
    let page = store.list_urls(None, None).unwrap();
    let stored = &page.short_urls[0];
    assert_eq!(stored.title.as_deref(), Some("Example"));
    assert_eq!(stored.description.as_deref(), Some("An example"));
    assert_eq!(stored.content_type.as_deref(), Some("text/html"));
    assert_eq!(stored.image.as_deref(), Some("https://example.com/i.png"));
}
