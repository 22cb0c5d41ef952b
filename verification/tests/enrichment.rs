use krtk::analytics::CfAnalyticsData;
use krtk::templates::format_timestamp;
use krtk::url_info::UrlDetails;

#[test]
fn html_page_yields_title_description_and_joined_image() {
    let body = "<html><head><title>  My Page  </title>\
        <meta name=\"description\" content=\"A description\">\
        </head><body><p>hello<img src=\"/pic.png\"></p></body></html>";
    let details = UrlDetails::from_page(
        "https://example.com/post/1",
        Some("text/html; charset=utf-8".to_string()),
        Some(body),
    );
    assert_eq!(details.content_type.as_deref(), Some("text/html; charset=utf-8"));
    assert_eq!(details.title.as_deref(), Some("My Page"));
    assert_eq!(details.description.as_deref(), Some("A description"));
    assert_eq!(details.image.as_deref(), Some("https://example.com/pic.png"));
}

#[test]
fn open_graph_image_wins_over_body_image() {
    let body = "<html><head><title>T</title>\
        <meta property='og:image' content=\"https://cdn.example.com/og.png\">\
        </head><body><img src=\"/other.png\"></body></html>";
    let details = UrlDetails::from_page(
        "https://example.com/",
        Some("text/html".to_string()),
        Some(body),
    );
    assert_eq!(details.image.as_deref(), Some("https://cdn.example.com/og.png"));
}

#[test]
fn non_html_pages_keep_only_the_content_type() {
    let details = UrlDetails::from_page(
        "https://example.com/data.json",
        Some("application/json".to_string()),
        Some("{\"title\": \"nope\"}"),
    );
    assert_eq!(details.content_type.as_deref(), Some("application/json"));
    assert!(details.title.is_none());
    assert!(details.description.is_none());
    assert!(details.image.is_none());
}

#[test]
fn long_header_is_cut_to_thirty_two_characters() {
    let long = "text/html; charset=utf-8; boundary=something-very-long";
    let details = UrlDetails::from_page("https://e.com", Some(long.to_string()), Some("<html></html>"));
    let stored = details.content_type.unwrap();
    assert_eq!(stored.chars().count(), 32);
    assert!(long.starts_with(&stored));
}

#[test]
fn missing_pieces_stay_absent() {
    let details = UrlDetails::from_page(
        "https://example.com/",
        Some("text/html".to_string()),
        Some("<html><head></head><body><p>no media</p></body></html>"),
    );
    assert!(details.title.is_none());
    assert!(details.description.is_none());
    assert!(details.image.is_none());
    let fetch_failed = UrlDetails::from_page("https://example.com/", None, None);
    assert!(fetch_failed.content_type.is_none());
    assert!(fetch_failed.title.is_none());
}

#[test]
fn analytics_line_parses_into_fields() {
    let line = "1739035776.180\t24.18.218.96\t302\t/k120oizrul\n";
    let data = CfAnalyticsData::from_line(line).unwrap();
    assert_eq!(data.timestamp, "1739035776.180");
    assert_eq!(data.source_ip, "24.18.218.96");
    assert_eq!(data.status_code, "302");
    assert_eq!(data.link_id, "k120oizrul");
}

#[test]
fn analytics_line_strips_all_leading_slashes() {
    let data = CfAnalyticsData::from_line("1\t2\t3\t //abc ").unwrap();
    assert_eq!(data.link_id, "abc");
}

#[test]
fn short_analytics_line_is_rejected() {
    assert!(CfAnalyticsData::from_line("1\t2\t3").is_none());
    assert!(CfAnalyticsData::from_line("").is_none());
    assert!(CfAnalyticsData::from_line("1\t2\t3\t4").is_some());
}

#[test]
fn format_timestamp_renders_utc() {
    assert_eq!(format_timestamp("0").unwrap(), "1970-01-01 00:00:00 UTC");
    assert_eq!(
        format_timestamp("1739035776").unwrap(),
        "2025-02-08 17:29:36 UTC"
    );
    assert_eq!(
        format_timestamp("tomorrow").unwrap_err(),
        "Invalid timestamp format"
    );
    assert_eq!(
        format_timestamp("9223372036854775807").unwrap_err(),
        "Invalid timestamp"
    );
}
