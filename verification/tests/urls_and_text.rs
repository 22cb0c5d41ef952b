use krtk::text::{i64_to_dec, parse_i64_str, parse_u32_str, parse_u64_str, u64_to_dec};
use krtk::urls::{is_valid_url, normalize_url, ShortenUrlRequest};

#[test]
fn normalize_keeps_schemed_urls() {
    assert_eq!(normalize_url("https://a.com"), "https://a.com");
    assert_eq!(normalize_url("http://a.com/path?q=1"), "http://a.com/path?q=1");
}

#[test]
fn normalize_prepends_https() {
    assert_eq!(normalize_url("example.com"), "https://example.com");
    assert_eq!(normalize_url("//example.com"), "https://example.com");
    assert_eq!(normalize_url("///example.com"), "https://example.com");
    assert_eq!(normalize_url(""), "https://");
}

#[test]
fn normalize_is_idempotent() {
    for input in ["example.com", "//x.org/a", "https://a.com", "http://b.com", ""] {
        let once = normalize_url(input);
        let twice = normalize_url(&once);
        assert_eq!(once, twice);
    }
}

#[test]
fn validate_rejects_hostless_urls() {
    let req = ShortenUrlRequest {
        url_to_shorten: "https://".to_string(),
    };
    assert_eq!(req.validate().unwrap_err(), "Invalid URL Provided");
    let req = ShortenUrlRequest {
        url_to_shorten: "http://".to_string(),
    };
    assert!(req.validate().is_err());
    let req = ShortenUrlRequest {
        url_to_shorten: "".to_string(),
    };
    assert!(req.validate().is_err());
    let req = ShortenUrlRequest {
        url_to_shorten: "http://exa mple.com".to_string(),
    };
    assert!(req.validate().is_err());
}

#[test]
fn validate_accepts_ordinary_urls() {
    for input in ["example.com", "https://a.com", "http://b.org/path", "//c.net"] {
        let req = ShortenUrlRequest {
            url_to_shorten: input.to_string(),
        };
        assert!(req.validate().is_ok(), "expected {input} to validate");
    }
}

#[test]
fn validation_agrees_with_url_crate() {
    for input in ["example.com", "https://", "a b", "https://x.org", "ftp://a.com"] {
        let normalized = normalize_url(input);
        let expected = match url::Url::parse(&normalized) {
            Ok(u) => {
                (u.scheme() == "http" || u.scheme() == "https") && u.host_str().is_some()
            }
            Err(_) => false,
        };
        assert_eq!(is_valid_url(input), expected, "on input {input}");
    }
}

#[test]
fn parse_u32_matches_std() {
    for s in [
        "0", "42", "+42", "-1", "", "abc", "4294967295", "4294967296", "007", "4 2", "+",
    ] {
        assert_eq!(parse_u32_str(s), s.parse::<u32>().ok(), "on {s:?}");
    }
}

#[test]
fn parse_u64_matches_std() {
    for s in [
        "0",
        "18446744073709551615",
        "18446744073709551616",
        "+99",
        "99999999999999999999999",
        "",
    ] {
        assert_eq!(parse_u64_str(s), s.parse::<u64>().ok(), "on {s:?}");
    }
}

#[test]
fn parse_i64_matches_std() {
    for s in [
        "0",
        "-1",
        "+17",
        "-+5",
        "+-5",
        "9223372036854775807",
        "9223372036854775808",
        "-9223372036854775808",
        "-9223372036854775809",
        "--3",
        "-",
        "",
        "12x",
    ] {
        assert_eq!(parse_i64_str(s), s.parse::<i64>().ok(), "on {s:?}");
    }
}

#[test]
fn decimal_printing_roundtrips() {
    for v in [0u64, 1, 9, 10, 12345678901234567890, u64::MAX] {
        assert_eq!(u64_to_dec(v), v.to_string());
    }
    for v in [0i64, 7, -1, -10, i64::MAX, i64::MIN] {
        assert_eq!(i64_to_dec(v), v.to_string());
        assert_eq!(parse_i64_str(&i64_to_dec(v)), Some(v));
    }
}
