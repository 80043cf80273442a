use rust_snell::http::{
    base64_url_encode, chrono_now_rfc1123, days_to_date, extract_content_length, is_leap, rfc1123_date, upgrade_request,
    upgrade_response,
};

#[test]
fn content_length_is_found() {
    assert_eq!(extract_content_length("GET / HTTP/1.1\r\nContent-Length: 12\r\n\r\n"), Some(12));
    assert_eq!(extract_content_length("a\r\ncontent-length:7\r\n\r\n"), Some(7));
    assert_eq!(extract_content_length("Content-Length: 1\nContent-Length: 2\n"), Some(1));
    assert_eq!(extract_content_length("Content-Length: 0\r\n"), Some(0));
}

#[test]
fn content_length_is_missing_or_no_number() {
    assert_eq!(extract_content_length(""), None);
    assert_eq!(extract_content_length("Host: a\r\n\r\n"), None);
    assert_eq!(extract_content_length("CONTENT-LENGTH: 5\r\n"), None);
    assert_eq!(extract_content_length(" Content-Length: 5\r\n"), None);
    assert_eq!(extract_content_length("Content-Length: five\r\nContent-Length: 5\r\n"), None);
    assert_eq!(extract_content_length("Content-Length: -1\r\n"), None);
}

#[test]
fn base64_without_padding() {
    assert_eq!(base64_url_encode(b""), "");
    assert_eq!(base64_url_encode(b"f"), "Zg");
    assert_eq!(base64_url_encode(b"fo"), "Zm8");
    assert_eq!(base64_url_encode(b"foo"), "Zm9v");
    assert_eq!(base64_url_encode(b"foobar"), "Zm9vYmFy");
    assert_eq!(base64_url_encode(&[0xfb, 0xff]), "-_8");
    assert_eq!(base64_url_encode(&[0u8; 16]).len(), 22);
}

#[test]
fn leap_years() {
    assert!(is_leap(2000));
    assert!(is_leap(2024));
    assert!(!is_leap(1900));
    assert!(!is_leap(2023));
}

#[test]
fn days_become_dates() {
    assert_eq!(days_to_date(0), (1970, 1, 1));
    assert_eq!(days_to_date(30), (1970, 1, 31));
    assert_eq!(days_to_date(31), (1970, 2, 1));
    assert_eq!(days_to_date(58), (1970, 2, 28));
    assert_eq!(days_to_date(59), (1970, 3, 1));
    assert_eq!(days_to_date(364), (1970, 12, 31));
    assert_eq!(days_to_date(365), (1971, 1, 1));
    assert_eq!(days_to_date(11016), (2000, 2, 29));
    assert_eq!(days_to_date(11017), (2000, 3, 1));
}

#[test]
fn dates_never_repeat() {
    let mut seen = std::collections::HashSet::new();
    for days in 0..5000u64 {
        assert!(seen.insert(days_to_date(days)));
    }
}

#[test]
fn times_are_written() {
    assert_eq!(rfc1123_date(0), "Thu, 01 Jan 1970 00:00:00 GMT");
    assert_eq!(rfc1123_date(86400), "Fri, 02 Jan 1970 00:00:00 GMT");
    assert_eq!(rfc1123_date(951868799), "Tue, 29 Feb 2000 23:59:59 GMT");
    assert_eq!(rfc1123_date(1700000000), "Tue, 14 Nov 2023 22:13:20 GMT");
    assert_eq!(rfc1123_date(1700000000 + 5 * 86400), "Sun, 19 Nov 2023 22:13:20 GMT");
    assert_eq!(chrono_now_rfc1123().len(), 29);
    assert!(chrono_now_rfc1123().ends_with(" GMT"));
    assert_ne!(chrono_now_rfc1123(), rfc1123_date(0));
}

#[test]
fn header_blocks() {
    assert_eq!(
        upgrade_response(3, 11, "now", "token"),
        "HTTP/1.1 101 Switching Protocols\r\nServer: nginx/1.3.11\r\nDate: now\r\nUpgrade: websocket\r\n\
         Connection: Upgrade\r\nSec-WebSocket-Accept: token\r\n\r\n"
    );
    let request = upgrade_request("bing.com", "443", 53, 1, "key", 19);
    assert_eq!(
        request,
        "GET / HTTP/1.1\r\nHost: bing.com:443\r\nUser-Agent: curl/7.53.1\r\nUpgrade: websocket\r\n\
         Connection: Upgrade\r\nSec-WebSocket-Key: key\r\nContent-Length: 19\r\n\r\n"
    );
    assert_eq!(extract_content_length(&request), Some(19));
    assert_eq!(extract_content_length(&upgrade_response(0, 0, "now", "token")), None);
}
