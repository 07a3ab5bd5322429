use pinto::browser::{chrome_flags, clone_call, decimal_of, default_a4, default_host, devtools_url_in, dynamic_call, signed_decimal_of, variants_call, CLONE_AND_UPDATE_JS, fulfill_body, stream_chunk_bytes};

#[test]
fn chrome_switches() {
    let f = chrome_flags();
    assert_eq!(f.len(), 39);
    assert_eq!(f[0], "--remote-debugging-port=0");
    assert!(f.contains(&"--headless"));
    assert_eq!(f[38], "--no-startup-window");
}

#[test]
fn devtools_address_is_scraped() {
    assert_eq!(
        devtools_url_in("DevTools listening on ws://127.0.0.1:9222/devtools/browser/abc \n"),
        Some("ws://127.0.0.1:9222/devtools/browser/abc".to_string())
    );
    assert_eq!(devtools_url_in("ws://elsewhere"), None);
    assert_eq!(devtools_url_in("DevTools listening on nothing"), None);
}

#[test]
fn defaults() {
    assert_eq!(default_host(), "http://localhost:8000/");
    assert_eq!(default_a4(), "A4");
}

#[test]
fn numbers_in_decimal() {
    assert_eq!(decimal_of(0), "0");
    assert_eq!(decimal_of(1203), "1203");
    assert_eq!(signed_decimal_of(-45), "-45");
    assert_eq!(signed_decimal_of(i64::MIN), "-9223372036854775808");
}

#[test]
fn page_numbering_calls() {
    assert_eq!(
        clone_call("#h", 12, 1, "Header", 0),
        format!("{CLONE_AND_UPDATE_JS}\nclone_and_update('#h', 12, 1, 'Header', 0);")
    );
    assert!(variants_call(false).ends_with("clone_and_update('#footer-render-container', 0, 1, 'Footer', 0);"));
    assert!(dynamic_call(false, true, 7).ends_with("clone_and_update('.wrapper', 7, 0, 'Header', 1);"));
    assert!(dynamic_call(true, false, 2).ends_with("clone_and_update('#footer-render-container', 2, 1, 'Footer', 1);"));
}

#[test]
fn file_bodies_are_base64() {
    assert_eq!(fulfill_body(b"hello"), "aGVsbG8=");
    assert_eq!(fulfill_body(b""), "");
    assert_eq!(fulfill_body(&[0xff, 0x00]), "/wA=");
}

#[test]
fn stream_chunks_decode() {
    assert_eq!(stream_chunk_bytes("aGk=", true), Some(b"hi".to_vec()));
    assert_eq!(stream_chunk_bytes("aGk=", false), Some(b"aGk=".to_vec()));
    assert_eq!(stream_chunk_bytes("é", false), Some("é".as_bytes().to_vec()));
    assert_eq!(stream_chunk_bytes("!!", true), None);
}
