use std::time::Instant;

use egg_viz::recorders::Timestamp;
use egg_viz::snapshot::{body_text, snapshot_body, snapshot_headers, HeaderResponse};
use egg_viz::webfiles::WebfileReply;
use egg_viz::RequestError;

#[test]
fn headers_are_the_first_line_fields() {
    let content = b"id,iteration,value\n1,2,3\n";
    let headers = snapshot_headers(content).unwrap();
    assert_eq!(headers, vec!["id", "iteration", "value"]);
}

#[test]
fn headers_fail_only_on_an_undecodable_first_line() {
    assert_eq!(snapshot_headers(b"a,\xffb\nrest\n"), Err(RequestError::DecodeError));
    // a bad byte below the header line does not reject the headers
    let headers = snapshot_headers(b"a,b\n\xff\n").unwrap();
    assert_eq!(headers, vec!["a", "b"]);
    // an empty file has one empty header field
    assert_eq!(snapshot_headers(b"").unwrap(), vec![""]);
}

#[test]
fn body_rows_match_the_header_width() {
    let content = b"h1,h2\na,b\nonly-one\nc,d\ntoo,many,fields\n";
    let rows = snapshot_body(content);
    assert_eq!(rows, vec![vec!["a", "b"], vec!["c", "d"]]);
}

#[test]
fn body_text_joins_rows_with_commas_and_newlines() {
    let content = b"h1,h2\na,b\nskip\nc,d\n";
    assert_eq!(body_text(content), "a,b\nc,d");
    assert_eq!(body_text(b"h1,h2\n"), "");
}

#[test]
fn a_header_response_carries_path_and_headers() {
    let resp = HeaderResponse {
        path: "a.csv".to_string(),
        headers: vec!["id".to_string(), "value".to_string()],
    };
    assert_eq!(resp.path, "a.csv");
    assert_eq!(resp.headers.len(), 2);
}

#[test]
fn webfile_replies_carry_the_content_type_of_the_extension() {
    let cases = [
        ("index.html", "text/html"),
        ("app.js", "text/javascript"),
        ("style.css", "text/css"),
        ("config.json", "application/json"),
        ("logo.svg", "image/svg+xml"),
    ];
    for (path, expected) in cases {
        match WebfileReply::new(&path.to_string(), vec![1, 2, 3]) {
            WebfileReply::WithHeader(ct, cs, data) => {
                assert_eq!(ct, expected);
                assert_eq!(cs, "utf-8");
                assert_eq!(data, vec![1, 2, 3]);
            },
            _ => panic!("expected a typed reply for {path}"),
        }
    }
    match WebfileReply::new(&"image.png".to_string(), vec![9]) {
        WebfileReply::Raw(data) => assert_eq!(data, vec![9]),
        _ => panic!("expected a raw reply"),
    }
}

#[test]
fn a_timestamp_keeps_its_start() {
    let start = Instant::now();
    let ts = Timestamp::new(start);
    assert_eq!(ts.start, start);
}
