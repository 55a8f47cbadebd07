use ehttp::headers;
use ehttp::Method;
use ehttp::MultipartBuilder;
use ehttp::PartialResponse;
use ehttp::Request;
use ehttp::Response;

fn response_with_headers(pairs: &[(&str, &str)]) -> Response {
    Response {
        url: "http://example.com".to_owned(),
        ok: true,
        status: 200,
        status_text: "OK".to_owned(),
        headers: headers(pairs),
        bytes: Vec::new(),
    }
}

#[test]
fn headers_keeps_pairs_in_order() {
    let hs = headers(&[("Accept", "*/*"), ("X-Custom", "1")]);
    assert_eq!(hs.len(), 2);
    assert_eq!(hs[0], ("Accept".to_owned(), "*/*".to_owned()));
    assert_eq!(hs[1], ("X-Custom".to_owned(), "1".to_owned()));
}

#[test]
fn get_request_fields() {
    let req = Request::get("https://example.com/x");
    assert_eq!(req.method, "GET");
    assert_eq!(req.url, "https://example.com/x");
    assert!(req.body.is_empty());
    assert_eq!(req.headers, vec![("Accept".to_owned(), "*/*".to_owned())]);
}

#[test]
fn post_request_fields() {
    let req = Request::post("https://example.com/x", vec![1, 2, 3]);
    assert_eq!(req.method, "POST");
    assert_eq!(req.body, vec![1, 2, 3]);
    assert_eq!(
        req.headers,
        vec![
            ("Accept".to_owned(), "*/*".to_owned()),
            ("Content-Type".to_owned(), "text/plain; charset=utf-8".to_owned()),
        ]
    );
}

#[test]
fn method_changes_request_method() {
    let req = Request::get("https://example.com").method(Method::Patch);
    assert_eq!(req.method, "PATCH");
    assert_eq!(req.url, "https://example.com");
}

#[test]
fn method_names() {
    assert_eq!(Method::Get.as_str(), "GET");
    assert_eq!(Method::Head.as_str(), "HEAD");
    assert_eq!(Method::Post.as_str(), "POST");
    assert_eq!(Method::Put.as_str(), "PUT");
    assert_eq!(Method::Delete.as_str(), "DELETE");
    assert_eq!(Method::Connect.as_str(), "CONNECT");
    assert_eq!(Method::Options.as_str(), "OPTIONS");
    assert_eq!(Method::Trace.as_str(), "TRACE");
    assert_eq!(Method::Patch.as_str(), "PATCH");
}

#[test]
fn multipart_request_carries_body_and_content_type() {
    let builder = MultipartBuilder::new().add_text("msg", "hi");
    let req = Request::multipart("https://example.com/upload", builder);
    assert_eq!(req.method, "POST");
    assert_eq!(req.url, "https://example.com/upload");
    assert_eq!(req.headers[0], ("Accept".to_owned(), "*/*".to_owned()));
    assert_eq!(req.headers[1].0, "Content-Type");
    let content_type = &req.headers[1].1;
    assert!(content_type.starts_with("multipart/form-data; boundary="));
    assert!(req.body.starts_with(b"--"));
    assert!(req.body.ends_with(b"--\r\n"));
    assert_eq!(
        count_occurrences(&req.body, b"Content-Disposition: form-data; name=\"msg\""),
        1
    );
}

fn count_occurrences(hay: &[u8], needle: &[u8]) -> usize {
    if needle.is_empty() || hay.len() < needle.len() {
        return 0;
    }
    hay.windows(needle.len()).filter(|w| *w == needle).count()
}

#[test]
fn response_text_decodes_utf8() {
    let mut resp = response_with_headers(&[]);
    resp.bytes = "grüße".as_bytes().to_vec();
    assert_eq!(resp.text(), Some("grüße"));
}

#[test]
fn response_text_rejects_invalid_utf8() {
    let mut resp = response_with_headers(&[]);
    resp.bytes = vec![0xff, 0xfe];
    assert_eq!(resp.text(), None);
}

#[test]
fn response_content_type_found() {
    let resp = response_with_headers(&[("server", "x"), ("content-type", "text/html")]);
    assert_eq!(resp.content_type(), Some("text/html"));
}

#[test]
fn response_content_type_missing() {
    let resp = response_with_headers(&[("server", "x")]);
    assert_eq!(resp.content_type(), None);
}

#[test]
fn complete_fills_in_the_body() {
    let partial = PartialResponse {
        url: "http://example.com".to_owned(),
        ok: false,
        status: 404,
        status_text: "File not found".to_owned(),
        headers: headers(&[("content-type", "text/plain")]),
    };
    let resp = partial.clone().complete(vec![104, 105]);
    assert_eq!(resp.url, partial.url);
    assert_eq!(resp.ok, false);
    assert_eq!(resp.status, 404);
    assert_eq!(resp.status_text, "File not found");
    assert_eq!(resp.headers, partial.headers);
    assert_eq!(resp.bytes, vec![104, 105]);
    assert_eq!(resp.text(), Some("hi"));
}
