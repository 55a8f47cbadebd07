use ehttp::MultipartBuilder;
use ehttp::multipart::mime_filename;
use ehttp::multipart::opt_filename;

const CT_PREFIX: &str = "multipart/form-data; boundary=";

/// The boundary parameter (27 dashes + 29 digits) from a content-type value.
fn boundary_param(content_type: &str) -> &str {
    assert!(content_type.starts_with(CT_PREFIX));
    &content_type[CT_PREFIX.len()..]
}

fn count_occurrences(hay: &[u8], needle: &[u8]) -> usize {
    if needle.is_empty() || hay.len() < needle.len() {
        return 0;
    }
    hay.windows(needle.len()).filter(|w| *w == needle).count()
}

#[test]
fn boundary_param_shape() {
    let (content_type, _) = MultipartBuilder::new().finish();
    let param = boundary_param(&content_type);
    assert_eq!(param.len(), 27 + 29);
    assert!(param[..27].chars().all(|c| c == '-'));
    assert!(param[27..].chars().all(|c| c.is_ascii_digit()));
}

#[test]
fn distinct_builders_draw_distinct_boundaries() {
    let (ct1, _) = MultipartBuilder::new().finish();
    let (ct2, _) = MultipartBuilder::new().finish();
    assert_ne!(boundary_param(&ct1), boundary_param(&ct2));
}

#[test]
fn zero_fields_body_is_closing_delimiter_only() {
    let (content_type, body) = MultipartBuilder::new().finish();
    let param = boundary_param(&content_type);
    let expected = format!("--{param}--\r\n");
    assert_eq!(body, expected.as_bytes());
}

#[test]
fn one_text_field_exact_body() {
    let builder = MultipartBuilder::new().add_text("msg", "hi");
    let (content_type, body) = builder.finish();
    let param = boundary_param(&content_type);
    let expected = format!(
        "--{param}\r\nContent-Disposition: form-data; name=\"msg\"\r\n\r\nhi\r\n--{param}--\r\n"
    );
    assert_eq!(body, expected.as_bytes());
}

#[test]
fn text_field_has_no_filename_and_no_content_type() {
    let (content_type, body) = MultipartBuilder::new().add_text("msg", "hi").finish();
    let param = boundary_param(&content_type);
    let disposition = format!("--{param}\r\nContent-Disposition: form-data; name=\"msg\"\r\n");
    assert_eq!(count_occurrences(&body, disposition.as_bytes()), 1);
    assert_eq!(count_occurrences(&body, b"filename="), 0);
    assert_eq!(count_occurrences(&body, b"Content-Type:"), 0);
}

#[test]
fn stream_field_explicit_content_type() {
    let data: Vec<u8> = vec![1, 2, 3];
    let builder =
        MultipartBuilder::new().add_stream(&data, "blob", Some("b.bin"), Some("text/plain"));
    let (content_type, body) = builder.finish();
    let param = boundary_param(&content_type);
    let mut expected = format!(
        "--{param}\r\nContent-Disposition: form-data; name=\"blob\"; filename=\"b.bin\"\r\nContent-Type: text/plain\r\n\r\n"
    )
    .into_bytes();
    expected.extend_from_slice(&data);
    expected.extend_from_slice(format!("\r\n--{param}--\r\n").as_bytes());
    assert_eq!(body, expected);
}

#[test]
fn stream_field_defaults_to_octet_stream() {
    let data: Vec<u8> = vec![0, 255];
    let builder = MultipartBuilder::new().add_stream(&data, "blob", None, None);
    let (_, body) = builder.finish();
    assert_eq!(count_occurrences(&body, b"Content-Type: application/octet-stream\r\n"), 1);
}

#[test]
fn two_fields_single_crlf_separator() {
    let data: Vec<u8> = b"FILE".to_vec();
    let builder = MultipartBuilder::new()
        .add_text("a", "A")
        .add_stream(&data, "f", Some("f.bin"), Some("application/octet-stream"));
    let (content_type, body) = builder.finish();
    let param = boundary_param(&content_type);
    let expected = format!(
        "--{param}\r\n\
         Content-Disposition: form-data; name=\"a\"\r\n\r\nA\r\n\
         --{param}\r\n\
         Content-Disposition: form-data; name=\"f\"; filename=\"f.bin\"\r\n\
         Content-Type: application/octet-stream\r\n\r\nFILE\r\n\
         --{param}--\r\n"
    );
    assert_eq!(body, expected.as_bytes());
    // No CRLF before the first delimiter; exactly one bare CRLF stands
    // between the first field's content and the second delimiter line.
    assert!(body.starts_with(format!("--{param}").as_bytes()));
    let separator = format!("A\r\n--{param}\r\n");
    assert_eq!(count_occurrences(&body, separator.as_bytes()), 1);
}

#[test]
fn closing_delimiter_exactly_once_and_last() {
    for fields in 0..3usize {
        let mut builder = MultipartBuilder::new();
        for i in 0..fields {
            builder = builder.add_text(&format!("f{i}"), "v");
        }
        let (content_type, body) = builder.finish();
        let param = boundary_param(&content_type);
        let closing = format!("--{param}--\r\n");
        assert!(body.ends_with(closing.as_bytes()));
        assert_eq!(count_occurrences(&body, closing.as_bytes()), 1);
    }
}

#[test]
fn boundary_param_in_every_delimiter_line() {
    let (content_type, body) = MultipartBuilder::new().add_text("a", "x").add_text("b", "y").finish();
    let param = boundary_param(&content_type);
    let text = String::from_utf8(body).unwrap();
    let delimiter_lines: Vec<&str> = text.split("\r\n").filter(|l| l.starts_with("--")).collect();
    assert_eq!(delimiter_lines.len(), 3);
    for line in delimiter_lines {
        assert!(line.contains(param));
    }
}

#[test]
fn round_trip_recovers_field_contents() {
    let contents = ["first value", "second\nvalue", ""];
    let mut builder = MultipartBuilder::new();
    for (i, c) in contents.iter().enumerate() {
        builder = builder.add_text(&format!("field{i}"), c);
    }
    let (content_type, body) = builder.finish();
    let param = boundary_param(&content_type);
    let text = String::from_utf8(body).unwrap();
    let delimiter = format!("--{param}\r\n");
    let closing = format!("--{param}--\r\n");
    let after_first = text.strip_prefix(&delimiter).unwrap();
    let mut recovered = Vec::new();
    for segment in after_first.split(&delimiter) {
        let segment = if segment.ends_with(&closing) {
            let s = segment.strip_suffix(&closing).unwrap();
            s.strip_suffix("\r\n").unwrap()
        } else {
            segment.strip_suffix("\r\n").unwrap()
        };
        let (_headers, content) = segment.split_once("\r\n\r\n").unwrap();
        recovered.push(content.to_owned());
    }
    assert_eq!(recovered, contents);
}

#[test]
fn opt_filename_takes_final_component() {
    assert_eq!(opt_filename("dir/sub/file.txt"), Some("file.txt"));
    assert_eq!(opt_filename("file.txt"), Some("file.txt"));
    assert_eq!(opt_filename("dir/"), Some("dir"));
    assert_eq!(opt_filename("dir/."), Some("dir"));
    assert_eq!(opt_filename("dir/.."), None);
    assert_eq!(opt_filename("/"), None);
    assert_eq!(opt_filename(""), None);
}

#[test]
fn opt_filename_matches_std_path_semantics() {
    let cases = [
        "dir/sub/file.txt",
        "file.txt",
        "dir/",
        "a//",
        "a/.",
        "a/..",
        "..",
        ".",
        "/",
        "",
        "./a",
        "a/../b",
        "..a",
        "a/.../",
        "foo.txt/.",
        "a/./.",
    ];
    for p in cases {
        let expected = std::path::Path::new(p).file_name().and_then(|f| f.to_str());
        assert_eq!(opt_filename(p), expected, "path {p:?}");
    }
}

#[test]
fn mime_filename_guesses_from_extension() {
    let (content_type, filename) = mime_filename("shots/photo.png");
    assert_eq!(content_type, "image/png");
    assert_eq!(filename, Some("photo.png"));
    let (content_type, filename) = mime_filename("data/unknown.zzxyq");
    assert_eq!(content_type, "application/octet-stream");
    assert_eq!(filename, Some("unknown.zzxyq"));
}
