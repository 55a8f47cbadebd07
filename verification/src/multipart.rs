//! A `multipart/form-data` body encoder.
//!
//! The builder accumulates encoded fields into a byte buffer; `finish`
//! appends the closing delimiter and returns the buffer together with the
//! matching `Content-Type` header value.
//!
//! The wire format is pinned down by the spec functions below: every field
//! is preceded by one delimiter line (a dash run followed by the boundary
//! token), carries a `Content-Disposition` header, optionally a
//! `Content-Type` header, and a blank line before its raw content.  The
//! delimiter lines carry two more dashes than the boundary parameter of the
//! returned content-type value; the two concatenate to the same line, as
//! RFC 2046 has it.

use rand::Rng;
use vstd::prelude::*;
use vstd::string::StrSliceExecFns;
use vstd::string::StringExecFns;
use vstd::utf8::encode_utf8;
use vstd::utf8::is_ascii_chars;

verus! {

/// Length of the random boundary token, in digits.
pub const BOUNDARY_LEN: usize = 29;

/// The two bytes of a CRLF line ending.
pub open spec fn crlf() -> Seq<u8> {
    seq![13u8, 10u8]
}

/// The UTF-8 bytes of a string viewed as a character sequence.
pub open spec fn utf8(s: Seq<char>) -> Seq<u8> {
    encode_utf8(s)
}

/// The dash run that opens every delimiter line of the body.
pub open spec fn dash_run() -> Seq<u8> {
    utf8("-----------------------------"@)
}

/// A decimal digit, the alphabet the boundary token is drawn from.
pub open spec fn is_digit_char(c: char) -> bool {
    '0' <= c && c <= '9'
}

/// A well-formed boundary token: a fixed-length run of decimal digits.
pub open spec fn boundary_ok(b: Seq<char>) -> bool {
    &&& b.len() == BOUNDARY_LEN
    &&& forall|i: int| 0 <= i < b.len() ==> is_digit_char(#[trigger] b[i])
}

/// One field of the form, as it is modeled in contracts: the name and the
/// optional filename and content type are character strings, the content is
/// the raw bytes that follow the field's header block.
pub ghost struct Part {
    pub name: Seq<char>,
    pub filename: Option<Seq<char>>,
    pub content_type: Option<Seq<char>>,
    pub content: Seq<u8>,
}

/// The field a call to `add_text` records: no filename, no content type,
/// and the text's UTF-8 bytes as content.
pub open spec fn text_part(name: Seq<char>, text: Seq<char>) -> Part {
    Part { name, filename: None, content_type: None, content: utf8(text) }
}

/// The field a call to `add_stream` records: the content type defaults to
/// the generic binary type when none is supplied.
pub open spec fn stream_part(
    name: Seq<char>,
    filename: Option<Seq<char>>,
    content_type: Option<Seq<char>>,
    data: Seq<u8>,
) -> Part {
    Part {
        name,
        filename,
        content_type: match content_type {
            Some(t) => Some(t),
            None => Some("application/octet-stream"@),
        },
        content: data,
    }
}

/// The delimiter line written before every field: dash run, boundary
/// token, CRLF.
pub open spec fn delimiter_line(b: Seq<char>) -> Seq<u8> {
    dash_run() + utf8(b) + crlf()
}

/// The closing delimiter line: dash run, boundary token, two trailing
/// dashes, CRLF.
pub open spec fn closing_line(b: Seq<char>) -> Seq<u8> {
    dash_run() + utf8(b) + utf8("--"@) + crlf()
}

/// The `Content-Disposition` header of one field, with the optional
/// `filename` attribute.  No escaping is applied: a name or filename that
/// holds a quote or a CRLF is the caller's defect, not detected here.
pub open spec fn disposition_bytes(name: Seq<char>, filename: Option<Seq<char>>) -> Seq<u8> {
    utf8("Content-Disposition: form-data; name=\""@) + utf8(name) + utf8("\""@) + match filename {
        Some(f) => utf8("; filename=\""@) + utf8(f) + utf8("\""@),
        None => Seq::<u8>::empty(),
    }
}

/// The optional `Content-Type` header line, preceded by the CRLF that ends
/// the disposition header.
pub open spec fn content_type_line(content_type: Option<Seq<char>>) -> Seq<u8> {
    match content_type {
        Some(t) => crlf() + utf8("Content-Type: "@) + utf8(t),
        None => Seq::<u8>::empty(),
    }
}

/// The whole header block of one field: the disposition header, the
/// optional content-type line, the CRLF that ends the last header, and the
/// blank line separating headers from content.
pub open spec fn header_block(
    name: Seq<char>,
    filename: Option<Seq<char>>,
    content_type: Option<Seq<char>>,
) -> Seq<u8> {
    disposition_bytes(name, filename) + content_type_line(content_type) + crlf() + crlf()
}

/// The encoding of one field: its delimiter line, its header block, its
/// raw content.  No trailing separator: the CRLF before the next delimiter
/// belongs to the delimiter, not to the field.
pub open spec fn part_bytes(b: Seq<char>, p: Part) -> Seq<u8> {
    delimiter_line(b) + header_block(p.name, p.filename, p.content_type) + p.content
}

/// The buffer contents after the given fields have been added: each field's
/// encoding, with a bare CRLF before every field but the first.
pub open spec fn body_bytes(b: Seq<char>, parts: Seq<Part>) -> Seq<u8>
    decreases parts.len(),
{
    if parts.len() == 0 {
        Seq::<u8>::empty()
    } else {
        body_bytes(b, parts.drop_last()) + (if parts.len() == 1 {
            Seq::<u8>::empty()
        } else {
            crlf()
        }) + part_bytes(b, parts.last())
    }
}

/// The finished body: the accumulated fields, a CRLF separating the last
/// field's content from the closing delimiter (absent when there is no
/// field), and the closing delimiter line.
pub open spec fn full_body(b: Seq<char>, parts: Seq<Part>) -> Seq<u8> {
    body_bytes(b, parts) + (if parts.len() > 0 {
        crlf()
    } else {
        Seq::<u8>::empty()
    }) + closing_line(b)
}

/// The boundary parameter of the returned content-type value: a dash run
/// two dashes shorter than the one on the delimiter lines, then the token.
pub open spec fn boundary_param(b: Seq<char>) -> Seq<char> {
    "---------------------------"@ + b
}

/// The `Content-Type` header value `finish` returns.
pub open spec fn content_type_value(b: Seq<char>) -> Seq<char> {
    "multipart/form-data; boundary=---------------------------"@ + b
}

/// The view of an optional borrowed string.
pub open spec fn opt_str_view(s: Option<&str>) -> Option<Seq<char>> {
    match s {
        Some(t) => Some(t@),
        None => None,
    }
}

/// Appends the UTF-8 bytes of `s` to `buf`.
fn push_str_bytes(buf: &mut Vec<u8>, s: &str)
    ensures
        final(buf)@ == old(buf)@ + utf8(s@),
{
    let mut bytes = s.as_bytes_vec();
    buf.append(&mut bytes);
}

/// Appends a CRLF line ending to `buf`.
fn push_crlf(buf: &mut Vec<u8>)
    ensures
        final(buf)@ == old(buf)@ + crlf(),
{
    buf.push(13u8);
    buf.push(10u8);
    assert(buf@ =~= old(buf)@ + crlf());
}

/// Relies on `rand`: `thread_rng` sampled through `Uniform::from(0..=9)`
/// yields only values in `0..=9`, and each of those formats as a single
/// decimal digit, so the collected string holds `len` digit characters.
#[verifier::external_body]
fn random_alphanumeric(len: usize) -> (r: String)
    ensures
        r@.len() == len,
        forall|i: int| 0 <= i < r@.len() ==> is_digit_char(#[trigger] r@[i]),
{
    rand::thread_rng()
        .sample_iter(&rand::distributions::Uniform::from(0..=9))
        .take(len)
        .map(|num| num.to_string())
        .collect()
}

/// Relies on the constant `mime::APPLICATION_OCTET_STREAM`, which formats
/// as `application/octet-stream`.
#[verifier::external_body]
fn octet_stream_type() -> (r: String)
    ensures
        r@ == "application/octet-stream"@,
{
    mime::APPLICATION_OCTET_STREAM.to_string()
}

/// The MIME type that the file-extension lookup yields for a path,
/// falling back to the generic binary type: a pure function of the path.
pub uninterp spec fn mime_guess_of(path: Seq<char>) -> Seq<char>;

/// Relies on `mime_guess::from_path` and `MimeGuess::first_or_octet_stream`:
/// the guess is a table lookup on the path's extension, so the result
/// depends on the path string alone.
#[verifier::external_body]
fn guess_mime_type(path: &str) -> (r: String)
    ensures
        r@ == mime_guess_of(path@),
{
    mime_guess::from_path(path).first_or_octet_stream().to_string()
}

/// The suffix of `s` after its last `/`; the whole of `s` when no `/`
/// occurs in it.
pub open spec fn tail_after_slash(s: Seq<char>) -> Seq<char>
    decreases s.len(),
{
    if s.len() == 0 {
        Seq::<char>::empty()
    } else if s.last() == '/' {
        Seq::<char>::empty()
    } else {
        tail_after_slash(s.drop_last()).push(s.last())
    }
}

/// The final component of a slash-separated path, as the filesystem sees
/// it: trailing separators and bare `.` segments are skipped, and there is
/// no component for an empty path, a bare separator run, or a path whose
/// last segment is `..` — the behavior of `std::path::Path::file_name` on
/// Unix-style paths.
pub open spec fn file_name_of(s: Seq<char>) -> Option<Seq<char>>
    decreases s.len(),
{
    if s.len() == 0 {
        None
    } else if s.last() == '/' {
        file_name_of(s.drop_last())
    } else {
        let t = tail_after_slash(s);
        if t == seq!['.'] {
            file_name_of(s.drop_last())
        } else if t == seq!['.', '.'] {
            None
        } else {
            Some(t)
        }
    }
}

/// The final component of a slash-separated path: `file_name_of`, with
/// trailing separators and `.` segments skipped, and `None` when nothing
/// remains or the last segment is `..`.
pub fn opt_filename(path: &str) -> (r: Option<&str>)
    ensures
        opt_str_view(r) == file_name_of(path@),
    decreases path@.len(),
{
    let len = path.unicode_len();
    if len == 0 {
        return None;
    }
    let last = path.get_char(len - 1);
    proof {
        assert(path@.last() == path@[len - 1]);
    }
    if last == '/' {
        let prefix = path.substring_char(0, len - 1);
        proof {
            assert(prefix@ =~= path@.drop_last());
        }
        return opt_filename(prefix);
    }
    let mut cut: usize = 0;
    let mut i: usize = 0;
    while i < len
        invariant
            0 <= i <= len,
            len == path@.len(),
            0 <= cut <= i,
            tail_after_slash(path@.subrange(0, i as int)) == path@.subrange(cut as int, i as int),
        decreases len - i,
    {
        let c = path.get_char(i);
        proof {
            assert(path@.subrange(0, i + 1).drop_last() =~= path@.subrange(0, i as int));
            assert(path@.subrange(0, i + 1).last() == path@[i as int]);
        }
        if c == '/' {
            cut = i + 1;
            proof {
                assert(tail_after_slash(path@.subrange(0, i + 1)) =~= path@.subrange(
                    cut as int,
                    i + 1,
                ));
            }
        } else {
            proof {
                assert(tail_after_slash(path@.subrange(0, i + 1)) =~= path@.subrange(
                    cut as int,
                    i + 1,
                ));
            }
        }
        i = i + 1;
    }
    proof {
        assert(path@.subrange(0, len as int) =~= path@);
        assert(tail_after_slash(path@).len() > 0);
    }
    let seg_len = len - cut;
    let first_seg_char = path.get_char(cut);
    if seg_len == 1 && first_seg_char == '.' {
        let prefix = path.substring_char(0, len - 1);
        proof {
            assert(prefix@ =~= path@.drop_last());
            assert(tail_after_slash(path@) =~= seq!['.']);
        }
        return opt_filename(prefix);
    }
    if seg_len == 2 && first_seg_char == '.' {
        let second_seg_char = path.get_char(cut + 1);
        if second_seg_char == '.' {
            proof {
                assert(tail_after_slash(path@) =~= seq!['.', '.']);
            }
            return None;
        }
    }
    let f = path.substring_char(cut, len);
    proof {
        let t = tail_after_slash(path@);
        assert(t.len() == seg_len);
        if t == seq!['.'] {
            assert(path@[cut as int] == t[0]);
            assert(false);
        }
        if t == seq!['.', '.'] {
            assert(path@[cut as int] == t[0]);
            assert(path@[cut + 1] == t[1]);
            assert(false);
        }
    }
    Some(f)
}

/// The content type guessed from a path's extension, and the path's final
/// component, as `add_file` uses them.
pub fn mime_filename<'a>(path: &'a str) -> (r: (String, Option<&'a str>))
    ensures
        r.0@ == mime_guess_of(path@),
        opt_str_view(r.1) == file_name_of(path@),
{
    let content_type = guess_mime_type(path);
    let filename = opt_filename(path);
    (content_type, filename)
}

/// Accumulates a `multipart/form-data` body.
///
/// The boundary token is drawn once, at construction; fields are appended
/// by the `add_*` methods; `finish` consumes the builder and yields the
/// content-type header value and the completed body.
pub struct MultipartBuilder {
    boundary: String,
    inner: Vec<u8>,
    data_written: bool,
    parts: Ghost<Seq<Part>>,
}

impl MultipartBuilder {
    /// The boundary token of this builder.
    pub closed spec fn spec_boundary(self) -> Seq<char> {
        self.boundary@
    }

    /// The fields added so far, in order.
    pub closed spec fn parts(self) -> Seq<Part> {
        self.parts@
    }

    /// The builder's invariant: a well-formed boundary token, the flag
    /// recording whether a field was written, and a buffer that holds
    /// exactly the encoding of the fields added so far.
    pub closed spec fn wf(self) -> bool {
        &&& boundary_ok(self.boundary@)
        &&& self.data_written == (self.parts@.len() > 0)
        &&& self.inner@ == body_bytes(self.boundary@, self.parts@)
    }

    /// Creates an empty builder with a fresh random boundary token.
    pub fn new() -> (r: Self)
        ensures
            r.wf(),
            r.parts() == Seq::<Part>::empty(),
            boundary_ok(r.spec_boundary()),
    {
        let r = Self {
            boundary: random_alphanumeric(BOUNDARY_LEN),
            inner: Vec::new(),
            data_written: false,
            parts: Ghost(Seq::empty()),
        };
        r
    }

    /// Writes the delimiter line that opens a field, preceded by a bare
    /// CRLF when a field was already written.
    fn write_boundary(&mut self)
        ensures
            final(self).boundary == old(self).boundary,
            final(self).parts == old(self).parts,
            final(self).data_written == old(self).data_written,
            final(self).inner@ == old(self).inner@ + (if old(self).data_written {
                crlf()
            } else {
                Seq::<u8>::empty()
            }) + delimiter_line(old(self).boundary@),
    {
        if self.data_written {
            push_crlf(&mut self.inner);
        }
        push_str_bytes(&mut self.inner, "-----------------------------");
        push_str_bytes(&mut self.inner, self.boundary.as_str());
        push_crlf(&mut self.inner);
        assert(self.inner@ =~= old(self).inner@ + (if old(self).data_written {
            crlf()
        } else {
            Seq::<u8>::empty()
        }) + delimiter_line(old(self).boundary@));
    }

    /// Writes the delimiter line and the header block of one field and
    /// marks the builder as holding data.
    #[verifier::rlimit(60)]
    fn write_field_headers(&mut self, name: &str, filename: Option<&str>, content_type: Option<&str>)
        ensures
            final(self).boundary == old(self).boundary,
            final(self).parts == old(self).parts,
            final(self).data_written,
            final(self).inner@ == old(self).inner@ + (if old(self).data_written {
                crlf()
            } else {
                Seq::<u8>::empty()
            }) + delimiter_line(old(self).boundary@) + header_block(
                name@,
                opt_str_view(filename),
                opt_str_view(content_type),
            ),
    {
        self.write_boundary();
        if !self.data_written {
            self.data_written = true;
        }
        let ghost base = self.inner@;
        push_str_bytes(&mut self.inner, "Content-Disposition: form-data; name=\"");
        push_str_bytes(&mut self.inner, name);
        push_str_bytes(&mut self.inner, "\"");
        if let Some(filename) = filename {
            push_str_bytes(&mut self.inner, "; filename=\"");
            push_str_bytes(&mut self.inner, filename);
            push_str_bytes(&mut self.inner, "\"");
        }
        assert(self.inner@ =~= base + disposition_bytes(name@, opt_str_view(filename)));
        let ghost with_disp = self.inner@;
        if let Some(content_type) = content_type {
            push_crlf(&mut self.inner);
            push_str_bytes(&mut self.inner, "Content-Type: ");
            push_str_bytes(&mut self.inner, content_type);
        }
        assert(self.inner@ =~= with_disp + content_type_line(opt_str_view(content_type)));
        push_crlf(&mut self.inner);
        push_crlf(&mut self.inner);
        assert(self.inner@ =~= base + header_block(
            name@,
            opt_str_view(filename),
            opt_str_view(content_type),
        ));
        assert(self.inner@ =~= old(self).inner@ + (if old(self).data_written {
            crlf()
        } else {
            Seq::<u8>::empty()
        }) + delimiter_line(old(self).boundary@) + header_block(
            name@,
            opt_str_view(filename),
            opt_str_view(content_type),
        ));
    }

    /// Appends a text field: a `Content-Disposition` header carrying the
    /// name, no filename, no content-type line, and the text's UTF-8 bytes.
    pub fn add_text(self, name: &str, text: &str) -> (r: Self)
        requires
            self.wf(),
        ensures
            r.wf(),
            r.spec_boundary() == self.spec_boundary(),
            r.parts() == self.parts().push(text_part(name@, text@)),
    {
        let ghost orig = self;
        let mut this = self;
        this.write_field_headers(name, None, None);
        push_str_bytes(&mut this.inner, text);
        proof {
            this.parts@ = this.parts@.push(text_part(name@, text@));
            assert(this.parts@.drop_last() =~= orig.parts@);
            assert(this.inner@ =~= body_bytes(this.boundary@, this.parts@));
        }
        this
    }

    /// Appends a field with raw byte content, as read from some stream: an
    /// optional filename and content type may be supplied, and the content
    /// type falls back to the generic binary type, so that the server takes
    /// the field for a file.
    pub fn add_stream(
        self,
        data: &[u8],
        name: &str,
        filename: Option<&str>,
        content_type: Option<&str>,
    ) -> (r: Self)
        requires
            self.wf(),
        ensures
            r.wf(),
            r.spec_boundary() == self.spec_boundary(),
            r.parts() == self.parts().push(
                stream_part(name@, opt_str_view(filename), opt_str_view(content_type), data@),
            ),
    {
        let ghost orig = self;
        let mut this = self;
        let ct: String = match content_type {
            Some(t) => t.to_owned(),
            None => octet_stream_type(),
        };
        this.write_field_headers(name, filename, Some(ct.as_str()));
        let mut bytes = vstd::slice::slice_to_vec(data);
        this.inner.append(&mut bytes);
        proof {
            let p = stream_part(name@, opt_str_view(filename), opt_str_view(content_type), data@);
            this.parts@ = this.parts@.push(p);
            assert(this.parts@.drop_last() =~= orig.parts@);
            assert(this.inner@ =~= body_bytes(this.boundary@, this.parts@));
        }
        this
    }

    /// Consumes the builder: appends a CRLF after the last field's content
    /// (when there is one) and the closing delimiter line, and returns the
    /// content-type header value together with the completed body.  A
    /// builder with no fields yields a body holding only the closing
    /// delimiter line.
    pub fn finish(self) -> (r: (String, Vec<u8>))
        ensures
            r.0@ == content_type_value(self.spec_boundary()),
            self.wf() ==> r.1@ == full_body(self.spec_boundary(), self.parts()),
    {
        let ghost orig = self;
        let mut this = self;
        if this.data_written {
            push_crlf(&mut this.inner);
        }
        push_str_bytes(&mut this.inner, "-----------------------------");
        push_str_bytes(&mut this.inner, this.boundary.as_str());
        push_str_bytes(&mut this.inner, "--");
        push_crlf(&mut this.inner);
        let mut content_type = "multipart/form-data; boundary=---------------------------".to_owned();
        content_type.append(this.boundary.as_str());
        proof {
            if orig.wf() {
                assert(this.inner@ =~= full_body(orig.boundary@, orig.parts@));
            }
        }
        (content_type, this.inner)
    }
}

/// `needle` occurs as a contiguous run somewhere in `hay`.
pub open spec fn contains_seq(hay: Seq<u8>, needle: Seq<u8>) -> bool {
    exists|i: int|
        0 <= i && i + needle.len() <= hay.len() && #[trigger] hay.subrange(
            i,
            i + needle.len() as int,
        ) == needle
}

/// UTF-8 encoding distributes over concatenation.
pub proof fn lemma_utf8_concat(a: Seq<char>, b: Seq<char>)
    ensures
        utf8(a + b) == utf8(a) + utf8(b),
    decreases a.len(),
{
    if a.len() == 0 {
        assert(a + b =~= b);
        assert(utf8(a) + utf8(b) =~= utf8(b));
    } else {
        assert((a + b).drop_first() =~= a.drop_first() + b);
        lemma_utf8_concat(a.drop_first(), b);
        assert(utf8(a + b) =~= utf8(a) + utf8(b));
    }
}

/// A run contained in `x` is contained in `x + y`.
pub proof fn lemma_contains_seq_left(x: Seq<u8>, y: Seq<u8>, n: Seq<u8>)
    requires
        contains_seq(x, n),
    ensures
        contains_seq(x + y, n),
{
    let i = choose|i: int|
        0 <= i && i + n.len() <= x.len() && #[trigger] x.subrange(i, i + n.len() as int) == n;
    assert((x + y).subrange(i, i + n.len() as int) =~= n);
}

/// Containment of byte runs is transitive.
pub proof fn lemma_contains_seq_trans(h: Seq<u8>, m: Seq<u8>, n: Seq<u8>)
    requires
        contains_seq(h, m),
        contains_seq(m, n),
    ensures
        contains_seq(h, n),
{
    let i = choose|i: int|
        0 <= i && i + m.len() <= h.len() && #[trigger] h.subrange(i, i + m.len() as int) == m;
    let j = choose|j: int|
        0 <= j && j + n.len() <= m.len() && #[trigger] m.subrange(j, j + n.len() as int) == n;
    assert(h.subrange(i + j, i + j + n.len() as int) =~= n);
}

/// With no fields the body is exactly the closing delimiter line.
pub proof fn lemma_empty_body(b: Seq<char>)
    ensures
        full_body(b, Seq::<Part>::empty()) == closing_line(b),
{
    assert(full_body(b, Seq::<Part>::empty()) =~= closing_line(b));
}

/// With one field the body is that field's encoding, then a bare CRLF,
/// then the closing delimiter line — nothing before the first delimiter.
pub proof fn lemma_single_field_layout(b: Seq<char>, p: Part)
    ensures
        full_body(b, seq![p]) == part_bytes(b, p) + crlf() + closing_line(b),
{
    assert(seq![p].drop_last() =~= Seq::<Part>::empty());
    assert(body_bytes(b, Seq::<Part>::empty()) == Seq::<u8>::empty());
    assert(seq![p].last() == p);
    assert(body_bytes(b, seq![p]) =~= part_bytes(b, p));
    assert(full_body(b, seq![p]) =~= part_bytes(b, p) + crlf() + closing_line(b));
}

/// With two fields the body is the first field's encoding, a bare CRLF,
/// the second field's encoding, a bare CRLF, and the closing delimiter
/// line — one CRLF between the first field's content and the second
/// field's delimiter, and nothing before the first delimiter.
pub proof fn lemma_two_field_layout(b: Seq<char>, p0: Part, p1: Part)
    ensures
        full_body(b, seq![p0, p1]) == part_bytes(b, p0) + crlf() + part_bytes(b, p1) + crlf()
            + closing_line(b),
{
    assert(seq![p0, p1].drop_last() =~= seq![p0]);
    assert(seq![p0].drop_last() =~= Seq::<Part>::empty());
    assert(body_bytes(b, Seq::<Part>::empty()) == Seq::<u8>::empty());
    assert(seq![p0].last() == p0);
    assert(body_bytes(b, seq![p0]) =~= part_bytes(b, p0));
    assert(seq![p0, p1].last() == p1);
    assert(body_bytes(b, seq![p0, p1]) =~= part_bytes(b, p0) + crlf() + part_bytes(b, p1));
    assert(full_body(b, seq![p0, p1]) =~= part_bytes(b, p0) + crlf() + part_bytes(b, p1) + crlf()
        + closing_line(b));
}

/// The closing delimiter line is the body's final line, for any number of
/// fields: the finished body always ends with it.
pub proof fn lemma_closing_line_is_suffix(b: Seq<char>, parts: Seq<Part>)
    ensures
        full_body(b, parts).len() >= closing_line(b).len(),
        full_body(b, parts).subrange(
            full_body(b, parts).len() - closing_line(b).len(),
            full_body(b, parts).len() as int,
        ) == closing_line(b),
{
    let x = body_bytes(b, parts) + (if parts.len() > 0 {
        crlf()
    } else {
        Seq::<u8>::empty()
    });
    assert(full_body(b, parts) =~= x + closing_line(b));
    assert((x + closing_line(b)).subrange(
        x.len() as int,
        x.len() + closing_line(b).len() as int,
    ) =~= closing_line(b));
}

/// The bytes of a well-formed boundary token are decimal digit bytes.
proof fn lemma_boundary_token_bytes(b: Seq<char>)
    requires
        boundary_ok(b),
    ensures
        utf8(b).len() == b.len(),
        forall|j: int| 0 <= j < utf8(b).len() ==> 48 <= #[trigger] utf8(b)[j] <= 57,
{
    broadcast use vstd::utf8::is_ascii_chars_encode_utf8;

    assert(is_ascii_chars(b));
    assert forall|j: int| 0 <= j < utf8(b).len() implies 48 <= #[trigger] utf8(b)[j] <= 57 by {
        assert(utf8(b)[j] == b[j] as u8);
        assert('0' <= b[j] <= '9');
    }
}

/// The dash run is 29 dash bytes.
proof fn lemma_dash_run_bytes()
    ensures
        dash_run().len() == 29,
        forall|j: int| 0 <= j < dash_run().len() ==> #[trigger] dash_run()[j] == 45u8,
{
    broadcast use vstd::utf8::is_ascii_chars_encode_utf8;

    reveal_strlit("-----------------------------");
    assert(is_ascii_chars("-----------------------------"@));
    assert forall|j: int| 0 <= j < dash_run().len() implies #[trigger] dash_run()[j] == 45u8 by {
        assert(dash_run()[j] == "-----------------------------"@[j] as u8);
    }
}

/// The two trailing dashes of the closing line are two dash bytes.
proof fn lemma_two_dash_bytes()
    ensures
        utf8("--"@).len() == 2,
        forall|j: int| 0 <= j < utf8("--"@).len() ==> #[trigger] utf8("--"@)[j] == 45u8,
{
    broadcast use vstd::utf8::is_ascii_chars_encode_utf8;

    reveal_strlit("--");
    assert(is_ascii_chars("--"@));
    assert forall|j: int| 0 <= j < utf8("--"@).len() implies #[trigger] utf8("--"@)[j] == 45u8 by {
        assert(utf8("--"@)[j] == "--"@[j] as u8);
    }
}

/// The closing delimiter line is 62 bytes long, ends with a line feed, and
/// holds no other line feed and no carriage return before its last two
/// bytes: dashes, digits, dashes, then CRLF.
proof fn lemma_closing_line_bytes(b: Seq<char>)
    requires
        boundary_ok(b),
    ensures
        closing_line(b).len() == 62,
        closing_line(b)[61] == 10u8,
        forall|j: int| 0 <= j < 61 ==> #[trigger] closing_line(b)[j] != 10u8,
        forall|j: int| 0 <= j < 60 ==> #[trigger] closing_line(b)[j] != 13u8,
{
    lemma_boundary_token_bytes(b);
    lemma_dash_run_bytes();
    lemma_two_dash_bytes();
    let m = closing_line(b);
    assert(m.len() == 62);
    assert forall|j: int| 0 <= j < 61 implies #[trigger] m[j] != 10u8 by {
        if j < 29 {
            assert(m[j] == dash_run()[j]);
        } else if j < 58 {
            assert(m[j] == utf8(b)[j - 29]);
        } else if j < 60 {
            assert(m[j] == utf8("--"@)[j - 58]);
        } else {
            assert(m[j] == crlf()[0]);
        }
    }
    assert forall|j: int| 0 <= j < 60 implies #[trigger] m[j] != 13u8 by {
        if j < 29 {
            assert(m[j] == dash_run()[j]);
        } else if j < 58 {
            assert(m[j] == utf8(b)[j - 29]);
        } else {
            assert(m[j] == utf8("--"@)[j - 58]);
        }
    }
}

/// An occurrence of the closing delimiter line in the finished body can
/// only be the final one: any other would either place the boundary token
/// followed by two dashes among the accumulated field bytes, cross a bare
/// CRLF with bytes that hold no carriage return, or overlap the final
/// occurrence, making a line feed stand before the line's end.
#[verifier::rlimit(100)]
proof fn lemma_closing_occurrence_is_last(b: Seq<char>, parts: Seq<Part>, i: int)
    requires
        boundary_ok(b),
        !contains_seq(body_bytes(b, parts), utf8(b) + utf8("--"@)),
        0 <= i,
        i + closing_line(b).len() <= full_body(b, parts).len(),
        full_body(b, parts).subrange(i, i + closing_line(b).len() as int) == closing_line(b),
    ensures
        i == full_body(b, parts).len() - closing_line(b).len(),
{
    let m = closing_line(b);
    let body = body_bytes(b, parts);
    let sep: Seq<u8> = if parts.len() > 0 {
        crlf()
    } else {
        Seq::<u8>::empty()
    };
    let x = body + sep;
    let full = full_body(b, parts);
    let n = utf8(b) + utf8("--"@);
    lemma_closing_line_bytes(b);
    lemma_boundary_token_bytes(b);
    lemma_two_dash_bytes();
    assert(full == x + m);
    assert forall|j: int| 0 <= j < 62 implies full[i + j] == m[j] by {
        assert(full.subrange(i, i + 62)[j] == full[i + j]);
    }
    if i + 62 < full.len() {
        if i + 62 <= x.len() {
            // The occurrence would lie wholly left of the closing line, so
            // the token plus two dashes would stand at offset 29 in it.
            assert forall|j: int| 0 <= j < 31 implies x[i + 29 + j] == n[j] by {
                assert(full[i + (29 + j)] == m[29 + j]);
                assert(m[29 + j] == n[j]);
                assert(full[i + 29 + j] == x[i + 29 + j]);
            }
            if i + 60 <= body.len() {
                assert(body.subrange(i + 29, i + 29 + n.len() as int) =~= n);
                assert(contains_seq(body, n));
            } else {
                // It would cross into the bare CRLF before the closing
                // line, yet digits and dashes hold no carriage return.
                assert(sep.len() == 2);
                assert(i + 58 <= body.len());
                let k = body.len() - (i + 29);
                assert(x[body.len() as int] == sep[0]);
                assert(x[i + 29 + k] == n[k]);
                assert(0 <= k < 31);
                if k < 29 {
                    assert(n[k] == utf8(b)[k]);
                } else {
                    assert(n[k] == utf8("--"@)[k - 29]);
                }
            }
        } else {
            // The occurrence would overlap the final one: the byte under
            // its closing line feed also lies inside the final line,
            // before that line's own line feed.
            let k = i + 62 - x.len();
            assert(0 < k < 62);
            assert(full.subrange(x.len() as int, x.len() as int + 62) =~= m);
            assert(full.subrange(x.len() as int, x.len() as int + 62)[k - 1] == full[x.len() + k - 1]);
            assert(m[k - 1] == full[x.len() + k - 1]);
            assert(x.len() + k - 1 == i + 61);
            assert(full[i + 61] == m[61]);
            assert(m[k - 1] == 10u8);
            assert(false);
        }
    }
}

/// The closing delimiter line appears in the finished body exactly once,
/// as its final line, for any number of fields.  The premise is the
/// boundary-collision invariant the builder assumes of its random token:
/// the token followed by two dashes occurs nowhere in the bytes the
/// fields accumulated.
pub proof fn lemma_closing_line_exactly_once(b: Seq<char>, parts: Seq<Part>)
    requires
        boundary_ok(b),
        !contains_seq(body_bytes(b, parts), utf8(b) + utf8("--"@)),
    ensures
        contains_seq(full_body(b, parts), closing_line(b)),
        forall|i: int|
            0 <= i && i + closing_line(b).len() <= full_body(b, parts).len()
                && #[trigger] full_body(b, parts).subrange(
                i,
                i + closing_line(b).len() as int,
            ) == closing_line(b) ==> i == full_body(b, parts).len() - closing_line(b).len(),
{
    let m = closing_line(b);
    let full = full_body(b, parts);
    let x = body_bytes(b, parts) + (if parts.len() > 0 {
        crlf()
    } else {
        Seq::<u8>::empty()
    });
    assert(full == x + m);
    assert(full.subrange(x.len() as int, x.len() + m.len() as int) =~= m);
    assert(contains_seq(full, m));
    assert forall|i: int|
        0 <= i && i + m.len() <= full.len() && #[trigger] full.subrange(i, i + m.len() as int)
            == m implies i == full.len() - m.len() by {
        lemma_closing_occurrence_is_last(b, parts, i);
    }
}

/// The buffer after the first `j` fields is a prefix of the buffer after
/// all of them.
proof fn lemma_body_bytes_prefix(b: Seq<char>, parts: Seq<Part>, j: int)
    requires
        0 <= j <= parts.len(),
    ensures
        body_bytes(b, parts.take(j)).len() <= body_bytes(b, parts).len(),
        body_bytes(b, parts).subrange(0, body_bytes(b, parts.take(j)).len() as int) == body_bytes(
            b,
            parts.take(j),
        ),
    decreases parts.len(),
{
    if j == parts.len() {
        assert(parts.take(j) =~= parts);
        assert(body_bytes(b, parts).subrange(0, body_bytes(b, parts).len() as int) =~= body_bytes(
            b,
            parts,
        ));
    } else {
        assert(parts.drop_last().take(j) =~= parts.take(j));
        lemma_body_bytes_prefix(b, parts.drop_last(), j);
        let pre = body_bytes(b, parts.drop_last());
        let rest = (if parts.len() == 1 {
            Seq::<u8>::empty()
        } else {
            crlf()
        }) + part_bytes(b, parts.last());
        assert(body_bytes(b, parts) =~= pre + rest);
        let tl = body_bytes(b, parts.take(j)).len() as int;
        assert(body_bytes(b, parts).subrange(0, tl) =~= pre.subrange(0, tl));
    }
}

/// Each field's content stands verbatim in the finished body: the run
/// that ends where the field's encoding ends, of the content's length, is
/// the content itself, byte for byte.  Splitting the body at its delimiter
/// lines and stripping the header blocks therefore hands the field
/// contents back unchanged.
pub proof fn lemma_content_recoverable(b: Seq<char>, parts: Seq<Part>, i: int)
    requires
        0 <= i < parts.len(),
    ensures
        ({
            let e = body_bytes(b, parts.take(i + 1)).len() as int;
            &&& parts[i].content.len() <= e
            &&& e <= full_body(b, parts).len()
            &&& full_body(b, parts).subrange(e - parts[i].content.len(), e) == parts[i].content
        }),
{
    let upto = parts.take(i + 1);
    let u = body_bytes(b, upto);
    let e = u.len() as int;
    let c = parts[i].content;
    let pb = part_bytes(b, upto.last());
    assert(upto.last() == parts[i]);
    assert(u =~= body_bytes(b, upto.drop_last()) + (if upto.len() == 1 {
        Seq::<u8>::empty()
    } else {
        crlf()
    }) + pb);
    assert(u.subrange(e - c.len(), e) =~= c);
    lemma_body_bytes_prefix(b, parts, i + 1);
    let body = body_bytes(b, parts);
    assert(body.subrange(e - c.len(), e) =~= u.subrange(e - c.len(), e));
    assert(full_body(b, parts).subrange(e - c.len(), e) =~= body.subrange(e - c.len(), e));
}

/// The boundary parameter of the returned content-type value — its dash
/// run included — is a contiguous substring of the interior delimiter line
/// and of the closing delimiter line: both lines open with two dashes
/// followed by exactly that parameter.
pub proof fn lemma_boundary_param_in_delimiter_lines(b: Seq<char>)
    ensures
        content_type_value(b) == "multipart/form-data; boundary="@ + boundary_param(b),
        contains_seq(delimiter_line(b), utf8(boundary_param(b))),
        contains_seq(closing_line(b), utf8(boundary_param(b))),
{
    reveal_strlit("-----------------------------");
    reveal_strlit("---------------------------");
    reveal_strlit("--");
    reveal_strlit("multipart/form-data; boundary=");
    reveal_strlit("multipart/form-data; boundary=---------------------------");
    assert(content_type_value(b) =~= "multipart/form-data; boundary="@ + boundary_param(b));
    assert("-----------------------------"@ =~= "--"@ + "---------------------------"@);
    lemma_utf8_concat("--"@, "---------------------------"@);
    lemma_utf8_concat("---------------------------"@, b);
    let two = utf8("--"@);
    let n = utf8(boundary_param(b));
    assert(dash_run() + utf8(b) =~= two + n);
    assert(delimiter_line(b) =~= (two + n) + crlf());
    assert((two + n).subrange(two.len() as int, two.len() + n.len() as int) =~= n);
    lemma_contains_seq_left(two + n, crlf(), n);
    assert(closing_line(b) =~= (two + n) + (utf8("--"@) + crlf()));
    lemma_contains_seq_left(two + n, utf8("--"@) + crlf(), n);
}

/// Each field's whole encoding — delimiter line, header block, content —
/// is a contiguous run of the buffer the fields build up.
pub proof fn lemma_part_in_body_bytes(b: Seq<char>, parts: Seq<Part>, i: int)
    requires
        0 <= i < parts.len(),
    ensures
        contains_seq(body_bytes(b, parts), part_bytes(b, parts[i])),
    decreases parts.len(),
{
    let n = part_bytes(b, parts[i]);
    if i == parts.len() - 1 {
        let x = body_bytes(b, parts.drop_last()) + (if parts.len() == 1 {
            Seq::<u8>::empty()
        } else {
            crlf()
        });
        assert(body_bytes(b, parts) =~= x + n);
        assert((x + n).subrange(x.len() as int, x.len() + n.len() as int) =~= n);
        assert(contains_seq(body_bytes(b, parts), n));
    } else {
        lemma_part_in_body_bytes(b, parts.drop_last(), i);
        let rest = (if parts.len() == 1 {
            Seq::<u8>::empty()
        } else {
            crlf()
        }) + part_bytes(b, parts.last());
        assert(body_bytes(b, parts) =~= body_bytes(b, parts.drop_last()) + rest);
        lemma_contains_seq_left(body_bytes(b, parts.drop_last()), rest, n);
    }
}

/// Each field's whole encoding is a contiguous run of the finished body.
pub proof fn lemma_part_in_full_body(b: Seq<char>, parts: Seq<Part>, i: int)
    requires
        0 <= i < parts.len(),
    ensures
        contains_seq(full_body(b, parts), part_bytes(b, parts[i])),
{
    lemma_part_in_body_bytes(b, parts, i);
    let rest = (if parts.len() > 0 {
        crlf()
    } else {
        Seq::<u8>::empty()
    }) + closing_line(b);
    assert(full_body(b, parts) =~= body_bytes(b, parts) + rest);
    lemma_contains_seq_left(body_bytes(b, parts), rest, part_bytes(b, parts[i]));
}

/// A text field is encoded with a `Content-Disposition` header that
/// carries the field's name, no `filename` attribute and no `Content-Type`
/// line: its header block is exactly the disposition line followed by the
/// blank line, and that whole encoding appears in the finished body.
pub proof fn lemma_text_field_encoding(b: Seq<char>, parts: Seq<Part>, i: int, name: Seq<char>, text: Seq<char>)
    requires
        0 <= i < parts.len(),
        parts[i] == text_part(name, text),
    ensures
        part_bytes(b, parts[i]) == delimiter_line(b) + utf8(
            "Content-Disposition: form-data; name=\""@,
        ) + utf8(name) + utf8("\""@) + crlf() + crlf() + utf8(text),
        contains_seq(
            full_body(b, parts),
            delimiter_line(b) + utf8("Content-Disposition: form-data; name=\""@) + utf8(name)
                + utf8("\""@) + crlf() + crlf() + utf8(text),
        ),
{
    assert(part_bytes(b, parts[i]) =~= delimiter_line(b) + utf8(
        "Content-Disposition: form-data; name=\""@,
    ) + utf8(name) + utf8("\""@) + crlf() + crlf() + utf8(text));
    lemma_part_in_full_body(b, parts, i);
}

/// Every file/stream field carries a `Content-Type` header line, and when
/// no explicit type was supplied it names the generic binary type; the
/// whole line, between the CRLF ending the disposition header and the
/// blank line ending the header block, appears in the finished body.
pub proof fn lemma_stream_field_content_type(
    b: Seq<char>,
    parts: Seq<Part>,
    i: int,
    name: Seq<char>,
    filename: Option<Seq<char>>,
    content_type: Option<Seq<char>>,
    data: Seq<u8>,
)
    requires
        0 <= i < parts.len(),
        parts[i] == stream_part(name, filename, content_type, data),
    ensures
        parts[i].content_type is Some,
        content_type is None ==> parts[i].content_type == Some("application/octet-stream"@),
        contains_seq(
            full_body(b, parts),
            crlf() + utf8("Content-Type: "@) + utf8(parts[i].content_type->0) + crlf() + crlf(),
        ),
{
    let ct = parts[i].content_type->0;
    let needle = crlf() + utf8("Content-Type: "@) + utf8(ct) + crlf() + crlf();
    let disp = disposition_bytes(name, filename);
    let pb = part_bytes(b, parts[i]);
    assert(pb =~= (delimiter_line(b) + disp) + needle + parts[i].content);
    assert(contains_seq(pb, needle)) by {
        let x = delimiter_line(b) + disp;
        assert(pb.subrange(x.len() as int, x.len() + needle.len() as int) =~= needle);
    }
    lemma_part_in_full_body(b, parts, i);
    lemma_contains_seq_trans(full_body(b, parts), pb, needle);
}

/// A byte run free of carriage returns and line feeds.
pub open spec fn no_crlf_bytes(s: Seq<u8>) -> bool {
    forall|j: int| 0 <= j < s.len() ==> (#[trigger] s[j]) != 13u8 && s[j] != 10u8
}

/// The literal pieces of a header block hold no CR or LF byte; the
/// content-type label opens with a `C`; the disposition label is 38 bytes
/// and holds a quote only as its last byte.
proof fn lemma_header_literal_bytes()
    ensures
        no_crlf_bytes(utf8("Content-Disposition: form-data; name=\""@)),
        utf8("Content-Disposition: form-data; name=\""@).len() == 38,
        utf8("Content-Disposition: form-data; name=\""@)[37] == 34u8,
        forall|j: int|
            0 <= j < 37 ==> (#[trigger] utf8("Content-Disposition: form-data; name=\""@)[j])
                != 34u8,
        no_crlf_bytes(utf8("\""@)),
        no_crlf_bytes(utf8("; filename=\""@)),
        no_crlf_bytes(utf8("Content-Type: "@)),
        utf8("Content-Type: "@).len() == 14,
        utf8("Content-Type: "@)[0] == 67u8,
{
    broadcast use vstd::utf8::is_ascii_chars_encode_utf8;

    reveal_strlit("Content-Disposition: form-data; name=\"");
    reveal_strlit("\"");
    reveal_strlit("; filename=\"");
    reveal_strlit("Content-Type: ");
    assert(is_ascii_chars("Content-Disposition: form-data; name=\""@));
    assert(is_ascii_chars("\""@));
    assert(is_ascii_chars("; filename=\""@));
    assert(is_ascii_chars("Content-Type: "@));
    assert forall|j: int|
        0 <= j < utf8("Content-Disposition: form-data; name=\""@).len() implies (#[trigger] utf8(
        "Content-Disposition: form-data; name=\""@,
    )[j]) != 13u8 && utf8("Content-Disposition: form-data; name=\""@)[j] != 10u8 by {
        assert(utf8("Content-Disposition: form-data; name=\""@)[j]
            == "Content-Disposition: form-data; name=\""@[j] as u8);
    }
    assert forall|j: int|
        0 <= j < utf8("\""@).len() implies (#[trigger] utf8("\""@)[j]) != 13u8 && utf8("\""@)[j]
        != 10u8 by {
        assert(utf8("\""@)[j] == "\""@[j] as u8);
    }
    assert forall|j: int|
        0 <= j < utf8("; filename=\""@).len() implies (#[trigger] utf8("; filename=\""@)[j])
        != 13u8 && utf8("; filename=\""@)[j] != 10u8 by {
        assert(utf8("; filename=\""@)[j] == "; filename=\""@[j] as u8);
    }
    assert forall|j: int|
        0 <= j < utf8("Content-Type: "@).len() implies (#[trigger] utf8("Content-Type: "@)[j])
        != 13u8 && utf8("Content-Type: "@)[j] != 10u8 by {
        assert(utf8("Content-Type: "@)[j] == "Content-Type: "@[j] as u8);
    }
    assert(utf8("Content-Type: "@)[0] == "Content-Type: "@[0] as u8);
    assert(utf8("Content-Disposition: form-data; name=\""@)[37]
        == "Content-Disposition: form-data; name=\""@[37] as u8);
    assert forall|j: int|
        0 <= j < 37 implies (#[trigger] utf8("Content-Disposition: form-data; name=\""@)[j])
        != 34u8 by {
        assert(utf8("Content-Disposition: form-data; name=\""@)[j]
            == "Content-Disposition: form-data; name=\""@[j] as u8);
    }
}

/// A disposition header whose name and filename bytes hold no CR or LF
/// holds none itself.
proof fn lemma_disposition_no_crlf(name: Seq<char>, filename: Option<Seq<char>>)
    requires
        no_crlf_bytes(utf8(name)),
        filename is Some ==> no_crlf_bytes(utf8(filename->0)),
    ensures
        no_crlf_bytes(disposition_bytes(name, filename)),
{
    lemma_header_literal_bytes();
    let d = disposition_bytes(name, filename);
    assert forall|j: int| 0 <= j < d.len() implies (#[trigger] d[j]) != 13u8 && d[j] != 10u8 by {
        let lit = utf8("Content-Disposition: form-data; name=\""@);
        let q = utf8("\""@);
        if j < lit.len() {
            assert(d[j] == lit[j]);
        } else if j < lit.len() + utf8(name).len() {
            assert(d[j] == utf8(name)[j - lit.len()]);
        } else if j < lit.len() + utf8(name).len() + q.len() {
            assert(d[j] == q[j - lit.len() - utf8(name).len()]);
        }
    }
}

/// A text field's header block holds no `Content-Type` line: the line's
/// opener — a CRLF followed by the `Content-Type: ` label — occurs
/// nowhere in it, provided the name's bytes hold no CR or LF.
pub proof fn lemma_text_header_no_content_type(name: Seq<char>)
    requires
        no_crlf_bytes(utf8(name)),
    ensures
        !contains_seq(header_block(name, None, None), crlf() + utf8("Content-Type: "@)),
{
    lemma_header_literal_bytes();
    lemma_disposition_no_crlf(name, None);
    let disp = disposition_bytes(name, None);
    let hb = header_block(name, None, None);
    let n = crlf() + utf8("Content-Type: "@);
    assert(hb =~= disp + crlf() + crlf());
    assert(n.len() == 16);
    if contains_seq(hb, n) {
        let q = choose|q: int|
            0 <= q && q + n.len() <= hb.len() && #[trigger] hb.subrange(q, q + n.len() as int)
                == n;
        assert(hb.subrange(q, q + n.len() as int)[0] == hb[q]);
        assert(n[0] == 13u8);
        assert(q + 16 <= disp.len() + 4);
        assert(q < disp.len());
        assert(hb[q] == disp[q]);
        assert(false);
    }
}

/// A text field's header block holds its `Content-Disposition` line
/// exactly once: the line's text — the label, the name, the closing
/// quote — opens the block and recurs nowhere in it, provided the name's
/// bytes hold no quote, no CR and no LF.
pub proof fn lemma_text_header_disposition_once(name: Seq<char>)
    requires
        no_crlf_bytes(utf8(name)),
        forall|j: int| 0 <= j < utf8(name).len() ==> (#[trigger] utf8(name)[j]) != 34u8,
    ensures
        ({
            let hb = header_block(name, None, None);
            let n = utf8("Content-Disposition: form-data; name=\""@) + utf8(name) + utf8("\""@);
            &&& hb.subrange(0, n.len() as int) == n
            &&& forall|q: int|
                0 <= q && q + n.len() <= hb.len() && #[trigger] hb.subrange(
                    q,
                    q + n.len() as int,
                ) == n ==> q == 0
        }),
{
    broadcast use vstd::utf8::is_ascii_chars_encode_utf8;

    lemma_header_literal_bytes();
    let lit = utf8("Content-Disposition: form-data; name=\""@);
    let nb = utf8(name);
    let qb = utf8("\""@);
    let k = nb.len() as int;
    let hb = header_block(name, None, None);
    let n = lit + nb + qb;
    reveal_strlit("\"");
    assert(is_ascii_chars("\""@));
    assert(qb.len() == 1);
    assert(qb[0] == "\""@[0] as u8);
    assert(qb[0] == 34u8);
    assert(hb =~= lit + nb + qb + crlf() + crlf());
    assert(n.len() == 39 + k);
    assert(hb.len() == 43 + k);
    assert(hb.subrange(0, n.len() as int) =~= n);
    assert forall|q: int|
        0 <= q && q + n.len() <= hb.len() && #[trigger] hb.subrange(q, q + n.len() as int)
            == n implies q == 0 by {
        assert(q <= 4);
        assert(hb.subrange(q, q + n.len() as int)[37] == hb[q + 37]);
        assert(n[37] == lit[37]);
        assert(hb[q + 37] == 34u8);
        if q + 37 < 38 {
            assert(hb[q + 37] == lit[q + 37]);
            assert(q == 0);
        } else if q + 37 < 38 + k {
            assert(hb[q + 37] == nb[q + 37 - 38]);
            assert(false);
        } else if q + 37 == 38 + k {
            // The occurrence would align its closing quote with the
            // block's, putting its own last byte onto the CRLF that ends
            // the line.
            assert(q == k + 1);
            assert(hb.subrange(q, q + n.len() as int)[38 + k] == hb[q + 38 + k]);
            assert(n[38 + k] == qb[0]);
            assert(hb[q + 38 + k] == hb[39 + 2 * k]);
            assert(39 + k <= 39 + 2 * k < 43 + k);
            assert(hb[39 + 2 * k] == (crlf() + crlf())[k]);
            assert(false);
        } else {
            assert(39 + k <= q + 37 < 43 + k);
            assert(hb[q + 37] == (crlf() + crlf())[q + 37 - 39 - k]);
            assert(false);
        }
    }
}

/// A stream field's header block holds its `Content-Type` line exactly
/// once: the line opener — a CRLF followed by the `Content-Type: `
/// label — stands where the disposition header ends and nowhere else,
/// provided the bytes of the name, the filename and the content type hold
/// no CR or LF.
pub proof fn lemma_stream_header_content_type_once(
    name: Seq<char>,
    filename: Option<Seq<char>>,
    ct: Seq<char>,
)
    requires
        no_crlf_bytes(utf8(name)),
        filename is Some ==> no_crlf_bytes(utf8(filename->0)),
        no_crlf_bytes(utf8(ct)),
    ensures
        ({
            let hb = header_block(name, filename, Some(ct));
            let n = crlf() + utf8("Content-Type: "@);
            let disp = disposition_bytes(name, filename);
            &&& hb.subrange(disp.len() as int, disp.len() + n.len() as int) == n
            &&& forall|q: int|
                0 <= q && q + n.len() <= hb.len() && #[trigger] hb.subrange(
                    q,
                    q + n.len() as int,
                ) == n ==> q == disp.len()
        }),
{
    lemma_header_literal_bytes();
    lemma_disposition_no_crlf(name, filename);
    let disp = disposition_bytes(name, filename);
    let hb = header_block(name, filename, Some(ct));
    let n = crlf() + utf8("Content-Type: "@);
    let lit = utf8("Content-Type: "@);
    let ctb = utf8(ct);
    assert(hb =~= disp + crlf() + lit + ctb + crlf() + crlf());
    assert(n.len() == 16);
    assert(hb.len() == disp.len() + 16 + ctb.len() + 4);
    assert(hb.subrange(disp.len() as int, disp.len() + n.len() as int) =~= n);
    let a: int = disp.len() as int + 16 + ctb.len() as int;
    assert forall|q: int|
        0 <= q && q + n.len() <= hb.len() && #[trigger] hb.subrange(q, q + n.len() as int)
            == n implies q == disp.len() by {
        assert(hb.subrange(q, q + n.len() as int)[0] == hb[q]);
        assert(n[0] == 13u8);
        assert(hb[q] == 13u8);
        if q < disp.len() {
            assert(hb[q] == disp[q]);
            assert(false);
        } else if q == disp.len() + 1 {
            assert(hb[q] == 10u8);
            assert(false);
        } else if disp.len() + 2 <= q < disp.len() + 16 {
            assert(hb[q] == lit[q - disp.len() - 2]);
            assert(false);
        } else if disp.len() + 16 <= q < a {
            assert(hb[q] == ctb[q - disp.len() - 16]);
            assert(false);
        } else if q == a {
            assert(hb.subrange(q, q + n.len() as int)[2] == hb[q + 2]);
            assert(n[2] == 67u8);
            assert(hb[a + 2] == 13u8);
            assert(false);
        } else if q > a {
            assert(q + 16 <= a + 4);
            assert(false);
        }
    }
}

impl Default for MultipartBuilder {
    /// An empty builder, as `new` yields it.
    fn default() -> (r: Self)
        ensures
            r.wf(),
            r.parts() == Seq::<Part>::empty(),
            boundary_ok(r.spec_boundary()),
    {
        Self::new()
    }
}

} // verus!
