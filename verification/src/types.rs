//! Plain HTTP request and response records.

use vstd::prelude::*;
use vstd::string::StringSliceAdditionalSpecFns;
use vstd::utf8::decode_utf8;
use vstd::utf8::encode_utf8_decode_utf8;
use vstd::utf8::valid_utf8;

use crate::multipart::content_type_value;
use crate::multipart::full_body;
use crate::multipart::MultipartBuilder;

verus! {

/// An HTTP request method.
pub enum Method {
    /// The GET method requests a representation of the specified resource.
    Get,
    /// The HEAD method asks for a response identical to a GET request, but without the response body.
    Head,
    /// The POST method submits an entity to the specified resource.
    Post,
    /// The PUT method replaces all current representations of the target resource.
    Put,
    /// The DELETE method deletes the specified resource.
    Delete,
    /// The CONNECT method establishes a tunnel to the server identified by the target resource.
    Connect,
    /// The OPTIONS method describes the communication options for the target resource.
    Options,
    /// The TRACE method performs a message loop-back test along the path to the target resource.
    Trace,
    /// The PATCH method applies partial modifications to a resource.
    Patch,
}

/// The upper-case name of a request method.
pub open spec fn method_name(m: Method) -> Seq<char> {
    match m {
        Method::Get => "GET"@,
        Method::Head => "HEAD"@,
        Method::Post => "POST"@,
        Method::Put => "PUT"@,
        Method::Delete => "DELETE"@,
        Method::Connect => "CONNECT"@,
        Method::Options => "OPTIONS"@,
        Method::Trace => "TRACE"@,
        Method::Patch => "PATCH"@,
    }
}

impl Method {
    /// The method's name, as it appears on the request line.
    pub fn as_str(&self) -> (r: &'static str)
        ensures
            r@ == method_name(*self),
    {
        match self {
            Method::Get => "GET",
            Method::Head => "HEAD",
            Method::Post => "POST",
            Method::Put => "PUT",
            Method::Delete => "DELETE",
            Method::Connect => "CONNECT",
            Method::Options => "OPTIONS",
            Method::Trace => "TRACE",
            Method::Patch => "PATCH",
        }
    }
}

/// Builds a header list from name/value pairs, keeping the given order.
pub fn headers(pairs: &[(&str, &str)]) -> (r: Vec<(String, String)>)
    ensures
        r@.len() == pairs@.len(),
        forall|i: int|
            0 <= i < pairs@.len() ==> (#[trigger] r@[i]).0@ == pairs@[i].0@ && r@[i].1@
                == pairs@[i].1@,
{
    let mut out: Vec<(String, String)> = Vec::new();
    let mut i: usize = 0;
    while i < pairs.len()
        invariant
            0 <= i <= pairs@.len(),
            out@.len() == i,
            forall|j: int|
                0 <= j < i ==> (#[trigger] out@[j]).0@ == pairs@[j].0@ && out@[j].1@
                    == pairs@[j].1@,
        decreases pairs@.len() - i,
    {
        let name = pairs[i].0.to_owned();
        let value = pairs[i].1.to_owned();
        out.push((name, value));
        i = i + 1;
    }
    out
}

/// A simple HTTP request.
#[derive(Clone, Debug)]
pub struct Request {
    /// "GET", "POST", …
    pub method: String,
    /// https://…
    pub url: String,
    /// The data you send with e.g. "POST".
    pub body: Vec<u8>,
    /// ("Accept", "*/*"), …
    pub headers: Vec<(String, String)>,
}

impl Request {
    /// Create a `GET` request with the given url.
    pub fn get(url: &str) -> (r: Self)
        ensures
            r.method@ == method_name(Method::Get),
            r.url@ == url@,
            r.body@ == Seq::<u8>::empty(),
            r.headers@.len() == 1,
            r.headers@[0].0@ == "Accept"@,
            r.headers@[0].1@ == "*/*"@,
    {
        Self {
            method: Method::Get.as_str().to_owned(),
            url: url.to_owned(),
            body: Vec::new(),
            headers: headers(&[("Accept", "*/*")]),
        }
    }

    /// Create a `POST` multipart request with the given url and builder:
    /// the finished body becomes the request body, and the boundary-
    /// qualified content-type value its `Content-Type` header.
    pub fn multipart(url: &str, builder: MultipartBuilder) -> (r: Self)
        requires
            builder.wf(),
        ensures
            r.method@ == method_name(Method::Post),
            r.url@ == url@,
            r.body@ == full_body(builder.spec_boundary(), builder.parts()),
            r.headers@.len() == 2,
            r.headers@[0].0@ == "Accept"@,
            r.headers@[0].1@ == "*/*"@,
            r.headers@[1].0@ == "Content-Type"@,
            r.headers@[1].1@ == content_type_value(builder.spec_boundary()),
    {
        let (content_type, data) = builder.finish();
        Self {
            method: Method::Post.as_str().to_owned(),
            url: url.to_owned(),
            body: data,
            headers: headers(&[("Accept", "*/*"), ("Content-Type", content_type.as_str())]),
        }
    }

    /// Create a `POST` request with the given url and body.
    pub fn post(url: &str, body: Vec<u8>) -> (r: Self)
        ensures
            r.method@ == method_name(Method::Post),
            r.url@ == url@,
            r.body == body,
            r.headers@.len() == 2,
            r.headers@[0].0@ == "Accept"@,
            r.headers@[0].1@ == "*/*"@,
            r.headers@[1].0@ == "Content-Type"@,
            r.headers@[1].1@ == "text/plain; charset=utf-8"@,
    {
        Self {
            method: Method::Post.as_str().to_owned(),
            url: url.to_owned(),
            body,
            headers: headers(&[("Accept", "*/*"), ("Content-Type", "text/plain; charset=utf-8")]),
        }
    }

    /// Allows to change used method
    pub fn method(self, method: Method) -> (r: Self)
        ensures
            r.method@ == method_name(method),
            r.url == self.url,
            r.body == self.body,
            r.headers == self.headers,
    {
        let mut this = self;
        this.method = method.as_str().to_owned();
        this
    }
}

/// The first value in a header list whose name equals the given key.
pub open spec fn header_lookup(hs: Seq<(String, String)>, key: Seq<char>) -> Option<Seq<char>>
    decreases hs.len(),
{
    if hs.len() == 0 {
        None
    } else if hs[0].0@ == key {
        Some(hs[0].1@)
    } else {
        header_lookup(hs.drop_first(), key)
    }
}

/// Relies on `std::str::from_utf8`, which succeeds exactly on valid UTF-8
/// and returns the string of those very bytes.
#[verifier::external_body]
fn utf8_text(bytes: &Vec<u8>) -> (r: Option<&str>)
    ensures
        match r {
            Some(s) => valid_utf8(bytes@) && s.spec_bytes() == bytes@,
            None => !valid_utf8(bytes@),
        },
{
    std::str::from_utf8(bytes).ok()
}

/// Response from a completed HTTP request.
#[derive(Clone, Debug, PartialEq, Eq)]
pub struct Response {
    /// The URL we ended up at. This can differ from the request url when we have followed redirects.
    pub url: String,
    /// Did we get a 2xx response code?
    pub ok: bool,
    /// Status code (e.g. `404` for "File not found").
    pub status: u16,
    /// Status text (e.g. "File not found" for status code `404`).
    pub status_text: String,
    /// The returned headers. All header names are lower-case.
    pub headers: Vec<(String, String)>,
    /// The raw bytes of the response body.
    pub bytes: Vec<u8>,
}

impl Response {
    /// The body as text, when it is valid UTF-8.
    pub fn text(&self) -> (r: Option<&str>)
        ensures
            match r {
                Some(s) => valid_utf8(self.bytes@) && s@ == decode_utf8(self.bytes@),
                None => !valid_utf8(self.bytes@),
            },
    {
        let r = utf8_text(&self.bytes);
        proof {
            broadcast use encode_utf8_decode_utf8;

            if r is Some {
                assert(decode_utf8(self.bytes@) == r->0@);
            }
        }
        r
    }

    /// The value of the `content-type` header, if any.
    pub fn content_type(&self) -> (r: Option<&str>)
        ensures
            match r {
                Some(s) => header_lookup(self.headers@, "content-type"@) == Some(s@),
                None => header_lookup(self.headers@, "content-type"@) is None,
            },
    {
        let key: String = "content-type".to_owned();
        let n = self.headers.len();
        let mut i: usize = 0;
        proof {
            assert(self.headers@.subrange(0, n as int) =~= self.headers@);
        }
        while i < n
            invariant
                0 <= i <= n,
                n == self.headers@.len(),
                key@ == "content-type"@,
                header_lookup(self.headers@, "content-type"@) == header_lookup(
                    self.headers@.subrange(i as int, n as int),
                    "content-type"@,
                ),
            decreases n - i,
        {
            proof {
                assert(self.headers@.subrange(i as int, n as int).drop_first()
                    =~= self.headers@.subrange(i + 1, n as int));
            }
            if self.headers[i].0 == key {
                return Some(self.headers[i].1.as_str());
            }
            i = i + 1;
        }
        None
    }
}

/// An HTTP response status line and headers, before the body has arrived.
#[derive(Clone, Debug, PartialEq, Eq)]
pub struct PartialResponse {
    /// The URL we ended up at. This can differ from the request url when we have followed redirects.
    pub url: String,
    /// Did we get a 2xx response code?
    pub ok: bool,
    /// Status code (e.g. `404` for "File not found").
    pub status: u16,
    /// Status text (e.g. "File not found" for status code `404`).
    pub status_text: String,
    /// The returned headers. All header names are lower-case.
    pub headers: Vec<(String, String)>,
}

impl PartialResponse {
    /// Completes the response with its body bytes.
    pub fn complete(self, bytes: Vec<u8>) -> (r: Response)
        ensures
            r.url == self.url,
            r.ok == self.ok,
            r.status == self.status,
            r.status_text == self.status_text,
            r.headers == self.headers,
            r.bytes == bytes,
    {
        let Self { url, ok, status, status_text, headers } = self;
        Response { url, ok, status, status_text, headers, bytes }
    }
}

} // verus!
