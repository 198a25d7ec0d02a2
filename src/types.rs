//! The values that cross the library's boundary.

use vstd::prelude::*;

verus! {

/// A request path as the client sent it; absolute, with a leading `/`.
#[derive(Debug)]
pub struct UrlPath(pub String);

/// A file found under the content root.
#[derive(Debug)]
pub struct FileContent {
    /// Path relative to the content root, segments joined by `/`.
    pub path: String,
    /// Last segment without its extension.
    pub name: String,
    /// Last segment's extension, without the dot; empty when it has none.
    pub extension: String,
    pub content: Vec<u8>,
}

/// The one reply produced for each request.
#[derive(Debug)]
pub enum WebResponse {
    NotFound,
    Redirect(String),
    Content(WebContent),
}

/// A rendered body, tagged with what it holds.
#[derive(Debug)]
pub enum WebContent {
    Html(Vec<u8>),
    Css(Vec<u8>),
    JavaScript(Vec<u8>),
    Jpeg(Vec<u8>),
    Png(Vec<u8>),
    Wasm(Vec<u8>),
    Ico(Vec<u8>),
    Svg(Vec<u8>),
    Woff2(Vec<u8>),
}

impl WebContent {
    /// The bytes carried, whatever the tag.
    pub open spec fn payload(&self) -> Seq<u8> {
        match self {
            WebContent::Html(b) => b@,
            WebContent::Css(b) => b@,
            WebContent::JavaScript(b) => b@,
            WebContent::Jpeg(b) => b@,
            WebContent::Png(b) => b@,
            WebContent::Wasm(b) => b@,
            WebContent::Ico(b) => b@,
            WebContent::Svg(b) => b@,
            WebContent::Woff2(b) => b@,
        }
    }
}

/// Headers and body of a response.
#[derive(Debug)]
pub struct ResponseContent {
    pub headers: Vec<(String, String)>,
    pub data: Vec<u8>,
}

/// Per-subtree settings: custom response headers, keys unique.
#[derive(Debug)]
pub struct Configuration {
    pub headers: Option<Vec<(String, String)>>,
}

/// No header name appears twice.
pub open spec fn unique_keys(h: Seq<(String, String)>) -> bool {
    forall|i: int, j: int| 0 <= i < j < h.len() ==> (#[trigger] h[i]).0@ != (#[trigger] h[j]).0@
}

impl Configuration {
    pub open spec fn wf(&self) -> bool {
        self.headers matches Some(h) ==> unique_keys(h@)
    }

    /// A configuration with the given headers; `None` when a header name
    /// appears twice.
    pub fn new(headers: Option<Vec<(String, String)>>) -> (r: Option<Configuration>)
        ensures
            r is Some <==> (headers matches Some(h) ==> unique_keys(h@)),
            r matches Some(c) ==> c.headers == headers && c.wf(),
    {
        match headers {
            Some(h) => if has_unique_keys(&h) {
                Some(Configuration { headers: Some(h) })
            } else {
                None
            },
            None => Some(Configuration { headers: None }),
        }
    }
}

/// Whether no header name appears twice.
fn has_unique_keys(h: &Vec<(String, String)>) -> (r: bool)
    ensures
        r == unique_keys(h@),
{
    let mut i: usize = 0;
    while i < h.len()
        invariant
            i <= h.len(),
            forall|a: int, b: int| 0 <= a < i && a < b < h.len() ==> (#[trigger] h@[a]).0@ != (#[trigger] h@[b]).0@,
        decreases h.len() - i,
    {
        let mut j: usize = i + 1;
        while j < h.len()
            invariant
                i < h.len(),
                i + 1 <= j <= h.len(),
                forall|a: int, b: int| 0 <= a < i && a < b < h.len() ==> (#[trigger] h@[a]).0@ != (#[trigger] h@[b]).0@,
                forall|b: int| i < b < j ==> h@[i as int].0@ != (#[trigger] h@[b]).0@,
            decreases h.len() - j,
        {
            if h[i].0 == h[j].0 {
                assert(h@[i as int].0@ == h@[j as int].0@);
                return false;
            }
            j = j + 1;
        }
        i = i + 1;
    }
    true
}

} // verus!
