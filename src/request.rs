//! The request model: method, path, header fields and body.
use vstd::prelude::*;
use crate::headers::HeaderMap;
use crate::text::{range_equals, text_from_bytes, utf8_lossy};

verus! {

/// The request methods that are recognised.
#[derive(Copy, Clone, Debug, PartialEq, Eq, Structural)]
pub enum HttpMethod {
    GET,
    HEAD,
    POST,
    PUT,
    PATCH,
    OPTIONS,
    TRACE,
}

/// The canonical upper-case spelling of a method, as bytes.
pub open spec fn method_keyword(m: HttpMethod) -> Seq<u8> {
    match m {
        HttpMethod::GET => seq![71u8, 69, 84],
        HttpMethod::HEAD => seq![72u8, 69, 65, 68],
        HttpMethod::POST => seq![80u8, 79, 83, 84],
        HttpMethod::PUT => seq![80u8, 85, 84],
        HttpMethod::PATCH => seq![80u8, 65, 84, 67, 72],
        HttpMethod::OPTIONS => seq![79u8, 80, 84, 73, 79, 78, 83],
        HttpMethod::TRACE => seq![84u8, 82, 65, 67, 69],
    }
}

/// The method whose spelling is exactly `w`, if any.
pub open spec fn method_of(w: Seq<u8>) -> Option<HttpMethod> {
    if w == method_keyword(HttpMethod::GET) {
        Some(HttpMethod::GET)
    } else if w == method_keyword(HttpMethod::HEAD) {
        Some(HttpMethod::HEAD)
    } else if w == method_keyword(HttpMethod::POST) {
        Some(HttpMethod::POST)
    } else if w == method_keyword(HttpMethod::PUT) {
        Some(HttpMethod::PUT)
    } else if w == method_keyword(HttpMethod::PATCH) {
        Some(HttpMethod::PATCH)
    } else if w == method_keyword(HttpMethod::OPTIONS) {
        Some(HttpMethod::OPTIONS)
    } else if w == method_keyword(HttpMethod::TRACE) {
        Some(HttpMethod::TRACE)
    } else {
        None
    }
}

/// Each spelling names its own method.
pub proof fn lemma_method_of_keyword(m: HttpMethod)
    ensures
        method_of(method_keyword(m)) == Some(m),
{
    let k = method_keyword(m);
    let g = method_keyword(HttpMethod::GET);
    let h = method_keyword(HttpMethod::HEAD);
    let p = method_keyword(HttpMethod::POST);
    let u = method_keyword(HttpMethod::PUT);
    let a = method_keyword(HttpMethod::PATCH);
    let o = method_keyword(HttpMethod::OPTIONS);
    assert(k[0] != g[0] || k[1] != g[1] || k =~= g);
    assert(k[0] != h[0] || k[1] != h[1] || k.len() != h.len() || k =~= h);
    assert(k[0] != p[0] || k[1] != p[1] || k =~= p);
    assert(k[0] != u[0] || k[1] != u[1] || k =~= u);
    assert(k[0] != a[0] || k[1] != a[1] || k =~= a);
    assert(k[0] != o[0] || k =~= o);
}

impl HttpMethod {
    /// The canonical spelling of this method.
    pub fn keyword(&self) -> (r: Vec<u8>)
        ensures
            r@ == method_keyword(*self),
    {
        let r = match self {
            HttpMethod::GET => vec![71u8, 69, 84],
            HttpMethod::HEAD => vec![72u8, 69, 65, 68],
            HttpMethod::POST => vec![80u8, 79, 83, 84],
            HttpMethod::PUT => vec![80u8, 85, 84],
            HttpMethod::PATCH => vec![80u8, 65, 84, 67, 72],
            HttpMethod::OPTIONS => vec![79u8, 80, 84, 73, 79, 78, 83],
            HttpMethod::TRACE => vec![84u8, 82, 65, 67, 69],
        };
        assert(r@ =~= method_keyword(*self));
        r
    }

    /// The method spelled by the bytes of `s` in `start..end`.
    pub(crate) fn from_range(s: &[u8], start: usize, end: usize) -> (r: Option<HttpMethod>)
        requires
            start <= end <= s@.len(),
        ensures
            r == method_of(s@.subrange(start as int, end as int)),
    {
        let all = [
            HttpMethod::GET,
            HttpMethod::HEAD,
            HttpMethod::POST,
            HttpMethod::PUT,
            HttpMethod::PATCH,
            HttpMethod::OPTIONS,
            HttpMethod::TRACE,
        ];
        let ghost w = s@.subrange(start as int, end as int);
        let mut i: usize = 0;
        while i < 7
            invariant
                i <= 7,
                start <= end <= s@.len(),
                w == s@.subrange(start as int, end as int),
                all@ == seq![
                    HttpMethod::GET,
                    HttpMethod::HEAD,
                    HttpMethod::POST,
                    HttpMethod::PUT,
                    HttpMethod::PATCH,
                    HttpMethod::OPTIONS,
                    HttpMethod::TRACE,
                ],
                forall|k: int| 0 <= k < i ==> w != method_keyword(#[trigger] all@[k]),
            decreases 7 - i,
        {
            let kw = all[i].keyword();
            if range_equals(s, start, end, kw.as_slice()) {
                return Some(all[i]);
            }
            i = i + 1;
        }
        assert(w != method_keyword(all@[0]));
        assert(w != method_keyword(all@[1]));
        assert(w != method_keyword(all@[2]));
        assert(w != method_keyword(all@[3]));
        assert(w != method_keyword(all@[4]));
        assert(w != method_keyword(all@[5]));
        assert(w != method_keyword(all@[6]));
        None
    }

    /// The method spelled exactly by `w`.
    pub fn from_bytes(w: &[u8]) -> (r: Option<HttpMethod>)
        ensures
            r == method_of(w@),
    {
        assert(w@.subrange(0, w@.len() as int) =~= w@);
        HttpMethod::from_range(w, 0, w.len())
    }
}

impl std::str::FromStr for HttpMethod {
    type Err = ();

    fn from_str(input: &str) -> Result<HttpMethod, ()> {
        match HttpMethod::from_bytes(input.as_bytes()) {
            Some(m) => Ok(m),
            None => Err(()),
        }
    }
}

/// The bytes of a request body.
#[derive(Debug)]
pub struct HttpBody {
    content: Vec<u8>,
}

impl View for HttpBody {
    type V = Seq<u8>;

    closed spec fn view(&self) -> Seq<u8> {
        self.content@
    }
}

impl HttpBody {
    /// An empty body.
    pub fn new() -> (r: HttpBody)
        ensures
            r@ == Seq::<u8>::empty(),
    {
        HttpBody { content: Vec::new() }
    }

    /// A body holding a copy of `content`.
    pub fn from_content(content: &Vec<u8>) -> (r: HttpBody)
        ensures
            r@ == content@,
    {
        HttpBody { content: crate::text::copy_range(content.as_slice(), 0, content.len()) }
    }

    /// The body decoded as UTF-8, invalid sequences replaced.
    pub fn as_str(&self) -> (r: String)
        ensures
            r@ == utf8_lossy(self@),
    {
        text_from_bytes(self.content.as_slice())
    }

    /// The raw bytes of the body.
    pub fn bytes(&self) -> (r: &[u8])
        ensures
            r@ == self@,
    {
        self.content.as_slice()
    }
}

/// What a request holds: method, path, header mapping and body.
pub struct RequestModel {
    pub method: HttpMethod,
    pub path: Seq<char>,
    pub headers: Map<Seq<char>, Seq<char>>,
    pub body: Seq<u8>,
}

/// A parsed HTTP request.
#[derive(Debug)]
pub struct HttpRequest {
    pub method: HttpMethod,
    pub path: String,
    headers: HeaderMap,
    body: HttpBody,
}

impl View for HttpRequest {
    type V = RequestModel;

    closed spec fn view(&self) -> RequestModel {
        RequestModel {
            method: self.method,
            path: self.path@,
            headers: self.headers.view(),
            body: self.body@,
        }
    }
}

impl HttpRequest {
    /// A request with no header fields and an empty body.
    pub fn new(method: HttpMethod, path: &str) -> (r: HttpRequest)
        ensures
            r@ == (RequestModel {
                method,
                path: path@,
                headers: Map::empty(),
                body: Seq::empty(),
            }),
    {
        HttpRequest {
            method,
            path: path.to_owned(),
            headers: HeaderMap::new(),
            body: HttpBody::new(),
        }
    }

    /// The method (the public field `method`).
    pub fn method(&self) -> (r: HttpMethod)
        ensures
            r == self@.method,
    {
        self.method
    }

    /// The path (the public field `path`).
    pub fn path(&self) -> (r: &String)
        ensures
            r@ == self@.path,
    {
        &self.path
    }

    /// Sets header `name` to `value`, replacing an earlier value.
    pub fn set_header(&mut self, name: &str, value: &str)
        ensures
            final(self)@ == (RequestModel {
                headers: old(self)@.headers.insert(name@, value@),
                ..old(self)@
            }),
    {
        self.headers.insert(name.to_owned(), value.to_owned());
    }

    /// The value of header `name` (exact match), if present.
    pub fn header(&self, name: &str) -> (r: Option<&String>)
        ensures
            r.is_some() == self@.headers.contains_key(name@),
            r.is_some() ==> r.unwrap()@ == self@.headers[name@],
    {
        let key = name.to_owned();
        self.headers.get(&key)
    }

    /// The body decoded as UTF-8, invalid sequences replaced.
    pub fn body_as_string(&self) -> (r: String)
        ensures
            r@ == utf8_lossy(self@.body),
    {
        self.body.as_str()
    }

    /// The raw bytes of the body.
    pub fn body(&self) -> (r: &[u8])
        ensures
            r@ == self@.body,
    {
        self.body.bytes()
    }
}

/// A request under construction.
pub struct HttpRequestBuilder {
    method: HttpMethod,
    path: String,
    headers: HeaderMap,
    body: HttpBody,
}

impl View for HttpRequestBuilder {
    type V = RequestModel;

    closed spec fn view(&self) -> RequestModel {
        RequestModel {
            method: self.method,
            path: self.path@,
            headers: self.headers.view(),
            body: self.body@,
        }
    }
}

impl HttpRequestBuilder {
    /// Method GET, empty path, no header fields, empty body.
    pub fn new() -> (r: HttpRequestBuilder)
        ensures
            r@ == (RequestModel {
                method: HttpMethod::GET,
                path: Seq::empty(),
                headers: Map::empty(),
                body: Seq::empty(),
            }),
    {
        HttpRequestBuilder {
            method: HttpMethod::GET,
            path: String::new(),
            headers: HeaderMap::new(),
            body: HttpBody::new(),
        }
    }

    pub fn with_method(&mut self, method: HttpMethod) -> (r: &mut HttpRequestBuilder)
        ensures
            r@ == (RequestModel { method, ..old(self)@ }),
            *final(self) == *final(r),
    {
        self.method = method;
        self
    }

    pub fn with_path(&mut self, path: &str) -> (r: &mut HttpRequestBuilder)
        ensures
            r@ == (RequestModel { path: path@, ..old(self)@ }),
            *final(self) == *final(r),
    {
        self.path = path.to_owned();
        self
    }

    /// Sets header `name` to `value`, replacing an earlier value.
    pub fn with_header(&mut self, name: &str, value: &str) -> (r: &mut HttpRequestBuilder)
        ensures
            r@ == (RequestModel {
                headers: old(self)@.headers.insert(name@, value@),
                ..old(self)@
            }),
            *final(self) == *final(r),
    {
        self.headers.insert(name.to_owned(), value.to_owned());
        self
    }

    pub fn with_body(&mut self, content: &Vec<u8>) -> (r: &mut HttpRequestBuilder)
        ensures
            r@ == (RequestModel { body: content@, ..old(self)@ }),
            *final(self) == *final(r),
    {
        self.body = HttpBody::from_content(content);
        self
    }

    /// The finished request.
    pub fn build(self) -> (r: HttpRequest)
        ensures
            r@ == self@,
    {
        HttpRequest { method: self.method, path: self.path, headers: self.headers, body: self.body }
    }
}

} // verus!
