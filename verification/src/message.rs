//! Message types of the MOO protocol.
use vstd::prelude::*;
use vstd::string::*;
use crate::buffers::{bytes_contents, bytes_as_slice};
use crate::error::{owned, MooError};
use crate::text::{chars_of, find_char, find_from, lemma_find_from, text_eq};
use crate::json::{json_encoding, json_to_vec};
use crate::table::{
    entry_index, entry_index_from, keys_unique, law_table_insert_keeps_keys_unique, table_get,
    table_insert, Table,
};
use vstd::slice::slice_to_vec;

verus! {

/// MOO protocol verbs.
#[derive(Debug, Clone, Copy, PartialEq, Eq, Hash, Structural)]
pub enum MooVerb {
    /// Initial request message.
    Request,
    /// Continuation message (streaming response).
    Continue,
    /// Final response message.
    Complete,
}

/// The text of a verb on the wire.
pub open spec fn verb_text(v: MooVerb) -> Seq<char> {
    match v {
        MooVerb::Request => seq!['R', 'E', 'Q', 'U', 'E', 'S', 'T'],
        MooVerb::Continue => seq!['C', 'O', 'N', 'T', 'I', 'N', 'U', 'E'],
        MooVerb::Complete => seq!['C', 'O', 'M', 'P', 'L', 'E', 'T', 'E'],
    }
}

/// The verb that a text names, if any.
pub open spec fn verb_from_text(t: Seq<char>) -> Option<MooVerb> {
    if t == verb_text(MooVerb::Request) {
        Some(MooVerb::Request)
    } else if t == verb_text(MooVerb::Continue) {
        Some(MooVerb::Continue)
    } else if t == verb_text(MooVerb::Complete) {
        Some(MooVerb::Complete)
    } else {
        None
    }
}

/// Reading a verb's text gives the verb back.
pub proof fn lemma_verb_text_roundtrip(v: MooVerb)
    ensures
        verb_from_text(verb_text(v)) == Some(v),
{
    assert(verb_text(MooVerb::Request) != verb_text(MooVerb::Continue));
    assert(verb_text(MooVerb::Request)[0] != verb_text(MooVerb::Complete)[0]);
    assert(verb_text(MooVerb::Continue)[2] != verb_text(MooVerb::Complete)[2]);
}

impl MooVerb {
    /// Convert verb to string representation.
    pub fn as_str(&self) -> (r: &'static str)
        ensures
            r@ == verb_text(*self),
    {
        match self {
            MooVerb::Request => {
                proof {
                    reveal_strlit("REQUEST");
                }
                "REQUEST"
            },
            MooVerb::Continue => {
                proof {
                    reveal_strlit("CONTINUE");
                }
                "CONTINUE"
            },
            MooVerb::Complete => {
                proof {
                    reveal_strlit("COMPLETE");
                }
                "COMPLETE"
            },
        }
    }

    /// Reads a verb from its text; any other text is an `InvalidVerb` error
    /// that carries it.
    pub fn from_str(s: &str) -> (r: Result<MooVerb, MooError>)
        ensures
            match verb_from_text(s@) {
                Some(v) => r == Ok::<MooVerb, MooError>(v),
                None => r matches Err(MooError::InvalidVerb(t)) && t@ == s@,
            },
    {
        if text_eq(s, MooVerb::Request.as_str()) {
            Ok(MooVerb::Request)
        } else if text_eq(s, MooVerb::Continue.as_str()) {
            Ok(MooVerb::Continue)
        } else if text_eq(s, MooVerb::Complete.as_str()) {
            Ok(MooVerb::Complete)
        } else {
            Err(MooError::InvalidVerb(owned(s)))
        }
    }
}

impl std::str::FromStr for MooVerb {
    type Err = MooError;

    fn from_str(s: &str) -> (r: Result<MooVerb, MooError>)
        ensures
            match verb_from_text(s@) {
                Some(v) => r == Ok::<MooVerb, MooError>(v),
                None => r matches Err(MooError::InvalidVerb(t)) && t@ == s@,
            },
    {
        MooVerb::from_str(s)
    }
}

/// A header table as the model sees it: (name, value) pairs in order.
pub type HeaderSeq = Table<Seq<char>>;

/// The additional headers of a message, in the order they were set.
#[derive(Debug)]
pub struct MooHeaders {
    entries: Vec<(String, String)>,
}

impl View for MooHeaders {
    type V = HeaderSeq;

    closed spec fn view(&self) -> HeaderSeq {
        self.entries@.map_values(|p: (String, String)| (p.0@, p.1@))
    }
}

impl Clone for MooHeaders {
    /// The same headers, in the same order.
    fn clone(&self) -> (r: Self)
        ensures
            r@ == self@,
    {
        proof {
            use_type_invariant(self);
        }
        let mut es: Vec<(String, String)> = Vec::new();
        let n = self.entries.len();
        let mut i: usize = 0;
        while i < n
            invariant
                i <= n,
                n == self.entries@.len(),
                es@.len() == i,
                forall|j: int|
                    0 <= j < i ==> (#[trigger] es@[j]).0@ == self.entries@[j].0@ && es@[j].1@
                        == self.entries@[j].1@,
            decreases n - i,
        {
            let e = &self.entries[i];
            es.push((e.0.clone(), e.1.clone()));
            i = i + 1;
        }
        assert(es@.map_values(|p: (String, String)| (p.0@, p.1@)) =~= self@);
        MooHeaders { entries: es }
    }
}

impl MooHeaders {
    /// No header name occurs twice.
    #[verifier::type_invariant]
    spec fn names_are_distinct(self) -> bool {
        keys_unique(self@)
    }

    /// No headers.
    pub fn new() -> (r: MooHeaders)
        ensures
            r@ == HeaderSeq::empty(),
            keys_unique(r@),
    {
        let r = MooHeaders { entries: Vec::new() };
        assert(r@ =~= HeaderSeq::empty());
        r
    }

    /// The number of headers.
    pub fn len(&self) -> (r: usize)
        ensures
            r == self@.len(),
    {
        self.entries.len()
    }

    /// The `i`th header, as (name, value).
    pub fn entry(&self, i: usize) -> (r: (&str, &str))
        requires
            i < self@.len(),
        ensures
            r.0@ == self@[i as int].0,
            r.1@ == self@[i as int].1,
    {
        let e = &self.entries[i];
        (e.0.as_str(), e.1.as_str())
    }

    /// Where the name `k` stands, or the number of headers.
    fn position(&self, k: &str) -> (r: usize)
        ensures
            r == entry_index(self@, k@),
    {
        let mut i: usize = 0;
        while i < self.entries.len()
            invariant
                i <= self@.len(),
                self@.len() == self.entries@.len(),
                entry_index(self@, k@) == entry_index_from(self@, k@, i as int),
            decreases self@.len() - i,
        {
            if text_eq(self.entries[i].0.as_str(), k) {
                return i;
            }
            i = i + 1;
        }
        i
    }

    /// Sets header `key` to `value`.
    pub fn insert(&mut self, key: String, value: String)
        ensures
            final(self)@ == table_insert(old(self)@, key@, value@),
            keys_unique(final(self)@),
    {
        proof {
            use_type_invariant(&*self);
            law_table_insert_keeps_keys_unique(self@, key@, value@);
        }
        let i = self.position(key.as_str());
        let ghost k = key@;
        let ghost v = value@;
        let mut es: Vec<(String, String)> = Vec::new();
        std::mem::swap(&mut es, &mut self.entries);
        if i < es.len() {
            es.set(i, (key, value));
        } else {
            es.push((key, value));
        }
        assert(es@.map_values(|p: (String, String)| (p.0@, p.1@)) =~= table_insert(
            old(self)@,
            k,
            v,
        ));
        self.entries = es;
    }

    /// The value of header `key`, if it is set.
    pub fn get(&self, key: &str) -> (r: Option<&str>)
        ensures
            match table_get(self@, key@) {
                Some(v) => r matches Some(x) && x@ == v,
                None => r is None,
            },
    {
        let i = self.position(key);
        if i < self.entries.len() {
            Some(self.entries[i].1.as_str())
        } else {
            None
        }
    }
}

/// Body content of a MOO message.
#[derive(Debug, Clone)]
pub enum MooBody {
    /// JSON body.
    Json(serde_json::Value),
    /// Binary body.
    Binary(bytes::Bytes),
}

/// What a body holds: a JSON value, or bytes.
pub enum BodyModel {
    Json(serde_json::Value),
    Binary(Seq<u8>),
}

impl View for MooBody {
    type V = BodyModel;

    open spec fn view(&self) -> BodyModel {
        match self {
            MooBody::Json(v) => BodyModel::Json(*v),
            MooBody::Binary(b) => BodyModel::Binary(bytes_contents(*b)),
        }
    }
}

/// The bytes that a body puts on the wire, or `None` where `serde_json`
/// cannot write its JSON value.
pub open spec fn body_bytes(b: BodyModel) -> Option<Seq<u8>> {
    match b {
        BodyModel::Json(v) => json_encoding(v),
        BodyModel::Binary(x) => Some(x),
    }
}

/// The Content-Type of a body.
pub open spec fn body_content_type(b: BodyModel) -> Seq<char> {
    match b {
        BodyModel::Json(_) => "application/json"@,
        BodyModel::Binary(_) => "application/octet-stream"@,
    }
}

/// The length that `MooBody::len` reports.
pub open spec fn body_len(b: BodyModel) -> nat {
    match body_bytes(b) {
        Some(x) => x.len(),
        None => 0,
    }
}

impl MooBody {
    /// Get the body as JSON, returning an error if it's binary.
    pub fn as_json(&self) -> (r: Result<&serde_json::Value, MooError>)
        ensures
            match self {
                MooBody::Json(v) => r == Ok::<&serde_json::Value, MooError>(v),
                MooBody::Binary(_) => r matches Err(MooError::WrongBodyType(m)) && m@
                    == "expected JSON, got binary"@,
            },
    {
        match self {
            MooBody::Json(v) => Ok(v),
            MooBody::Binary(_) => Err(MooError::wrong_body_type("expected JSON, got binary")),
        }
    }

    /// Get the body as binary, returning an error if it's JSON.
    pub fn as_binary(&self) -> (r: Result<&bytes::Bytes, MooError>)
        ensures
            match self {
                MooBody::Binary(b) => r == Ok::<&bytes::Bytes, MooError>(b),
                MooBody::Json(_) => r matches Err(MooError::WrongBodyType(m)) && m@
                    == "expected binary, got JSON"@,
            },
    {
        match self {
            MooBody::Binary(b) => Ok(b),
            MooBody::Json(_) => Err(MooError::wrong_body_type("expected binary, got JSON")),
        }
    }

    /// Get the Content-Type for this body.
    pub fn content_type(&self) -> (r: &'static str)
        ensures
            r@ == body_content_type(self@),
    {
        match self {
            MooBody::Json(_) => "application/json",
            MooBody::Binary(_) => "application/octet-stream",
        }
    }

    /// The bytes this body puts on the wire (`serde_json` writes every JSON
    /// value, so this always succeeds).
    pub fn to_bytes(&self) -> (r: Result<Vec<u8>, MooError>)
        ensures
            match body_bytes(self@) {
                Some(x) => r matches Ok(v) && v@ == x,
                None => r matches Err(MooError::Json(_)),
            },
            r is Ok,
            self is Json ==> (r matches Ok(v) ==> v@.len() > 0),
    {
        match self {
            MooBody::Json(v) => match json_to_vec(v) {
                Ok(b) => Ok(b),
                Err(e) => Err(MooError::Json(e)),
            },
            MooBody::Binary(b) => Ok(slice_to_vec(bytes_as_slice(b))),
        }
    }

    /// Get the length of the body in bytes. A JSON body is never empty.
    pub fn len(&self) -> (r: usize)
        ensures
            r == body_len(self@),
            self is Json ==> r > 0,
    {
        match self.to_bytes() {
            Ok(b) => b.len(),
            Err(_) => 0,
        }
    }

    /// Check if the body is empty.
    pub fn is_empty(&self) -> (r: bool)
        ensures
            r == (body_len(self@) == 0),
            self is Json ==> !r,
    {
        self.len() == 0
    }
}

/// A MOO protocol message.
#[derive(Debug, Clone)]
pub struct MooMessage {
    /// The message verb (REQUEST, CONTINUE, or COMPLETE).
    pub verb: MooVerb,
    /// The request ID for matching responses to requests.
    pub request_id: String,
    /// The name/path of the request (e.g., "com.roon.app/ping").
    pub name: String,
    /// Additional headers.
    pub headers: MooHeaders,
    /// Optional message body.
    pub body: Option<MooBody>,
}

/// The service and method that a name splits into at its first `/`.
pub open spec fn split_service(name: Seq<char>) -> Option<(Seq<char>, Seq<char>)> {
    let i = find_from(name, '/', 0, name.len() as int);
    if i < name.len() {
        Some((name.take(i), name.skip(i + 1)))
    } else {
        None
    }
}

/// Law: a name that holds a `/` splits into the text before its first `/`
/// (which holds none) and the text after it, which joined by `/` give the
/// name back; a name without `/` does not split.
pub proof fn law_split_at_first_slash(name: Seq<char>)
    ensures
        match split_service(name) {
            Some((s, m)) => s + seq!['/'] + m == name && !s.contains('/'),
            None => !name.contains('/'),
        },
{
    let i = find_from(name, '/', 0, name.len() as int);
    lemma_find_from(name, '/', 0, name.len() as int);
    if i < name.len() {
        let s = name.take(i);
        assert(s + seq!['/'] + name.skip(i + 1) =~= name);
        assert forall|t: int| 0 <= t < s.len() implies s[t] != '/' by {}
    } else {
        assert forall|t: int| 0 <= t < name.len() implies name[t] != '/' by {}
    }
}

impl MooMessage {
    /// A message of the given verb with no headers and no body.
    pub fn new(verb: MooVerb, request_id: String, name: String) -> (r: Self)
        ensures
            r.verb == verb,
            r.request_id@ == request_id@,
            r.name@ == name@,
            r.headers@ == HeaderSeq::empty(),
            r.body is None,
    {
        MooMessage { verb, request_id, name, headers: MooHeaders::new(), body: None }
    }

    /// Create a new REQUEST message.
    pub fn request(request_id: String, name: String) -> (r: Self)
        ensures
            r.verb == MooVerb::Request,
            r.request_id@ == request_id@,
            r.name@ == name@,
            r.headers@ == HeaderSeq::empty(),
            r.body is None,
    {
        Self::new(MooVerb::Request, request_id, name)
    }

    /// Create a new CONTINUE message.
    pub fn continue_msg(request_id: String, name: String) -> (r: Self)
        ensures
            r.verb == MooVerb::Continue,
            r.request_id@ == request_id@,
            r.name@ == name@,
            r.headers@ == HeaderSeq::empty(),
            r.body is None,
    {
        Self::new(MooVerb::Continue, request_id, name)
    }

    /// Create a new COMPLETE message.
    pub fn complete(request_id: String, name: String) -> (r: Self)
        ensures
            r.verb == MooVerb::Complete,
            r.request_id@ == request_id@,
            r.name@ == name@,
            r.headers@ == HeaderSeq::empty(),
            r.body is None,
    {
        Self::new(MooVerb::Complete, request_id, name)
    }

    /// Get the body as JSON if present.
    pub fn body_json(&self) -> (r: Option<Result<&serde_json::Value, MooError>>)
        ensures
            match self.body {
                None => r is None,
                Some(MooBody::Json(v)) => r == Some(Ok::<&serde_json::Value, MooError>(&v)),
                Some(MooBody::Binary(_)) => r matches Some(Err(MooError::WrongBodyType(m))) && m@
                    == "expected JSON, got binary"@,
            },
    {
        match &self.body {
            Some(b) => Some(b.as_json()),
            None => None,
        }
    }

    /// Get the body as binary if present.
    pub fn body_binary(&self) -> (r: Option<Result<&bytes::Bytes, MooError>>)
        ensures
            match self.body {
                None => r is None,
                Some(MooBody::Binary(b)) => r == Some(Ok::<&bytes::Bytes, MooError>(&b)),
                Some(MooBody::Json(_)) => r matches Some(Err(MooError::WrongBodyType(m))) && m@
                    == "expected binary, got JSON"@,
            },
    {
        match &self.body {
            Some(b) => Some(b.as_binary()),
            None => None,
        }
    }

    /// Parse the name into service and method components.
    /// For example, "com.roon.app/ping" returns ("com.roon.app", "ping").
    pub fn service_method(&self) -> (r: Option<(&str, &str)>)
        ensures
            match split_service(self.name@) {
                None => r is None,
                Some((s, m)) => r matches Some((a, b)) && a@ == s && b@ == m,
            },
            match r {
                Some((a, b)) => a@ + seq!['/'] + b@ == self.name@ && !a@.contains('/'),
                None => !self.name@.contains('/'),
            },
    {
        proof {
            law_split_at_first_slash(self.name@);
        }
        let name = self.name.as_str();
        let cs = chars_of(name);
        let i = find_char(&cs, '/', 0, cs.len());
        proof {
            lemma_find_from(cs@, '/', 0, cs@.len() as int);
        }
        if i < cs.len() {
            let s = name.substring_char(0, i);
            let m = name.substring_char(i + 1, cs.len());
            assert(name@.subrange(0, i as int) == name@.take(i as int));
            assert(name@.subrange(i + 1, cs@.len() as int) == name@.skip(i + 1));
            Some((s, m))
        } else {
            None
        }
    }

    /// Get the service portion of the name.
    pub fn service(&self) -> (r: Option<&str>)
        ensures
            match split_service(self.name@) {
                None => r is None,
                Some((s, _)) => r matches Some(a) && a@ == s,
            },
    {
        match self.service_method() {
            Some((s, _)) => Some(s),
            None => None,
        }
    }

    /// Get the method portion of the name.
    pub fn method(&self) -> (r: Option<&str>)
        ensures
            match split_service(self.name@) {
                None => r is None,
                Some((_, m)) => r matches Some(b) && b@ == m,
            },
    {
        match self.service_method() {
            Some((_, m)) => Some(m),
            None => None,
        }
    }

    /// Add a header to the message.
    pub fn with_header(self, key: String, value: String) -> (r: Self)
        ensures
            r.verb == self.verb,
            r.request_id == self.request_id,
            r.name == self.name,
            r.headers@ == table_insert(self.headers@, key@, value@),
            r.body == self.body,
    {
        let mut m = self;
        m.headers.insert(key, value);
        m
    }

    /// Set the body to a JSON value.
    pub fn with_json_body(self, value: serde_json::Value) -> (r: Self)
        ensures
            r.verb == self.verb,
            r.request_id == self.request_id,
            r.name == self.name,
            r.headers == self.headers,
            r.body == Some(MooBody::Json(value)),
    {
        let mut m = self;
        m.body = Some(MooBody::Json(value));
        m
    }

    /// Set the body to binary data.
    pub fn with_binary_body(self, data: bytes::Bytes) -> (r: Self)
        ensures
            r.verb == self.verb,
            r.request_id == self.request_id,
            r.name == self.name,
            r.headers == self.headers,
            r.body == Some(MooBody::Binary(data)),
    {
        let mut m = self;
        m.body = Some(MooBody::Binary(data));
        m
    }

    /// Get a header value.
    pub fn header(&self, key: &str) -> (r: Option<&str>)
        ensures
            match table_get(self.headers@, key@) {
                Some(v) => r matches Some(x) && x@ == v,
                None => r is None,
            },
    {
        self.headers.get(key)
    }
}

} // verus!
