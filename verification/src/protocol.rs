//! The MOO wire format: a stateful parser and a message builder.
use vstd::prelude::*;
use vstd::string::*;
use vstd::utf8::*;
use crate::error::{owned, MooError};
use crate::message::{
    verb_from_text, verb_text, HeaderSeq, MooBody, MooHeaders, MooMessage, MooVerb,
};
use crate::table::table_insert;
use crate::buffers::{
    bytes_contents, bytes_copy_from_slice, bytes_mut_advance, bytes_mut_as_slice, bytes_mut_clear,
    bytes_mut_contents, bytes_mut_new, bytes_mut_put_slice,
};
use crate::json::{json_decoding, json_from_str};
use crate::message::{body_bytes, body_content_type, BodyModel};
use crate::text::{decimal, decimal_string, lemma_encode_utf8_concat, push_bytes, push_text};
use crate::text::{
    chars_of, find_char, find_from, is_control, is_control_char, is_whitespace,
    is_whitespace_char, lemma_find_from, lemma_find_from_subrange, parse_usize, parse_usize_spec,
    range_is, concat_text, str_from_utf8, text_eq,
};

verus! {

/// Maximum size for a single MOO message (headers + body).
pub const MAX_MESSAGE_SIZE: usize = 104857600;

/// The first `i >= from` where `buf[i]` and `buf[i + 1]` are both `\n`.
pub open spec fn header_end_from(buf: Seq<u8>, from: int) -> Option<int>
    decreases buf.len() - from,
{
    if from + 1 >= buf.len() {
        None
    } else if buf[from] == 10 && buf[from + 1] == 10 {
        Some(from)
    } else {
        header_end_from(buf, from + 1)
    }
}

/// Where the blank line that ends the header section starts: the first `\n`
/// of the first `\n\n`.
pub open spec fn header_end(buf: Seq<u8>) -> Option<int> {
    header_end_from(buf, 0)
}

pub proof fn lemma_header_end_from(buf: Seq<u8>, from: int)
    requires
        0 <= from,
    ensures
        header_end_from(buf, from) matches Some(i) ==> from <= i && i + 1 < buf.len() && buf[i]
            == 10 && buf[i + 1] == 10 && forall|j: int|
            from <= j < i ==> !(buf[j] == 10 && #[trigger] buf[j + 1] == 10),
        header_end_from(buf, from) is None ==> forall|j: int|
            from <= j && j + 1 < buf.len() ==> !(buf[j] == 10 && #[trigger] buf[j + 1] == 10),
    decreases buf.len() - from,
{
    if from + 1 < buf.len() && !(buf[from] == 10 && buf[from + 1] == 10) {
        lemma_header_end_from(buf, from + 1);
    }
}

/// Find the position of the blank line that ends the header section.
/// Returns the position of the first \n in the \n\n sequence.
pub fn find_header_end(buf: &[u8]) -> (r: Option<usize>)
    ensures
        match r {
            Some(i) => header_end(buf@) == Some(i as int),
            None => header_end(buf@) is None,
        },
{
    let n = buf.len();
    let mut i: usize = 0;
    while n > 0 && i < n - 1
        invariant
            n == buf@.len(),
            i <= n,
            header_end(buf@) == header_end_from(buf@, i as int),
        decreases n - i,
    {
        if buf[i] == 10u8 && buf[i + 1] == 10u8 {
            return Some(i);
        }
        i = i + 1;
    }
    None
}

/// Where the line starting at `p` stops: its `\n`, or the end of the text.
pub open spec fn line_stop(s: Seq<char>, p: int) -> int {
    find_from(s, '\n', p, s.len() as int)
}

/// Where the content of the line starting at `p` ends: a `\r` just before
/// its `\n` is not part of it.
pub open spec fn line_end(s: Seq<char>, p: int) -> int {
    let e = line_stop(s, p);
    if e < s.len() && e > p && s[e - 1] == '\r' {
        e - 1
    } else {
        e
    }
}

/// The line starting at `p`, as `str::lines` gives it.
pub open spec fn line_text(s: Seq<char>, p: int) -> Seq<char> {
    s.subrange(p, line_end(s, p))
}

/// Where the line after the one at `p` starts.
pub open spec fn next_line(s: Seq<char>, p: int) -> int {
    line_stop(s, p) + 1
}

/// How a malformed header section is reported.
pub enum Failure {
    ProtocolViolation(Seq<char>),
    InvalidHeader(Seq<char>),
    MissingHeader(Seq<char>),
    VersionMismatch(Seq<char>),
    InvalidVerb(Seq<char>),
    InvalidContentLength(Seq<char>),
}

/// `e` is the error that reports `f`.
pub open spec fn reports(e: MooError, f: Failure) -> bool {
    match f {
        Failure::ProtocolViolation(m) => e matches MooError::ProtocolViolation(t) && t@ == m,
        Failure::InvalidHeader(m) => e matches MooError::InvalidHeader(t) && t@ == m,
        Failure::MissingHeader(m) => e matches MooError::MissingHeader(t) && t@ == m,
        Failure::VersionMismatch(m) => e matches MooError::VersionMismatch(t) && t@ == m,
        Failure::InvalidVerb(m) => e matches MooError::InvalidVerb(t) && t@ == m,
        Failure::InvalidContentLength(m) => e matches MooError::InvalidContentLength(t) && t@
            == m,
    }
}

/// `s` holds some character that `p` accepts.
pub open spec fn has_whitespace(s: Seq<char>) -> bool {
    exists|k: int| 0 <= k < s.len() && #[trigger] is_whitespace_char(s[k])
}

/// Reads `MOO/1 VERB NAME` as `splitn(3, ' ')` splits it.
pub open spec fn parse_first_line_spec(line: Seq<char>) -> Result<(MooVerb, Seq<char>), Failure> {
    let n = line.len() as int;
    let i = find_from(line, ' ', 0, n);
    let j = find_from(line, ' ', i + 1, n);
    if i >= n || j >= n {
        Err(Failure::ProtocolViolation("Invalid first line: "@ + line))
    } else if line.subrange(0, i) != "MOO/1"@ {
        Err(Failure::VersionMismatch(line.subrange(0, i)))
    } else {
        match verb_from_text(line.subrange(i + 1, j)) {
            None => Err(Failure::InvalidVerb(line.subrange(i + 1, j))),
            Some(v) => {
                let name = line.subrange(j + 1, n);
                if has_whitespace(name) {
                    Err(Failure::ProtocolViolation("Name contains whitespace: "@ + name))
                } else {
                    Ok((v, name))
                }
            },
        }
    }
}

/// The content bounds of the line at `p`: where its content ends, and
/// where it stops.
fn line_bounds(cs: &Vec<char>, p: usize) -> (r: (usize, usize))
    requires
        p <= cs@.len(),
    ensures
        r.0 == line_end(cs@, p as int),
        r.1 == line_stop(cs@, p as int),
        p <= r.0 <= r.1 <= cs@.len(),
{
    let e = find_char(cs, '\n', p, cs.len());
    proof {
        lemma_find_from(cs@, '\n', p as int, cs@.len() as int);
    }
    if e < cs.len() && e > p && cs[e - 1] == '\r' {
        (e - 1, e)
    } else {
        (e, e)
    }
}

/// Reads the first line, `text[..le]`.
#[verifier::loop_isolation(false)]
fn parse_first_line(text: &str, cs: &Vec<char>, le: usize) -> (r: Result<(MooVerb, String), MooError>)
    requires
        cs@ == text@,
        le <= cs@.len(),
    ensures
        match parse_first_line_spec(cs@.subrange(0, le as int)) {
            Ok((v, n)) => r matches Ok((v2, s)) && v2 == v && s@ == n,
            Err(f) => r matches Err(e) && reports(e, f),
        },
{
    let ghost line = cs@.subrange(0, le as int);
    let i = find_char(cs, ' ', 0, le);
    proof {
        lemma_find_from(cs@, ' ', 0, le as int);
        lemma_find_from_subrange(cs@, ' ', 0, le as int, 0, le as int);
    }
    let j = if i < le {
        find_char(cs, ' ', i + 1, le)
    } else {
        le
    };
    proof {
        if i < le {
            lemma_find_from(cs@, ' ', i + 1, le as int);
            lemma_find_from_subrange(cs@, ' ', 0, le as int, i + 1, le as int);
        }
    }
    if i >= le || j >= le {
        let l = text.substring_char(0, le);
        return Err(MooError::ProtocolViolation(concat_text("Invalid first line: ", l)));
    }
    assert(line.subrange(0, i as int) =~= cs@.subrange(0, i as int));
    assert(line.subrange(i + 1, j as int) =~= cs@.subrange(i + 1, j as int));
    assert(line.subrange(j + 1, le as int) =~= cs@.subrange(j + 1, le as int));
    let version = chars_of("MOO/1");
    if !range_is(cs, 0, i, &version) {
        return Err(MooError::VersionMismatch(owned(text.substring_char(0, i))));
    }
    let verb = match MooVerb::from_str(text.substring_char(i + 1, j)) {
        Ok(v) => v,
        Err(e) => return Err(e),
    };
    let name = text.substring_char(j + 1, le);
    let mut k = j + 1;
    while k < le
        invariant
            j + 1 <= k <= le <= cs@.len(),
            forall|t: int| j + 1 <= t < k ==> !is_whitespace_char(#[trigger] cs@[t]),
        decreases le - k,
    {
        if is_whitespace(cs[k]) {
            assert(is_whitespace_char(line.subrange(j + 1, le as int)[k - (j + 1)]));
            return Err(MooError::ProtocolViolation(concat_text("Name contains whitespace: ", name)));
        }
        k = k + 1;
    }
    assert(!has_whitespace(line.subrange(j + 1, le as int))) by {
        assert forall|t: int| 0 <= t < le - (j + 1) implies !is_whitespace_char(
            #[trigger] line.subrange(j + 1, le as int)[t],
        ) by {
            assert(line.subrange(j + 1, le as int)[t] == cs@[j + 1 + t]);
        }
    }
    Ok((verb, owned(name)))
}

/// A character that a header line must not hold.
pub open spec fn is_bad_header_char(c: char) -> bool {
    c == '\r' || (is_control_char(c) && c != '\t')
}

/// The line holds a carriage return or another non-printable character.
pub open spec fn has_bad_char(line: Seq<char>) -> bool {
    exists|k: int| 0 <= k < line.len() && #[trigger] is_bad_header_char(line[k])
}

/// The first `i' >= i` where `line` holds `": "`, or `line.len()`.
pub open spec fn sep_from(line: Seq<char>, i: int) -> int
    decreases line.len() - i,
{
    if i < 0 || i + 1 >= line.len() {
        line.len() as int
    } else if line[i] == ':' && line[i + 1] == ' ' {
        i
    } else {
        sep_from(line, i + 1)
    }
}

pub proof fn lemma_sep_from(line: Seq<char>, i: int)
    requires
        0 <= i,
    ensures
        sep_from(line, i) < line.len() ==> i <= sep_from(line, i) && sep_from(line, i) + 1
            < line.len() && line[sep_from(line, i)] == ':' && line[sep_from(line, i) + 1] == ' ',
        forall|j: int|
            i <= j < sep_from(line, i) && j + 1 < line.len() ==> !(line[j] == ':' && #[trigger] line[j
                + 1] == ' '),
    decreases line.len() - i,
{
    if i + 1 < line.len() && !(line[i] == ':' && line[i + 1] == ' ') {
        lemma_sep_from(line, i + 1);
    }
}

/// A header name holds a space or a colon.
pub open spec fn has_space_or_colon(key: Seq<char>) -> bool {
    exists|k: int| 0 <= k < key.len() && (#[trigger] key[k] == ' ' || key[k] == ':')
}

/// What the header lines have set so far.
pub struct Scan {
    pub request_id: Option<Seq<char>>,
    pub content_length: Option<usize>,
    pub content_type: Option<Seq<char>>,
    pub headers: HeaderSeq,
}

pub open spec fn empty_scan() -> Scan {
    Scan {
        request_id: None,
        content_length: None,
        content_type: None,
        headers: HeaderSeq::empty(),
    }
}

/// What one header line `key: value` sets.
pub open spec fn apply_header(st: Scan, key: Seq<char>, value: Seq<char>) -> Result<Scan, Failure> {
    if key == "Request-Id"@ {
        Ok(Scan { request_id: Some(value), ..st })
    } else if key == "Content-Length"@ {
        match parse_usize_spec(value) {
            None => Err(Failure::InvalidContentLength(value)),
            Some(n) => Ok(Scan { content_length: Some(n), ..st }),
        }
    } else if key == "Content-Type"@ {
        Ok(Scan { content_type: Some(value), ..st })
    } else {
        Ok(Scan { headers: table_insert(st.headers, key, value), ..st })
    }
}

/// Reads one header line.
pub open spec fn scan_line(st: Scan, line: Seq<char>) -> Result<Scan, Failure> {
    let c = sep_from(line, 0);
    if has_bad_char(line) {
        Err(
            Failure::ProtocolViolation(
                "Header contains carriage return or non-printable character"@,
            ),
        )
    } else if c >= line.len() {
        Err(Failure::InvalidHeader("Invalid header format: "@ + line))
    } else if has_space_or_colon(line.subrange(0, c)) {
        Err(
            Failure::InvalidHeader(
                "Header name contains invalid characters: "@ + line.subrange(0, c),
            ),
        )
    } else {
        apply_header(st, line.subrange(0, c), line.subrange(c + 2, line.len() as int))
    }
}

/// Reads the header lines from the one at `p` up to the first empty line or
/// the end of the text.
pub open spec fn scan_lines(s: Seq<char>, p: int, st: Scan) -> Result<Scan, Failure>
    decreases s.len() + 1 - p,
{
    if p < 0 || p >= s.len() {
        Ok(st)
    } else if line_text(s, p).len() == 0 {
        Ok(st)
    } else {
        proof {
            lemma_find_from(s, '\n', p, s.len() as int);
        }
        match scan_line(st, line_text(s, p)) {
            Err(f) => Err(f),
            Ok(st2) => scan_lines(s, next_line(s, p), st2),
        }
    }
}

/// What a well-formed header section holds.
pub struct Head {
    pub verb: MooVerb,
    pub name: Seq<char>,
    pub request_id: Seq<char>,
    pub headers: HeaderSeq,
    pub content_length: Option<usize>,
    pub content_type: Option<Seq<char>>,
}

/// Reads a header section (the text before the blank line).
pub open spec fn parse_head_spec(s: Seq<char>) -> Result<Head, Failure> {
    if s.len() == 0 {
        Err(Failure::ProtocolViolation("Empty message"@))
    } else {
        match parse_first_line_spec(line_text(s, 0)) {
            Err(f) => Err(f),
            Ok((verb, name)) => match scan_lines(s, next_line(s, 0), empty_scan()) {
                Err(f) => Err(f),
                Ok(st) => match st.request_id {
                    None => Err(Failure::MissingHeader("Request-Id"@)),
                    Some(rid) => if st.content_length is Some && st.content_type is None {
                        Err(
                            Failure::ProtocolViolation(
                                "Content-Length present but Content-Type missing"@,
                            ),
                        )
                    } else if st.content_length is None && st.content_type is Some {
                        Err(
                            Failure::ProtocolViolation(
                                "Content-Type present but Content-Length missing"@,
                            ),
                        )
                    } else {
                        Ok(
                            Head {
                                verb,
                                name,
                                request_id: rid,
                                headers: st.headers,
                                content_length: st.content_length,
                                content_type: st.content_type,
                            },
                        )
                    },
                },
            },
        }
    }
}

/// Whether `cs[lo..hi]` holds a character that a header line must not hold.
fn find_bad_char(cs: &Vec<char>, lo: usize, hi: usize) -> (r: bool)
    requires
        lo <= hi <= cs@.len(),
    ensures
        r == has_bad_char(cs@.subrange(lo as int, hi as int)),
{
    let ghost line = cs@.subrange(lo as int, hi as int);
    let mut k = lo;
    while k < hi
        invariant
            lo <= k <= hi <= cs@.len(),
            line == cs@.subrange(lo as int, hi as int),
            forall|t: int| 0 <= t < k - lo ==> !is_bad_header_char(#[trigger] line[t]),
        decreases hi - k,
    {
        let c = cs[k];
        if c == '\r' || (is_control(c) && c != '\t') {
            assert(is_bad_header_char(line[k - lo]));
            return true;
        }
        k = k + 1;
    }
    false
}

/// Where `cs[lo..hi]` first holds `": "`, counted from `lo`; `hi` where
/// it does not.
fn find_sep(cs: &Vec<char>, lo: usize, hi: usize) -> (r: usize)
    requires
        lo <= hi <= cs@.len(),
    ensures
        r == sep_from(cs@.subrange(lo as int, hi as int), 0) + lo,
        lo <= r <= hi,
{
    let ghost line = cs@.subrange(lo as int, hi as int);
    let mut c = lo;
    while c < hi && c + 1 < hi
        invariant
            lo <= c <= hi <= cs@.len(),
            line == cs@.subrange(lo as int, hi as int),
            sep_from(line, 0) == sep_from(line, c - lo),
        decreases hi - c,
    {
        if cs[c] == ':' && cs[c + 1] == ' ' {
            return c;
        }
        c = c + 1;
    }
    hi
}

/// Whether `cs[lo..hi]` holds a space or a colon.
fn find_space_or_colon(cs: &Vec<char>, lo: usize, hi: usize) -> (r: bool)
    requires
        lo <= hi <= cs@.len(),
    ensures
        r == has_space_or_colon(cs@.subrange(lo as int, hi as int)),
{
    let ghost key = cs@.subrange(lo as int, hi as int);
    let mut k = lo;
    while k < hi
        invariant
            lo <= k <= hi <= cs@.len(),
            key == cs@.subrange(lo as int, hi as int),
            forall|t: int| 0 <= t < k - lo ==> !(#[trigger] key[t] == ' ' || key[t] == ':'),
        decreases hi - k,
    {
        if cs[k] == ' ' || cs[k] == ':' {
            assert(key[k - lo] == ' ' || key[k - lo] == ':');
            return true;
        }
        k = k + 1;
    }
    false
}

/// A header section as read: the strings and numbers it holds.
pub(crate) struct ParsedHead {
    pub(crate) verb: MooVerb,
    pub(crate) name: String,
    pub(crate) request_id: String,
    pub(crate) headers: MooHeaders,
    pub(crate) content_length: Option<usize>,
    pub(crate) content_type: Option<String>,
}

/// The text of an optional string.
pub open spec fn opt_text(o: Option<String>) -> Option<Seq<char>> {
    match o {
        Some(x) => Some(x@),
        None => None,
    }
}

pub(crate) open spec fn head_is(x: ParsedHead, h: Head) -> bool {
    &&& x.verb == h.verb
    &&& x.name@ == h.name
    &&& x.request_id@ == h.request_id
    &&& x.headers@ == h.headers
    &&& x.content_length == h.content_length
    &&& opt_text(x.content_type) == h.content_type
}

/// Reads a header section: the first line, then header lines up to the
/// first empty line.
#[verifier::loop_isolation(false)]
fn parse_headers(text: &str) -> (r: Result<ParsedHead, MooError>)
    ensures
        match parse_head_spec(text@) {
            Ok(h) => r matches Ok(x) && head_is(x, h),
            Err(f) => r matches Err(e) && reports(e, f),
        },
{
    let cs = chars_of(text);
    let n = cs.len();
    if n == 0 {
        return Err(MooError::ProtocolViolation(owned("Empty message")));
    }
    let (le0, e0) = line_bounds(&cs, 0);
    assert(line_text(cs@, 0) == cs@.subrange(0, le0 as int));
    let (verb, name) = match parse_first_line(text, &cs, le0) {
        Ok(x) => x,
        Err(e) => return Err(e),
    };
    let request_id_word = chars_of("Request-Id");
    let content_length_word = chars_of("Content-Length");
    let content_type_word = chars_of("Content-Type");
    let ghost goal = scan_lines(cs@, next_line(cs@, 0), empty_scan());
    let mut p: usize = if e0 < n {
        e0 + 1
    } else {
        n
    };
    let mut request_id: Option<String> = None;
    let mut content_length: Option<usize> = None;
    let mut content_type: Option<String> = None;
    let mut headers = MooHeaders::new();
    assert(scan_lines(
        cs@,
        p as int,
        Scan {
            request_id: opt_text(request_id),
            content_length,
            content_type: opt_text(content_type),
            headers: headers@,
        },
    ) == goal);
    while p < n
        invariant
            p <= n,
            n == cs@.len(),
            cs@ == text@,
            scan_lines(
                cs@,
                p as int,
                Scan {
                    request_id: opt_text(request_id),
                    content_length,
                    content_type: opt_text(content_type),
                    headers: headers@,
                },
            ) == goal,
        decreases n - p,
    {
        let ghost cur = Scan {
            request_id: opt_text(request_id),
            content_length,
            content_type: opt_text(content_type),
            headers: headers@,
        };
        let (le, e) = line_bounds(&cs, p);
        let ghost line = cs@.subrange(p as int, le as int);
        assert(line_text(cs@, p as int) == line);
        if le == p {
            break;
        }
        if find_bad_char(&cs, p, le) {
            return Err(
                MooError::ProtocolViolation(
                    owned("Header contains carriage return or non-printable character"),
                ),
            );
        }
        let c = find_sep(&cs, p, le);
        proof {
            lemma_sep_from(line, 0);
        }
        if c >= le {
            let l = text.substring_char(p, le);
            return Err(MooError::InvalidHeader(concat_text("Invalid header format: ", l)));
        }
        assert(line.subrange(0, c - p) =~= cs@.subrange(p as int, c as int));
        assert(line.subrange(c - p + 2, line.len() as int) =~= cs@.subrange(c + 2, le as int));
        if find_space_or_colon(&cs, p, c) {
            let k = text.substring_char(p, c);
            return Err(
                MooError::InvalidHeader(
                    concat_text("Header name contains invalid characters: ", k),
                ),
            );
        }
        let key = text.substring_char(p, c);
        let value = text.substring_char(c + 2, le);
        let ghost p_old = p as int;
        let ghost next = scan_line(cur, line);
        assert(next == apply_header(cur, key@, value@));
        if range_is(&cs, p, c, &request_id_word) {
            request_id = Some(owned(value));
        } else if range_is(&cs, p, c, &content_length_word) {
            match parse_usize(&cs, c + 2, le) {
                Some(v) => {
                    content_length = Some(v);
                },
                None => {
                    return Err(MooError::InvalidContentLength(owned(value)));
                },
            }
        } else if range_is(&cs, p, c, &content_type_word) {
            content_type = Some(owned(value));
        } else {
            headers.insert(owned(key), owned(value));
        }
        p = if e < n {
            e + 1
        } else {
            n
        };
        proof {
            let now = Scan {
                request_id: opt_text(request_id),
                content_length,
                content_type: opt_text(content_type),
                headers: headers@,
            };
            assert(next == Ok::<Scan, Failure>(now));
            assert(scan_lines(cs@, p_old, cur) == scan_lines(cs@, next_line(cs@, p_old), now));
            assert(scan_lines(cs@, next_line(cs@, p_old), now) == scan_lines(cs@, p as int, now));
        }
    }
    let request_id = match request_id {
        Some(x) => x,
        None => return Err(MooError::MissingHeader(owned("Request-Id"))),
    };
    if content_length.is_some() && content_type.is_none() {
        return Err(
            MooError::ProtocolViolation(owned("Content-Length present but Content-Type missing")),
        );
    }
    if content_length.is_none() && content_type.is_some() {
        return Err(
            MooError::ProtocolViolation(owned("Content-Type present but Content-Length missing")),
        );
    }
    Ok(ParsedHead { verb, name, request_id, headers, content_length, content_type })
}

/// What follows the header section of a frame.
pub enum FrameBody {
    /// No body (no Content-Length, or a zero one).
    Empty,
    /// The bytes of a body declared `application/json`.
    Json(Seq<u8>),
    /// The bytes of a body of any other type.
    Binary(Seq<u8>),
}

/// What the start of a buffer holds.
pub enum Step {
    /// Not yet a whole message.
    NeedMore,
    /// A header section that is not valid UTF-8.
    BadHeaderText,
    /// A malformed header section.
    Fail(Failure),
    /// A whole message: its header section, its body, and how many bytes it
    /// takes.
    Frame(Head, FrameBody, nat),
}

/// Reads the message at the start of `buf`.
pub open spec fn step(buf: Seq<u8>) -> Step {
    match header_end(buf) {
        None => Step::NeedMore,
        Some(he) => {
            let hb = buf.take(he);
            if !valid_utf8(hb) {
                Step::BadHeaderText
            } else {
                match parse_head_spec(decode_utf8(hb)) {
                    Err(f) => Step::Fail(f),
                    Ok(h) => {
                        let start = he + 2;
                        let len: int = match h.content_length {
                            Some(n) => n as int,
                            None => 0,
                        };
                        let total = start + len;
                        if buf.len() < total {
                            Step::NeedMore
                        } else {
                            let body = if len > 0 {
                                let bytes = buf.subrange(start, total);
                                if h.content_type == Some("application/json"@) {
                                    FrameBody::Json(bytes)
                                } else {
                                    FrameBody::Binary(bytes)
                                }
                            } else {
                                FrameBody::Empty
                            };
                            Step::Frame(h, body, total as nat)
                        }
                    },
                }
            }
        },
    }
}

/// `m` carries what the header section `h` says.
pub open spec fn message_from(m: MooMessage, h: Head) -> bool {
    &&& m.verb == h.verb
    &&& m.name@ == h.name
    &&& m.request_id@ == h.request_id
    &&& m.headers@ == h.headers
}

/// `m` carries the body that a frame's `body` reads as: none, the same
/// bytes, or the value that `serde_json` reads from the JSON text.
pub open spec fn body_from(m: MooMessage, body: FrameBody) -> bool {
    match body {
        FrameBody::Empty => m.body is None,
        FrameBody::Binary(bytes) => m.body matches Some(MooBody::Binary(b)) && bytes_contents(b)
            == bytes,
        FrameBody::Json(bytes) => m.body == Some(
            MooBody::Json(json_decoding(decode_utf8(bytes))->0),
        ),
    }
}

/// `m` is what the frame `f` (its header section and its body) reads as.
pub open spec fn message_is_frame(m: MooMessage, f: (Head, FrameBody)) -> bool {
    message_from(m, f.0) && body_from(m, f.1)
}

/// `s` begins with `prefix`.
pub open spec fn starts_with(s: Seq<char>, prefix: Seq<char>) -> bool {
    prefix.len() <= s.len() && s.take(prefix.len() as int) == prefix
}

/// What `MooParser::parse` returns, and what it leaves buffered, when the
/// buffered bytes are `buf` (at most `MAX_MESSAGE_SIZE` of them).
pub open spec fn parse_step_outcome(
    buf: Seq<u8>,
    r: Result<Option<MooMessage>, MooError>,
    after: Seq<u8>,
) -> bool {
    match step(buf) {
        Step::NeedMore => r matches Ok(None) && after == buf,
        Step::BadHeaderText => r matches Err(MooError::ProtocolViolation(m)) && starts_with(
            m@,
            "Invalid UTF-8 in headers: "@,
        ) && after == buf,
        Step::Fail(f) => r matches Err(e) && reports(e, f) && after == buf,
        Step::Frame(h, body, total) => match body {
            FrameBody::Empty => r matches Ok(Some(m)) && message_from(m, h) && m.body is None
                && after == buf.skip(total as int),
            FrameBody::Binary(bytes) => r matches Ok(Some(m)) && message_from(m, h) && (
            m.body matches Some(MooBody::Binary(b)) && bytes_contents(b) == bytes) && after
                == buf.skip(total as int),
            FrameBody::Json(bytes) => if !valid_utf8(bytes) {
                r matches Err(MooError::ProtocolViolation(m)) && starts_with(
                    m@,
                    "Invalid UTF-8 in JSON body: "@,
                ) && after == buf
            } else {
                match json_decoding(decode_utf8(bytes)) {
                    None => r matches Err(MooError::Json(_)) && after == buf,
                    Some(v) => r matches Ok(Some(m)) && message_from(m, h) && m.body == Some(
                        MooBody::Json(v),
                    ) && after == buf.skip(total as int),
                }
            },
        },
    }
}

/// What `MooParser::parse` returns, and what it leaves buffered, when the
/// buffered bytes (the earlier ones and the new ones) are `buf`.
pub open spec fn parse_outcome(
    buf: Seq<u8>,
    r: Result<Option<MooMessage>, MooError>,
    after: Seq<u8>,
) -> bool {
    if buf.len() > MAX_MESSAGE_SIZE {
        r matches Err(MooError::MessageTooLarge(n)) && n == buf.len() && after == buf
    } else {
        parse_step_outcome(buf, r, after)
    }
}

/// A body that reads: not JSON, or JSON text that is UTF-8 and that
/// `serde_json` reads.
pub open spec fn body_reads(body: FrameBody) -> bool {
    match body {
        FrameBody::Json(bytes) => valid_utf8(bytes) && json_decoding(decode_utf8(bytes)) is Some,
        _ => true,
    }
}

/// `MooParser::parse` gives a message when the buffered bytes are `buf`.
pub open spec fn parse_yields(buf: Seq<u8>) -> bool {
    buf.len() <= MAX_MESSAGE_SIZE && match step(buf) {
        Step::Frame(_, body, _) => body_reads(body),
        _ => false,
    }
}

/// `MooParser::parse` reports an error when the buffered bytes are `buf`.
pub open spec fn parse_fails(buf: Seq<u8>) -> bool {
    buf.len() > MAX_MESSAGE_SIZE || match step(buf) {
        Step::NeedMore => false,
        Step::Frame(_, body, _) => !body_reads(body),
        _ => true,
    }
}

/// How many bytes the frame at the start of `buf` takes (0 where there is
/// no whole frame).
pub open spec fn frame_len(buf: Seq<u8>) -> int {
    match step(buf) {
        Step::Frame(_, _, t) => t as int,
        _ => 0,
    }
}

/// What `MooParser::parse` leaves buffered when the buffered bytes are
/// `buf`: the bytes after the frame that it reads, or all of them.
pub open spec fn parse_rest(buf: Seq<u8>) -> Seq<u8> {
    if parse_yields(buf) {
        buf.skip(frame_len(buf))
    } else {
        buf
    }
}

/// What a parser holds after `n` parses that each read a message, from
/// holding `b`.
pub open spec fn rest_after(b: Seq<u8>, n: nat) -> Seq<u8>
    decreases n,
{
    if n == 0 {
        b
    } else {
        parse_rest(rest_after(b, (n - 1) as nat))
    }
}

/// Parses in turn from a parser holding `b` gave the messages `ms`, the
/// `i`th one from what the parses before it left.
pub open spec fn reads_in_turn(b: Seq<u8>, ms: Seq<MooMessage>) -> bool {
    forall|i: int|
        0 <= i < ms.len() ==> #[trigger] parse_outcome(
            rest_after(b, i as nat),
            Ok::<Option<MooMessage>, MooError>(Some(ms[i])),
            rest_after(b, (i + 1) as nat),
        )
}

/// What a parse outcome tells: an error exactly where the buffer fails, a
/// message exactly where it yields one, which takes some bytes; otherwise
/// the buffer is kept as it was.
pub proof fn lemma_parse_outcome_kinds(
    buf: Seq<u8>,
    r: Result<Option<MooMessage>, MooError>,
    after: Seq<u8>,
)
    requires
        parse_outcome(buf, r, after),
    ensures
        r is Err <==> parse_fails(buf),
        (r matches Ok(Some(_))) <==> parse_yields(buf),
        !(r matches Ok(Some(_))) ==> after == buf,
        (r matches Ok(Some(_))) ==> after.len() < buf.len(),
        after == parse_rest(buf),
{
    lemma_header_end_from(buf, 0);
}

/// Stateful MOO protocol parser.
#[derive(Debug)]
pub struct MooParser {
    /// Internal buffer for partial messages.
    buffer: bytes::BytesMut,
}

impl View for MooParser {
    type V = Seq<u8>;

    /// The bytes buffered and not yet returned as a message.
    closed spec fn view(&self) -> Seq<u8> {
        bytes_mut_contents(self.buffer)
    }
}

impl MooParser {
    /// Create a new parser.
    pub fn new() -> (r: Self)
        ensures
            r@ == Seq::<u8>::empty(),
    {
        MooParser { buffer: bytes_mut_new() }
    }

    /// Add data to the internal buffer and attempt to parse a complete message.
    /// Returns `Ok(Some(message))` if a complete message was parsed,
    /// `Ok(None)` if more data is needed, or `Err` if a protocol violation occurred.
    pub fn parse(&mut self, data: &[u8]) -> (r: Result<Option<MooMessage>, MooError>)
        ensures
            parse_outcome(old(self)@ + data@, r, final(self)@),
    {
        bytes_mut_put_slice(&mut self.buffer, data);
        let n = bytes_mut_as_slice(&self.buffer).len();
        if n > MAX_MESSAGE_SIZE {
            return Err(MooError::MessageTooLarge(n));
        }
        self.try_parse()
    }

    /// Try to parse a complete message from the buffer.
    fn try_parse(&mut self) -> (r: Result<Option<MooMessage>, MooError>)
        ensures
            parse_step_outcome(old(self)@, r, final(self)@),
    {
        let buf = bytes_mut_as_slice(&self.buffer);
        let buf_len = buf.len();
        let he = match find_header_end(buf) {
            Some(i) => i,
            None => return Ok(None),
        };
        proof {
            lemma_header_end_from(buf@, 0);
            assert(header_end_from(buf@, 0) == Some(he as int));
            assert(he + 1 < buf@.len());
        }
        let header_bytes = &buf[0..he];
        assert(header_bytes@ == buf@.take(he as int));
        let header_str = match str_from_utf8(header_bytes) {
            Ok(s) => s,
            Err(e) => {
                let m = concat_text("Invalid UTF-8 in headers: ", &e.to_string());
                proof {
                    reveal_strlit("Invalid UTF-8 in headers: ");
                    assert(m@.take("Invalid UTF-8 in headers: "@.len() as int) =~= "Invalid UTF-8 in headers: "@);
                    assert(buf@ == old(self)@);
                    assert(header_end(old(self)@) == Some(he as int));
                    assert(!valid_utf8(old(self)@.take(he as int)));
                    assert(step(old(self)@) == Step::BadHeaderText);
                }
                return Err(MooError::ProtocolViolation(m));
            },
        };
        let head = match parse_headers(header_str) {
            Ok(h) => h,
            Err(e) => return Err(e),
        };
        let start = he + 2;
        let len = match head.content_length {
            Some(n) => n,
            None => 0,
        };
        if buf.len() - start < len {
            return Ok(None);
        }
        let total = start + len;
        let body = if len > 0 {
            let is_json = match &head.content_type {
                Some(ct) => text_eq(ct.as_str(), "application/json"),
                None => {
                    return Err(
                        MooError::ProtocolViolation(
                            owned("Content-Length present but Content-Type missing"),
                        ),
                    );
                },
            };
            let body_bytes = &buf[start..total];
            if is_json {
                let json_str = match str_from_utf8(body_bytes) {
                    Ok(s) => s,
                    Err(e) => {
                        let m = concat_text("Invalid UTF-8 in JSON body: ", &e.to_string());
                        proof {
                            reveal_strlit("Invalid UTF-8 in JSON body: ");
                            assert(m@.take("Invalid UTF-8 in JSON body: "@.len() as int) =~= "Invalid UTF-8 in JSON body: "@);
                        }
                        return Err(MooError::ProtocolViolation(m));
                    },
                };
                match json_from_str(json_str) {
                    Ok(v) => Some(MooBody::Json(v)),
                    Err(e) => return Err(MooError::Json(e)),
                }
            } else {
                Some(MooBody::Binary(bytes_copy_from_slice(body_bytes)))
            }
        } else {
            None
        };
        let message = MooMessage {
            verb: head.verb,
            request_id: head.request_id,
            name: head.name,
            headers: head.headers,
            body,
        };
        bytes_mut_advance(&mut self.buffer, total);
        Ok(Some(message))
    }

    /// Get the current buffer size.
    pub fn buffer_len(&self) -> (r: usize)
        ensures
            r == self@.len(),
    {
        bytes_mut_as_slice(&self.buffer).len()
    }

    /// Clear the internal buffer.
    pub fn clear(&mut self)
        ensures
            final(self)@ == Seq::<u8>::empty(),
    {
        bytes_mut_clear(&mut self.buffer);
    }
}

/// Law: what `parse` does depends on the buffered bytes alone, so a parser
/// after `clear` (which leaves no bytes) parses every later input exactly as
/// a new parser (which holds none) does.
pub proof fn law_cleared_parser_acts_new(
    cleared: MooParser,
    fresh: MooParser,
    data: Seq<u8>,
    r: Result<Option<MooMessage>, MooError>,
    after: Seq<u8>,
)
    requires
        cleared@ == Seq::<u8>::empty(),
        fresh@ == Seq::<u8>::empty(),
    ensures
        parse_outcome(cleared@ + data, r, after) <==> parse_outcome(fresh@ + data, r, after),
{
}

/// The header lines `name: value\n` of a header table, in order.
pub open spec fn header_lines_text(h: HeaderSeq) -> Seq<char>
    decreases h.len(),
{
    if h.len() == 0 {
        Seq::empty()
    } else {
        header_lines_text(h.drop_last()) + h.last().0 + ": "@ + h.last().1 + "\n"@
    }
}

/// The Content-Type and Content-Length lines of a body.
pub open spec fn body_header_text(content_type: Seq<char>, len: nat) -> Seq<char> {
    "Content-Type: "@ + content_type + "\n"@ + "Content-Length: "@ + decimal(len) + "\n"@
}

/// The text of a header section and the blank line after it.
pub open spec fn frame_text(
    verb: MooVerb,
    name: Seq<char>,
    request_id: Seq<char>,
    headers: HeaderSeq,
    body_head: Seq<char>,
) -> Seq<char> {
    "MOO/1 "@ + verb_text(verb) + " "@ + name + "\n"@ + "Request-Id: "@ + request_id + "\n"@
        + header_lines_text(headers) + body_head + "\n"@
}

/// What an optional body holds.
pub open spec fn opt_body_model(b: Option<MooBody>) -> Option<BodyModel> {
    match b {
        Some(x) => Some(x@),
        None => None,
    }
}

/// The bytes of a message with the given parts, or `None` where `serde_json`
/// cannot write its JSON body.
pub open spec fn wire_of(
    verb: MooVerb,
    name: Seq<char>,
    request_id: Seq<char>,
    headers: HeaderSeq,
    body: Option<BodyModel>,
) -> Option<Seq<u8>> {
    let plain = encode_utf8(frame_text(verb, name, request_id, headers, Seq::empty()));
    match body {
        None => Some(plain),
        Some(b) => match body_bytes(b) {
            None => None,
            Some(x) => if x.len() == 0 {
                Some(plain)
            } else {
                Some(
                    encode_utf8(
                        frame_text(
                            verb,
                            name,
                            request_id,
                            headers,
                            body_header_text(body_content_type(b), x.len()),
                        ),
                    ) + x,
                )
            },
        },
    }
}

/// The bytes that `MooMessageBuilder::build` makes of a message, or `None`
/// where `serde_json` cannot write its JSON body.
pub open spec fn message_wire(m: MooMessage) -> Option<Seq<u8>> {
    wire_of(m.verb, m.name@, m.request_id@, m.headers@, opt_body_model(m.body))
}

/// Appends `s` to `out`, which holds the encoding of `t`.
fn push_after(out: &mut Vec<u8>, Ghost(t): Ghost<Seq<char>>, s: &str)
    requires
        old(out)@ == encode_utf8(t),
    ensures
        final(out)@ == encode_utf8(t + s@),
{
    push_text(out, s);
    proof {
        lemma_encode_utf8_concat(t, s@);
    }
}

impl Default for MooParser {
    fn default() -> (r: Self)
        ensures
            r@ == Seq::<u8>::empty(),
    {
        Self::new()
    }
}

/// Builder for constructing MOO protocol messages.
#[derive(Debug)]
pub struct MooMessageBuilder {
    message: MooMessage,
}

impl MooMessageBuilder {
    /// The message being built.
    pub closed spec fn message(&self) -> MooMessage {
        self.message
    }

    /// Create a REQUEST message builder.
    pub fn request(request_id: String, name: String) -> (r: Self)
        ensures
            r.message().verb == MooVerb::Request,
            r.message().request_id@ == request_id@,
            r.message().name@ == name@,
            r.message().headers@ == HeaderSeq::empty(),
            r.message().body is None,
    {
        MooMessageBuilder { message: MooMessage::request(request_id, name) }
    }

    /// Create a CONTINUE message builder.
    pub fn continue_msg(request_id: String, name: String) -> (r: Self)
        ensures
            r.message().verb == MooVerb::Continue,
            r.message().request_id@ == request_id@,
            r.message().name@ == name@,
            r.message().headers@ == HeaderSeq::empty(),
            r.message().body is None,
    {
        MooMessageBuilder { message: MooMessage::continue_msg(request_id, name) }
    }

    /// Create a COMPLETE message builder.
    pub fn complete(request_id: String, name: String) -> (r: Self)
        ensures
            r.message().verb == MooVerb::Complete,
            r.message().request_id@ == request_id@,
            r.message().name@ == name@,
            r.message().headers@ == HeaderSeq::empty(),
            r.message().body is None,
    {
        MooMessageBuilder { message: MooMessage::complete(request_id, name) }
    }

    /// Add a header.
    pub fn header(self, key: String, value: String) -> (r: Self)
        ensures
            r.message().verb == self.message().verb,
            r.message().request_id == self.message().request_id,
            r.message().name == self.message().name,
            r.message().headers@ == table_insert(self.message().headers@, key@, value@),
            r.message().body == self.message().body,
    {
        let mut b = self;
        b.message.headers.insert(key, value);
        b
    }

    /// Set the body to a JSON value.
    pub fn body_json(self, value: serde_json::Value) -> (r: Self)
        ensures
            r.message().verb == self.message().verb,
            r.message().request_id == self.message().request_id,
            r.message().name == self.message().name,
            r.message().headers == self.message().headers,
            r.message().body == Some(MooBody::Json(value)),
    {
        let mut b = self;
        b.message.body = Some(MooBody::Json(value));
        b
    }

    /// Set the body to binary data.
    pub fn body_binary(self, data: bytes::Bytes) -> (r: Self)
        ensures
            r.message().verb == self.message().verb,
            r.message().request_id == self.message().request_id,
            r.message().name == self.message().name,
            r.message().headers == self.message().headers,
            r.message().body == Some(MooBody::Binary(data)),
    {
        let mut b = self;
        b.message.body = Some(MooBody::Binary(data));
        b
    }

    /// Build the message into a byte vector ready to send.
    pub fn build(self) -> (r: Result<Vec<u8>, MooError>)
        ensures
            r is Ok,
            match message_wire(self.message()) {
                Some(w) => r matches Ok(v) && v@ == w,
                None => r matches Err(MooError::Json(_)),
            },
    {
        let m = self.message;
        match &m.body {
            Some(b) => {
                let x = match b.to_bytes() {
                    Ok(x) => x,
                    Err(e) => return Err(e),
                };
                Ok(
                    write_frame(
                        m.verb,
                        m.name.as_str(),
                        m.request_id.as_str(),
                        &m.headers,
                        Some((b.content_type(), x.as_slice())),
                    ),
                )
            },
            None => Ok(
                write_frame(m.verb, m.name.as_str(), m.request_id.as_str(), &m.headers, None),
            ),
        }
    }
}

/// The bytes of a frame whose body (its Content-Type and its bytes) is
/// `body`: an empty body, or none, gives a frame without body headers.
pub open spec fn frame_bytes(
    verb: MooVerb,
    name: Seq<char>,
    request_id: Seq<char>,
    headers: HeaderSeq,
    body: Option<(Seq<char>, Seq<u8>)>,
) -> Seq<u8> {
    match body {
        Some((ct, x)) => if x.len() > 0 {
            encode_utf8(frame_text(verb, name, request_id, headers, body_header_text(ct, x.len())))
                + x
        } else {
            encode_utf8(frame_text(verb, name, request_id, headers, Seq::empty()))
        },
        None => encode_utf8(frame_text(verb, name, request_id, headers, Seq::empty())),
    }
}

/// Writes a frame: the first line, `Request-Id`, the headers in order, and,
/// for a body that is not empty, `Content-Type` and `Content-Length`; then
/// the blank line and the body's bytes.
pub fn write_frame(
    verb: MooVerb,
    name: &str,
    request_id: &str,
    headers: &MooHeaders,
    body: Option<(&str, &[u8])>,
) -> (r: Vec<u8>)
    ensures
        r@ == frame_bytes(
            verb,
            name@,
            request_id@,
            headers@,
            match body {
                Some((ct, x)) => Some((ct@, x@)),
                None => None,
            },
        ),
{
    let mut out: Vec<u8> = Vec::new();
    let ghost t0 = Seq::<char>::empty();
    assert(out@ =~= encode_utf8(t0));
    push_after(&mut out, Ghost(t0), "MOO/1 ");
    let ghost t1 = t0 + "MOO/1 "@;
    push_after(&mut out, Ghost(t1), verb.as_str());
    let ghost t2 = t1 + verb_text(verb);
    push_after(&mut out, Ghost(t2), " ");
    let ghost t3 = t2 + " "@;
    push_after(&mut out, Ghost(t3), name);
    let ghost t4 = t3 + name@;
    push_after(&mut out, Ghost(t4), "\n");
    let ghost t5 = t4 + "\n"@;
    push_after(&mut out, Ghost(t5), "Request-Id: ");
    let ghost t6 = t5 + "Request-Id: "@;
    push_after(&mut out, Ghost(t6), request_id);
    let ghost t7 = t6 + request_id@;
    push_after(&mut out, Ghost(t7), "\n");
    let ghost t8 = t7 + "\n"@;
    let n = headers.len();
    let mut i: usize = 0;
    while i < n
        invariant
            i <= n,
            n == headers@.len(),
            out@ == encode_utf8(t8 + header_lines_text(headers@.take(i as int))),
        decreases n - i,
    {
        let (k, v) = headers.entry(i);
        let ghost h = headers@.take(i as int);
        let ghost u0 = t8 + header_lines_text(h);
        push_after(&mut out, Ghost(u0), k);
        push_after(&mut out, Ghost(u0 + k@), ": ");
        push_after(&mut out, Ghost(u0 + k@ + ": "@), v);
        push_after(&mut out, Ghost(u0 + k@ + ": "@ + v@), "\n");
        assert(headers@.take(i + 1).drop_last() =~= h);
        assert(header_lines_text(headers@.take(i + 1)) == header_lines_text(h) + k@ + ": "@ + v@
            + "\n"@);
        assert(t8 + header_lines_text(headers@.take(i + 1)) =~= u0 + k@ + ": "@ + v@ + "\n"@);
        i = i + 1;
    }
    assert(headers@.take(n as int) =~= headers@);
    let ghost t9 = t8 + header_lines_text(headers@);
    match body {
        Some((ct, x)) => {
            if x.len() > 0 {
                push_after(&mut out, Ghost(t9), "Content-Type: ");
                push_after(&mut out, Ghost(t9 + "Content-Type: "@), ct);
                push_after(&mut out, Ghost(t9 + "Content-Type: "@ + ct@), "\n");
                let ghost u1 = t9 + "Content-Type: "@ + ct@ + "\n"@;
                push_after(&mut out, Ghost(u1), "Content-Length: ");
                let digits = decimal_string(x.len() as u64);
                push_after(&mut out, Ghost(u1 + "Content-Length: "@), digits.as_str());
                push_after(&mut out, Ghost(u1 + "Content-Length: "@ + digits@), "\n");
                let ghost u2 = u1 + "Content-Length: "@ + digits@ + "\n"@;
                push_after(&mut out, Ghost(u2), "\n");
                assert(u2 + "\n"@ =~= frame_text(
                    verb,
                    name@,
                    request_id@,
                    headers@,
                    body_header_text(ct@, x@.len()),
                ));
                push_bytes(&mut out, x);
                return out;
            }
        },
        None => {},
    }
    push_after(&mut out, Ghost(t9), "\n");
    assert(t9 + "\n"@ =~= frame_text(verb, name@, request_id@, headers@, Seq::empty()));
    out
}

} // verus!
