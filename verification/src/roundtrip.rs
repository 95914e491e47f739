//! What a parser reads back of what the builder writes.
use vstd::prelude::*;
use crate::protocol::{
    header_end, header_end_from, line_end, line_stop, line_text, next_line, scan_line, scan_lines,
    Failure, Scan, body_header_text, frame_text, header_lines_text, has_bad_char, has_whitespace,
    has_space_or_colon, is_bad_header_char, sep_from, apply_header, parse_first_line_spec,
    empty_scan, parse_head_spec, Head, step, message_wire, FrameBody, Step, MAX_MESSAGE_SIZE,
    lemma_header_end_from, parse_outcome, parse_step_outcome, message_is_frame, parse_fails,
    parse_yields, parse_rest, reads_in_turn, rest_after, lemma_parse_outcome_kinds,
};
use crate::message::{
    lemma_verb_text_roundtrip, verb_text, HeaderSeq, MooVerb, MooMessage, body_bytes,
    body_content_type, BodyModel, MooBody,
};
use crate::buffers::bytes_contents;
use crate::table::{
    entry_index, keys_unique, lemma_entry_index_from, table_insert,
};
use crate::json::{json_decoding, json_encoding};
use crate::error::MooError;
use crate::text::{
    decimal, is_control_char, is_whitespace_char, lemma_decimal_digits, is_digit_char,
    lemma_parse_decimal, parse_usize_spec, lemma_encode_utf8_concat,
};
use crate::text::{find_from, lemma_find_from};
use vstd::utf8::*;

verus! {

/// Lines, each followed by `\n`.
pub open spec fn joinnl(ls: Seq<Seq<char>>) -> Seq<char>
    decreases ls.len(),
{
    if ls.len() == 0 {
        Seq::empty()
    } else {
        joinnl(ls.drop_last()) + ls.last() + seq!['\n']
    }
}

/// A line that reads back as itself: not empty, no `\n` in it, and no `\r`
/// at its end.
pub open spec fn plain_line(l: Seq<char>) -> bool {
    &&& l.len() > 0
    &&& forall|k: int| 0 <= k < l.len() ==> #[trigger] l[k] != '\n'
    &&& l.last() != '\r'
}

/// Where line `i` starts in `joinnl(ls)`.
pub open spec fn line_offset(ls: Seq<Seq<char>>, i: int) -> int {
    joinnl(ls.take(i)).len() as int
}

proof fn lemma_joinnl_step(ls: Seq<Seq<char>>, i: int)
    requires
        0 <= i < ls.len(),
    ensures
        joinnl(ls.take(i + 1)) == joinnl(ls.take(i)) + ls[i] + seq!['\n'],
{
    assert(ls.take(i + 1).drop_last() =~= ls.take(i));
}

proof fn lemma_joinnl_prefix(ls: Seq<Seq<char>>, i: int)
    requires
        0 <= i <= ls.len(),
    ensures
        joinnl(ls.take(i)).len() <= joinnl(ls).len(),
        joinnl(ls).take(joinnl(ls.take(i)).len() as int) == joinnl(ls.take(i)),
    decreases ls.len(),
{
    if i == ls.len() {
        assert(ls.take(i) =~= ls);
        assert(joinnl(ls).take(joinnl(ls).len() as int) =~= joinnl(ls));
    } else {
        let d = ls.drop_last();
        lemma_joinnl_prefix(d, i);
        assert(d.take(i) =~= ls.take(i));
        let a = joinnl(ls.take(i));
        assert(joinnl(ls).take(a.len() as int) =~= joinnl(d).take(a.len() as int));
    }
}

/// Line `i` of `joinnl(ls)`: where it starts, what it holds, and the `\n`
/// after it.
proof fn lemma_line_at(ls: Seq<Seq<char>>, i: int)
    requires
        0 <= i < ls.len(),
    ensures
        ({
            let s = joinnl(ls);
            let o = line_offset(ls, i);
            &&& o + ls[i].len() + 1 == line_offset(ls, i + 1)
            &&& line_offset(ls, i + 1) <= s.len()
            &&& s.subrange(o, o + ls[i].len()) == ls[i]
            &&& s[o + ls[i].len()] == '\n'
        }),
{
    let s = joinnl(ls);
    lemma_joinnl_step(ls, i);
    lemma_joinnl_prefix(ls, i + 1);
    let o = line_offset(ls, i);
    let t = joinnl(ls.take(i + 1));
    assert(s.take(t.len() as int) == t);
    assert(s.subrange(o, o + ls[i].len()) =~= t.subrange(o, o + ls[i].len()));
    assert(t.subrange(o, o + ls[i].len()) =~= ls[i]);
    assert(s[o + ls[i].len()] == t[o + ls[i].len()]);
}

proof fn lemma_find_at(s: Seq<char>, c: char, a: int, k: int, b: int)
    requires
        0 <= a <= a + k <= b <= s.len(),
        forall|t: int| a <= t < a + k ==> s[t] != c,
        a + k == b || s[a + k] == c,
    ensures
        find_from(s, c, a, b) == a + k,
    decreases k,
{
    if k > 0 {
        lemma_find_at(s, c, a + 1, k - 1, b);
    }
}

/// Reading the header lines one by one.
pub open spec fn scan_fold(ls: Seq<Seq<char>>, i: int, st: Scan) -> Result<Scan, Failure>
    decreases ls.len() - i,
{
    if i < 0 || i >= ls.len() {
        Ok(st)
    } else {
        match scan_line(st, ls[i]) {
            Err(f) => Err(f),
            Ok(st2) => scan_fold(ls, i + 1, st2),
        }
    }
}

/// In the text of plain lines (without its last `\n`), the line at the
/// offset of line `i` is `ls[i]`, and the next one starts at the offset of
/// line `i + 1`.
pub proof fn lemma_lines_of_join(ls: Seq<Seq<char>>, i: int)
    requires
        0 <= i < ls.len(),
        forall|j: int| 0 <= j < ls.len() ==> plain_line(#[trigger] ls[j]),
    ensures
        ({
            let s = joinnl(ls).drop_last();
            let o = line_offset(ls, i);
            &&& 0 <= o < s.len()
            &&& line_text(s, o) == ls[i]
            &&& next_line(s, o) == line_offset(ls, i + 1)
        }),
{
    let full = joinnl(ls);
    let s = full.drop_last();
    let o = line_offset(ls, i);
    let l = ls[i];
    lemma_line_at(ls, i);
    assert(plain_line(l));
    assert(o >= 0);
    let e = o + l.len();
    assert forall|t: int| o <= t < e implies s[t] != '\n' by {
        assert(s[t] == full[t]);
        assert(full.subrange(o, e)[t - o] == l[t - o]);
    }
    if e < s.len() {
        assert(s[e] == full[e]);
        lemma_find_at(s, '\n', o, l.len() as int, s.len() as int);
    } else {
        if i + 1 < ls.len() {
            lemma_line_at(ls, i + 1);
            assert(false);
        }
        lemma_find_at(s, '\n', o, l.len() as int, s.len() as int);
    }
    assert(line_stop(s, o) == e);
    if e > o && e < s.len() {
        assert(s[e - 1] == full.subrange(o, e)[l.len() - 1]);
    }
    assert(line_end(s, o) == e);
    assert(line_text(s, o) =~= l) by {
        assert forall|t: int| 0 <= t < l.len() implies line_text(s, o)[t] == l[t] by {
            assert(s[o + t] == full[o + t]);
            assert(full.subrange(o, e)[t] == full[o + t]);
        }
    }
}

/// Scanning the header lines of the text of plain lines from line `i` on
/// reads those lines in order.
pub proof fn lemma_scan_join(ls: Seq<Seq<char>>, i: int, st: Scan)
    requires
        1 <= ls.len(),
        0 <= i <= ls.len(),
        forall|j: int| 0 <= j < ls.len() ==> plain_line(#[trigger] ls[j]),
    ensures
        scan_lines(joinnl(ls).drop_last(), line_offset(ls, i), st) == scan_fold(ls, i, st),
    decreases ls.len() - i,
{
    let s = joinnl(ls).drop_last();
    if i == ls.len() {
        assert(ls.take(i) =~= ls);
        assert(line_offset(ls, i) == s.len() + 1);
    } else {
        lemma_lines_of_join(ls, i);
        assert(line_text(s, line_offset(ls, i)).len() > 0);
        match scan_line(st, ls[i]) {
            Err(f) => {},
            Ok(st2) => {
                lemma_scan_join(ls, i + 1, st2);
            },
        }
    }
}

/// Every `\n` is followed by something other than `\n`.
pub open spec fn no_blank_line(c: Seq<char>) -> bool {
    forall|t: int| 0 <= t < c.len() && #[trigger] c[t] == '\n' ==> t + 1 < c.len() && c[t + 1] != '\n'
}

/// Every byte 10 is followed by a byte other than 10.
pub open spec fn no_blank_line_bytes(b: Seq<u8>) -> bool {
    forall|t: int| 0 <= t < b.len() && #[trigger] b[t] == 10 ==> t + 1 < b.len() && b[t + 1] != 10
}

/// The text of plain lines, without its last `\n`, has no blank line.
pub proof fn lemma_join_no_blank(ls: Seq<Seq<char>>)
    requires
        ls.len() >= 1,
        forall|j: int| 0 <= j < ls.len() ==> plain_line(#[trigger] ls[j]),
    ensures
        no_blank_line(joinnl(ls).drop_last()),
    decreases ls.len(),
{
    let j = joinnl(ls);
    let d = ls.drop_last();
    let l = ls.last();
    assert(plain_line(l));
    let jd = joinnl(d);
    assert(j == jd + l + seq!['\n']);
    if d.len() >= 1 {
        assert forall|k: int| 0 <= k < d.len() implies plain_line(#[trigger] d[k]) by {
            assert(d[k] == ls[k]);
        }
        lemma_join_no_blank(d);
        assert(jd.len() >= 1);
        assert(jd.last() == '\n');
    } else {
        assert(jd.len() == 0);
    }
    let h = j.drop_last();
    assert(h =~= jd + l);
    assert forall|t: int| 0 <= t < h.len() && #[trigger] h[t] == '\n' implies t + 1 < h.len()
        && h[t + 1] != '\n' by {
        if t < jd.len() - 1 {
            assert(h[t] == jd.drop_last()[t]);
            assert(h[t + 1] == jd[t + 1]);
            if t + 1 == jd.len() - 1 {
            } else {
                assert(jd.drop_last()[t + 1] == jd[t + 1]);
            }
        } else if t == jd.len() - 1 {
            assert(h[t + 1] == l[0]);
        } else {
            assert(h[t] == l[t - jd.len()]);
        }
    }
}

/// A character's UTF-8 bytes: `\n` is the single byte 10, and no other
/// character has a byte 10.
pub proof fn lemma_encode_scalar_newline(c: char)
    ensures
        encode_scalar(c as u32).len() >= 1,
        c == '\n' ==> encode_scalar(c as u32) == seq![10u8],
        c != '\n' ==> forall|k: int|
            0 <= k < encode_scalar(c as u32).len() ==> #[trigger] encode_scalar(c as u32)[k] != 10,
{
    let s = c as u32;
    char_is_scalar(c);
    if has_width_1_encoding(s) {
        let b = leading_byte_width_1(s);
        assert(s <= 0x7f ==> (s & 0x7f) as u8 == s as u8) by (bit_vector);
        if c == '\n' {
            assert(s == 10);
        } else {
            assert(s != 10);
            assert(s <= 0x7f && s != 10 ==> s as u8 != 10u8) by (bit_vector);
        }
    } else {
        let x1 = ((s >> 6) & 0x1F) as u8;
        let x2 = ((s >> 12) & 0x0F) as u8;
        let x3 = ((s >> 18) & 0x7) as u8;
        let y1 = (s & 0x3F) as u8;
        let y2 = ((s >> 6) & 0x3F) as u8;
        let y3 = ((s >> 12) & 0x3F) as u8;
        assert((0xC0u8 | x1) != 10u8) by (bit_vector);
        assert((0xE0u8 | x2) != 10u8) by (bit_vector);
        assert((0xF0u8 | x3) != 10u8) by (bit_vector);
        assert((0x80u8 | y1) != 10u8) by (bit_vector);
        assert((0x80u8 | y2) != 10u8) by (bit_vector);
        assert((0x80u8 | y3) != 10u8) by (bit_vector);
        assert(c != '\n');
    }
}

/// The UTF-8 bytes of a text without blank lines have no two 10 bytes in a
/// row, and do not end with 10.
pub proof fn lemma_encode_no_blank(c: Seq<char>)
    requires
        no_blank_line(c),
    ensures
        no_blank_line_bytes(encode_utf8(c)),
    decreases c.len(),
{
    if c.len() > 0 {
        let r = c.drop_first();
        assert(no_blank_line(r)) by {
            assert forall|t: int| 0 <= t < r.len() && #[trigger] r[t] == '\n' implies t + 1 < r.len()
                && r[t + 1] != '\n' by {
                assert(c[t + 1] == '\n');
            }
        }
        lemma_encode_no_blank(r);
        lemma_encode_scalar_newline(c[0]);
        let a = encode_scalar(c[0] as u32);
        let e = encode_utf8(r);
        assert(encode_utf8(c) == a + e);
        let b = a + e;
        assert forall|t: int| 0 <= t < b.len() && #[trigger] b[t] == 10 implies t + 1 < b.len()
            && b[t + 1] != 10 by {
            if t < a.len() {
                assert(b[t] == a[t]);
                assert(c[0] == '\n');
                assert(t == 0 && a.len() == 1);
                assert(1 < c.len() && c[1] != '\n');
                assert(r[0] != '\n');
                assert(e == encode_scalar(r[0] as u32) + encode_utf8(r.drop_first()));
                lemma_encode_scalar_newline(r[0]);
                assert(e[0] == encode_scalar(r[0] as u32)[0]);
                assert(b[t + 1] == e[0]);
            } else {
                assert(b[t] == e[t - a.len()]);
                assert(b[t + 1] == e[t + 1 - a.len()]);
            }
        }
    }
}

/// The header section ends where the bytes of a text without blank lines
/// are followed by a blank line.
pub proof fn lemma_header_end_after(e: Seq<u8>, x: Seq<u8>, j: int)
    requires
        no_blank_line_bytes(e),
        0 <= j <= e.len(),
    ensures
        header_end_from(e + seq![10u8, 10u8] + x, j) == Some(e.len() as int),
    decreases e.len() - j,
{
    let w = e + seq![10u8, 10u8] + x;
    if j < e.len() {
        assert(w[j] == e[j]);
        if e[j] == 10 {
            assert(w[j + 1] == e[j + 1]);
        }
        lemma_header_end_after(e, x, j + 1);
    } else {
        assert(w[j] == 10 && w[j + 1] == 10);
    }
}

proof fn lemma_joinnl_concat(a: Seq<Seq<char>>, b: Seq<Seq<char>>)
    ensures
        joinnl(a + b) == joinnl(a) + joinnl(b),
    decreases b.len(),
{
    if b.len() == 0 {
        assert(a + b =~= a);
        assert(joinnl(a) + joinnl(b) =~= joinnl(a));
    } else {
        lemma_joinnl_concat(a, b.drop_last());
        assert((a + b).drop_last() =~= a + b.drop_last());
        assert((a + b).last() == b.last());
    }
}

proof fn lemma_joinnl_pair(x: Seq<char>, y: Seq<char>)
    ensures
        joinnl(seq![x, y]) == x + seq!['\n'] + y + seq!['\n'],
{
    let one = seq![x];
    assert(seq![x, y].drop_last() =~= one);
    assert(one.drop_last() =~= Seq::<Seq<char>>::empty());
    assert(joinnl(one.drop_last()) == Seq::<char>::empty());
    assert(one.last() == x);
    assert(joinnl(one) == joinnl(one.drop_last()) + one.last() + seq!['\n']);
    assert(joinnl(one) =~= x + seq!['\n']);
    assert(joinnl(seq![x, y]) =~= x + seq!['\n'] + y + seq!['\n']);
}

/// The first line of a message.
pub open spec fn first_line_text(verb: MooVerb, name: Seq<char>) -> Seq<char> {
    "MOO/1 "@ + verb_text(verb) + " "@ + name
}

/// The line of one header.
pub open spec fn header_line(k: Seq<char>, v: Seq<char>) -> Seq<char> {
    k + ": "@ + v
}

/// The lines of the headers of a table.
pub open spec fn header_line_texts(h: HeaderSeq) -> Seq<Seq<char>> {
    Seq::new(h.len(), |i: int| header_line(h[i].0, h[i].1))
}

/// The Content-Type and Content-Length lines, where there is a body.
pub open spec fn body_lines(body: Option<(Seq<char>, nat)>) -> Seq<Seq<char>> {
    match body {
        Some((ct, n)) => seq!["Content-Type: "@ + ct, "Content-Length: "@ + decimal(n)],
        None => Seq::empty(),
    }
}

/// The lines of a message's header section.
pub open spec fn wire_lines(
    verb: MooVerb,
    name: Seq<char>,
    request_id: Seq<char>,
    h: HeaderSeq,
    body: Option<(Seq<char>, nat)>,
) -> Seq<Seq<char>> {
    seq![first_line_text(verb, name), "Request-Id: "@ + request_id] + header_line_texts(h)
        + body_lines(body)
}

/// The text that a body adds to the header section.
pub open spec fn body_head_text(body: Option<(Seq<char>, nat)>) -> Seq<char> {
    match body {
        Some((ct, n)) => body_header_text(ct, n),
        None => Seq::empty(),
    }
}

proof fn lemma_header_lines_join(h: HeaderSeq)
    ensures
        header_lines_text(h) == joinnl(header_line_texts(h)),
    decreases h.len(),
{
    reveal_strlit("\n");
    if h.len() > 0 {
        lemma_header_lines_join(h.drop_last());
        assert(header_line_texts(h).drop_last() =~= header_line_texts(h.drop_last()));
        assert(header_lines_text(h) =~= joinnl(header_line_texts(h)));
    } else {
        assert(header_line_texts(h) =~= Seq::<Seq<char>>::empty());
    }
}

/// The text of a header section is its lines, each followed by `\n`, and
/// then the blank line.
pub proof fn lemma_frame_text_lines(
    verb: MooVerb,
    name: Seq<char>,
    request_id: Seq<char>,
    h: HeaderSeq,
    body: Option<(Seq<char>, nat)>,
)
    ensures
        frame_text(verb, name, request_id, h, body_head_text(body)) == joinnl(
            wire_lines(verb, name, request_id, h, body),
        ) + seq!['\n'],
{
    reveal_strlit("\n");
    let l0 = first_line_text(verb, name);
    let l1 = "Request-Id: "@ + request_id;
    let a = seq![l0, l1];
    let hl = header_line_texts(h);
    let bl = body_lines(body);
    lemma_joinnl_concat(a + hl, bl);
    lemma_joinnl_concat(a, hl);
    lemma_header_lines_join(h);
    assert(joinnl(a) =~= l0 + seq!['\n'] + l1 + seq!['\n']) by {
        lemma_joinnl_pair(l0, l1);
    }
    assert(body_head_text(body) == joinnl(bl)) by {
        match body {
            Some((ct, n)) => {
                lemma_joinnl_pair("Content-Type: "@ + ct, "Content-Length: "@ + decimal(n));
                assert(joinnl(bl) =~= body_header_text(ct, n));
            },
            None => {
                assert(bl =~= Seq::<Seq<char>>::empty());
            },
        }
    }
    assert(frame_text(verb, name, request_id, h, body_head_text(body)) =~= joinnl(
        wire_lines(verb, name, request_id, h, body),
    ) + seq!['\n']);
}

/// No `\n` and no `\r` anywhere.
pub open spec fn no_line_break(s: Seq<char>) -> bool {
    forall|k: int| 0 <= k < s.len() ==> #[trigger] s[k] != '\n' && s[k] != '\r'
}

proof fn lemma_no_bad_no_break(s: Seq<char>)
    requires
        !has_bad_char(s),
    ensures
        no_line_break(s),
{
    assert forall|k: int| 0 <= k < s.len() implies #[trigger] s[k] != '\n' && s[k] != '\r' by {
        assert(!is_bad_header_char(s[k]));
        if s[k] == '\n' {
            assert(('\n' as u32) == 10);
            assert(is_control_char(s[k]));
        }
    }
}

proof fn lemma_no_whitespace_no_break(s: Seq<char>)
    requires
        forall|k: int| 0 <= k < s.len() ==> !is_whitespace_char(#[trigger] s[k]),
    ensures
        no_line_break(s),
{
    assert forall|k: int| 0 <= k < s.len() implies #[trigger] s[k] != '\n' && s[k] != '\r' by {
        assert(!is_whitespace_char(s[k]));
        if s[k] == '\n' {
            assert(('\n' as u32) == 10);
        }
        if s[k] == '\r' {
            assert(('\r' as u32) == 13);
        }
    }
}

proof fn lemma_no_break_concat(a: Seq<char>, b: Seq<char>)
    requires
        no_line_break(a),
        no_line_break(b),
    ensures
        no_line_break(a + b),
{
    assert forall|k: int| 0 <= k < (a + b).len() implies #[trigger] (a + b)[k] != '\n' && (a
        + b)[k] != '\r' by {
        if k < a.len() {
            assert((a + b)[k] == a[k]);
        } else {
            assert((a + b)[k] == b[k - a.len()]);
        }
    }
}

proof fn lemma_no_break_plain(s: Seq<char>)
    requires
        no_line_break(s),
        s.len() > 0,
    ensures
        plain_line(s),
{
}

proof fn lemma_no_bad_concat(a: Seq<char>, b: Seq<char>)
    requires
        !has_bad_char(a),
        !has_bad_char(b),
    ensures
        !has_bad_char(a + b),
{
    assert forall|k: int| 0 <= k < (a + b).len() implies !is_bad_header_char(#[trigger] (a + b)[k]) by {
        if k < a.len() {
            assert((a + b)[k] == a[k]);
            assert(!is_bad_header_char(a[k]));
        } else {
            assert((a + b)[k] == b[k - a.len()]);
            assert(!is_bad_header_char(b[k - a.len()]));
        }
    }
}

proof fn lemma_sep_at(line: Seq<char>, a: int, k: int)
    requires
        0 <= a <= a + k,
        a + k + 1 < line.len(),
        forall|t: int| a <= t < a + k ==> #[trigger] line[t] != ':',
        line[a + k] == ':',
        line[a + k + 1] == ' ',
    ensures
        sep_from(line, a) == a + k,
    decreases k,
{
    if k > 0 {
        lemma_sep_at(line, a + 1, k - 1);
    }
}

/// A header line `key: value` sets what `key` names, when the key holds no
/// space or colon and neither part holds a character a header line must not
/// hold.
pub proof fn lemma_scan_header_line(st: Scan, key: Seq<char>, value: Seq<char>)
    requires
        !has_bad_char(key),
        !has_bad_char(value),
        !has_space_or_colon(key),
    ensures
        scan_line(st, key + ": "@ + value) == apply_header(st, key, value),
{
    reveal_strlit(": ");
    let sep = seq![':', ' '];
    assert(": "@ == sep);
    let line = key + sep + value;
    assert(!has_bad_char(sep)) by {
        assert forall|k: int| 0 <= k < sep.len() implies !is_bad_header_char(#[trigger] sep[k]) by {
            assert((':' as u32) == 58);
            assert((' ' as u32) == 32);
        }
    }
    lemma_no_bad_concat(key, sep);
    lemma_no_bad_concat(key + sep, value);
    assert forall|t: int| 0 <= t < key.len() implies #[trigger] line[t] != ':' by {
        assert(line[t] == key[t]);
        if key[t] == ':' {
            assert(has_space_or_colon(key));
        }
    }
    lemma_sep_at(line, 0, key.len() as int);
    assert(line.subrange(0, key.len() as int) =~= key);
    assert(line.subrange(key.len() + 2int, line.len() as int) =~= value);
}

/// The first line reads back as its verb and name, unless the name holds
/// white space.
pub proof fn lemma_first_line_roundtrip(verb: MooVerb, name: Seq<char>)
    ensures
        parse_first_line_spec(first_line_text(verb, name)) == (if has_whitespace(name) {
            Err(Failure::ProtocolViolation("Name contains whitespace: "@ + name))
        } else {
            Ok::<(MooVerb, Seq<char>), Failure>((verb, name))
        }),
{
    reveal_strlit("MOO/1 ");
    reveal_strlit("MOO/1");
    reveal_strlit(" ");
    let vt = verb_text(verb);
    let m = vt.len() as int;
    let l = first_line_text(verb, name);
    let n = l.len() as int;
    assert(l == seq!['M', 'O', 'O', '/', '1', ' '] + vt + seq![' '] + name);
    assert forall|t: int| 0 <= t < 5 implies l[t] != ' ' by {}
    lemma_find_at(l, ' ', 0, 5, n);
    assert(l[5] == ' ');
    assert forall|t: int| 6 <= t < 6 + vt.len() implies l[t] != ' ' by {
        assert(l[t] == vt[t - 6]);
    }
    assert(l[6 + m] == ' ');
    lemma_find_at(l, ' ', 6, m, n);
    assert(l.subrange(0, 5) =~= "MOO/1"@);
    assert(l.subrange(6, 6 + m) =~= vt);
    assert(l.subrange(6 + m + 1, n) =~= name);
    lemma_verb_text_roundtrip(verb);
}

/// A header that reads back as itself: its name holds no space or colon,
/// neither part holds a character a header line must not hold, and its name
/// is none of the three that the header section reserves.
pub open spec fn header_safe(k: Seq<char>, v: Seq<char>) -> bool {
    &&& !has_bad_char(k)
    &&& !has_bad_char(v)
    &&& !has_space_or_colon(k)
    &&& k != "Request-Id"@
    &&& k != "Content-Length"@
    &&& k != "Content-Type"@
}

/// The parts of a header section that read back as they were written: a
/// name without white space, a request id and headers without characters
/// that a header line must not hold, header names that are distinct, hold no
/// space or colon and are none of the reserved three.
pub open spec fn wire_safe(name: Seq<char>, request_id: Seq<char>, h: HeaderSeq) -> bool {
    &&& forall|k: int| 0 <= k < name.len() ==> !is_whitespace_char(#[trigger] name[k])
    &&& !has_bad_char(request_id)
    &&& keys_unique(h)
    &&& forall|i: int| 0 <= i < h.len() ==> header_safe(#[trigger] h[i].0, h[i].1)
}

/// The Content-Type of a body holds no character a header line must not
/// hold.
pub open spec fn body_safe(body: Option<(Seq<char>, nat)>) -> bool {
    match body {
        Some((ct, n)) => !has_bad_char(ct) && n <= usize::MAX,
        None => true,
    }
}

proof fn lemma_literal_no_bad(s: &str)
    requires
        s@ == "MOO/1 "@ || s@ == "Request-Id: "@ || s@ == ": "@ || s@ == "Content-Type: "@ || s@
            == "Content-Length: "@,
    ensures
        !has_bad_char(s@),
        no_line_break(s@),
{
    reveal_strlit("MOO/1 ");
    reveal_strlit("Request-Id: ");
    reveal_strlit(": ");
    reveal_strlit("Content-Type: ");
    reveal_strlit("Content-Length: ");
    assert forall|k: int| 0 <= k < s@.len() implies !is_bad_header_char(#[trigger] s@[k]) && s@[k]
        != '\n' by {
        let c = s@[k];
        assert(32 <= (c as u32) <= 126);
    }
}

proof fn lemma_decimal_no_bad(n: nat)
    ensures
        !has_bad_char(decimal(n)),
        no_line_break(decimal(n)),
{
    lemma_decimal_digits(n);
    assert forall|k: int| 0 <= k < decimal(n).len() implies !is_bad_header_char(
        #[trigger] decimal(n)[k],
    ) && decimal(n)[k] != '\n' && decimal(n)[k] != '\r' by {
        assert(is_digit_char(decimal(n)[k]));
    }
}

/// Every line of a safe header section is plain.
pub proof fn lemma_wire_lines_plain(
    verb: MooVerb,
    name: Seq<char>,
    request_id: Seq<char>,
    h: HeaderSeq,
    body: Option<(Seq<char>, nat)>,
)
    requires
        wire_safe(name, request_id, h),
        body_safe(body),
    ensures
        forall|j: int|
            0 <= j < wire_lines(verb, name, request_id, h, body).len() ==> plain_line(
                #[trigger] wire_lines(verb, name, request_id, h, body)[j],
            ),
{
    let ls = wire_lines(verb, name, request_id, h, body);
    let hl = header_line_texts(h);
    let bl = body_lines(body);
    reveal_strlit(" ");
    let vt = verb_text(verb);
    lemma_literal_no_bad("MOO/1 ");
    lemma_literal_no_bad("Request-Id: ");
    lemma_literal_no_bad(": ");
    lemma_literal_no_bad("Content-Type: ");
    lemma_literal_no_bad("Content-Length: ");
    assert(no_line_break(vt));
    assert(no_line_break(" "@));
    lemma_no_whitespace_no_break(name);
    lemma_no_break_concat("MOO/1 "@, vt);
    lemma_no_break_concat("MOO/1 "@ + vt, " "@);
    lemma_no_break_concat("MOO/1 "@ + vt + " "@, name);
    lemma_no_break_plain(first_line_text(verb, name));
    lemma_no_bad_no_break(request_id);
    lemma_no_break_concat("Request-Id: "@, request_id);
    reveal_strlit("Request-Id: ");
    lemma_no_break_plain("Request-Id: "@ + request_id);
    assert forall|j: int| 0 <= j < ls.len() implies plain_line(#[trigger] ls[j]) by {
        if j == 0 {
        } else if j == 1 {
        } else if j < 2 + hl.len() {
            let i = j - 2;
            assert(ls[j] == hl[i]);
            assert(header_safe(h[i].0, h[i].1));
            lemma_no_bad_no_break(h[i].0);
            lemma_no_bad_no_break(h[i].1);
            lemma_no_break_concat(h[i].0, ": "@);
            lemma_no_break_concat(h[i].0 + ": "@, h[i].1);
            reveal_strlit(": ");
            lemma_no_break_plain(header_line(h[i].0, h[i].1));
        } else {
            let i = j - 2 - hl.len();
            match body {
                Some((ct, n)) => {
                    assert(ls[j] == bl[i]);
                    reveal_strlit("Content-Type: ");
                    reveal_strlit("Content-Length: ");
                    lemma_no_bad_no_break(ct);
                    lemma_decimal_no_bad(n);
                    lemma_no_break_concat("Content-Type: "@, ct);
                    lemma_no_break_concat("Content-Length: "@, decimal(n));
                    lemma_no_break_plain("Content-Type: "@ + ct);
                    lemma_no_break_plain("Content-Length: "@ + decimal(n));
                },
                None => {},
            }
        }
    }
}

/// What the header lines of a safe header section set.
pub open spec fn scan_of(request_id: Seq<char>, h: HeaderSeq, body: Option<(Seq<char>, nat)>) -> Scan {
    match body {
        Some((ct, n)) => Scan {
            request_id: Some(request_id),
            content_length: Some(n as usize),
            content_type: Some(ct),
            headers: h,
        },
        None => Scan {
            request_id: Some(request_id),
            content_length: None,
            content_type: None,
            headers: h,
        },
    }
}

proof fn lemma_reserved_words()
    ensures
        !has_bad_char("Request-Id"@),
        !has_space_or_colon("Request-Id"@),
        !has_bad_char("Content-Type"@),
        !has_space_or_colon("Content-Type"@),
        !has_bad_char("Content-Length"@),
        !has_space_or_colon("Content-Length"@),
        "Content-Type"@ != "Request-Id"@,
        "Content-Type"@ != "Content-Length"@,
        "Content-Length"@ != "Request-Id"@,
        "Request-Id: "@ == "Request-Id"@ + ": "@,
        "Content-Type: "@ == "Content-Type"@ + ": "@,
        "Content-Length: "@ == "Content-Length"@ + ": "@,
{
    reveal_strlit("Request-Id");
    reveal_strlit("Content-Type");
    reveal_strlit("Content-Length");
    reveal_strlit("Request-Id: ");
    reveal_strlit("Content-Type: ");
    reveal_strlit("Content-Length: ");
    reveal_strlit(": ");
    assert forall|k: int| 0 <= k < "Request-Id"@.len() implies !is_bad_header_char(
        #[trigger] "Request-Id"@[k],
    ) && !("Request-Id"@[k] == ' ' || "Request-Id"@[k] == ':') by {
        let c = "Request-Id"@[k];
        assert(45 <= (c as u32) <= 122);
    }
    assert forall|k: int| 0 <= k < "Content-Type"@.len() implies !is_bad_header_char(
        #[trigger] "Content-Type"@[k],
    ) && !("Content-Type"@[k] == ' ' || "Content-Type"@[k] == ':') by {
        let c = "Content-Type"@[k];
        assert(45 <= (c as u32) <= 122);
    }
    assert forall|k: int| 0 <= k < "Content-Length"@.len() implies !is_bad_header_char(
        #[trigger] "Content-Length"@[k],
    ) && !("Content-Length"@[k] == ' ' || "Content-Length"@[k] == ':') by {
        let c = "Content-Length"@[k];
        assert(45 <= (c as u32) <= 122);
    }
    assert("Request-Id: "@ =~= "Request-Id"@ + ": "@);
    assert("Content-Type: "@ =~= "Content-Type"@ + ": "@);
    assert("Content-Length: "@ =~= "Content-Length"@ + ": "@);
}

proof fn lemma_insert_new_key(h: HeaderSeq, j: int)
    requires
        keys_unique(h),
        0 <= j < h.len(),
    ensures
        table_insert(h.take(j), h[j].0, h[j].1) == h.take(j + 1),
{
    let t = h.take(j);
    lemma_entry_index_from(t, h[j].0, 0);
    if entry_index(t, h[j].0) < t.len() {
        let i = entry_index(t, h[j].0);
        assert(t[i].0 == h[i].0);
    }
    assert(t.push(h[j]) =~= h.take(j + 1));
}

proof fn lemma_scan_headers(
    ls: Seq<Seq<char>>,
    request_id: Seq<char>,
    h: HeaderSeq,
    j: int,
)
    requires
        0 <= j <= h.len(),
        ls.len() >= 2 + h.len(),
        forall|i: int| 0 <= i < h.len() ==> #[trigger] ls[2 + i] == header_line(h[i].0, h[i].1),
        keys_unique(h),
        forall|i: int| 0 <= i < h.len() ==> header_safe(#[trigger] h[i].0, h[i].1),
    ensures
        scan_fold(
            ls,
            2 + j,
            Scan {
                request_id: Some(request_id),
                content_length: None,
                content_type: None,
                headers: h.take(j),
            },
        ) == scan_fold(
            ls,
            2 + h.len() as int,
            Scan { request_id: Some(request_id), content_length: None, content_type: None, headers: h },
        ),
    decreases h.len() - j,
{
    if j == h.len() {
        assert(h.take(j) =~= h);
    } else {
        let st = Scan {
            request_id: Some(request_id),
            content_length: None,
            content_type: None,
            headers: h.take(j),
        };
        assert(ls[2 + j] == header_line(h[j].0, h[j].1));
        assert(header_safe(h[j].0, h[j].1));
        lemma_scan_header_line(st, h[j].0, h[j].1);
        lemma_insert_new_key(h, j);
        lemma_scan_headers(ls, request_id, h, j + 1);
    }
}

/// The header lines of a safe header section set its request id, headers
/// and body fields.
pub proof fn lemma_scan_wire_lines(
    verb: MooVerb,
    name: Seq<char>,
    request_id: Seq<char>,
    h: HeaderSeq,
    body: Option<(Seq<char>, nat)>,
)
    requires
        wire_safe(name, request_id, h),
        body_safe(body),
    ensures
        scan_fold(wire_lines(verb, name, request_id, h, body), 1, empty_scan()) == Ok::<
            Scan,
            Failure,
        >(scan_of(request_id, h, body)),
{
    let ls = wire_lines(verb, name, request_id, h, body);
    let hl = header_line_texts(h);
    lemma_reserved_words();
    lemma_scan_header_line(empty_scan(), "Request-Id"@, request_id);
    let st0 = Scan {
        request_id: Some(request_id),
        content_length: None,
        content_type: None,
        headers: HeaderSeq::empty(),
    };
    assert(ls[1] == "Request-Id: "@ + request_id);
    assert(scan_line(empty_scan(), ls[1]) == Ok::<Scan, Failure>(st0));
    assert forall|i: int| 0 <= i < h.len() implies #[trigger] ls[2 + i] == header_line(
        h[i].0,
        h[i].1,
    ) by {
        assert(ls[2 + i] == hl[i]);
    }
    lemma_scan_headers(ls, request_id, h, 0);
    assert(h.take(0) =~= HeaderSeq::empty());
    let sth = Scan {
        request_id: Some(request_id),
        content_length: None,
        content_type: None,
        headers: h,
    };
    let k: int = 2 + h.len() as int;
    match body {
        Some((ct, n)) => {
            assert(ls[k] == "Content-Type: "@ + ct);
            lemma_scan_header_line(sth, "Content-Type"@, ct);
            let st1 = Scan { content_type: Some(ct), ..sth };
            assert(scan_line(sth, ls[k]) == Ok::<Scan, Failure>(st1));
            assert(ls[k + 1] == "Content-Length: "@ + decimal(n));
            lemma_decimal_no_bad(n);
            lemma_decimal_digits(n);
            assert(!has_space_or_colon(decimal(n))) by {
                assert forall|t: int| 0 <= t < decimal(n).len() implies !(#[trigger] decimal(n)[t]
                    == ' ' || decimal(n)[t] == ':') by {
                    assert(is_digit_char(decimal(n)[t]));
                }
            }
            lemma_scan_header_line(st1, "Content-Length"@, decimal(n));
            lemma_parse_decimal(n);
            let st2 = Scan { content_length: Some(n as usize), ..st1 };
            assert(scan_line(st1, ls[k + 1]) == Ok::<Scan, Failure>(st2));
            assert(ls.len() == k + 2);
            assert(scan_fold(ls, k + 2, st2) == Ok::<Scan, Failure>(st2));
            assert(scan_fold(ls, k + 1, st1) == Ok::<Scan, Failure>(st2));
            assert(scan_fold(ls, k, sth) == Ok::<Scan, Failure>(st2));
        },
        None => {
            assert(ls.len() == k);
        },
    }
    assert(scan_fold(ls, 1, empty_scan()) == scan_fold(ls, 2, st0));
}

/// What a safe header section reads back as.
pub open spec fn head_of(
    verb: MooVerb,
    name: Seq<char>,
    request_id: Seq<char>,
    h: HeaderSeq,
    body: Option<(Seq<char>, nat)>,
) -> Head {
    Head {
        verb,
        name,
        request_id,
        headers: h,
        content_length: scan_of(request_id, h, body).content_length,
        content_type: scan_of(request_id, h, body).content_type,
    }
}

/// A safe header section reads back as what was written.
pub proof fn lemma_parse_head_wire(
    verb: MooVerb,
    name: Seq<char>,
    request_id: Seq<char>,
    h: HeaderSeq,
    body: Option<(Seq<char>, nat)>,
)
    requires
        wire_safe(name, request_id, h),
        body_safe(body),
    ensures
        parse_head_spec(joinnl(wire_lines(verb, name, request_id, h, body)).drop_last()) == Ok::<
            Head,
            Failure,
        >(head_of(verb, name, request_id, h, body)),
{
    let ls = wire_lines(verb, name, request_id, h, body);
    let s = joinnl(ls).drop_last();
    lemma_wire_lines_plain(verb, name, request_id, h, body);
    lemma_lines_of_join(ls, 0);
    assert(ls.take(0) =~= Seq::<Seq<char>>::empty());
    assert(line_offset(ls, 0) == 0);
    lemma_first_line_roundtrip(verb, name);
    lemma_scan_join(ls, 1, empty_scan());
    lemma_scan_wire_lines(verb, name, request_id, h, body);
}

/// What a message's body puts on the wire, where it puts anything: its
/// Content-Type and its bytes.
pub open spec fn wire_body(m: MooMessage) -> Option<(Seq<char>, Seq<u8>)> {
    match m.body {
        None => None,
        Some(b) => match body_bytes(b@) {
            Some(x) => if x.len() == 0 {
                None
            } else {
                Some((body_content_type(b@), x))
            },
            None => None,
        },
    }
}

/// The Content-Type and Content-Length that a message's header section
/// declares, where it has a body on the wire.
pub open spec fn body_head_of(m: MooMessage) -> Option<(Seq<char>, nat)> {
    match wire_body(m) {
        Some((ct, x)) => Some((ct, x.len())),
        None => None,
    }
}

/// The body that a parser finds after a message's header section.
pub open spec fn frame_body_of(m: MooMessage) -> FrameBody {
    match wire_body(m) {
        None => FrameBody::Empty,
        Some((ct, x)) => if ct == "application/json"@ {
            FrameBody::Json(x)
        } else {
            FrameBody::Binary(x)
        },
    }
}

/// A message's header section reads back as what was written.
pub open spec fn head_of_message(m: MooMessage) -> Head {
    head_of(m.verb, m.name@, m.request_id@, m.headers@, body_head_of(m))
}

proof fn lemma_content_types()
    ensures
        !has_bad_char("application/json"@),
        !has_bad_char("application/octet-stream"@),
        "application/json"@ != "application/octet-stream"@,
{
    reveal_strlit("application/json");
    reveal_strlit("application/octet-stream");
    assert("application/json"@.len() != "application/octet-stream"@.len());
    assert forall|k: int| 0 <= k < "application/json"@.len() implies !is_bad_header_char(
        #[trigger] "application/json"@[k],
    ) by {
        let c = "application/json"@[k];
        assert(47 <= (c as u32) <= 122);
    }
    assert forall|k: int| 0 <= k < "application/octet-stream"@.len() implies !is_bad_header_char(
        #[trigger] "application/octet-stream"@[k],
    ) by {
        let c = "application/octet-stream"@[k];
        assert(45 <= (c as u32) <= 122);
    }
}

/// The bytes of a text followed by a blank line.
proof fn lemma_encode_blank_end(hs: Seq<char>)
    ensures
        encode_utf8(hs + seq!['\n', '\n']) == encode_utf8(hs) + seq![10u8, 10u8],
{
    lemma_encode_utf8_concat(hs, seq!['\n', '\n']);
    lemma_encode_scalar_newline('\n');
    let nn = seq!['\n', '\n'];
    assert(nn.drop_first() =~= seq!['\n']);
    let one = seq!['\n'];
    assert(one.drop_first() =~= Seq::<char>::empty());
    assert(encode_utf8(Seq::<char>::empty()) == Seq::<u8>::empty());
    assert(one[0] == '\n');
    assert(encode_utf8(one) == encode_scalar(one[0] as u32) + encode_utf8(one.drop_first()));
    assert(encode_utf8(one) =~= seq![10u8]);
    assert(encode_utf8(nn) == encode_scalar(nn[0] as u32) + encode_utf8(nn.drop_first()));
    assert(encode_utf8(nn) =~= seq![10u8, 10u8]);
}

/// Law: a parser reads the bytes that the builder writes for a message whose
/// header section is safe back as one whole frame: the same verb, name,
/// request id and headers, the body's bytes under its Content-Type, and
/// nothing left over.
#[verifier::spinoff_prover]
#[verifier::rlimit(40)]
pub proof fn law_step_reads_wire(m: MooMessage)
    requires
        wire_safe(m.name@, m.request_id@, m.headers@),
        message_wire(m) is Some,
        message_wire(m)->0.len() <= MAX_MESSAGE_SIZE,
    ensures
        step(message_wire(m)->0) == Step::Frame(
            head_of_message(m),
            frame_body_of(m),
            message_wire(m)->0.len(),
        ),
{
    let w = message_wire(m)->0;
    let bh = body_head_of(m);
    let ls = wire_lines(m.verb, m.name@, m.request_id@, m.headers@, bh);
    let full = joinnl(ls);
    let hs = full.drop_last();
    lemma_content_types();
    let x: Seq<u8> = match wire_body(m) {
        Some((ct, b)) => b,
        None => Seq::empty(),
    };
    assert(body_safe(bh));
    lemma_frame_text_lines(m.verb, m.name@, m.request_id@, m.headers@, bh);
    assert(full == joinnl(ls.drop_last()) + ls.last() + seq!['\n']);
    assert(full =~= hs + seq!['\n']);
    assert(hs + seq!['\n'] + seq!['\n'] =~= hs + seq!['\n', '\n']);
    lemma_encode_blank_end(hs);
    let e = encode_utf8(hs);
    assert(w =~= e + seq![10u8, 10u8] + x);
    lemma_wire_lines_plain(m.verb, m.name@, m.request_id@, m.headers@, bh);
    lemma_join_no_blank(ls);
    lemma_encode_no_blank(hs);
    lemma_header_end_after(e, x, 0);
    assert(w.take(e.len() as int) =~= e);
    encode_utf8_valid_utf8(hs);
    encode_utf8_decode_utf8(hs);
    lemma_parse_head_wire(m.verb, m.name@, m.request_id@, m.headers@, bh);
    if x.len() > 0 {
        assert(w.subrange(e.len() + 2int, w.len() as int) =~= x);
    }
}

/// `a` and `b` carry the same verb, name, request id and headers.
pub open spec fn same_head(a: MooMessage, b: MooMessage) -> bool {
    &&& a.verb == b.verb
    &&& a.name@ == b.name@
    &&& a.request_id@ == b.request_id@
    &&& a.headers@ == b.headers@
}

/// Law: a parser that is handed, with nothing buffered before, the bytes
/// that the builder writes for a message whose header section is safe gives
/// that message back and keeps nothing: the same verb, name, request id and
/// headers; no body where the body put nothing on the wire; the same bytes
/// for a binary body; and for a JSON body, the value that `serde_json` reads
/// from the text that it wrote.
pub proof fn law_parse_reads_built_message(
    m: MooMessage,
    r: Result<Option<MooMessage>, MooError>,
    after: Seq<u8>,
)
    requires
        wire_safe(m.name@, m.request_id@, m.headers@),
        message_wire(m) is Some,
        message_wire(m)->0.len() <= MAX_MESSAGE_SIZE,
        parse_outcome(Seq::<u8>::empty() + message_wire(m)->0, r, after),
    ensures
        match wire_body(m) {
            None => r matches Ok(Some(m2)) && same_head(m2, m) && m2.body is None && after.len()
                == 0,
            Some((ct, x)) => match m.body {
                Some(MooBody::Binary(_)) => r matches Ok(Some(m2)) && same_head(m2, m) && (
                m2.body matches Some(MooBody::Binary(b)) && bytes_contents(b) == x) && after.len()
                    == 0,
                Some(MooBody::Json(_)) => valid_utf8(x) && json_decoding(decode_utf8(x)) is Some
                    ==> (r matches Ok(Some(m2)) && same_head(m2, m) && m2.body == Some(
                    MooBody::Json(json_decoding(decode_utf8(x))->0),
                ) && after.len() == 0),
                None => false,
            },
        },
{
    let w = message_wire(m)->0;
    assert(Seq::<u8>::empty() + w =~= w);
    law_step_reads_wire(m);
    lemma_content_types();
    assert(w.skip(w.len() as int) =~= Seq::<u8>::empty());
}

/// Law: every proper prefix of the bytes that the builder writes for a
/// message whose header section is safe is not yet a whole message, so a
/// parser handed the bytes in pieces waits for the rest.
pub proof fn law_prefix_needs_more(m: MooMessage, k: int)
    requires
        wire_safe(m.name@, m.request_id@, m.headers@),
        message_wire(m) is Some,
        message_wire(m)->0.len() <= MAX_MESSAGE_SIZE,
        0 <= k < message_wire(m)->0.len(),
    ensures
        step(message_wire(m)->0.take(k)) == Step::NeedMore,
{
    let w = message_wire(m)->0;
    let p = w.take(k);
    law_step_reads_wire(m);
    let he = header_end(w)->0;
    lemma_header_end_from(w, 0);
    lemma_header_end_from(p, 0);
    if k <= he + 1 {
        if header_end(p) is Some {
            let i = header_end(p)->0;
            assert(p[i] == w[i] && p[i + 1] == w[i + 1]);
            assert(false);
        }
    } else {
        assert(p[he] == w[he] && p[he + 1] == w[he + 1]);
        if header_end(p) is Some {
            let i = header_end(p)->0;
            assert(p[i] == w[i] && p[i + 1] == w[i + 1]);
            assert(i == he);
        } else {
            assert(false);
        }
        assert(p.take(he) =~= w.take(he));
    }
}

/// Bytes after a whole frame change nothing of what the frame reads as.
proof fn lemma_step_extend(w: Seq<u8>, rest: Seq<u8>)
    requires
        step(w) is Frame,
    ensures
        step(w + rest) == step(w),
{
    let b = w + rest;
    let he = header_end(w)->0;
    lemma_header_end_from(w, 0);
    lemma_header_end_from(b, 0);
    assert(b[he] == w[he] && b[he + 1] == w[he + 1]);
    match header_end(b) {
        Some(i) => {
            if i < he {
                assert(b[i] == w[i] && b[i + 1] == w[i + 1]);
                assert(false);
            }
        },
        None => {
            assert(false);
        },
    }
    assert(header_end(b) == Some(he));
    assert(b.take(he) =~= w.take(he));
    let h = parse_head_spec(decode_utf8(w.take(he)))->Ok_0;
    let start = he + 2;
    let len: int = match h.content_length {
        Some(n) => n as int,
        None => 0,
    };
    assert(start + len <= w.len());
    assert(b.subrange(start, start + len) =~= w.subrange(start, start + len));
}

/// Law: what follows a built frame in the buffer does not change how the
/// frame reads; the frame takes exactly its own bytes, so what follows stays
/// buffered for the next read.
pub proof fn law_frame_then_rest(m: MooMessage, rest: Seq<u8>)
    requires
        wire_safe(m.name@, m.request_id@, m.headers@),
        message_wire(m) is Some,
        message_wire(m)->0.len() <= MAX_MESSAGE_SIZE,
    ensures
        step(message_wire(m)->0 + rest) == Step::Frame(
            head_of_message(m),
            frame_body_of(m),
            message_wire(m)->0.len(),
        ),
        (message_wire(m)->0 + rest).skip(message_wire(m)->0.len() as int) == rest,
{
    let w = message_wire(m)->0;
    law_step_reads_wire(m);
    lemma_step_extend(w, rest);
    assert((w + rest).skip(w.len() as int) =~= rest);
}

/// Law: a parser handed the bytes of a built frame in two pieces answers the
/// first piece with "need more", keeps it, and then holds exactly the bytes
/// that it would have held had it been handed the frame at once.
pub proof fn law_pieces_read_as_whole(
    m: MooMessage,
    k: int,
    r1: Result<Option<MooMessage>, MooError>,
    after1: Seq<u8>,
)
    requires
        wire_safe(m.name@, m.request_id@, m.headers@),
        message_wire(m) is Some,
        message_wire(m)->0.len() <= MAX_MESSAGE_SIZE,
        0 <= k < message_wire(m)->0.len(),
        parse_outcome(Seq::<u8>::empty() + message_wire(m)->0.take(k), r1, after1),
    ensures
        r1 matches Ok(None),
        after1 == message_wire(m)->0.take(k),
        after1 + message_wire(m)->0.skip(k) == Seq::<u8>::empty() + message_wire(m)->0,
{
    let w = message_wire(m)->0;
    assert(Seq::<u8>::empty() + w.take(k) =~= w.take(k));
    law_prefix_needs_more(m, k);
    assert(w.take(k) + w.skip(k) =~= Seq::<u8>::empty() + w);
}

/// The whole frames at the start of `buf`, in order, and what follows them:
/// what a parser that reads frames until none is whole finds in `buf`.
pub open spec fn frames(buf: Seq<u8>) -> (Seq<(Head, FrameBody)>, Seq<u8>)
    decreases buf.len(),
{
    match step(buf) {
        Step::Frame(h, body, t) => if 0 < t <= buf.len() {
            let rest = frames(buf.skip(t as int));
            (seq![(h, body)] + rest.0, rest.1)
        } else {
            (Seq::empty(), buf)
        },
        _ => (Seq::empty(), buf),
    }
}

/// The bytes of `chunks`, one after the other.
pub open spec fn concat(chunks: Seq<Seq<u8>>) -> Seq<u8>
    decreases chunks.len(),
{
    if chunks.len() == 0 {
        Seq::empty()
    } else {
        chunks[0] + concat(chunks.drop_first())
    }
}

/// A parser holding `buf` that is handed `chunks` one at a time, reading
/// every whole frame after each: the frames it reads, in order, and what it
/// holds at the end.
pub open spec fn feed(buf: Seq<u8>, chunks: Seq<Seq<u8>>) -> (Seq<(Head, FrameBody)>, Seq<u8>)
    decreases chunks.len(),
{
    if chunks.len() == 0 {
        frames(buf)
    } else {
        let now = frames(buf + chunks[0]);
        let later = feed(now.1, chunks.drop_first());
        (now.0 + later.0, later.1)
    }
}

proof fn lemma_frame_total(buf: Seq<u8>)
    ensures
        step(buf) matches Step::Frame(_, _, t) ==> 2 <= t <= buf.len(),
{
    lemma_header_end_from(buf, 0);
}

/// The frames of `b + x` are those of `b`, then those of what `b` leaves
/// followed by `x`.
proof fn lemma_frames_extend(b: Seq<u8>, x: Seq<u8>)
    ensures
        frames(b + x) == ({
            let fb = frames(b);
            let fr = frames(fb.1 + x);
            (fb.0 + fr.0, fr.1)
        }),
    decreases b.len(),
{
    lemma_frame_total(b);
    match step(b) {
        Step::Frame(h, body, t) => {
            lemma_step_extend(b, x);
            lemma_frame_total(b + x);
            assert((b + x).skip(t as int) =~= b.skip(t as int) + x);
            lemma_frames_extend(b.skip(t as int), x);
            let fb = frames(b);
            let fs = frames(b.skip(t as int));
            let fr = frames(fs.1 + x);
            assert(fb.1 == fs.1);
            assert(seq![(h, body)] + (fs.0 + fr.0) =~= (seq![(h, body)] + fs.0) + fr.0);
        },
        _ => {
            assert(Seq::<(Head, FrameBody)>::empty() + frames(b + x).0 =~= frames(b + x).0);
        },
    }
}

proof fn lemma_feed(buf: Seq<u8>, chunks: Seq<Seq<u8>>)
    ensures
        feed(buf, chunks) == frames(buf + concat(chunks)),
    decreases chunks.len(),
{
    if chunks.len() == 0 {
        assert(buf + concat(chunks) =~= buf);
    } else {
        let c = chunks[0];
        let cs = chunks.drop_first();
        lemma_feed(frames(buf + c).1, cs);
        lemma_frames_extend(buf + c, concat(cs));
        assert(buf + c + concat(cs) =~= buf + concat(chunks));
    }
}

/// Law: a parser handed a byte stream in any pieces, reading every whole
/// frame after each piece, reads the same frames, in the same order, and
/// ends holding the same bytes as one handed the whole stream at once. (Each
/// `MooParser::parse` that gives a message reads the frame at the start of
/// its buffer, as `parse_outcome` states; `step`, which both runs follow, is
/// what it reads.)
pub proof fn law_pieces_read_as_stream(chunks: Seq<Seq<u8>>)
    ensures
        feed(Seq::empty(), chunks) == frames(concat(chunks)),
{
    lemma_feed(Seq::empty(), chunks);
    assert(Seq::<u8>::empty() + concat(chunks) =~= concat(chunks));
}

proof fn lemma_rest_after_frames(b: Seq<u8>, ms: Seq<MooMessage>, k: nat)
    requires
        reads_in_turn(b, ms),
        b.len() <= MAX_MESSAGE_SIZE,
        k <= ms.len(),
    ensures
        rest_after(b, k).len() <= b.len(),
        k <= frames(b).0.len(),
        frames(rest_after(b, k)) == (frames(b).0.skip(k as int), frames(b).1),
        forall|i: int| 0 <= i < k ==> message_is_frame(ms[i], #[trigger] frames(b).0[i]),
    decreases k,
{
    if k == 0 {
        assert(frames(b).0.skip(0) =~= frames(b).0);
    } else {
        let j = (k - 1) as nat;
        lemma_rest_after_frames(b, ms, j);
        let x = rest_after(b, j);
        assert(parse_outcome(
            rest_after(b, j),
            Ok::<Option<MooMessage>, MooError>(Some(ms[j as int])),
            rest_after(b, (j + 1) as nat),
        ));
        lemma_parse_outcome_kinds(x, Ok(Some(ms[j as int])), rest_after(b, k));
        lemma_frame_total(x);
        assert(rest_after(b, k) == parse_rest(x));
        let fx = frames(x);
        assert(fx.0 =~= frames(b).0.skip(j as int));
        assert(fx.0.len() > 0);
        assert(frames(rest_after(b, k)).0 =~= fx.0.drop_first());
        assert(fx.0.drop_first() =~= frames(b).0.skip(k as int));
        assert(frames(b).0[j as int] == fx.0[0]);
    }
}

/// Law: where a parser holding `b` (at most `MAX_MESSAGE_SIZE` bytes) reads
/// the messages `ms` in turn and then neither reads another nor fails, those
/// messages are the frames of `b`, in order, head and body, and it holds
/// what follows them.
pub proof fn law_messages_are_frames(b: Seq<u8>, ms: Seq<MooMessage>)
    requires
        b.len() <= MAX_MESSAGE_SIZE,
        reads_in_turn(b, ms),
        !parse_yields(rest_after(b, ms.len())),
        !parse_fails(rest_after(b, ms.len())),
    ensures
        ms.len() == frames(b).0.len(),
        forall|i: int| 0 <= i < ms.len() ==> message_is_frame(ms[i], #[trigger] frames(b).0[i]),
        rest_after(b, ms.len()) == frames(b).1,
{
    lemma_rest_after_frames(b, ms, ms.len());
    let x = rest_after(b, ms.len());
    assert(step(x) is NeedMore);
    assert(frames(x).0.len() == 0);
}

/// The messages of `parts`, one part after the other.
pub open spec fn joined(parts: Seq<Seq<MooMessage>>) -> Seq<MooMessage>
    decreases parts.len(),
{
    if parts.len() == 0 {
        Seq::empty()
    } else {
        parts[0] + joined(parts.drop_first())
    }
}

/// The messages `ms` are the frames `fs`, one for one, in order.
pub open spec fn messages_are(ms: Seq<MooMessage>, fs: Seq<(Head, FrameBody)>) -> bool {
    &&& ms.len() == fs.len()
    &&& forall|i: int| 0 <= i < ms.len() ==> message_is_frame(ms[i], #[trigger] fs[i])
}

/// What a receive loop goes through when it is handed `chunks`: before chunk
/// `i` its parser holds `bufs[i]`; the chunk's first parse does not fail;
/// the messages `parts[i]` are read in turn from what it then holds; and it
/// stops holding `bufs[i + 1]`, from which a parse neither reads a message
/// nor fails. (These are what `ConnectionState::on_recv` states of a call
/// that returns `Messages(parts[i])`.)
pub open spec fn receives(
    chunks: Seq<Seq<u8>>,
    parts: Seq<Seq<MooMessage>>,
    bufs: Seq<Seq<u8>>,
) -> bool {
    &&& parts.len() == chunks.len()
    &&& bufs.len() == chunks.len() + 1
    &&& forall|i: int|
        0 <= i < chunks.len() ==> {
            &&& !parse_fails(#[trigger] (bufs[i] + chunks[i]))
            &&& reads_in_turn(bufs[i] + chunks[i], parts[i])
            &&& bufs[i + 1] == rest_after(bufs[i] + chunks[i], parts[i].len())
            &&& !parse_yields(bufs[i + 1])
            &&& !parse_fails(bufs[i + 1])
        }
}

proof fn lemma_messages_are_append(
    a: Seq<MooMessage>,
    fa: Seq<(Head, FrameBody)>,
    b: Seq<MooMessage>,
    fb: Seq<(Head, FrameBody)>,
)
    requires
        messages_are(a, fa),
        messages_are(b, fb),
    ensures
        messages_are(a + b, fa + fb),
{
    assert forall|i: int| 0 <= i < (a + b).len() implies message_is_frame(
        (a + b)[i],
        #[trigger] (fa + fb)[i],
    ) by {
        if i < a.len() {
            assert((a + b)[i] == a[i] && (fa + fb)[i] == fa[i]);
        } else {
            assert((a + b)[i] == b[i - a.len()] && (fa + fb)[i] == fb[i - a.len()]);
        }
    }
}

proof fn lemma_receives_feed(chunks: Seq<Seq<u8>>, parts: Seq<Seq<MooMessage>>, bufs: Seq<Seq<u8>>)
    requires
        receives(chunks, parts, bufs),
        step(bufs[0]) is NeedMore,
    ensures
        messages_are(joined(parts), feed(bufs[0], chunks).0),
        bufs.last() == feed(bufs[0], chunks).1,
    decreases chunks.len(),
{
    if chunks.len() == 0 {
        assert(messages_are(joined(parts), Seq::empty()));
    } else {
        let b = bufs[0] + chunks[0];
        assert(!parse_fails(bufs[0] + chunks[0]));
        law_messages_are_frames(b, parts[0]);
        let (cs, ps, bs) = (chunks.drop_first(), parts.drop_first(), bufs.drop_first());
        assert(receives(cs, ps, bs)) by {
            assert forall|i: int| 0 <= i < cs.len() implies {
                &&& !parse_fails(#[trigger] (bs[i] + cs[i]))
                &&& reads_in_turn(bs[i] + cs[i], ps[i])
                &&& bs[i + 1] == rest_after(bs[i] + cs[i], ps[i].len())
                &&& !parse_yields(bs[i + 1])
                &&& !parse_fails(bs[i + 1])
            } by {
                assert(!parse_fails(bufs[i + 1] + chunks[i + 1]));
            }
        }
        let x = bufs[1];
        assert(x.len() <= MAX_MESSAGE_SIZE);
        assert(step(x) is NeedMore);
        lemma_receives_feed(cs, ps, bs);
        assert(bs[0] == frames(b).1);
        lemma_messages_are_append(parts[0], frames(b).0, joined(ps), feed(bs[0], cs).0);
        assert(bs.last() == bufs.last());
    }
}

/// Law: a receive loop handed the byte stream `concat(chunks)` in those
/// chunks, where no parse fails, hands over exactly the messages that the
/// whole stream's frames read as, once each and in order (several from one
/// chunk, none for a frame not yet whole), and ends holding what follows
/// them.
pub proof fn law_receive_reads_stream(
    chunks: Seq<Seq<u8>>,
    parts: Seq<Seq<MooMessage>>,
    bufs: Seq<Seq<u8>>,
)
    requires
        receives(chunks, parts, bufs),
        bufs[0] == Seq::<u8>::empty(),
    ensures
        messages_are(joined(parts), frames(concat(chunks)).0),
        bufs.last() == frames(concat(chunks)).1,
{
    lemma_header_end_from(bufs[0], 0);
    assert(step(bufs[0]) is NeedMore);
    lemma_receives_feed(chunks, parts, bufs);
    law_pieces_read_as_stream(chunks);
}

/// Law: a first line `MOO/1 VERB name` reads as that verb and name exactly
/// when no character of the name is one that `char::is_whitespace` accepts;
/// otherwise it is refused.
pub proof fn law_first_line_reads(verb: MooVerb, name: Seq<char>)
    ensures
        (forall|k: int| 0 <= k < name.len() ==> !is_whitespace_char(#[trigger] name[k]))
            ==> parse_first_line_spec(first_line_text(verb, name)) == Ok::<
            (MooVerb, Seq<char>),
            Failure,
        >((verb, name)),
        (exists|k: int| 0 <= k < name.len() && is_whitespace_char(#[trigger] name[k]))
            ==> parse_first_line_spec(first_line_text(verb, name)) is Err,
{
    lemma_first_line_roundtrip(verb, name);
}

/// Law: a `Request-Id`, `Content-Length` or `Content-Type` line sets what
/// it names, whatever lines came before it, and nothing else: the request id
/// to its value, the content length to the number its value writes (a value
/// that is no number is refused), the content type to its value.
pub proof fn law_reserved_lines_set_their_field(st: Scan, v: Seq<char>)
    requires
        !has_bad_char(v),
    ensures
        scan_line(st, "Request-Id: "@ + v) == Ok::<Scan, Failure>(
            Scan { request_id: Some(v), ..st },
        ),
        scan_line(st, "Content-Type: "@ + v) == Ok::<Scan, Failure>(
            Scan { content_type: Some(v), ..st },
        ),
        scan_line(st, "Content-Length: "@ + v) == match parse_usize_spec(v) {
            Some(n) => Ok::<Scan, Failure>(Scan { content_length: Some(n), ..st }),
            None => Err(Failure::InvalidContentLength(v)),
        },
{
    lemma_reserved_words();
    lemma_scan_header_line(st, "Request-Id"@, v);
    lemma_scan_header_line(st, "Content-Type"@, v);
    lemma_scan_header_line(st, "Content-Length"@, v);
}

/// Reading the same lines from `q` on gives the same result.
proof fn lemma_scan_fold_same_from(ls1: Seq<Seq<char>>, ls2: Seq<Seq<char>>, q: int, st: Scan)
    requires
        ls1.len() == ls2.len(),
        0 <= q,
        forall|j: int| q <= j < ls1.len() ==> ls1[j] == ls2[j],
    ensures
        scan_fold(ls1, q, st) == scan_fold(ls2, q, st),
    decreases ls1.len() - q,
{
    if q < ls1.len() {
        assert(ls1[q] == ls2[q]);
        match scan_line(st, ls1[q]) {
            Err(_) => {},
            Ok(st2) => {
                lemma_scan_fold_same_from(ls1, ls2, q + 1, st2);
            },
        }
    }
}

/// Reading the same lines from `i` up to `p`, where the rest reads the same
/// from any state, gives the same result.
proof fn lemma_scan_fold_same_upto(
    ls1: Seq<Seq<char>>,
    ls2: Seq<Seq<char>>,
    i: int,
    p: int,
    st: Scan,
)
    requires
        ls1.len() == ls2.len(),
        0 <= i <= p <= ls1.len(),
        forall|j: int| i <= j < p ==> ls1[j] == ls2[j],
        forall|st2: Scan| #[trigger] scan_fold(ls1, p, st2) == scan_fold(ls2, p, st2),
    ensures
        scan_fold(ls1, i, st) == scan_fold(ls2, i, st),
    decreases p - i,
{
    if i < p {
        assert(ls1[i] == ls2[i]);
        match scan_line(st, ls1[i]) {
            Err(_) => {},
            Ok(st2) => {
                lemma_scan_fold_same_upto(ls1, ls2, i + 1, p, st2);
            },
        }
    } else {
        assert(scan_fold(ls1, p, st) == scan_fold(ls2, p, st));
    }
}

/// What a header section of plain lines reads as: its first line, then its
/// header lines in turn.
proof fn lemma_head_of_lines(ls: Seq<Seq<char>>)
    requires
        ls.len() >= 1,
        forall|j: int| 0 <= j < ls.len() ==> plain_line(#[trigger] ls[j]),
    ensures
        parse_head_spec(joinnl(ls).drop_last()) == match parse_first_line_spec(ls[0]) {
            Err(f) => Err(f),
            Ok((verb, name)) => match scan_fold(ls, 1, empty_scan()) {
                Err(f) => Err(f),
                Ok(st) => match st.request_id {
                    None => Err(Failure::MissingHeader("Request-Id"@)),
                    Some(rid) => if st.content_length is Some && st.content_type is None {
                        Err(
                            Failure::ProtocolViolation(
                                "Content-Length present but Content-Type missing"@,
                            ),
                        )
                    } else if st.content_length is None && st.content_type is Some {
                        Err(
                            Failure::ProtocolViolation(
                                "Content-Type present but Content-Length missing"@,
                            ),
                        )
                    } else {
                        Ok(
                            Head {
                                verb,
                                name,
                                request_id: rid,
                                headers: st.headers,
                                content_length: st.content_length,
                                content_type: st.content_type,
                            },
                        )
                    },
                },
            },
        },
{
    lemma_lines_of_join(ls, 0);
    assert(ls.take(0) =~= Seq::<Seq<char>>::empty());
    assert(line_offset(ls, 0) == 0);
    lemma_scan_join(ls, 1, empty_scan());
}

/// Law: the order of the Content-Length and Content-Type lines does not
/// matter: a header section that has them one way round reads exactly as the
/// one that has them the other way round (the same verb, name, request id,
/// headers, content length and content type, or the same error).
pub proof fn law_content_lines_in_either_order(
    first: Seq<char>,
    before: Seq<Seq<char>>,
    after: Seq<Seq<char>>,
    n: Seq<char>,
    ct: Seq<char>,
)
    requires
        plain_line(first),
        forall|j: int| 0 <= j < before.len() ==> plain_line(#[trigger] before[j]),
        forall|j: int| 0 <= j < after.len() ==> plain_line(#[trigger] after[j]),
        plain_line("Content-Length: "@ + n),
        plain_line("Content-Type: "@ + ct),
        !has_bad_char(n),
        !has_bad_char(ct),
    ensures
        parse_head_spec(
            joinnl(
                seq![first] + before + seq!["Content-Length: "@ + n, "Content-Type: "@ + ct]
                    + after,
            ).drop_last(),
        ) == parse_head_spec(
            joinnl(
                seq![first] + before + seq!["Content-Type: "@ + ct, "Content-Length: "@ + n]
                    + after,
            ).drop_last(),
        ),
{
    let cl = "Content-Length: "@ + n;
    let ctl = "Content-Type: "@ + ct;
    let ls1 = seq![first] + before + seq![cl, ctl] + after;
    let ls2 = seq![first] + before + seq![ctl, cl] + after;
    let p: int = before.len() + 1int;
    assert forall|j: int| 0 <= j < ls1.len() implies plain_line(#[trigger] ls1[j]) by {
        if j == 0 {
            assert(ls1[j] == first);
        } else if j < p {
            assert(ls1[j] == before[j - 1]);
        } else if j == p {
            assert(ls1[j] == cl);
        } else if j == p + 1 {
            assert(ls1[j] == ctl);
        } else {
            assert(ls1[j] == after[j - p - 2]);
        }
    }
    assert forall|j: int| 0 <= j < ls2.len() implies plain_line(#[trigger] ls2[j]) by {
        if j == 0 {
            assert(ls2[j] == first);
        } else if j < p {
            assert(ls2[j] == before[j - 1]);
        } else if j == p {
            assert(ls2[j] == ctl);
        } else if j == p + 1 {
            assert(ls2[j] == cl);
        } else {
            assert(ls2[j] == after[j - p - 2]);
        }
    }
    lemma_head_of_lines(ls1);
    lemma_head_of_lines(ls2);
    assert(ls1[0] == ls2[0]);
    assert forall|j: int| p + 2 <= j < ls1.len() implies ls1[j] == ls2[j] by {
        assert(ls1[j] == after[j - p - 2]);
        assert(ls2[j] == after[j - p - 2]);
    }
    assert(ls1[p] == cl && ls1[p + 1] == ctl && ls2[p] == ctl && ls2[p + 1] == cl);
    assert forall|st2: Scan| #[trigger] scan_fold(ls1, p, st2) == scan_fold(ls2, p, st2) by {
        law_reserved_lines_set_their_field(st2, n);
        law_reserved_lines_set_their_field(st2, ct);
        let b = Scan { content_type: Some(ct), ..st2 };
        law_reserved_lines_set_their_field(b, n);
        assert(scan_fold(ls2, p, st2) == scan_fold(ls2, p + 1, b));
        match parse_usize_spec(n) {
            None => {
                assert(scan_fold(ls1, p, st2) == Err::<Scan, Failure>(
                    Failure::InvalidContentLength(n),
                ));
                assert(scan_fold(ls2, p + 1, b) == Err::<Scan, Failure>(
                    Failure::InvalidContentLength(n),
                ));
            },
            Some(v) => {
                let a = Scan { content_length: Some(v), ..st2 };
                law_reserved_lines_set_their_field(a, ct);
                let c = Scan { content_type: Some(ct), ..a };
                assert(Scan { content_length: Some(v), ..b } == c);
                assert(scan_fold(ls1, p, st2) == scan_fold(ls1, p + 1, a));
                assert(scan_fold(ls1, p + 1, a) == scan_fold(ls1, p + 2, c));
                assert(scan_fold(ls2, p + 1, b) == scan_fold(ls2, p + 2, c));
                lemma_scan_fold_same_from(ls1, ls2, p + 2, c);
            },
        }
    }
    assert forall|j: int| 1 <= j < p implies ls1[j] == ls2[j] by {
        assert(ls1[j] == before[j - 1]);
        assert(ls2[j] == before[j - 1]);
    }
    lemma_scan_fold_same_upto(ls1, ls2, 1, p, empty_scan());
}

} // verus!
