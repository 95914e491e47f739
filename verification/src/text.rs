//! Character classes and decimal numbers as the wire format uses them.
use vstd::prelude::*;
use vstd::string::*;
use vstd::utf8::*;

verus! {

/// The characters that `char::is_whitespace` accepts (Unicode White_Space).
pub open spec fn is_whitespace_char(c: char) -> bool {
    let u = c as u32;
    ||| 0x9 <= u <= 0xD
    ||| u == 0x20
    ||| u == 0x85
    ||| u == 0xA0
    ||| u == 0x1680
    ||| 0x2000 <= u <= 0x200A
    ||| u == 0x2028
    ||| u == 0x2029
    ||| u == 0x202F
    ||| u == 0x205F
    ||| u == 0x3000
}

/// The characters that `char::is_control` accepts (general category Cc).
pub open spec fn is_control_char(c: char) -> bool {
    let u = c as u32;
    u <= 0x1F || (0x7F <= u <= 0x9F)
}

/// Whether `c` is white space.
pub fn is_whitespace(c: char) -> (r: bool)
    ensures
        r == is_whitespace_char(c),
{
    let u = c as u32;
    (0x9 <= u && u <= 0xD) || u == 0x20 || u == 0x85 || u == 0xA0 || u == 0x1680 || (0x2000 <= u
        && u <= 0x200A) || u == 0x2028 || u == 0x2029 || u == 0x202F || u == 0x205F || u == 0x3000
}

/// Whether `c` is a control character.
pub fn is_control(c: char) -> (r: bool)
    ensures
        r == is_control_char(c),
{
    let u = c as u32;
    u <= 0x1F || (0x7F <= u && u <= 0x9F)
}

/// The ASCII digit for `d < 10`.
pub open spec fn digit_char(d: nat) -> char {
    (d + 48) as char
}

/// Whether `c` is one of `0`..`9`.
pub open spec fn is_digit_char(c: char) -> bool {
    48 <= (c as u32) <= 57
}

/// The value of the ASCII digit `c`.
pub open spec fn digit_value(c: char) -> nat {
    ((c as u32) - 48) as nat
}

/// The decimal rendering of `n`, without sign or leading zeros.
pub open spec fn decimal(n: nat) -> Seq<char>
    decreases n,
{
    if n < 10 {
        seq![digit_char(n)]
    } else {
        decimal(n / 10).push(digit_char(n % 10))
    }
}

/// The value of a nonempty run of decimal digits.
pub open spec fn digits_value(s: Seq<char>) -> nat
    decreases s.len(),
{
    if s.len() == 0 {
        0
    } else {
        digits_value(s.drop_last()) * 10 + digit_value(s.last())
    }
}

pub open spec fn all_digits(s: Seq<char>) -> bool {
    forall|i: int| 0 <= i < s.len() ==> #[trigger] is_digit_char(s[i])
}

/// What `usize::from_str` accepts, and its value: an optional `+`, then one
/// or more ASCII digits whose value fits in a `usize`.
pub open spec fn parse_usize_spec(s: Seq<char>) -> Option<usize> {
    let d = if s.len() > 0 && s[0] == '+' {
        s.drop_first()
    } else {
        s
    };
    if d.len() > 0 && all_digits(d) && digits_value(d) <= usize::MAX {
        Some(digits_value(d) as usize)
    } else {
        None
    }
}

proof fn lemma_digit_char(d: nat)
    requires
        d < 10,
    ensures
        is_digit_char(digit_char(d)),
        digit_value(digit_char(d)) == d,
{
    assert((d + 48) as char as u32 == d + 48);
}

/// Every decimal rendering is a nonempty run of digits with the right value.
pub proof fn lemma_decimal_digits(n: nat)
    ensures
        decimal(n).len() > 0,
        all_digits(decimal(n)),
        digits_value(decimal(n)) == n,
        decimal(n)[0] != '+',
    decreases n,
{
    if n < 10 {
        lemma_digit_char(n);
        assert(decimal(n).drop_last() =~= Seq::<char>::empty());
        assert(digits_value(Seq::<char>::empty()) == 0);
        assert(digits_value(decimal(n)) == n);
    } else {
        lemma_decimal_digits(n / 10);
        lemma_digit_char(n % 10);
        assert(decimal(n).drop_last() =~= decimal(n / 10));
        assert(decimal(n).last() == digit_char(n % 10));
        assert(decimal(n)[0] == decimal(n / 10)[0]);
        assert(digits_value(decimal(n)) == digits_value(decimal(n / 10)) * 10 + n % 10);
        assert(n == (n / 10) * 10 + n % 10) by (nonlinear_arith);
    }
}

/// Parsing a decimal rendering gives the number back.
pub proof fn lemma_parse_decimal(n: nat)
    requires
        n <= usize::MAX,
    ensures
        parse_usize_spec(decimal(n)) == Some(n as usize),
{
    lemma_decimal_digits(n);
}

/// Distinct numbers have distinct decimal renderings.
pub proof fn lemma_decimal_injective(a: nat, b: nat)
    requires
        a != b,
    ensures
        decimal(a) != decimal(b),
{
    lemma_decimal_digits(a);
    lemma_decimal_digits(b);
}

/// The decimal digits of `n`, most significant first.
pub fn decimal_chars(n: u64) -> (r: Vec<char>)
    ensures
        r@ == decimal(n as nat),
{
    let mut out: Vec<char> = Vec::new();
    let mut m: u64 = n;
    loop
        invariant_except_break
            decimal(n as nat) == decimal(m as nat) + out@,
        ensures
            decimal(n as nat) == out@,
        decreases m,
    {
        let d: u64 = m % 10;
        let c: char = (48u8 + (d as u8)) as char;
        let ghost prev = out@;
        out.insert(0, c);
        assert(out@ == seq![digit_char(d as nat)] + prev);
        if m < 10 {
            assert(decimal(m as nat) == seq![digit_char(d as nat)]);
            assert(decimal(n as nat) =~= out@);
            break;
        }
        assert(decimal(m as nat) == decimal((m / 10) as nat).push(digit_char(d as nat)));
        assert(decimal(m as nat) + prev =~= decimal((m / 10) as nat) + out@);
        m = m / 10;
    }
    out
}

/// Whether `c` is one of `0`..`9`.
pub fn is_digit(c: char) -> (r: bool)
    ensures
        r == is_digit_char(c),
{
    let u = c as u32;
    48 <= u && u <= 57
}

proof fn lemma_fits(acc: nat, d: nat)
    requires
        d < 10,
    ensures
        (acc * 10 + d <= usize::MAX) <==> (acc <= (usize::MAX - d) / 10),
{
    let m = usize::MAX as nat;
    assert((acc * 10 + d <= m) <==> (acc <= (m - d) / 10)) by (nonlinear_arith)
        requires
            d < 10,
            m > 10,
    ;
}

proof fn lemma_digits_value_step(d: Seq<char>, k: int)
    requires
        0 <= k < d.len(),
    ensures
        digits_value(d.take(k + 1)) == digits_value(d.take(k)) * 10 + digit_value(d[k]),
{
    assert(d.take(k + 1).drop_last() =~= d.take(k));
}

/// Parses `s[lo..hi]` as `usize::from_str` does.
pub fn parse_usize(s: &Vec<char>, lo: usize, hi: usize) -> (r: Option<usize>)
    requires
        lo <= hi <= s@.len(),
    ensures
        r == parse_usize_spec(s@.subrange(lo as int, hi as int)),
{
    let ghost t = s@.subrange(lo as int, hi as int);
    let mut start = lo;
    if hi > lo && s[lo] == '+' {
        start = lo + 1;
    }
    let ghost d = s@.subrange(start as int, hi as int);
    assert(d =~= (if t.len() > 0 && t[0] == '+' { t.drop_first() } else { t }));
    if start == hi {
        return None;
    }
    let mut acc: usize = 0;
    let mut too_big = false;
    let mut i = start;
    while i < hi
        invariant
            lo <= start <= i <= hi <= s@.len(),
            t == s@.subrange(lo as int, hi as int),
            d =~= (if t.len() > 0 && t[0] == '+' { t.drop_first() } else { t }),
            d == s@.subrange(start as int, hi as int),
            forall|j: int| 0 <= j < i - start ==> #[trigger] is_digit_char(d[j]),
            !too_big ==> acc == digits_value(d.take(i - start)),
            too_big ==> digits_value(d.take(i - start)) > usize::MAX,
        decreases hi - i,
    {
        let c = s[i];
        if !is_digit(c) {
            assert(!is_digit_char(d[i - start]));
            assert(!all_digits(d));
            assert(parse_usize_spec(t) is None);
            return None;
        }
        let dv: usize = ((c as u32) - 48) as usize;
        let ghost k = i - start;
        proof {
            lemma_digits_value_step(d, k);
        }
        if !too_big {
            proof {
                lemma_fits(acc as nat, dv as nat);
            }
            if acc > (usize::MAX - dv) / 10 {
                too_big = true;
            } else {
                acc = acc * 10 + dv;
            }
        }
        i = i + 1;
    }
    assert(d.take(d.len() as int) =~= d);
    assert(all_digits(d));
    if too_big {
        None
    } else {
        Some(acc)
    }
}

/// `std::str::Utf8Error`, carried through as it is.
#[verifier::external_type_specification]
#[verifier::external_body]
pub struct ExUtf8Error(std::str::Utf8Error);

/// Calls `std::str::from_utf8`. Trusted, as std documents it: the bytes are
/// read as a string exactly when they are valid UTF-8, and the string then
/// holds the characters that they encode.
#[verifier::external_body]
pub(crate) fn str_from_utf8(b: &[u8]) -> (r: Result<&str, std::str::Utf8Error>)
    ensures
        r is Ok <==> valid_utf8(b@),
        r matches Ok(s) ==> s@ == decode_utf8(b@),
{
    std::str::from_utf8(b)
}

/// The characters of `s`, in order.
pub fn chars_of(s: &str) -> (v: Vec<char>)
    ensures
        v@ == s@,
{
    let mut v: Vec<char> = Vec::new();
    for c in it: s.chars()
        invariant
            v@ == it.seq().take(it.index() as int),
    {
        v.push(c);
    }
    v
}

/// Whether two texts are the same.
pub fn text_eq(a: &str, b: &str) -> (r: bool)
    ensures
        r == (a@ == b@),
{
    broadcast use vstd::utf8::group_utf8_lib;
    let x = a.as_bytes();
    let y = b.as_bytes();
    proof {
        encode_utf8_decode_utf8(a@);
        encode_utf8_decode_utf8(b@);
    }
    if x.len() != y.len() {
        return false;
    }
    let mut i: usize = 0;
    while i < x.len()
        invariant
            x@.len() == y@.len(),
            x@ == encode_utf8(a@),
            y@ == encode_utf8(b@),
            forall|j: int| 0 <= j < i ==> x@[j] == y@[j],
        decreases x@.len() - i,
    {
        if x[i] != y[i] {
            return false;
        }
        i = i + 1;
    }
    assert(x@ =~= y@);
    true
}

/// The first index at or after `from` (and before `to`) where `s` holds `c`,
/// or `to` where there is none.
pub open spec fn find_from(s: Seq<char>, c: char, from: int, to: int) -> int
    decreases to - from,
{
    if from >= to {
        to
    } else if s[from] == c {
        from
    } else {
        find_from(s, c, from + 1, to)
    }
}

pub proof fn lemma_find_from(s: Seq<char>, c: char, from: int, to: int)
    requires
        0 <= from <= to <= s.len(),
    ensures
        from <= find_from(s, c, from, to) <= to,
        forall|j: int| from <= j < find_from(s, c, from, to) ==> s[j] != c,
        find_from(s, c, from, to) < to ==> s[find_from(s, c, from, to)] == c,
    decreases to - from,
{
    if from < to && s[from] != c {
        lemma_find_from(s, c, from + 1, to);
    }
}

/// Where `c` first occurs in `s[from..to]`, or `to`.
pub fn find_char(s: &Vec<char>, c: char, from: usize, to: usize) -> (r: usize)
    requires
        from <= to <= s@.len(),
    ensures
        r == find_from(s@, c, from as int, to as int),
{
    let mut i = from;
    while i < to
        invariant
            from <= i <= to <= s@.len(),
            find_from(s@, c, from as int, to as int) == find_from(s@, c, i as int, to as int),
        decreases to - i,
    {
        if s[i] == c {
            return i;
        }
        i = i + 1;
    }
    i
}

/// Whether `s[lo..hi]` is the text `w`.
pub fn range_is(s: &Vec<char>, lo: usize, hi: usize, w: &Vec<char>) -> (r: bool)
    requires
        lo <= hi <= s@.len(),
    ensures
        r == (s@.subrange(lo as int, hi as int) == w@),
{
    if hi - lo != w.len() {
        return false;
    }
    let mut i: usize = 0;
    while i < w.len()
        invariant
            lo <= hi <= s@.len(),
            hi - lo == w@.len(),
            forall|j: int| 0 <= j < i ==> s@[lo + j] == w@[j],
        decreases w@.len() - i,
    {
        if s[lo + i] != w[i] {
            return false;
        }
        i = i + 1;
    }
    assert(s@.subrange(lo as int, hi as int) =~= w@);
    true
}

/// Searching a slice of `s` finds what searching `s` over the same stretch
/// finds, shifted by where the slice starts.
pub proof fn lemma_find_from_subrange(s: Seq<char>, c: char, lo: int, hi: int, a: int, b: int)
    requires
        0 <= lo <= a <= b <= hi <= s.len(),
    ensures
        find_from(s.subrange(lo, hi), c, a - lo, b - lo) + lo == find_from(s, c, a, b),
    decreases b - a,
{
    if a < b && s[a] != c {
        lemma_find_from_subrange(s, c, lo, hi, a + 1, b);
    }
}

/// `prefix` followed by `rest`.
pub fn concat_text(prefix: &str, rest: &str) -> (r: String)
    ensures
        r@ == prefix@ + rest@,
{
    let mut m = prefix.to_owned();
    m.append(rest);
    m
}

/// The UTF-8 encoding of a concatenation is the concatenation of the
/// encodings.
pub proof fn lemma_encode_utf8_concat(a: Seq<char>, b: Seq<char>)
    ensures
        encode_utf8(a + b) == encode_utf8(a) + encode_utf8(b),
    decreases a.len(),
{
    if a.len() == 0 {
        assert(a + b =~= b);
    } else {
        lemma_encode_utf8_concat(a.drop_first(), b);
        assert((a + b).drop_first() =~= a.drop_first() + b);
        assert((a + b)[0] == a[0]);
    }
}

/// Appends the UTF-8 encoding of `s` to `out`.
pub fn push_text(out: &mut Vec<u8>, s: &str)
    ensures
        final(out)@ == old(out)@ + encode_utf8(s@),
{
    let b = s.as_bytes();
    let mut i: usize = 0;
    while i < b.len()
        invariant
            i <= b@.len(),
            b@ == encode_utf8(s@),
            out@ == old(out)@ + b@.take(i as int),
        decreases b@.len() - i,
    {
        out.push(b[i]);
        i = i + 1;
        assert(b@.take(i as int) =~= b@.take(i - 1).push(b@[i - 1]));
    }
    assert(b@.take(b@.len() as int) =~= b@);
}

/// Appends `b` to `out`.
pub fn push_bytes(out: &mut Vec<u8>, b: &[u8])
    ensures
        final(out)@ == old(out)@ + b@,
{
    let mut i: usize = 0;
    while i < b.len()
        invariant
            i <= b@.len(),
            out@ == old(out)@ + b@.take(i as int),
        decreases b@.len() - i,
    {
        out.push(b[i]);
        i = i + 1;
        assert(b@.take(i as int) =~= b@.take(i - 1).push(b@[i - 1]));
    }
    assert(b@.take(b@.len() as int) =~= b@);
}

proof fn lemma_digit_is_ascii(c: char)
    requires
        is_digit_char(c),
    ensures
        '\0' <= c <= '\u{7f}',
{
    assert((c as u32) as int == c as int);
}

/// The decimal rendering of `n`, as a string.
pub fn decimal_string(n: u64) -> (r: String)
    ensures
        r@ == decimal(n as nat),
{
    broadcast use vstd::utf8::group_utf8_lib;
    let cs = decimal_chars(n);
    let ghost d = decimal(n as nat);
    proof {
        lemma_decimal_digits(n as nat);
        assert forall|i: int| 0 <= i < d.len() implies '\0' <= #[trigger] d[i] <= '\u{7f}' by {
            lemma_digit_is_ascii(d[i]);
        }
        assert(is_ascii_chars(d));
        is_ascii_chars_encode_utf8(d);
    }
    let mut bytes: Vec<u8> = Vec::new();
    let mut i: usize = 0;
    while i < cs.len()
        invariant
            i <= cs@.len(),
            cs@ == d,
            all_digits(d),
            bytes@.len() == i,
            forall|j: int| 0 <= j < i ==> bytes@[j] == d[j] as u8,
        decreases cs@.len() - i,
    {
        let c = cs[i];
        assert(is_digit_char(d[i as int]));
        bytes.push(c as u8);
        i = i + 1;
    }
    assert(bytes@ =~= encode_utf8(d));
    match str_from_utf8(bytes.as_slice()) {
        Ok(s) => s.to_owned(),
        Err(_) => {
            assert(false);
            String::new()
        },
    }
}

} // verus!
