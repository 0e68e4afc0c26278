use vstd::prelude::*;

use crate::stream::{MessageStream, CR, LF, SP, TAB};
use crate::text::{lossy_text, text_from_bytes};

verus! {

pub const QUESTION: u8 = 0x3f;

pub const EQUALS: u8 = 0x3d;

pub const UNDERSCORE: u8 = 0x5f;

/// A byte that ends the charset name of an encoded word.
pub open spec fn ends_charset(b: u8) -> bool {
    b == QUESTION || b == SP || b == TAB || b == CR || b == LF
}

/// A byte that ends the encoded text of an encoded word.
pub open spec fn ends_text(b: u8) -> bool {
    b == QUESTION || b == CR || b == LF
}

pub open spec fn is_stop(b: u8, in_text: bool) -> bool {
    if in_text {
        ends_text(b)
    } else {
        ends_charset(b)
    }
}

/// The first index at or after `from` that holds a stop byte, or the length of `s`.
pub open spec fn first_stop(s: Seq<u8>, from: int, in_text: bool) -> int
    decreases s.len() - from,
{
    if from >= s.len() {
        s.len() as int
    } else if is_stop(s[from], in_text) {
        from
    } else {
        first_stop(s, from + 1, in_text)
    }
}

pub open spec fn prepend(p: Seq<u8>, o: Option<Seq<u8>>) -> Option<Seq<u8>> {
    match o {
        Some(x) => Some(p + x),
        None => None,
    }
}

pub open spec fn is_hex(b: u8) -> bool {
    (0x30 <= b <= 0x39) || (0x41 <= b <= 0x46) || (0x61 <= b <= 0x66)
}

pub open spec fn hex_value(b: u8) -> int {
    if 0x30 <= b <= 0x39 {
        b - 0x30
    } else if 0x41 <= b <= 0x46 {
        b - 0x37
    } else {
        b - 0x57
    }
}

/// The bytes that the "Q" encoding of an encoded word stands for: `_` is a
/// space, `=` and two hex digits a byte, any other byte itself.
pub open spec fn q_decode(t: Seq<u8>) -> Option<Seq<u8>>
    decreases t.len(),
{
    if t.len() == 0 {
        Some(Seq::empty())
    } else if t[0] == UNDERSCORE {
        prepend(seq![SP], q_decode(t.drop_first()))
    } else if t[0] == EQUALS {
        if t.len() >= 3 && is_hex(t[1]) && is_hex(t[2]) {
            prepend(seq![(hex_value(t[1]) * 16 + hex_value(t[2])) as u8], q_decode(t.skip(3)))
        } else {
            None
        }
    } else {
        prepend(seq![t[0]], q_decode(t.drop_first()))
    }
}

/// The six-bit value of a base64 digit, or -1.
pub open spec fn b64_value(b: u8) -> int {
    if 0x41 <= b <= 0x5a {
        b - 0x41
    } else if 0x61 <= b <= 0x7a {
        b - 0x47
    } else if 0x30 <= b <= 0x39 {
        b + 4
    } else if b == 0x2b {
        62
    } else if b == 0x2f {
        63
    } else {
        -1
    }
}

pub open spec fn is_b64(b: u8) -> bool {
    b64_value(b) >= 0
}

pub open spec fn b64_first(t: Seq<u8>) -> u8 {
    (b64_value(t[0]) * 4 + b64_value(t[1]) / 16) as u8
}

pub open spec fn b64_second(t: Seq<u8>) -> u8 {
    ((b64_value(t[1]) % 16) * 16 + b64_value(t[2]) / 4) as u8
}

pub open spec fn b64_third(t: Seq<u8>) -> u8 {
    ((b64_value(t[2]) % 4) * 64 + b64_value(t[3])) as u8
}

/// The last, short group of base64 text: two or three digits, padded with
/// `=` to four or not.
pub open spec fn b64_tail(t: Seq<u8>) -> Option<Seq<u8>> {
    if t.len() >= 2 && is_b64(t[0]) && is_b64(t[1]) {
        if t.len() == 2 || (t.len() == 4 && t[2] == EQUALS && t[3] == EQUALS) {
            Some(seq![b64_first(t)])
        } else if t.len() >= 3 && is_b64(t[2]) && (t.len() == 3 || (t.len() == 4 && t[3]
            == EQUALS)) {
            Some(seq![b64_first(t), b64_second(t)])
        } else {
            None
        }
    } else {
        None
    }
}

pub open spec fn b64_full_group(t: Seq<u8>) -> bool {
    t.len() >= 4 && is_b64(t[0]) && is_b64(t[1]) && is_b64(t[2]) && is_b64(t[3])
}

/// The bytes that base64 text stands for, in groups of four digits.
pub open spec fn b64_decode(t: Seq<u8>) -> Option<Seq<u8>>
    decreases t.len(),
{
    if t.len() == 0 {
        Some(Seq::empty())
    } else if b64_full_group(t) {
        prepend(seq![b64_first(t), b64_second(t), b64_third(t)], b64_decode(t.skip(4)))
    } else {
        b64_tail(t)
    }
}

/// The UTF-8 form of one ISO-8859-1 byte.
pub open spec fn latin1_char_utf8(b: u8) -> Seq<u8> {
    if b < 0x80 {
        seq![b]
    } else {
        seq![(0xc0 + b / 64) as u8, (0x80 + b % 64) as u8]
    }
}

pub open spec fn latin1_to_utf8(bs: Seq<u8>) -> Seq<u8>
    decreases bs.len(),
{
    if bs.len() == 0 {
        Seq::empty()
    } else {
        latin1_to_utf8(bs.drop_last()) + latin1_char_utf8(bs.last())
    }
}

pub open spec fn ascii_lower(b: u8) -> u8 {
    if 0x41 <= b <= 0x5a {
        (b + 0x20) as u8
    } else {
        b
    }
}

pub open spec fn lower_bytes(s: Seq<u8>) -> Seq<u8> {
    s.map_values(|b: u8| ascii_lower(b))
}

/// A charset name, in any case, for ISO-8859-1: `iso-8859-1` or `latin1`.
pub open spec fn is_latin1_name(cs: Seq<u8>) -> bool {
    lower_bytes(cs) == seq![0x69u8, 0x73, 0x6f, 0x2d, 0x38, 0x38, 0x35, 0x39, 0x2d, 0x31]
        || lower_bytes(cs) == seq![0x6cu8, 0x61, 0x74, 0x69, 0x6e, 0x31]
}

/// The text that decoded bytes in charset `cs` stand for: ISO-8859-1 maps
/// each byte to the character of the same number; any other charset is read
/// as UTF-8.
pub open spec fn charset_text(cs: Seq<u8>, bytes: Seq<u8>) -> Seq<char> {
    if is_latin1_name(cs) {
        lossy_text(latin1_to_utf8(bytes))
    } else {
        lossy_text(bytes)
    }
}

pub open spec fn is_encoding(b: u8) -> bool {
    b == 0x42 || b == 0x62 || b == 0x51 || b == 0x71
}

pub open spec fn payload_bytes(enc: u8, t: Seq<u8>) -> Option<Seq<u8>> {
    if enc == 0x42 || enc == 0x62 {
        b64_decode(t)
    } else {
        q_decode(t)
    }
}

/// The end of the charset name of an encoded word that `s` starts, just
/// after its leading `=`.
pub open spec fn charset_end(s: Seq<u8>) -> int {
    first_stop(s, 1, false)
}

/// The end of its encoded text.
pub open spec fn text_end(s: Seq<u8>) -> int {
    first_stop(s, charset_end(s) + 3, true)
}

/// Whether `s`, which follows an `=`, goes on as `?charset?B?text?=` or
/// `?charset?Q?text?=`, with a non-empty charset and text.
pub open spec fn word_shape(s: Seq<u8>) -> bool {
    let c = charset_end(s);
    let t = text_end(s);
    s.len() > 0 && s[0] == QUESTION && c > 1 && c + 2 < s.len() && s[c] == QUESTION
        && is_encoding(s[c + 1]) && s[c + 2] == QUESTION && t > c + 3 && t + 1 < s.len()
        && s[t] == QUESTION && s[t + 1] == EQUALS
}

/// The encoded word at the start of `s` (which follows an `=`): its text,
/// and how many bytes of `s` it takes; `None` where there is none that
/// decodes.
pub open spec fn decode_word(s: Seq<u8>) -> Option<(Seq<char>, nat)> {
    if word_shape(s) {
        let c = charset_end(s);
        let t = text_end(s);
        match payload_bytes(s[c + 1], s.subrange(c + 3, t)) {
            Some(bytes) => Some((charset_text(s.subrange(1, c), bytes), (t + 2) as nat)),
            None => None,
        }
    } else {
        None
    }
}

} // verus!

verus! {

proof fn lemma_prepend_assoc(a: Seq<u8>, b: Seq<u8>, o: Option<Seq<u8>>)
    ensures
        prepend(a, prepend(b, o)) == prepend(a + b, o),
{
    if let Some(x) = o {
        assert(a + (b + x) =~= (a + b) + x);
    }
}

fn is_stop_byte(b: u8, in_text: bool) -> (r: bool)
    ensures
        r == is_stop(b, in_text),
{
    if in_text {
        b == QUESTION || b == CR || b == LF
    } else {
        b == QUESTION || b == SP || b == TAB || b == CR || b == LF
    }
}

/// The absolute index of the first stop byte at or after `from`, in the
/// bytes that start at `p`.
fn find_stop(data: &Vec<u8>, p: usize, from: usize, in_text: bool) -> (r: usize)
    requires
        p <= from <= data@.len(),
    ensures
        r as int == p + first_stop(data@.skip(p as int), from - p, in_text),
        from <= r <= data@.len(),
{
    let ghost s = data@.skip(p as int);
    let mut i = from;
    while i < data.len()
        invariant
            p <= from <= i <= data@.len(),
            s == data@.skip(p as int),
            first_stop(s, from - p, in_text) == first_stop(s, i - p, in_text),
        decreases data@.len() - i,
    {
        if is_stop_byte(data[i], in_text) {
            return i;
        }
        i = i + 1;
    }
    i
}

fn hex_digit(b: u8) -> (r: u8)
    ensures
        is_hex(b) ==> r as int == hex_value(b),
        !is_hex(b) ==> r == 16,
{
    if 0x30 <= b && b <= 0x39 {
        b - 0x30
    } else if 0x41 <= b && b <= 0x46 {
        b - 0x37
    } else if 0x61 <= b && b <= 0x66 {
        b - 0x57
    } else {
        16
    }
}

pub open spec fn opt_bytes(r: Option<Vec<u8>>) -> Option<Seq<u8>> {
    match r {
        Some(v) => Some(v@),
        None => None,
    }
}

/// Decodes the "Q" encoded text `data[a..b]`.
fn decode_q(data: &Vec<u8>, a: usize, b: usize) -> (r: Option<Vec<u8>>)
    requires
        a <= b <= data@.len(),
    ensures
        opt_bytes(r) == q_decode(data@.subrange(a as int, b as int)),
        a < b && r is Some ==> r->Some_0@.len() > 0,
{
    let mut out: Vec<u8> = Vec::new();
    let mut i = a;
    while i < b
        invariant
            a <= i <= b <= data@.len(),
            i > a ==> out@.len() > 0,
            q_decode(data@.subrange(a as int, b as int)) == prepend(
                out@,
                q_decode(data@.subrange(i as int, b as int)),
            ),
        decreases b - i,
    {
        let ghost t = data@.subrange(i as int, b as int);
        let ghost prev = out@;
        let c = data[i];
        if c == EQUALS {
            if b - i >= 3 {
                let h1 = hex_digit(data[i + 1]);
                let h2 = hex_digit(data[i + 2]);
                if h1 < 16 && h2 < 16 {
                    assert(t.skip(3) =~= data@.subrange(i + 3, b as int));
                    out.push(h1 * 16 + h2);
                    proof {
                        lemma_prepend_assoc(prev, seq![(h1 * 16 + h2) as u8], q_decode(t.skip(3)));
                        assert(prev + seq![(h1 * 16 + h2) as u8] =~= out@);
                    }
                    i = i + 3;
                } else {
                    return None;
                }
            } else {
                return None;
            }
        } else {
            let d = if c == UNDERSCORE {
                SP
            } else {
                c
            };
            assert(t.drop_first() =~= data@.subrange(i + 1, b as int));
            out.push(d);
            proof {
                lemma_prepend_assoc(prev, seq![d], q_decode(t.drop_first()));
                assert(prev + seq![d] =~= out@);
            }
            i = i + 1;
        }
    }
    assert(data@.subrange(i as int, b as int) =~= Seq::<u8>::empty());
    assert(out@ + Seq::<u8>::empty() =~= out@);
    Some(out)
}

fn b64_digit(b: u8) -> (r: u8)
    ensures
        is_b64(b) ==> r as int == b64_value(b),
        !is_b64(b) ==> r == 64,
{
    if 0x41 <= b && b <= 0x5a {
        b - 0x41
    } else if 0x61 <= b && b <= 0x7a {
        b - 0x47
    } else if 0x30 <= b && b <= 0x39 {
        b + 4
    } else if b == 0x2b {
        62
    } else if b == 0x2f {
        63
    } else {
        64
    }
}

/// Decodes the last, short group of base64 text `data[a..b]`.
fn decode_b64_tail(data: &Vec<u8>, a: usize, b: usize) -> (r: Option<Vec<u8>>)
    requires
        a <= b <= data@.len(),
    ensures
        opt_bytes(r) == b64_tail(data@.subrange(a as int, b as int)),
        r is Some ==> r->Some_0@.len() > 0,
{
    let ghost t = data@.subrange(a as int, b as int);
    let n = b - a;
    if n < 2 || n > 4 {
        return None;
    }
    let v0 = b64_digit(data[a]);
    let v1 = b64_digit(data[a + 1]);
    if v0 >= 64 || v1 >= 64 {
        return None;
    }
    let first = v0 * 4 + v1 / 16;
    assert(first == b64_first(t));
    if n == 2 || (n == 4 && data[a + 2] == EQUALS && data[a + 3] == EQUALS) {
        let mut out: Vec<u8> = Vec::new();
        out.push(first);
        assert(out@ =~= seq![b64_first(t)]);
        return Some(out);
    }
    let v2 = b64_digit(data[a + 2]);
    if v2 < 64 && (n == 3 || data[a + 3] == EQUALS) {
        let second = (v1 % 16) * 16 + v2 / 4;
        assert(second == b64_second(t));
        let mut out: Vec<u8> = Vec::new();
        out.push(first);
        out.push(second);
        assert(out@ =~= seq![b64_first(t), b64_second(t)]);
        Some(out)
    } else {
        None
    }
}

/// Decodes the base64 encoded text `data[a..b]`.
fn decode_b64(data: &Vec<u8>, a: usize, b: usize) -> (r: Option<Vec<u8>>)
    requires
        a <= b <= data@.len(),
    ensures
        opt_bytes(r) == b64_decode(data@.subrange(a as int, b as int)),
        a < b && r is Some ==> r->Some_0@.len() > 0,
{
    let mut out: Vec<u8> = Vec::new();
    let mut i = a;
    loop
        invariant
            a <= i <= b <= data@.len(),
            i > a ==> out@.len() > 0,
            b64_decode(data@.subrange(a as int, b as int)) == prepend(
                out@,
                b64_decode(data@.subrange(i as int, b as int)),
            ),
        decreases b - i,
    {
        let ghost t = data@.subrange(i as int, b as int);
        let ghost prev = out@;
        if i == b {
            assert(t =~= Seq::<u8>::empty());
            assert(out@ + Seq::<u8>::empty() =~= out@);
            return Some(out);
        }
        let mut full = false;
        if b - i >= 4 {
            let v0 = b64_digit(data[i]);
            let v1 = b64_digit(data[i + 1]);
            let v2 = b64_digit(data[i + 2]);
            let v3 = b64_digit(data[i + 3]);
            if v0 < 64 && v1 < 64 && v2 < 64 && v3 < 64 {
                full = true;
                let x = v0 * 4 + v1 / 16;
                let y = (v1 % 16) * 16 + v2 / 4;
                let z = (v2 % 4) * 64 + v3;
                assert(x == b64_first(t) && y == b64_second(t) && z == b64_third(t));
                out.push(x);
                out.push(y);
                out.push(z);
                assert(t.skip(4) =~= data@.subrange(i + 4, b as int));
                proof {
                    lemma_prepend_assoc(prev, seq![x, y, z], b64_decode(t.skip(4)));
                    assert(prev + seq![x, y, z] =~= out@);
                }
                i = i + 4;
            }
        }
        if !full {
            match decode_b64_tail(data, i, b) {
                Some(mut last) => {
                    out.append(&mut last);
                    return Some(out);
                },
                None => {
                    return None;
                },
            }
        }
    }
}

fn latin1_bytes_to_utf8(bytes: &Vec<u8>) -> (r: Vec<u8>)
    ensures
        r@ == latin1_to_utf8(bytes@),
        bytes@.len() > 0 ==> r@.len() > 0,
{
    let mut out: Vec<u8> = Vec::new();
    let mut i: usize = 0;
    while i < bytes.len()
        invariant
            i <= bytes@.len(),
            i > 0 ==> out@.len() > 0,
            out@ == latin1_to_utf8(bytes@.take(i as int)),
        decreases bytes@.len() - i,
    {
        let c = bytes[i];
        let ghost prev = out@;
        assert(bytes@.take(i + 1).drop_last() =~= bytes@.take(i as int));
        if c < 0x80 {
            out.push(c);
        } else {
            out.push(0xc0 + c / 64);
            out.push(0x80 + c % 64);
        }
        assert(out@ =~= prev + latin1_char_utf8(c));
        i = i + 1;
    }
    assert(bytes@.take(i as int) =~= bytes@);
    out
}

fn lower_byte(b: u8) -> (r: u8)
    ensures
        r == ascii_lower(b),
{
    if 0x41 <= b && b <= 0x5a {
        b + 0x20
    } else {
        b
    }
}

/// Whether `data[a..b]`, in lower case, is `name`.
fn lower_matches(data: &Vec<u8>, a: usize, b: usize, name: &[u8]) -> (r: bool)
    requires
        a <= b <= data@.len(),
    ensures
        r == (lower_bytes(data@.subrange(a as int, b as int)) == name@),
{
    let ghost cs = data@.subrange(a as int, b as int);
    if b - a != name.len() {
        assert(lower_bytes(cs).len() != name@.len());
        return false;
    }
    let mut j: usize = 0;
    while j < name.len()
        invariant
            j <= name@.len(),
            b - a == name@.len(),
            a <= b <= data@.len(),
            cs == data@.subrange(a as int, b as int),
            forall|k: int| 0 <= k < j ==> lower_bytes(cs)[k] == name@[k],
        decreases name@.len() - j,
    {
        if lower_byte(data[a + j]) != name[j] {
            assert(lower_bytes(cs)[j as int] != name@[j as int]);
            return false;
        }
        j = j + 1;
    }
    assert(lower_bytes(cs) =~= name@);
    true
}

fn is_latin1_charset(data: &Vec<u8>, a: usize, b: usize) -> (r: bool)
    requires
        a <= b <= data@.len(),
    ensures
        r == is_latin1_name(data@.subrange(a as int, b as int)),
{
    let iso: [u8; 10] = [0x69, 0x73, 0x6f, 0x2d, 0x38, 0x38, 0x35, 0x39, 0x2d, 0x31];
    let latin: [u8; 6] = [0x6c, 0x61, 0x74, 0x69, 0x6e, 0x31];
    assert(iso@ =~= seq![0x69u8, 0x73, 0x6f, 0x2d, 0x38, 0x38, 0x35, 0x39, 0x2d, 0x31]);
    assert(latin@ =~= seq![0x6cu8, 0x61, 0x74, 0x69, 0x6e, 0x31]);
    lower_matches(data, a, b, &iso) || lower_matches(data, a, b, &latin)
}

impl MessageStream {
    /// Decodes the encoded word whose leading `=` was just read, and moves
    /// past it. Where none decodes the position is left unspecified; the
    /// caller restores a saved one.
    pub fn decode_rfc2047(&mut self) -> (r: Option<String>)
        requires
            old(self).wf(),
        ensures
            final(self).wf(),
            final(self).data == old(self).data,
            final(self).saved == old(self).saved,
            final(self).pos >= old(self).pos,
            match r {
                Some(t) => decode_word(old(self).rest()) == Some(
                    (t@, (final(self).pos - old(self).pos) as nat),
                ),
                None => decode_word(old(self).rest()) is None,
            },
            r is Some ==> r->Some_0@.len() > 0,
    {
        let ghost s = self.rest();
        let p = self.pos;
        let len = self.data.len();
        if p >= len || self.data[p] != QUESTION {
            return None;
        }
        let c = find_stop(&self.data, p, p + 1, false);
        assert(c - p == charset_end(s));
        if !(c > p + 1 && len - c > 2 && self.data[c] == QUESTION && (self.data[c + 1] == 0x42
            || self.data[c + 1] == 0x62 || self.data[c + 1] == 0x51 || self.data[c + 1] == 0x71)
            && self.data[c + 2] == QUESTION) {
            return None;
        }
        let t = find_stop(&self.data, p, c + 3, true);
        assert(t - p == text_end(s));
        if !(t > c + 3 && len - t > 1 && self.data[t] == QUESTION && self.data[t + 1] == EQUALS) {
            return None;
        }
        assert(word_shape(s));
        assert(s.subrange(c - p + 3, t - p) =~= self.data@.subrange(c + 3, t as int));
        assert(s.subrange(1, c - p) =~= self.data@.subrange(p + 1, c as int));
        let enc = self.data[c + 1];
        let bytes = if enc == 0x42 || enc == 0x62 {
            decode_b64(&self.data, c + 3, t)
        } else {
            decode_q(&self.data, c + 3, t)
        };
        match bytes {
            None => None,
            Some(bytes) => {
                let text = if is_latin1_charset(&self.data, p + 1, c) {
                    let utf8 = latin1_bytes_to_utf8(&bytes);
                    text_from_bytes(utf8.as_slice())
                } else {
                    text_from_bytes(bytes.as_slice())
                };
                self.pos = t + 2;
                Some(text)
            },
        }
    }
}

} // verus!

verus! {

proof fn lemma_first_stop_prefix(s: Seq<u8>, m: Seq<u8>, from: int, in_text: bool)
    requires
        0 <= from,
        first_stop(s, from, in_text) < s.len(),
    ensures
        first_stop(s + m, from, in_text) == first_stop(s, from, in_text),
    decreases s.len() - from,
{
    if from < s.len() {
        assert((s + m)[from] == s[from]);
        if !is_stop(s[from], in_text) {
            lemma_first_stop_prefix(s, m, from + 1, in_text);
        }
    }
}

/// An encoded word decodes the same whatever follows it.
pub proof fn lemma_decode_word_prefix(s: Seq<u8>, m: Seq<u8>)
    requires
        decode_word(s) is Some,
    ensures
        decode_word(s + m) == decode_word(s),
{
    let sm = s + m;
    let c = charset_end(s);
    lemma_first_stop_prefix(s, m, 1, false);
    lemma_first_stop_prefix(s, m, c + 3, true);
    let t = text_end(s);
    assert(sm[0] == s[0] && sm[c] == s[c] && sm[c + 1] == s[c + 1] && sm[c + 2] == s[c + 2]);
    assert(sm[t] == s[t] && sm[t + 1] == s[t + 1]);
    assert(sm.subrange(c + 3, t) =~= s.subrange(c + 3, t));
    assert(sm.subrange(1, c) =~= s.subrange(1, c));
}

} // verus!
