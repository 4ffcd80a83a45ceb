//! What the daemon and its clients exchange beside the resources: error bodies, its own
//! description, and the headers that carry who asked for a write.
use vstd::prelude::*;
use vstd::utf8::{decode_utf8, encode_utf8, valid_utf8};

verus! {

/// The header that marks an administrative request.
pub const ADMIN_HEADER: &'static str = "x-openplan-admin";

/// The header that carries the name of who asked for a write.
pub const AUTHOR_HEADER: &'static str = "x-openplan-author";

/// The header that carries the email of who asked for a write.
pub const EMAIL_HEADER: &'static str = "x-openplan-email";

/// The header that carries the agent that asked for a write.
pub const AGENT_HEADER: &'static str = "x-openplan-agent";

/// What a caller can do about a refusal, where the status alone cannot say. A tag delete answers
/// `TagReferenced` on the one conflict that `force` changes, and a task write answers
/// `TagUnregistered` on the one bad request that registering the name changes.
#[derive(Debug, Clone, Copy, PartialEq, Eq)]
pub enum Refusal {
    TagReferenced,
    TagUnregistered,
}

/// Where a diagram source stops parsing, so that an editor can point at the place.
#[derive(Debug, Clone, Copy, PartialEq, Eq)]
pub struct SourcePosition {
    pub line: usize,
    pub column: usize,
}

/// The body of every refusal: the message, and where it helps, what the caller can do about it,
/// the members of each dependency cycle a request could not order, and where a source stops
/// parsing.
#[derive(Debug, PartialEq, Eq)]
pub struct ApiErrorBody {
    pub message: String,
    pub reason: Option<Refusal>,
    pub cycles: Vec<Vec<String>>,
    pub position: Option<SourcePosition>,
}

/// The daemon's own description. It serves every registered repository, so it names none of them.
#[derive(Debug, PartialEq, Eq)]
pub struct DaemonInfo {
    pub pid: u32,
    pub port: u16,
    pub version: String,
    pub started_at: u64,
}

/// A byte a header value carries as itself: printable ASCII other than `%`.
pub open spec fn plain_byte(b: u8) -> bool {
    0x21 <= b <= 0x7e && b != 0x25
}

/// The uppercase hex digit of a value below sixteen.
pub open spec fn hex_digit(d: u8) -> u8 {
    if d < 10 {
        (0x30 + d) as u8
    } else {
        (0x37 + d) as u8
    }
}

/// How one byte travels in a header value: itself, or `%` and two uppercase hex digits.
pub open spec fn escaped(b: u8) -> Seq<u8> {
    if plain_byte(b) {
        seq![b]
    } else {
        seq![0x25u8, hex_digit(b / 16), hex_digit(b % 16)]
    }
}

/// How a byte string travels in a header value.
pub open spec fn header_bytes(bytes: Seq<u8>) -> Seq<u8>
    decreases bytes.len(),
{
    if bytes.len() == 0 {
        Seq::empty()
    } else {
        escaped(bytes[0]) + header_bytes(bytes.drop_first())
    }
}

/// The value of a hex digit in either case.
pub open spec fn hex_value(b: u8) -> Option<u8> {
    if 0x30 <= b <= 0x39 {
        Some((b - 0x30) as u8)
    } else if 0x61 <= b <= 0x66 {
        Some((b - 0x57) as u8)
    } else if 0x41 <= b <= 0x46 {
        Some((b - 0x37) as u8)
    } else {
        None
    }
}

/// The byte two characters after a `%` stand for, read as a base-16 number of at most two
/// digits, an optional `+` sign first, as `u8::from_str_radix` reads it.
pub open spec fn escape_value(a: u8, b: u8) -> Option<u8> {
    if a == 0x2b {
        hex_value(b)
    } else {
        match (hex_value(a), hex_value(b)) {
            (Some(x), Some(y)) => Some((x * 16 + y) as u8),
            _ => None,
        }
    }
}

/// `rest` with `prefix` in front, where there is a `rest`.
pub open spec fn prefixed(prefix: Seq<u8>, rest: Option<Seq<u8>>) -> Option<Seq<u8>> {
    match rest {
        Some(r) => Some(prefix + r),
        None => None,
    }
}

/// The bytes a header value stands for: each `%` and the two characters after it give one byte,
/// any other byte stands for itself. A `%` without two valid digits after it spoils the value.
pub open spec fn unescaped(value: Seq<u8>) -> Option<Seq<u8>>
    decreases value.len(),
{
    if value.len() == 0 {
        Some(Seq::empty())
    } else if value[0] == 0x25 {
        if value.len() < 3 {
            None
        } else {
            match escape_value(value[1], value[2]) {
                Some(b) => prefixed(seq![b], unescaped(value.subrange(3, value.len() as int))),
                None => None,
            }
        }
    } else {
        prefixed(seq![value[0]], unescaped(value.drop_first()))
    }
}

/// The text a header value decodes to, if its bytes decode and form UTF-8.
pub open spec fn header_text(value: Seq<char>) -> Option<Seq<char>> {
    match unescaped(encode_utf8(value)) {
        Some(bytes) => if valid_utf8(bytes) {
            Some(decode_utf8(bytes))
        } else {
            None
        },
        None => None,
    }
}

/// `String::from_utf8`: the bytes as a string when they are UTF-8, as its documentation
/// describes, and nothing otherwise.
#[verifier::external_body]
fn string_from_utf8(bytes: Vec<u8>) -> (text: Option<String>)
    ensures
        text is Some <==> valid_utf8(bytes@),
        text matches Some(t) ==> t@ == decode_utf8(bytes@),
{
    String::from_utf8(bytes).ok()
}

fn hex_digit_of(d: u8) -> (digit: u8)
    requires
        d < 16,
    ensures
        digit == hex_digit(d),
{
    if d < 10 {
        0x30 + d
    } else {
        0x37 + d
    }
}

fn hex_value_of(b: u8) -> (value: Option<u8>)
    ensures
        value == hex_value(b),
{
    if 0x30 <= b && b <= 0x39 {
        Some(b - 0x30)
    } else if 0x61 <= b && b <= 0x66 {
        Some(b - 0x57)
    } else if 0x41 <= b && b <= 0x46 {
        Some(b - 0x37)
    } else {
        None
    }
}

fn escape_value_of(a: u8, b: u8) -> (value: Option<u8>)
    ensures
        value == escape_value(a, b),
{
    if a == 0x2b {
        hex_value_of(b)
    } else {
        match (hex_value_of(a), hex_value_of(b)) {
            (Some(x), Some(y)) => Some(x * 16 + y),
            _ => None,
        }
    }
}

/// The header bytes of two byte strings in a row are those of each in a row.
pub proof fn lemma_header_bytes_concat(a: Seq<u8>, b: Seq<u8>)
    ensures
        header_bytes(a + b) == header_bytes(a) + header_bytes(b),
    decreases a.len(),
{
    if a.len() == 0 {
        assert(a + b =~= b);
    } else {
        assert((a + b).drop_first() =~= a.drop_first() + b);
        lemma_header_bytes_concat(a.drop_first(), b);
    }
}

/// Header values are ASCII, and each of their bytes is printable.
pub proof fn lemma_header_bytes_printable(bytes: Seq<u8>)
    ensures
        forall|i: int|
            0 <= i < header_bytes(bytes).len() ==> 0x21 <= #[trigger] header_bytes(bytes)[i] <= 0x7e,
    decreases bytes.len(),
{
    if bytes.len() > 0 {
        lemma_header_bytes_printable(bytes.drop_first());
        let b = bytes[0];
        let head = escaped(b);
        let rest = header_bytes(bytes.drop_first());
        assert(b / 16 < 16 && b % 16 < 16);
        assert forall|i: int| 0 <= i < header_bytes(bytes).len() implies 0x21 <= #[trigger] header_bytes(bytes)[i] <= 0x7e by {
            if i < head.len() {
                assert(header_bytes(bytes)[i] == head[i]);
            } else {
                assert(header_bytes(bytes)[i] == rest[i - head.len()]);
            }
        }
    }
}

/// Escaping a byte string and reading the escapes back gives the bytes again.
pub proof fn lemma_unescape_header_bytes(bytes: Seq<u8>)
    ensures
        unescaped(header_bytes(bytes)) == Some(bytes),
    decreases bytes.len(),
{
    if bytes.len() > 0 {
        let b = bytes[0];
        let rest = header_bytes(bytes.drop_first());
        lemma_unescape_header_bytes(bytes.drop_first());
        let all = escaped(b) + rest;
        if plain_byte(b) {
            assert(all.drop_first() =~= rest);
        } else {
            assert(all.subrange(3, all.len() as int) =~= rest);
            let hi = b / 16;
            let lo = b % 16;
            assert(hex_value(hex_digit(hi)) == Some(hi)) by {
                assert(hi < 16);
            }
            assert(hex_value(hex_digit(lo)) == Some(lo)) by {
                assert(lo < 16);
            }
            assert(hex_digit(hi) != 0x2b);
            assert((hi * 16 + lo) as u8 == b) by (nonlinear_arith)
                requires
                    hi == b / 16,
                    lo == b % 16,
            ;
        }
        assert(bytes =~= seq![b] + bytes.drop_first());
    }
}

/// Any text survives a trip through a header value.
pub proof fn lemma_header_round_trip(text: Seq<char>)
    ensures
        unescaped(header_bytes(encode_utf8(text))) == Some(encode_utf8(text)),
        valid_utf8(encode_utf8(text)),
        decode_utf8(encode_utf8(text)) == text,
{
    lemma_unescape_header_bytes(encode_utf8(text));
    vstd::utf8::encode_utf8_valid_utf8(text);
    vstd::utf8::encode_utf8_decode_utf8(text);
}

/// A header value that `encode_header` gives for a text decodes to that text again: any name
/// survives the trip and reads back the same.
pub proof fn lemma_header_reads_back(text: Seq<char>, value: Seq<char>)
    requires
        encode_utf8(value) == header_bytes(encode_utf8(text)),
    ensures
        header_text(value) == Some(text),
{
    lemma_header_round_trip(text);
}

/// ASCII bytes are UTF-8, and decode to one character each.
proof fn lemma_ascii_bytes(bytes: Seq<u8>)
    requires
        forall|i: int| 0 <= i < bytes.len() ==> #[trigger] bytes[i] < 0x80,
    ensures
        valid_utf8(bytes),
        encode_utf8(decode_utf8(bytes)) == bytes,
{
    let chars = Seq::new(bytes.len(), |i: int| bytes[i] as char);
    assert(vstd::utf8::is_ascii_chars(chars)) by {
        assert forall|i: int| 0 <= i < chars.len() implies '\0' <= #[trigger] chars[i] <= '\u{7f}' by {
            assert(bytes[i] < 0x80);
        }
    }
    vstd::utf8::is_ascii_chars_encode_utf8(chars);
    assert forall|i: int| 0 <= i < bytes.len() implies encode_utf8(chars)[i] == bytes[i] by {
        assert(chars[i] as u8 == encode_utf8(chars)[i]);
        let x = bytes[i];
        assert((x as char) as u8 == x);
    }
    assert(encode_utf8(chars) =~= bytes);
    vstd::utf8::encode_utf8_valid_utf8(chars);
    vstd::utf8::encode_utf8_decode_utf8(chars);
}

/// A header value that carries any text. Header values are ASCII, so every byte outside
/// printable ASCII, and `%` itself, travels as `%` and two uppercase hex digits.
pub fn encode_header(text: &str) -> (value: String)
    ensures
        encode_utf8(value@) == header_bytes(encode_utf8(text@)),
{
    let bytes = text.as_bytes();
    let ghost all = encode_utf8(text@);
    let mut out: Vec<u8> = Vec::new();
    let mut i: usize = 0;
    proof {
        assert(all.take(0) =~= Seq::<u8>::empty());
    }
    while i < bytes.len()
        invariant
            bytes@ == all,
            i <= bytes.len(),
            out@ == header_bytes(all.take(i as int)),
        decreases bytes.len() - i,
    {
        let byte = bytes[i];
        if 0x21 <= byte && byte <= 0x7e && byte != 0x25 {
            out.push(byte);
        } else {
            out.push(0x25);
            out.push(hex_digit_of(byte / 16));
            out.push(hex_digit_of(byte % 16));
        }
        proof {
            assert(all.take(i + 1) =~= all.take(i as int) + seq![byte]);
            lemma_header_bytes_concat(all.take(i as int), seq![byte]);
            assert(seq![byte].drop_first() =~= Seq::<u8>::empty());
            assert(seq![byte][0] == byte);
            assert(header_bytes(seq![byte].drop_first()) =~= Seq::<u8>::empty());
            assert(header_bytes(seq![byte]) =~= escaped(byte));
        }
        i = i + 1;
    }
    proof {
        assert(all.take(i as int) =~= all);
        lemma_header_bytes_printable(all);
        lemma_ascii_bytes(out@);
    }
    match string_from_utf8(out) {
        Some(value) => value,
        None => String::new(),
    }
}

/// The text a header value carries: each `%` and two hex digits after it stand for one byte,
/// every other byte for itself. A value whose escapes do not read, or whose bytes are not UTF-8,
/// carries nothing.
pub fn decode_header(value: &str) -> (text: Option<String>)
    ensures
        match text {
            Some(t) => header_text(value@) == Some(t@),
            None => header_text(value@) is None,
        },
{
    let bytes = value.as_bytes();
    let ghost all = encode_utf8(value@);
    let mut out: Vec<u8> = Vec::new();
    let mut at: usize = 0;
    proof {
        assert(all.subrange(0, all.len() as int) =~= all);
        assert(out@ + all =~= all);
    }
    while at < bytes.len()
        invariant
            bytes@ == all,
            all == encode_utf8(value@),
            at <= bytes.len(),
            unescaped(all) == prefixed(out@, unescaped(all.subrange(at as int, all.len() as int))),
        decreases bytes.len() - at,
    {
        let ghost rest = all.subrange(at as int, all.len() as int);
        if bytes[at] == 0x25 {
            if bytes.len() - at < 3 {
                proof {
                    assert(rest[0] == 0x25 && rest.len() < 3);
                    assert(unescaped(rest) is None);
                }
                return None;
            }
            match escape_value_of(bytes[at + 1], bytes[at + 2]) {
                Some(b) => {
                    proof {
                        assert(rest.subrange(3, rest.len() as int) =~= all.subrange(at + 3, all.len() as int));
                        assert(rest[1] == bytes[at + 1] && rest[2] == bytes[at + 2]);
                        let tail = unescaped(all.subrange(at + 3, all.len() as int));
                        if tail is Some {
                            assert(out@ + (seq![b] + tail->0) =~= out@.push(b) + tail->0);
                        }
                    }
                    out.push(b);
                    at = at + 3;
                },
                None => {
                    proof {
                        assert(rest[0] == 0x25 && rest.len() >= 3);
                        assert(rest[1] == bytes[at + 1] && rest[2] == bytes[at + 2]);
                        assert(unescaped(rest) is None);
                    }
                    return None;
                },
            }
        } else {
            let b = bytes[at];
            proof {
                assert(rest.drop_first() =~= all.subrange(at + 1, all.len() as int));
                let tail = unescaped(all.subrange(at + 1, all.len() as int));
                if tail is Some {
                    assert(out@ + (seq![b] + tail->0) =~= out@.push(b) + tail->0);
                }
            }
            out.push(b);
            at = at + 1;
        }
    }
    proof {
        assert(all.subrange(at as int, all.len() as int) =~= Seq::<u8>::empty());
        assert(out@ + Seq::<u8>::empty() =~= out@);
    }
    string_from_utf8(out)
}

} // verus!
