//! The record of one file: a JSON object on one line, with the obfuscated
//! text under `prompt` and the original text under `response`.

use vstd::prelude::*;
use vstd::utf8::*;
use crate::keywords::word;
use crate::patch::string_from_utf8_lossy;

verus! {

/// The small hexadecimal digit of a number below 16.
pub open spec fn hex_digit(n: int) -> u8 {
    if n < 10 {
        (48 + n) as u8
    } else {
        (87 + n) as u8
    }
}

/// A byte of a text as it stands inside a JSON string: the quote and the
/// backslash behind a backslash, the control characters below the space as
/// their short escape where JSON has one and as `\u00` and two hexadecimal
/// digits where it has none, every other byte as it is.
pub open spec fn escaped_byte(b: u8) -> Seq<u8> {
    if b == 34 {
        seq![92u8, 34u8]
    } else if b == 92 {
        seq![92u8, 92u8]
    } else if b == 8 {
        seq![92u8, 98u8]
    } else if b == 12 {
        seq![92u8, 102u8]
    } else if b == 10 {
        seq![92u8, 110u8]
    } else if b == 13 {
        seq![92u8, 114u8]
    } else if b == 9 {
        seq![92u8, 116u8]
    } else if b < 32 {
        seq![92u8, 117u8, 48u8, 48u8, hex_digit(b as int / 16), hex_digit(b as int % 16)]
    } else {
        seq![b]
    }
}

/// A text as it stands inside a JSON string.
pub open spec fn escaped(text: Seq<u8>) -> Seq<u8>
    decreases text.len(),
{
    if text.len() == 0 {
        Seq::empty()
    } else {
        escaped(text.drop_last()) + escaped_byte(text.last())
    }
}

/// The bytes of the record of a prompt and a response.
pub open spec fn record_bytes(prompt: Seq<u8>, response: Seq<u8>) -> Seq<u8> {
    word("{\"prompt\":\"") + escaped(prompt) + word("\",\"response\":\"") + escaped(response)
        + word("\"}")
}

fn hex_byte(n: u8) -> (d: u8)
    requires
        n < 16,
    ensures
        d == hex_digit(n as int),
{
    if n < 10 {
        48 + n
    } else {
        87 + n
    }
}

fn push_escaped(out: &mut Vec<u8>, b: u8)
    ensures
        final(out)@ == old(out)@ + escaped_byte(b),
{
    if b == 34 || b == 92 {
        out.push(92);
        out.push(b);
    } else if b == 8 {
        out.push(92);
        out.push(98);
    } else if b == 12 {
        out.push(92);
        out.push(102);
    } else if b == 10 {
        out.push(92);
        out.push(110);
    } else if b == 13 {
        out.push(92);
        out.push(114);
    } else if b == 9 {
        out.push(92);
        out.push(116);
    } else if b < 32 {
        out.push(92);
        out.push(117);
        out.push(48);
        out.push(48);
        out.push(hex_byte(b / 16));
        out.push(hex_byte(b % 16));
    } else {
        out.push(b);
    }
    assert(out@ =~= old(out)@ + escaped_byte(b));
}

fn push_all_escaped(out: &mut Vec<u8>, text: &[u8])
    ensures
        final(out)@ == old(out)@ + escaped(text@),
{
    let mut i: usize = 0;
    assert(out@ =~= old(out)@ + escaped(text@.take(0)));
    while i < text.len()
        invariant
            i <= text@.len(),
            out@ == old(out)@ + escaped(text@.take(i as int)),
        decreases text@.len() - i,
    {
        proof {
            assert(text@.take(i + 1).drop_last() =~= text@.take(i as int));
            assert(text@.take(i + 1).last() == text@[i as int]);
        }
        let ghost before = out@;
        push_escaped(out, text[i]);
        assert(out@ =~= old(out)@ + escaped(text@.take(i + 1)));
        i += 1;
    }
    assert(text@.take(text@.len() as int) =~= text@);
}

proof fn lemma_escaped_concat(a: Seq<u8>, b: Seq<u8>)
    ensures
        escaped(a + b) == escaped(a) + escaped(b),
    decreases b.len(),
{
    if b.len() == 0 {
        assert(a + b =~= a);
        assert(escaped(a) + escaped(b) =~= escaped(a));
    } else {
        lemma_escaped_concat(a, b.drop_last());
        assert((a + b).drop_last() =~= a + b.drop_last());
        assert((a + b).last() == b.last());
        assert(escaped(a + b) =~= escaped(a) + escaped(b));
    }
}

proof fn lemma_ascii_is_valid(s: Seq<u8>)
    requires
        forall|i: int| 0 <= i < s.len() ==> s[i] < 0x80,
    ensures
        valid_utf8(s),
{
    assert(s.subrange(0, 0) =~= Seq::<u8>::empty());
    assert(partial_valid_utf8(s, 0));
    assert forall|i: int| 0 <= 0 <= i < s.len() <= s.len() implies #[trigger] is_leading_byte_width_1(
        s[i],
    ) by {}
    partial_valid_utf8_extend_ascii_block(s, 0, s.len() as int);
    assert(s.subrange(0, s.len() as int) =~= s);
}

proof fn lemma_escaped_high(s: Seq<u8>)
    requires
        forall|i: int| 0 <= i < s.len() ==> s[i] >= 0x80,
    ensures
        escaped(s) == s,
    decreases s.len(),
{
    if s.len() > 0 {
        lemma_escaped_high(s.drop_last());
        assert(escaped(s) =~= s);
    }
}

/// Escaping keeps a text valid UTF-8: what it changes are single bytes
/// below 128, which it replaces by bytes below 128.
pub proof fn lemma_escaped_valid(bytes: Seq<u8>)
    requires
        valid_utf8(bytes),
    ensures
        valid_utf8(escaped(bytes)),
    decreases bytes.len(),
{
    if bytes.len() > 0 {
        assert(valid_first_scalar(bytes) && valid_utf8(pop_first_scalar(bytes)));
        let k = length_of_first_scalar(bytes);
        assert(1 <= k <= bytes.len());
        let first = bytes.subrange(0, k);
        let rest = bytes.subrange(k, bytes.len() as int);
        assert(bytes =~= first + rest);
        assert(valid_utf8(rest));
        lemma_escaped_concat(first, rest);
        lemma_escaped_valid(rest);
        if k == 1 {
            assert(first.drop_last() =~= Seq::<u8>::empty());
            assert(escaped(first.drop_last()) =~= Seq::<u8>::empty());
            assert(first.last() == bytes[0]);
            assert(escaped(first) =~= escaped_byte(bytes[0]));
            lemma_ascii_is_valid(escaped_byte(bytes[0]));
        } else {
            lemma_escaped_high(first);
            assert(is_char_boundary(bytes, k)) by {
                reveal_with_fuel(is_char_boundary, 2);
            }
            valid_utf8_split(bytes, k);
        }
        valid_utf8_concat(escaped(first), escaped(rest));
    }
}

/// The record of a prompt and a response that are valid UTF-8 is valid UTF-8.
pub proof fn lemma_record_valid(prompt: Seq<u8>, response: Seq<u8>)
    requires
        valid_utf8(prompt),
        valid_utf8(response),
    ensures
        valid_utf8(record_bytes(prompt, response)),
{
    broadcast use encode_utf8_valid_utf8;

    lemma_escaped_valid(prompt);
    lemma_escaped_valid(response);
    let a = word("{\"prompt\":\"");
    let b = word("\",\"response\":\"");
    let c = word("\"}");
    valid_utf8_concat(a, escaped(prompt));
    valid_utf8_concat(a + escaped(prompt), b);
    valid_utf8_concat(a + escaped(prompt) + b, escaped(response));
    valid_utf8_concat(a + escaped(prompt) + b + escaped(response), c);
}

/// The record of one file, without a line end: `{"prompt":"…","response":"…"}`
/// with the obfuscated text as the prompt and the original text as the
/// response, each escaped as JSON asks and otherwise as it is.
pub fn jsonl_record(prompt: &str, response: &str) -> (record: String)
    ensures
        encode_utf8(record@) == record_bytes(encode_utf8(prompt@), encode_utf8(response@)),
{
    let mut out: Vec<u8> = Vec::new();
    out.extend_from_slice("{\"prompt\":\"".as_bytes());
    push_all_escaped(&mut out, prompt.as_bytes());
    out.extend_from_slice("\",\"response\":\"".as_bytes());
    push_all_escaped(&mut out, response.as_bytes());
    out.extend_from_slice("\"}".as_bytes());
    assert(out@ =~= record_bytes(encode_utf8(prompt@), encode_utf8(response@)));
    proof {
        encode_utf8_valid_utf8(prompt@);
        encode_utf8_valid_utf8(response@);
        lemma_record_valid(encode_utf8(prompt@), encode_utf8(response@));
        decode_utf8_encode_utf8(out@);
    }
    string_from_utf8_lossy(out.as_slice())
}

} // verus!
