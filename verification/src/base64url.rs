//! The URL-safe, unpadded base64 of RFC 4648, in which share tokens are written.

use vstd::prelude::*;

verus! {

/// The symbol that stands for the six-bit value `v`.
pub open spec fn base64_symbol(v: int) -> char {
    if v < 26 {
        (65 + v) as char
    } else if v < 52 {
        (71 + v) as char
    } else if v < 62 {
        (v - 4) as char
    } else if v == 62 {
        '-'
    } else {
        '_'
    }
}

/// Byte `i` of `data`; past the end, the zero bits that fill up the last symbol.
pub open spec fn byte_or_zero(data: Seq<u8>, i: int) -> int {
    if i < data.len() {
        data[i] as int
    } else {
        0
    }
}

/// The six bits of `data` that symbol `i` of its base64 text carries: three bytes
/// make four symbols, the highest bits first.
pub open spec fn sextet(data: Seq<u8>, i: int) -> int {
    let first = i / 4 * 3;
    if i % 4 == 0 {
        byte_or_zero(data, first) / 4
    } else if i % 4 == 1 {
        byte_or_zero(data, first) % 4 * 16 + byte_or_zero(data, first + 1) / 16
    } else if i % 4 == 2 {
        byte_or_zero(data, first + 1) % 16 * 4 + byte_or_zero(data, first + 2) / 64
    } else {
        byte_or_zero(data, first + 2) % 64
    }
}

/// The base64 text of `data`: four thirds of a symbol for each byte, rounded up.
pub open spec fn base64_text(data: Seq<u8>) -> Seq<char> {
    Seq::new((4 * data.len() + 2) / 3, |i: int| base64_symbol(sextet(data, i)))
}

/// The bytes whose base64 text is `text`, if there are any.
pub open spec fn base64_bytes(text: Seq<char>) -> Option<Seq<u8>> {
    if exists|data: Seq<u8>| #[trigger] base64_text(data) == text {
        Some(choose|data: Seq<u8>| #[trigger] base64_text(data) == text)
    } else {
        None
    }
}

/// Whether the base64 text of `len` bytes fits in memory.
pub open spec fn base64_fits(len: nat) -> bool {
    (4 * len + 2) / 3 <= isize::MAX
}

proof fn lemma_symbol_injective(a: int, b: int)
    requires
        0 <= a < 64,
        0 <= b < 64,
        base64_symbol(a) == base64_symbol(b),
    ensures
        a == b,
{
}

proof fn lemma_sextet_range(data: Seq<u8>, i: int)
    requires
        0 <= i,
    ensures
        0 <= sextet(data, i) < 64,
{
}

/// Base64 text is ASCII.
pub proof fn base64_text_is_ascii(data: Seq<u8>)
    ensures
        vstd::utf8::is_ascii_chars(base64_text(data)),
{
    let text = base64_text(data);
    assert forall|i: int| 0 <= i < text.len() implies '\0' <= #[trigger] text[i] <= '\u{7f}' by {
        lemma_sextet_range(data, i);
        assert(text[i] == base64_symbol(sextet(data, i)));
    }
}

/// Two texts that agree carry the same six bits at every symbol.
proof fn lemma_equal_texts_equal_sextets(a: Seq<u8>, b: Seq<u8>, i: int)
    requires
        base64_text(a) == base64_text(b),
        0 <= i < base64_text(a).len(),
    ensures
        sextet(a, i) == sextet(b, i),
{
    lemma_sextet_range(a, i);
    lemma_sextet_range(b, i);
    assert(base64_text(a)[i] == base64_symbol(sextet(a, i)));
    assert(base64_text(b)[i] == base64_symbol(sextet(b, i)));
    lemma_symbol_injective(sextet(a, i), sextet(b, i));
}

/// A byte is made of the bits of the two symbols that it is spread over.
proof fn lemma_byte_from_sextets(data: Seq<u8>, j: int)
    requires
        0 <= j < data.len(),
    ensures
        j % 3 == 0 ==> data[j] == sextet(data, j / 3 * 4) * 4 + sextet(data, j / 3 * 4 + 1) / 16,
        j % 3 == 1 ==> data[j] == sextet(data, j / 3 * 4 + 1) % 16 * 16 + sextet(
            data,
            j / 3 * 4 + 2,
        ) / 4,
        j % 3 == 2 ==> data[j] == sextet(data, j / 3 * 4 + 2) % 4 * 64 + sextet(
            data,
            j / 3 * 4 + 3,
        ),
{
}

/// Different bytes have different base64 texts.
pub proof fn base64_text_injective(a: Seq<u8>, b: Seq<u8>)
    requires
        base64_text(a) == base64_text(b),
    ensures
        a == b,
{
    assert(base64_text(a).len() == (4 * a.len() + 2) / 3);
    assert(base64_text(b).len() == (4 * b.len() + 2) / 3);
    assert(a.len() == b.len());
    assert forall|j: int| 0 <= j < a.len() implies a[j] == b[j] by {
        let s = j / 3 * 4;
        lemma_byte_from_sextets(a, j);
        lemma_byte_from_sextets(b, j);
        if j % 3 == 0 {
            lemma_equal_texts_equal_sextets(a, b, s);
            lemma_equal_texts_equal_sextets(a, b, s + 1);
        } else if j % 3 == 1 {
            lemma_equal_texts_equal_sextets(a, b, s + 1);
            lemma_equal_texts_equal_sextets(a, b, s + 2);
        } else {
            lemma_equal_texts_equal_sextets(a, b, s + 2);
            lemma_equal_texts_equal_sextets(a, b, s + 3);
        }
    }
    assert(a =~= b);
}

/// The first four symbols of a text are those of its first three bytes.
pub proof fn base64_first_bytes(data: Seq<u8>, v: Seq<int>)
    requires
        v.len() == 4,
        forall|i: int| 0 <= i < 4 ==> 0 <= #[trigger] v[i] < 64,
        base64_text(data).len() >= 4,
        forall|i: int| 0 <= i < 4 ==> base64_text(data)[i] == base64_symbol(#[trigger] v[i]),
    ensures
        data.len() >= 3,
        data[0] == v[0] * 4 + v[1] / 16,
        data[1] == v[1] % 16 * 16 + v[2] / 4,
        data[2] == v[2] % 4 * 64 + v[3],
{
    assert(base64_text(data).len() == (4 * data.len() + 2) / 3);
    assert forall|i: int| 0 <= i < 4 implies sextet(data, i) == #[trigger] v[i] by {
        lemma_sextet_range(data, i);
        assert(base64_text(data)[i] == base64_symbol(sextet(data, i)));
        lemma_symbol_injective(sextet(data, i), v[i]);
    }
    assert(sextet(data, 0) == v[0] && sextet(data, 1) == v[1] && sextet(data, 2) == v[2] && sextet(
        data,
        3,
    ) == v[3]);
    lemma_byte_from_sextets(data, 0);
    lemma_byte_from_sextets(data, 1);
    lemma_byte_from_sextets(data, 2);
}

/// Reading the base64 text of some bytes gives those bytes back.
pub proof fn base64_round_trip(data: Seq<u8>)
    ensures
        base64_bytes(base64_text(data)) == Some(data),
{
    let text = base64_text(data);
    let read = choose|other: Seq<u8>| #[trigger] base64_text(other) == text;
    assert(base64_text(read) == text);
    base64_text_injective(read, data);
}

/// The six bits of a symbol count its place in the alphabet.
pub proof fn symbols_are_the_alphabet(v: int)
    requires
        0 <= v < 64,
    ensures
        base64_symbol(v)
            == "ABCDEFGHIJKLMNOPQRSTUVWXYZabcdefghijklmnopqrstuvwxyz0123456789-_"@[v],
{
    reveal_strlit("ABCDEFGHIJKLMNOPQRSTUVWXYZabcdefghijklmnopqrstuvwxyz0123456789-_");
}

/// Three bytes, of twenty-four bits, are written as four symbols, of six bits each, the
/// highest bits first. One byte that is left over takes two symbols, and two take three;
/// the bits that they do not fill are zero.
pub proof fn three_bytes_are_four_symbols(data: Seq<u8>, k: int, v: Seq<int>)
    requires
        0 <= 3 * k < data.len(),
        v.len() == 4,
        forall|j: int| 0 <= j < 4 ==> 0 <= #[trigger] v[j] < 64,
        forall|j: int|
            0 <= j < 4 && 4 * k + j < base64_text(data).len() ==> base64_text(data)[4 * k + j]
                == "ABCDEFGHIJKLMNOPQRSTUVWXYZabcdefghijklmnopqrstuvwxyz0123456789-_"@[#[trigger] v[j]],
        forall|j: int| 0 <= j < 4 && 4 * k + j >= base64_text(data).len() ==> #[trigger] v[j] == 0,
    ensures
        base64_text(data).len() == (4 * data.len() + 2) / 3,
        v[0] * 0x4_0000 + v[1] * 0x1000 + v[2] * 0x40 + v[3] == data[3 * k] * 0x1_0000 + (if 3 * k
            + 1 < data.len() {
            data[3 * k + 1] * 0x100
        } else {
            0
        }) + (if 3 * k + 2 < data.len() {
            data[3 * k + 2] as int
        } else {
            0
        }),
{
    let text = base64_text(data);
    assert(text.len() == (4 * data.len() + 2) / 3);
    assert forall|j: int| 0 <= j < 4 implies sextet(data, 4 * k + j) == #[trigger] v[j] by {
        lemma_sextet_range(data, 4 * k + j);
        if 4 * k + j < text.len() {
            symbols_are_the_alphabet(v[j]);
            assert(text[4 * k + j] == base64_symbol(sextet(data, 4 * k + j)));
            lemma_symbol_injective(sextet(data, 4 * k + j), v[j]);
        }
    }
    assert(sextet(data, 4 * k) == v[0] && sextet(data, 4 * k + 1) == v[1]);
    assert(sextet(data, 4 * k + 2) == v[2] && sextet(data, 4 * k + 3) == v[3]);
}

/// Calls `base64::Engine::encode` with the engine `URL_SAFE_NO_PAD`, and claims that
/// it returns the unpadded base64 text of `data` over the URL-safe alphabet. The
/// call panics on data whose text cannot be allocated.
#[verifier::external_body]
pub(crate) fn encode_base64(data: &[u8]) -> (text: String)
    requires
        base64_fits(data@.len()),
    ensures
        text@ == base64_text(data@),
{
    base64::Engine::encode(&base64::engine::general_purpose::URL_SAFE_NO_PAD, data)
}

/// What is read from a text is what the text is written from, and a text is refused only
/// where it is written from nothing.
pub proof fn base64_reads_what_is_written(text: Seq<char>)
    ensures
        match base64_bytes(text) {
            Some(bytes) => base64_text(bytes) == text,
            None => forall|bytes: Seq<u8>| #[trigger] base64_text(bytes) != text,
        },
{
}

/// Calls `base64::Engine::decode` with the engine `URL_SAFE_NO_PAD`, and claims that
/// it accepts exactly the texts that the engine writes: no padding, no symbol outside
/// the alphabet, no bits left over in the last symbol.
#[verifier::external_body]
fn engine_decode(text: &str) -> (data: Option<Vec<u8>>)
    ensures
        match data {
            Some(bytes) => base64_text(bytes@) == text@,
            None => forall|bytes: Seq<u8>| #[trigger] base64_text(bytes) != text@,
        },
{
    base64::Engine::decode(&base64::engine::general_purpose::URL_SAFE_NO_PAD, text).ok()
}

/// Reads base64 text; `None` where the text is not the base64 text of any bytes.
pub fn decode_base64(text: &str) -> (data: Option<Vec<u8>>)
    ensures
        data.is_some() == base64_bytes(text@).is_some(),
        data.is_some() ==> base64_bytes(text@) == Some(data.unwrap()@),
        match data {
            Some(data) => base64_text(data@) == text@,
            None => forall|bytes: Seq<u8>| #[trigger] base64_text(bytes) != text@,
        },
{
    let data = engine_decode(text);
    proof {
        if data.is_some() {
            base64_round_trip(data.unwrap()@);
        }
    }
    data
}

} // verus!
