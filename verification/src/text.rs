//! The plain texts that file names and messages are put together from.

use vstd::prelude::*;

verus! {

/// The decimal digit `d`.
pub open spec fn decimal_digit(d: nat) -> char {
    (48 + d) as char
}

/// The decimal numeral of `n`, without leading zeros.
pub open spec fn decimal(n: nat) -> Seq<char>
    decreases n,
{
    if n < 10 {
        seq![decimal_digit(n)]
    } else {
        decimal(n / 10).push(decimal_digit(n % 10))
    }
}

/// The lower-case hexadecimal digit `d`.
pub open spec fn hex_digit(d: int) -> char {
    if d < 10 {
        (48 + d) as char
    } else {
        (87 + d) as char
    }
}

/// Two hexadecimal digits for each byte, the high one first.
pub open spec fn hex_text(data: Seq<u8>) -> Seq<char> {
    Seq::new(
        2 * data.len(),
        |i: int|
            if i % 2 == 0 {
                hex_digit(data[i / 2] as int / 16)
            } else {
                hex_digit(data[i / 2] as int % 16)
            },
    )
}

/// The bytes that an answer holds.
pub open spec fn contents(data: Option<Vec<u8>>) -> Option<Seq<u8>> {
    match data {
        Some(bytes) => Some(bytes@),
        None => None,
    }
}

/// Numerals hold digits only, and at least one.
pub proof fn decimal_is_digits(n: nat)
    ensures
        decimal(n).len() > 0,
        forall|i: int| 0 <= i < decimal(n).len() ==> '0' <= #[trigger] decimal(n)[i] <= '9',
    decreases n,
{
    if n >= 10 {
        decimal_is_digits(n / 10);
    }
}

/// Different numbers have different numerals.
pub proof fn decimal_injective(a: nat, b: nat)
    requires
        decimal(a) == decimal(b),
    ensures
        a == b,
    decreases a,
{
    decimal_is_digits(a / 10);
    decimal_is_digits(b / 10);
    assert(decimal(a).last() == decimal_digit(a % 10));
    assert(decimal(b).last() == decimal_digit(b % 10));
    if a >= 10 && b >= 10 {
        assert(decimal(a).drop_last() =~= decimal(a / 10));
        assert(decimal(b).drop_last() =~= decimal(b / 10));
        decimal_injective(a / 10, b / 10);
    }
}

/// Different bytes have different hexadecimal texts.
pub proof fn hex_text_injective(a: Seq<u8>, b: Seq<u8>)
    requires
        hex_text(a) == hex_text(b),
    ensures
        a == b,
{
    assert(hex_text(a).len() == 2 * a.len());
    assert(hex_text(b).len() == 2 * b.len());
    assert forall|i: int| 0 <= i < a.len() implies a[i] == b[i] by {
        assert(hex_text(a)[2 * i] == hex_digit(a[i] as int / 16));
        assert(hex_text(b)[2 * i] == hex_digit(b[i] as int / 16));
        assert(hex_text(a)[2 * i + 1] == hex_digit(a[i] as int % 16));
        assert(hex_text(b)[2 * i + 1] == hex_digit(b[i] as int % 16));
    }
    assert(a =~= b);
}

/// A digit behind a numeral makes the numeral of ten times the number and the digit; a
/// digit alone is its own numeral.
pub proof fn numeral_grows_by_digits(n: nat, d: nat)
    requires
        d < 10,
    ensures
        decimal(d) == seq!["0123456789"@[d as int]],
        n > 0 ==> decimal(10 * n + d) == decimal(n).push("0123456789"@[d as int]),
{
    reveal_strlit("0123456789");
    assert((10 * n + d) / 10 == n);
    assert((10 * n + d) % 10 == d);
    assert("0123456789"@[d as int] == decimal_digit(d));
}

/// The hexadecimal text of joined bytes is that of the first and then that of the second,
/// and each byte is written as its two digits.
pub proof fn hex_is_written_byte_by_byte(a: Seq<u8>, b: Seq<u8>, byte: u8)
    ensures
        hex_text(a + b) == hex_text(a) + hex_text(b),
        hex_text(seq![byte]) == seq![
            "0123456789abcdef"@[byte as int / 16],
            "0123456789abcdef"@[byte as int % 16],
        ],
{
    reveal_strlit("0123456789abcdef");
    assert forall|d: int| 0 <= d < 16 implies #[trigger] hex_digit(d) == "0123456789abcdef"@[d] by {}
    assert forall|i: int| 0 <= i < 2 * (a.len() + b.len()) implies hex_text(a + b)[i] == (hex_text(
        a,
    ) + hex_text(b))[i] by {
        if i >= 2 * a.len() {
            assert((a + b)[i / 2] == b[(i - 2 * a.len()) / 2]);
        }
    }
    assert(hex_text(a + b) =~= hex_text(a) + hex_text(b));
    assert(hex_text(seq![byte]) =~= seq![
        "0123456789abcdef"@[byte as int / 16],
        "0123456789abcdef"@[byte as int % 16],
    ]);
}

/// An answer holds its bytes, all of them, and no answer holds none.
pub proof fn contents_are_the_bytes(bytes: Vec<u8>)
    ensures
        contents(Some(bytes)) == Some(bytes@),
        contents(None) is None,
{
}

/// Calls `hex::encode`, and claims that it returns two lower-case hexadecimal digits
/// for each byte.
#[verifier::external_body]
pub(crate) fn encode_hex(data: &[u8; 32]) -> (text: String)
    ensures
        text@ == hex_text(data@),
{
    hex::encode(data)
}

fn digit_text(d: u64) -> (text: &'static str)
    requires
        d < 10,
    ensures
        text@ == seq![decimal_digit(d as nat)],
{
    proof {
        reveal_strlit("0");
        reveal_strlit("1");
        reveal_strlit("2");
        reveal_strlit("3");
        reveal_strlit("4");
        reveal_strlit("5");
        reveal_strlit("6");
        reveal_strlit("7");
        reveal_strlit("8");
        reveal_strlit("9");
    }
    let text: &'static str = match d {
        0 => "0",
        1 => "1",
        2 => "2",
        3 => "3",
        4 => "4",
        5 => "5",
        6 => "6",
        7 => "7",
        8 => "8",
        _ => "9",
    };
    assert(text@ =~= seq![decimal_digit(d as nat)]);
    text
}

/// Appends the numeral of `n` to `out`.
pub fn push_decimal(out: &mut String, n: u64)
    ensures
        final(out)@ == old(out)@ + decimal(n as nat),
    decreases n,
{
    if n >= 10 {
        push_decimal(out, n / 10);
    }
    out.append(digit_text(n % 10));
    assert(out@ =~= old(out)@ + decimal(n as nat));
}

/// Whether `data` begins with `prefix`.
pub fn bytes_start_with(data: &[u8], prefix: &[u8]) -> (found: bool)
    ensures
        found == prefix@.is_prefix_of(data@),
{
    if data.len() < prefix.len() {
        return false;
    }
    let mut i: usize = 0;
    while i < prefix.len()
        invariant
            i <= prefix@.len() <= data@.len(),
            forall|j: int| 0 <= j < i ==> prefix@[j] == data@[j],
        decreases prefix@.len() - i,
    {
        if data[i] != prefix[i] {
            assert(data@.subrange(0, prefix@.len() as int)[i as int] == data@[i as int]);
            return false;
        }
        i += 1;
    }
    true
}

/// Whether two byte strings are the same.
pub fn bytes_equal(a: &[u8], b: &[u8]) -> (same: bool)
    ensures
        same == (a@ == b@),
{
    if a.len() != b.len() {
        return false;
    }
    let same = bytes_start_with(a, b);
    assert(a@.subrange(0, a@.len() as int) =~= a@);
    same
}

/// Whether `text` begins with `prefix`.
pub fn text_starts_with(text: &str, prefix: &str) -> (found: bool)
    ensures
        found == prefix@.is_prefix_of(text@),
{
    let n: usize = prefix.unicode_len();
    if text.unicode_len() < n {
        return false;
    }
    let mut i: usize = 0;
    while i < n
        invariant
            i <= n,
            n == prefix@.len(),
            n <= text@.len(),
            forall|j: int| 0 <= j < i ==> prefix@[j] == text@[j],
        decreases n - i,
    {
        if text.get_char(i) != prefix.get_char(i) {
            assert(text@.subrange(0, n as int)[i as int] == text@[i as int]);
            return false;
        }
        i += 1;
    }
    true
}

} // verus!
