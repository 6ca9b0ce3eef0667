//! Lower-case hexadecimal rendering of frame bytes.

use vstd::prelude::*;

verus! {

/// The lower-case hexadecimal digits.
pub const HEX_DIGITS: [char; 16] = [
    '0', '1', '2', '3', '4', '5', '6', '7', '8', '9', 'a', 'b', 'c', 'd', 'e', 'f',
];

/// The lower-case hexadecimal digit of `n`, for `n < 16`.
pub open spec fn hex_digit(n: u8) -> char {
    if n < 10 {
        (('0' as u8) + n) as char
    } else {
        (('a' as u8) + n - 10) as char
    }
}

/// Two lower-case hexadecimal digits per byte, high nibble first.
pub open spec fn spec_hex(data: Seq<u8>) -> Seq<char>
    decreases data.len(),
{
    if data.len() == 0 {
        Seq::empty()
    } else {
        spec_hex(data.drop_last()) + seq![hex_digit(data.last() >> 4u8), hex_digit(data.last() & 0x0fu8)]
    }
}

/// Calls `String::push`, which appends one character.
#[verifier::external_body]
fn string_push(s: &mut String, c: char)
    ensures
        final(s)@ == old(s)@.push(c),
{
    s.push(c)
}

fn digit(n: u8) -> (c: char)
    requires
        n < 16,
    ensures
        c == hex_digit(n),
{
    let c = HEX_DIGITS[n as usize];
    assert(HEX_DIGITS@[n as int] == hex_digit(n)) by {
        assert(HEX_DIGITS@ =~= seq![
            '0', '1', '2', '3', '4', '5', '6', '7', '8', '9', 'a', 'b', 'c', 'd', 'e', 'f',
        ]);
    }
    c
}

/// Renders bytes as lower-case hexadecimal, two digits per byte.
pub fn hex_string(data: &[u8]) -> (s: String)
    ensures
        s@ == spec_hex(data@),
{
    let mut s = String::new();
    let mut i: usize = 0;
    while i < data.len()
        invariant
            i <= data@.len(),
            s@ == spec_hex(data@.take(i as int)),
        decreases data@.len() - i,
    {
        let b = data[i];
        assert(data@.take(i + 1).drop_last() =~= data@.take(i as int));
        assert(b >> 4u8 < 16 && b & 0x0fu8 < 16) by (bit_vector);
        string_push(&mut s, digit(b >> 4u8));
        string_push(&mut s, digit(b & 0x0fu8));
        i = i + 1;
    }
    assert(data@.take(i as int) =~= data@);
    s
}

/// The number that a lower-case hexadecimal digit stands for.
pub open spec fn digit_value(c: char) -> int {
    if '0' <= c && c <= '9' {
        c as int - '0' as int
    } else {
        c as int - 'a' as int + 10
    }
}

/// A lower-case hexadecimal digit.
pub open spec fn is_hex_digit(c: char) -> bool {
    ('0' <= c && c <= '9') || ('a' <= c && c <= 'f')
}

proof fn lemma_digit(n: u8)
    requires
        n < 16,
    ensures
        is_hex_digit(hex_digit(n)),
        digit_value(hex_digit(n)) == n,
{
}

/// Law: the rendering has two lower-case hexadecimal digits per byte, and
/// reading digit pair `i` back as `16 * high + low` gives byte `i`.
pub proof fn lemma_hex_roundtrip(data: Seq<u8>)
    ensures
        spec_hex(data).len() == 2 * data.len(),
        forall|i: int| 0 <= i < 2 * data.len() ==> is_hex_digit(#[trigger] spec_hex(data)[i]),
        forall|i: int|
            0 <= i < data.len() ==> 16 * digit_value(spec_hex(data)[2 * i]) + digit_value(
                spec_hex(data)[2 * i + 1],
            ) == #[trigger] data[i],
    decreases data.len(),
{
    if data.len() > 0 {
        let p = data.drop_last();
        lemma_hex_roundtrip(p);
        let b = data.last();
        assert(b >> 4u8 < 16 && b & 0x0fu8 < 16 && 16 * (b >> 4u8) + (b & 0x0fu8) == b) by (bit_vector);
        lemma_digit(b >> 4u8);
        lemma_digit(b & 0x0fu8);
        let h = spec_hex(data);
        assert(forall|i: int| 0 <= i < 2 * p.len() ==> h[i] == spec_hex(p)[i]);
        assert forall|i: int| 0 <= i < data.len() implies 16 * digit_value(h[2 * i]) + digit_value(
            h[2 * i + 1],
        ) == #[trigger] data[i] by {
            if i < p.len() {
                assert(data[i] == p[i]);
                assert(h[2 * i] == spec_hex(p)[2 * i]);
                assert(h[2 * i + 1] == spec_hex(p)[2 * i + 1]);
            } else {
                assert(h[2 * i] == hex_digit(b >> 4u8));
                assert(h[2 * i + 1] == hex_digit(b & 0x0fu8));
            }
        }
    }
}

} // verus!
