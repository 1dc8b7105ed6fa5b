//! Byte strings: comparison and lower-case hexadecimal.
use vstd::prelude::*;

verus! {

/// `String::push` of the standard library, which appends one character.
pub assume_specification[ String::push ](text: &mut String, c: char)
    ensures
        final(text)@ == old(text)@.push(c),
;

/// The character that stands for the four-bit value `nibble` in lower-case
/// hexadecimal.
pub open spec fn hex_digit(nibble: int) -> char {
    if nibble < 10 {
        (0x30 + nibble) as char
    } else {
        (0x57 + nibble) as char
    }
}

/// `bytes` in lower-case hexadecimal, two characters per byte, high half first.
pub open spec fn hex(bytes: Seq<u8>) -> Seq<char> {
    Seq::new(
        2 * bytes.len(),
        |i: int|
            if i % 2 == 0 {
                hex_digit(bytes[i / 2] as int / 16)
            } else {
                hex_digit(bytes[i / 2] as int % 16)
            },
    )
}

/// Whether `a` and `b` hold the same bytes.
pub fn bytes_equal(a: &[u8], b: &[u8]) -> (equal: bool)
    ensures
        equal == (a@ == b@),
{
    if a.len() != b.len() {
        return false;
    }
    let mut i: usize = 0;
    while i < a.len()
        invariant
            i <= a@.len(),
            a@.len() == b@.len(),
            forall|j: int| 0 <= j < i ==> a@[j] == b@[j],
        decreases a@.len() - i,
    {
        if a[i] != b[i] {
            return false;
        }
        i += 1;
    }
    assert(a@ =~= b@);
    true
}

fn hex_char(nibble: u8) -> (c: char)
    requires
        nibble < 16,
    ensures
        c == hex_digit(nibble as int),
{
    if nibble < 10 {
        (0x30 + nibble) as char
    } else {
        (0x57 + nibble) as char
    }
}

/// `bytes` in lower-case hexadecimal.
pub fn to_hex(bytes: &[u8]) -> (text: String)
    ensures
        text@ == hex(bytes@),
{
    let mut text = String::new();
    let mut i: usize = 0;
    while i < bytes.len()
        invariant
            i <= bytes@.len(),
            text@ == hex(bytes@).take(2 * i),
        decreases bytes@.len() - i,
    {
        text.push(hex_char(bytes[i] / 16));
        text.push(hex_char(bytes[i] % 16));
        i += 1;
        assert(text@ =~= hex(bytes@).take(2 * i));
    }
    assert(hex(bytes@).take(2 * i) =~= hex(bytes@));
    text
}

/// The four-bit value that a lower-case hexadecimal digit stands for; `None` for any
/// other character.
pub open spec fn nibble_of(digit: char) -> Option<int> {
    let code = digit as int;
    if '0' as int <= code <= '9' as int {
        Some(code - '0' as int)
    } else if 'a' as int <= code <= 'f' as int {
        Some(code - 'a' as int + 10)
    } else {
        None
    }
}

/// A byte string in hexadecimal is twice as long, holds nothing but lower-case
/// hexadecimal digits, and gives each byte back from its two digits.
pub proof fn hex_reads_back(bytes: Seq<u8>, i: int)
    requires
        0 <= i < bytes.len(),
    ensures
        hex(bytes).len() == 2 * bytes.len(),
        nibble_of(hex(bytes)[2 * i]) matches Some(high) && nibble_of(hex(bytes)[2 * i + 1])
            matches Some(low) && bytes[i] == 16 * high + low,
{
    let byte = bytes[i] as int;
    assert((2 * i) / 2 == i);
    assert((2 * i + 1) / 2 == i);
    assert(hex(bytes)[2 * i] == hex_digit(byte / 16));
    assert(hex(bytes)[2 * i + 1] == hex_digit(byte % 16));
    assert(0 <= byte / 16 < 16);
}

/// The empty byte string is empty in hexadecimal, too.
pub proof fn hex_of_nothing()
    ensures
        hex(seq![]) == Seq::<char>::empty(),
{
    assert(hex(seq![]) =~= Seq::<char>::empty());
}

} // verus!
