//! Names of the entries in the tree that holds a file in chunks.
//!
//! The first entry is a marker; after it comes one entry per chunk, named by the
//! position of the chunk. Git sorts the entries of a tree by name, so the names
//! are made to sort as the chunks follow each other.
use vstd::prelude::*;

verus! {

/// Name of the marker entry. Its presence at the top of a tree tells a file in
/// chunks from an ordinary directory.
pub const CDC_MARKER_NAME: &'static str = ".cdc";

/// The bytes of [`CDC_MARKER_NAME`].
pub open spec fn marker_name() -> Seq<u8> {
    seq![0x2eu8, 0x63u8, 0x64u8, 0x63u8]
}

/// `n` in decimal, without leading zeros.
pub open spec fn decimal(n: nat) -> Seq<u8>
    decreases n,
{
    if n < 10 {
        seq![(0x30 + n) as u8]
    } else {
        decimal(n / 10).push((0x30 + n % 10) as u8)
    }
}

/// The name of the chunk at position `index`: its decimal digits, with zeros in
/// front up to eight digits.
pub open spec fn chunk_name(index: nat) -> Seq<u8> {
    let digits = decimal(index);
    if digits.len() < 8 {
        Seq::new((8 - digits.len()) as nat, |i: int| 0x30u8) + digits
    } else {
        digits
    }
}

/// The order in which Git sorts the names of files in a tree: byte by byte, a
/// name before every longer one that it begins.
pub open spec fn sorts_before(a: Seq<u8>, b: Seq<u8>) -> bool {
    exists|k: int| #[trigger] differ_first_at(a, b, k)
}

/// Whether `a` sorts before `b` because of what stands at position `k`.
pub open spec fn differ_first_at(a: Seq<u8>, b: Seq<u8>, k: int) -> bool {
    &&& 0 <= k <= a.len()
    &&& k < b.len()
    &&& a.take(k) == b.take(k)
    &&& k < a.len() ==> a[k] < b[k]
}

proof fn lemma_decimal_digits(n: nat)
    ensures
        decimal(n).len() > 0,
        forall|i: int| 0 <= i < decimal(n).len() ==> 0x30 <= #[trigger] decimal(n)[i] <= 0x39,
    decreases n,
{
    if n >= 10 {
        lemma_decimal_digits(n / 10);
    }
}

/// Every byte of a chunk's name is a decimal digit, and there are at least eight.
pub proof fn chunk_name_digits(index: nat)
    ensures
        chunk_name(index).len() >= 8,
        forall|i: int|
            0 <= i < chunk_name(index).len() ==> 0x30 <= #[trigger] chunk_name(index)[i] <= 0x39,
{
    lemma_decimal_digits(index);
}

/// The name of the marker entry.
pub fn marker_filename() -> (name: Vec<u8>)
    ensures
        name@ == marker_name(),
{
    proof {
        reveal_strlit(".cdc");
        vstd::string::is_ascii_spec_bytes(".cdc");
    }
    let name = vstd::slice::slice_to_vec(CDC_MARKER_NAME.as_bytes());
    assert(name@ =~= marker_name());
    name
}

/// The name of the chunk at position `index`.
pub fn chunk_filename(index: usize) -> (name: Vec<u8>)
    ensures
        name@ == chunk_name(index as nat),
{
    // Digits from the last to the first.
    let mut reversed: Vec<u8> = Vec::new();
    let mut rest: usize = index;
    proof {
        assert(reversed@.reverse() =~= Seq::<u8>::empty());
    }
    while rest >= 10
        invariant
            decimal(index as nat) == decimal(rest as nat) + reversed@.reverse(),
        decreases rest,
    {
        let ghost before = reversed@;
        let digit: u8 = (rest % 10) as u8;
        reversed.push(0x30 + digit);
        proof {
            assert(reversed@.reverse() =~= seq![(0x30 + digit) as u8] + before.reverse());
            assert(decimal(rest as nat) + before.reverse() =~= decimal((rest / 10) as nat)
                + reversed@.reverse());
        }
        rest = rest / 10;
    }
    let ghost before = reversed@;
    reversed.push(0x30 + rest as u8);
    assert(reversed@.reverse() =~= seq![(0x30 + rest) as u8] + before.reverse());
    assert(decimal(index as nat) == reversed@.reverse());
    let ghost digits = reversed@;
    while reversed.len() < 8
        invariant
            digits.len() <= reversed@.len(),
            reversed@.len() <= 8 || reversed@.len() == digits.len(),
            reversed@ == digits + Seq::new((reversed@.len() - digits.len()) as nat, |i: int| 0x30u8),
        decreases 8 - reversed@.len(),
    {
        reversed.push(0x30);
        assert(reversed@ =~= digits + Seq::new(
            (reversed@.len() - digits.len()) as nat,
            |i: int| 0x30u8,
        ));
    }
    let mut name: Vec<u8> = Vec::new();
    let mut i: usize = reversed.len();
    while i > 0
        invariant
            i <= reversed@.len(),
            name@ == reversed@.reverse().take(reversed@.len() - i),
        decreases i,
    {
        i -= 1;
        name.push(reversed[i]);
        assert(name@ =~= reversed@.reverse().take(reversed@.len() - i));
    }
    proof {
        assert(name@ =~= reversed@.reverse());
        assert(name@ =~= chunk_name(index as nat));
    }
    name
}

spec fn pow10(width: nat) -> nat
    decreases width,
{
    if width == 0 {
        1
    } else {
        10 * pow10((width - 1) as nat)
    }
}

/// The last `width` decimal digits of `n`.
spec fn padded(n: nat, width: nat) -> Seq<u8>
    decreases width,
{
    if width == 0 {
        seq![]
    } else {
        padded(n / 10, (width - 1) as nat).push((0x30 + n % 10) as u8)
    }
}

spec fn zeros(count: nat) -> Seq<u8> {
    Seq::new(count, |i: int| 0x30u8)
}

proof fn lemma_padded_zero(width: nat)
    ensures
        padded(0, width) == zeros(width),
    decreases width,
{
    if width > 0 {
        lemma_padded_zero((width - 1) as nat);
    }
    assert(padded(0, width) =~= zeros(width));
}

proof fn lemma_padded_decimal(n: nat, width: nat)
    requires
        width > 0,
        n < pow10(width),
    ensures
        decimal(n).len() <= width,
        padded(n, width) == zeros((width - decimal(n).len()) as nat) + decimal(n),
    decreases width,
{
    if n < 10 {
        lemma_padded_zero((width - 1) as nat);
        assert(n / 10 == 0);
        assert(padded(n, width) =~= zeros((width - 1) as nat) + decimal(n));
    } else {
        reveal_with_fuel(pow10, 2);
        assert(width > 1);
        lemma_padded_decimal(n / 10, (width - 1) as nat);
        assert(padded(n, width) =~= zeros((width - decimal(n).len()) as nat) + decimal(n));
    }
}

proof fn lemma_padded_sorts(n: nat, m: nat, width: nat) -> (k: int)
    requires
        n < m,
        m < pow10(width),
    ensures
        padded(n, width).len() == width,
        padded(m, width).len() == width,
        0 <= k < width,
        differ_first_at(padded(n, width), padded(m, width), k),
    decreases width,
{
    reveal_with_fuel(pow10, 2);
    let a = padded(n, width);
    let b = padded(m, width);
    let shorter = (width - 1) as nat;
    lemma_padded_len(n / 10, shorter);
    lemma_padded_len(m / 10, shorter);
    if n / 10 < m / 10 {
        let k = lemma_padded_sorts(n / 10, m / 10, shorter);
        assert(a.take(k) =~= padded(n / 10, shorter).take(k));
        assert(b.take(k) =~= padded(m / 10, shorter).take(k));
        k
    } else {
        assert(n / 10 == m / 10);
        assert(a.take(shorter as int) =~= padded(n / 10, shorter));
        assert(b.take(shorter as int) =~= padded(m / 10, shorter));
        shorter as int
    }
}

proof fn lemma_padded_len(n: nat, width: nat)
    ensures
        padded(n, width).len() == width,
    decreases width,
{
    if width > 0 {
        lemma_padded_len(n / 10, (width - 1) as nat);
    }
}

/// The marker sorts before the name of every chunk, so it is always the first
/// entry of the tree.
pub proof fn marker_sorts_first(index: nat)
    ensures
        sorts_before(marker_name(), chunk_name(index)),
{
    chunk_name_digits(index);
    assert(marker_name().take(0) =~= chunk_name(index).take(0));
    assert(differ_first_at(marker_name(), chunk_name(index), 0));
}

/// The names of the first hundred million chunks sort as the chunks follow each
/// other.
pub proof fn chunk_names_sort(earlier: nat, later: nat)
    requires
        earlier < later < 100_000_000,
    ensures
        sorts_before(chunk_name(earlier), chunk_name(later)),
{
    assert(pow10(8) == 100_000_000) by {
        reveal_with_fuel(pow10, 9);
    }
    lemma_padded_decimal(earlier, 8);
    lemma_padded_decimal(later, 8);
    assert(chunk_name(earlier) =~= padded(earlier, 8));
    assert(chunk_name(later) =~= padded(later, 8));
    let k = lemma_padded_sorts(earlier, later, 8);
    assert(differ_first_at(chunk_name(earlier), chunk_name(later), k));
}

/// The number that a text of decimal digits writes.
pub open spec fn number(text: Seq<u8>) -> int
    decreases text.len(),
{
    if text.len() == 0 {
        0
    } else {
        10 * number(text.drop_last()) + (text.last() - 0x30)
    }
}

proof fn lemma_number_of_decimal(n: nat)
    ensures
        number(decimal(n)) == n,
    decreases n,
{
    if n < 10 {
        assert(decimal(n).drop_last() =~= Seq::<u8>::empty());
        assert(number(Seq::<u8>::empty()) == 0);
    } else {
        lemma_number_of_decimal(n / 10);
        assert(decimal(n).drop_last() =~= decimal(n / 10));
    }
}

proof fn lemma_number_of_zeros(count: nat, text: Seq<u8>)
    ensures
        number(zeros(count) + text) == number(text),
    decreases count + text.len(),
{
    let whole = zeros(count) + text;
    if text.len() > 0 {
        lemma_number_of_zeros(count, text.drop_last());
        assert(whole.drop_last() =~= zeros(count) + text.drop_last());
    } else if count > 0 {
        lemma_number_of_zeros((count - 1) as nat, text);
        assert(whole.drop_last() =~= zeros((count - 1) as nat) + text);
    }
}

proof fn lemma_decimal_length(n: nat, width: nat)
    requires
        width > 0,
    ensures
        decimal(n).len() <= width <==> n < pow10(width),
        n > 0 ==> decimal(n)[0] != 0x30,
    decreases n,
{
    if n >= 10 {
        assert(n / 10 > 0);
        lemma_decimal_digits(n / 10);
        if width == 1 {
            reveal_with_fuel(pow10, 2);
            lemma_decimal_length(n / 10, 1);
        } else {
            lemma_decimal_length(n / 10, (width - 1) as nat);
            assert(n < 10 * pow10((width - 1) as nat) <==> n / 10 < pow10((width - 1) as nat));
        }
        assert(decimal(n)[0] == decimal(n / 10)[0]);
    } else {
        reveal_with_fuel(pow10, 2);
        lemma_pow10_at_least_ten(width);
    }
}

proof fn lemma_pow10_at_least_ten(width: nat)
    requires
        width > 0,
    ensures
        pow10(width) >= 10,
    decreases width,
{
    if width == 1 {
        reveal_with_fuel(pow10, 2);
    } else {
        lemma_pow10_at_least_ten((width - 1) as nat);
    }
}

/// The name of a chunk is its position in decimal, eight digits wide, and wider only
/// where the position needs more: read as a number it gives the position back.
pub proof fn chunk_name_tells_position(index: nat)
    ensures
        number(chunk_name(index)) == index,
        index < 100_000_000 ==> chunk_name(index).len() == 8,
        index >= 100_000_000 ==> chunk_name(index).len() > 8 && chunk_name(index)[0] != 0x30,
{
    assert(pow10(8) == 100_000_000) by {
        reveal_with_fuel(pow10, 9);
    }
    lemma_number_of_decimal(index);
    lemma_number_of_zeros((8 - decimal(index).len()) as nat, decimal(index));
    lemma_decimal_length(index, 8);
    assert(decimal(index).len() < 8 ==> chunk_name(index) =~= zeros(
        (8 - decimal(index).len()) as nat,
    ) + decimal(index));
}

/// The marker is called `.cdc`.
pub proof fn marker_is_called_cdc()
    ensures
        marker_name() == vstd::utf8::encode_utf8(".cdc"@),
{
    reveal_strlit(".cdc");
    vstd::string::is_ascii_spec_bytes(".cdc");
    assert(vstd::utf8::encode_utf8(".cdc"@) =~= marker_name());
}

/// No two chunks have the same name.
pub proof fn chunk_names_distinct(a: nat, b: nat)
    requires
        a != b,
    ensures
        chunk_name(a) != chunk_name(b),
{
    lemma_number_of_decimal(a);
    lemma_number_of_decimal(b);
    lemma_number_of_zeros((8 - decimal(a).len()) as nat, decimal(a));
    lemma_number_of_zeros((8 - decimal(b).len()) as nat, decimal(b));
    assert(decimal(a).len() < 8 ==> chunk_name(a) =~= zeros((8 - decimal(a).len()) as nat) + decimal(a));
    assert(decimal(b).len() < 8 ==> chunk_name(b) =~= zeros((8 - decimal(b).len()) as nat) + decimal(b));
}

} // verus!
