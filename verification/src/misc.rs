//! Small extension commands: `echo` and `uuid`.

use crate::echo::echo_text;
use crate::text::{push_char, views};
use vstd::prelude::*;

verus! {

/// Echoes the arguments back: `echo(a, b, ...)`.
pub fn echo(args: &[String]) -> (reply: String)
    ensures
        reply@ == echo_text(views(args@)),
{
    crate::echo::echo(args)
}

/// `Uuid::new_v4()`, taken as its sixteen bytes (`Uuid::into_bytes`). The
/// bytes are random; the uuid crate sets the version nibble (high half of
/// byte 6) to 4 and the variant bits (top two of byte 8) to `10`, and that is
/// all the contract claims of them. It panics only when the operating
/// system's random source fails.
#[verifier::external_body]
fn new_v4_bytes() -> (bytes: [u8; 16])
    ensures
        bytes@[6] / 16 == 4,
        bytes@[8] / 64 == 2,
{
    uuid::Uuid::new_v4().into_bytes()
}

/// The lowercase hexadecimal digit for `d < 16`.
pub open spec fn hex_digit(d: int) -> char {
    if d < 10 {
        (48 + d) as char
    } else {
        (87 + d) as char
    }
}

/// The first `count` bytes of a UUID in its hyphenated text form: two
/// lowercase hex digits per byte, a hyphen before bytes 4, 6, 8 and 10.
pub open spec fn hyphenated_prefix(bytes: Seq<u8>, count: int) -> Seq<char>
    decreases count,
{
    if count <= 0 {
        seq![]
    } else {
        let i = count - 1;
        let b = bytes[i] as int;
        let before = hyphenated_prefix(bytes, i);
        let sep = if i == 4 || i == 6 || i == 8 || i == 10 {
            seq!['-']
        } else {
            seq![]
        };
        before + sep + seq![hex_digit(b / 16), hex_digit(b % 16)]
    }
}

/// The hyphenated text form of a UUID's sixteen bytes, as `Uuid`'s
/// `Display` writes it (`67e55044-10b1-426f-9247-bb680e5fe0c8`).
pub open spec fn hyphenated(bytes: Seq<u8>) -> Seq<char> {
    hyphenated_prefix(bytes, 16)
}

/// The sixteen lowercase hexadecimal digits, in value order.
pub open spec fn hex_alphabet() -> Seq<char> {
    seq!['0', '1', '2', '3', '4', '5', '6', '7', '8', '9', 'a', 'b', 'c', 'd', 'e', 'f']
}

/// Where the first of byte `i`'s two hex digits stands in the hyphenated
/// form: two characters per earlier byte, plus the hyphens before bytes 4,
/// 6, 8 and 10 that come at or before it.
pub open spec fn hex_position(i: int) -> int {
    2 * i + (if i >= 4 { 1int } else { 0 }) + (if i >= 6 { 1int } else { 0 }) + (if i >= 8 {
        1int
    } else {
        0
    }) + (if i >= 10 { 1int } else { 0 })
}

/// Each nibble is written as its own digit: `d` becomes the `d`-th character
/// of `0123456789abcdef`, so distinct nibbles give distinct digits.
pub proof fn lemma_hex_digit_is_its_value(d: int)
    requires
        0 <= d < 16,
    ensures
        hex_digit(d) == hex_alphabet()[d],
        forall|e: int| 0 <= e < 16 && hex_digit(e) == hex_digit(d) ==> e == d,
{
    assert(hex_digit(d) == hex_alphabet()[d]) by {
        if d == 0 { assert(hex_digit(0) == '0'); }
        else if d == 1 { assert(hex_digit(1) == '1'); }
        else if d == 2 { assert(hex_digit(2) == '2'); }
        else if d == 3 { assert(hex_digit(3) == '3'); }
        else if d == 4 { assert(hex_digit(4) == '4'); }
        else if d == 5 { assert(hex_digit(5) == '5'); }
        else if d == 6 { assert(hex_digit(6) == '6'); }
        else if d == 7 { assert(hex_digit(7) == '7'); }
        else if d == 8 { assert(hex_digit(8) == '8'); }
        else if d == 9 { assert(hex_digit(9) == '9'); }
        else if d == 10 { assert(hex_digit(10) == 'a'); }
        else if d == 11 { assert(hex_digit(11) == 'b'); }
        else if d == 12 { assert(hex_digit(12) == 'c'); }
        else if d == 13 { assert(hex_digit(13) == 'd'); }
        else if d == 14 { assert(hex_digit(14) == 'e'); }
        else { assert(hex_digit(15) == 'f'); }
    }
    assert forall|e: int| 0 <= e < 16 && hex_digit(e) == hex_digit(d) implies e == d by {
        assert(hex_digit(e) as int == if e < 10 { 48 + e } else { 87 + e });
        assert(hex_digit(d) as int == if d < 10 { 48 + d } else { 87 + d });
    }
}

proof fn lemma_prefix_digits(bytes: Seq<u8>, c: int)
    requires
        bytes.len() == 16,
        0 <= c <= 16,
    ensures
        hyphenated_prefix(bytes, c).len() == if c == 0 { 0 } else { hex_position(c - 1) + 2 },
        forall|i: int|
            0 <= i < c ==> {
                &&& hyphenated_prefix(bytes, c)[#[trigger] hex_position(i)] == hex_digit(
                    bytes[i] as int / 16,
                )
                &&& hyphenated_prefix(bytes, c)[hex_position(i) + 1] == hex_digit(
                    bytes[i] as int % 16,
                )
            },
    decreases c,
{
    if c > 0 {
        lemma_prefix_digits(bytes, c - 1);
        let before = hyphenated_prefix(bytes, c - 1);
        let now = hyphenated_prefix(bytes, c);
        assert forall|i: int| 0 <= i < c - 1 implies now[#[trigger] hex_position(i)] == before[hex_position(i)]
            && now[hex_position(i) + 1] == before[hex_position(i) + 1] by {
            assert(hex_position(i) + 1 < before.len()) by {
                assert(hex_position(i) + 2 <= hex_position(c - 2) + 2);
            }
        }
    }
}

/// Byte `i` of a UUID appears in its hyphenated form as two hex digits at
/// `hex_position(i)`: first the high nibble, then the low one, each the
/// digit of its value; the form is 36 characters long.
pub proof fn lemma_hyphenated_digits(bytes: Seq<u8>)
    requires
        bytes.len() == 16,
    ensures
        hyphenated(bytes).len() == 36,
        forall|i: int|
            0 <= i < 16 ==> {
                &&& hyphenated(bytes)[#[trigger] hex_position(i)] == hex_alphabet()[bytes[i] as int / 16]
                &&& hyphenated(bytes)[hex_position(i) + 1] == hex_alphabet()[bytes[i] as int % 16]
            },
{
    lemma_prefix_digits(bytes, 16);
    assert forall|i: int| 0 <= i < 16 implies {
        &&& hyphenated(bytes)[#[trigger] hex_position(i)] == hex_alphabet()[bytes[i] as int / 16]
        &&& hyphenated(bytes)[hex_position(i) + 1] == hex_alphabet()[bytes[i] as int % 16]
    } by {
        lemma_hex_digit_is_its_value(bytes[i] as int / 16);
        lemma_hex_digit_is_its_value(bytes[i] as int % 16);
    }
}

/// The hyphenated form has its hyphens at positions 8, 13, 18 and 23.
pub proof fn lemma_hyphens_placed(bytes: Seq<u8>)
    requires
        bytes.len() == 16,
    ensures
        hyphenated(bytes)[8] == '-',
        hyphenated(bytes)[13] == '-',
        hyphenated(bytes)[18] == '-',
        hyphenated(bytes)[23] == '-',
{
    reveal_with_fuel(hyphenated_prefix, 17);
}

/// Reading the hyphenated form back gives the bytes: two UUIDs with the same
/// text have the same sixteen bytes.
pub proof fn lemma_hyphenated_injective(b1: Seq<u8>, b2: Seq<u8>)
    requires
        b1.len() == 16,
        b2.len() == 16,
        hyphenated(b1) == hyphenated(b2),
    ensures
        b1 == b2,
{
    lemma_prefix_digits(b1, 16);
    lemma_prefix_digits(b2, 16);
    assert forall|i: int| 0 <= i < 16 implies b1[i] == b2[i] by {
        let p = hex_position(i);
        assert(hyphenated(b1)[p] == hyphenated(b2)[p]);
        assert(hyphenated(b1)[p + 1] == hyphenated(b2)[p + 1]);
        lemma_hex_digit_is_its_value(b1[i] as int / 16);
        lemma_hex_digit_is_its_value(b1[i] as int % 16);
        assert(b1[i] as int / 16 == b2[i] as int / 16);
        assert(b1[i] as int % 16 == b2[i] as int % 16);
    }
    assert(b1 =~= b2);
}

fn hex_char(d: u8) -> (c: char)
    requires
        d < 16,
    ensures
        c == hex_digit(d as int),
{
    if d < 10 {
        (48u8 + d) as char
    } else {
        (87u8 + d) as char
    }
}

/// The hyphenated lowercase text form of a UUID's sixteen bytes
/// (`67e55044-10b1-426f-9247-bb680e5fe0c8`).
pub fn hyphenate(bytes: [u8; 16]) -> (text: String)
    ensures
        text@ == hyphenated(bytes@),
        text@.len() == 36,
        text@[8] == '-' && text@[13] == '-' && text@[18] == '-' && text@[23] == '-',
        forall|i: int|
            0 <= i < 16 ==> {
                &&& text@[#[trigger] hex_position(i)] == hex_alphabet()[bytes@[i] as int / 16]
                &&& text@[hex_position(i) + 1] == hex_alphabet()[bytes@[i] as int % 16]
            },
{
    proof {
        lemma_hyphenated_digits(bytes@);
        lemma_hyphens_placed(bytes@);
    }
    let mut text = String::new();
    let mut i: usize = 0;
    while i < 16
        invariant
            i <= 16,
            bytes@.len() == 16,
            text@ == hyphenated_prefix(bytes@, i as int),
        decreases 16 - i,
    {
        if i == 4 || i == 6 || i == 8 || i == 10 {
            push_char(&mut text, '-');
        }
        let b = bytes[i];
        push_char(&mut text, hex_char(b / 16));
        push_char(&mut text, hex_char(b % 16));
        proof {
            assert(text@ =~= hyphenated_prefix(bytes@, i + 1));
        }
        i = i + 1;
    }
    text
}

/// A new random (version 4) UUID in its hyphenated lowercase text form: the
/// bytes are drawn at random, with the version nibble 4 and the variant bits
/// `10`, and written out by [`hyphenate`]. Like `Uuid::new_v4`, it panics
/// if the operating system's random source fails.
pub fn uuid() -> (text: String)
    ensures
        exists|bytes: Seq<u8>|
            bytes.len() == 16 && bytes[6] / 16 == 4 && bytes[8] / 64 == 2 && text@ == hyphenated(
                bytes,
            ),
{
    let bytes = new_v4_bytes();
    hyphenate(bytes)
}

/// The hyphenated form is 36 characters long, with hyphens at positions 8,
/// 13, 18 and 23 and the version digit `4` at position 14.
pub proof fn lemma_hyphenated_shape(bytes: Seq<u8>)
    requires
        bytes.len() == 16,
        bytes[6] / 16 == 4,
    ensures
        hyphenated(bytes).len() == 36,
        hyphenated(bytes)[8] == '-',
        hyphenated(bytes)[13] == '-',
        hyphenated(bytes)[18] == '-',
        hyphenated(bytes)[23] == '-',
        hyphenated(bytes)[14] == '4',
{
    reveal_with_fuel(hyphenated_prefix, 17);
}

} // verus!
