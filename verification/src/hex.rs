//! Bytes in lowercase hexadecimal.

use vstd::prelude::*;

use crate::algo::{is_lower_hex, is_lower_hex_char};

verus! {

/// The character of a hexadecimal digit.
pub open spec fn hex_digit(d: int) -> char {
    if d < 10 {
        (0x30 + d) as char
    } else {
        (0x61 + (d - 10)) as char
    }
}

/// Two characters for every byte, the high half first.
pub open spec fn hex(bytes: Seq<u8>) -> Seq<char> {
    Seq::new(
        2 * bytes.len(),
        |i: int|
            if i % 2 == 0 {
                hex_digit(bytes[i / 2] as int / 16)
            } else {
                hex_digit(bytes[i / 2] as int % 16)
            },
    )
}

fn nibble(d: u8) -> (r: char)
    requires
        d < 16,
    ensures
        r == hex_digit(d as int),
{
    if d < 10 {
        (0x30 + d) as char
    } else {
        (0x61 + (d - 10)) as char
    }
}

/// Write bytes in lowercase hexadecimal.
pub fn to_hex(bytes: &[u8]) -> (r: String)
    ensures
        r@ == hex(bytes@),
{
    let mut out = String::new();
    let mut i: usize = 0;
    while i < bytes.len()
        invariant
            i <= bytes@.len(),
            out@ == hex(bytes@.take(i as int)),
        decreases bytes@.len() - i,
    {
        let b: u8 = bytes[i];
        out.push(nibble(b / 16));
        out.push(nibble(b % 16));
        i += 1;
        assert(out@ =~= hex(bytes@.take(i as int)));
    }
    assert(bytes@.take(i as int) =~= bytes@);
    out
}

/// Hexadecimal output is lowercase hexadecimal, two characters to a byte.
pub proof fn law_hex_form(bytes: Seq<u8>)
    ensures
        is_lower_hex(hex(bytes)),
        hex(bytes).len() == 2 * bytes.len(),
{
    assert forall|i: int| 0 <= i < hex(bytes).len() implies is_lower_hex_char(
        #[trigger] hex(bytes)[i],
    ) by {
        let b = bytes[i / 2];
        assert(0 <= b as int / 16 < 16);
        assert(0 <= b as int % 16 < 16);
    }
}

/// Different bytes have different hexadecimal forms.
pub proof fn law_hex_injective(a: Seq<u8>, b: Seq<u8>)
    ensures
        hex(a) == hex(b) <==> a == b,
{
    if hex(a) == hex(b) {
        assert(hex(a).len() == 2 * a.len());
        assert(hex(b).len() == 2 * b.len());
        assert forall|k: int| 0 <= k < a.len() implies a[k] == b[k] by {
            assert(hex(a)[2 * k] == hex(b)[2 * k]);
            assert(hex(a)[2 * k + 1] == hex(b)[2 * k + 1]);
            assert((2 * k) / 2 == k && (2 * k + 1) / 2 == k);
            assert(0 <= a[k] as int / 16 < 16 && 0 <= b[k] as int / 16 < 16);
            assert(hex_digit(a[k] as int / 16) == hex_digit(b[k] as int / 16));
            assert(hex_digit(a[k] as int % 16) == hex_digit(b[k] as int % 16));
            assert(a[k] as int / 16 == b[k] as int / 16);
        }
        assert(a =~= b);
    }
}

} // verus!
