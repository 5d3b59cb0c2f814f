//! Colors.

use vstd::prelude::*;
use vstd::string::StringSliceAdditionalSpecFns;

verus! {

/// A color with one byte per channel.
#[derive(Clone, Copy, Debug, PartialEq, Eq, Structural)]
pub struct Color {
    pub r: u8,
    pub g: u8,
    pub b: u8,
    pub a: u8,
}

/// The value of one hex digit byte, or `-1` when the byte is no hex digit.
pub open spec fn hex_val(b: u8) -> int {
    if 48 <= b <= 57 {
        b - 48
    } else if 97 <= b <= 102 {
        b - 87
    } else if 65 <= b <= 70 {
        b - 55
    } else {
        -1
    }
}

/// The byte two hex digits spell, or `-1` when either is no hex digit.
pub open spec fn hex_byte(hi: u8, lo: u8) -> int {
    if hex_val(hi) >= 0 && hex_val(lo) >= 0 {
        16 * hex_val(hi) + hex_val(lo)
    } else {
        -1
    }
}

/// The byte two hex digits spell, or `d` when they spell none.
pub open spec fn hex_byte_or(hi: u8, lo: u8, d: u8) -> u8 {
    if hex_byte(hi, lo) >= 0 {
        hex_byte(hi, lo) as u8
    } else {
        d
    }
}

/// The bytes with every leading `#` removed.
pub open spec fn trim_hashes(bytes: Seq<u8>) -> Seq<u8>
    decreases bytes.len(),
{
    if bytes.len() > 0 && bytes[0] == 35 {
        trim_hashes(bytes.drop_first())
    } else {
        bytes
    }
}

/// The color a hex string denotes: six digits for an opaque color, eight for
/// one with transparency; a malformed digit pair falls back per channel, and
/// any other length gives opaque black.
pub open spec fn spec_from_hex(bytes: Seq<u8>) -> Color {
    let t = trim_hashes(bytes);
    if t.len() == 6 {
        Color {
            r: hex_byte_or(t[0], t[1], 0),
            g: hex_byte_or(t[2], t[3], 0),
            b: hex_byte_or(t[4], t[5], 0),
            a: 255,
        }
    } else if t.len() == 8 {
        Color {
            r: hex_byte_or(t[0], t[1], 0),
            g: hex_byte_or(t[2], t[3], 0),
            b: hex_byte_or(t[4], t[5], 0),
            a: hex_byte_or(t[6], t[7], 255),
        }
    } else {
        Color { r: 0, g: 0, b: 0, a: 255 }
    }
}

/// The value of one hex digit byte, or `255` as a sentinel for none.
fn hex_val_exec(b: u8) -> (r: u8)
    ensures
        hex_val(b) >= 0 ==> r == hex_val(b),
        hex_val(b) < 0 ==> r == 255,
{
    if 48 <= b && b <= 57 {
        b - 48
    } else if 97 <= b && b <= 102 {
        b - 87
    } else if 65 <= b && b <= 70 {
        b - 55
    } else {
        255
    }
}

/// The byte two hex digits spell, or `d` when they spell none.
fn hex_byte_exec(hi: u8, lo: u8, d: u8) -> (r: u8)
    ensures
        r == hex_byte_or(hi, lo, d),
{
    let h = hex_val_exec(hi);
    let l = hex_val_exec(lo);
    if h == 255 || l == 255 {
        d
    } else {
        16 * h + l
    }
}

impl Color {
    /// The transparent black every computed style starts from.
    pub open spec fn spec_default() -> Color {
        Color { r: 0, g: 0, b: 0, a: 0 }
    }

    /// Create a color from a hex string such as `#20a0ff` (supports
    /// transparency as a fourth digit pair).
    pub fn from_hex(hex: &str) -> (r: Color)
        ensures
            r == spec_from_hex(hex.spec_bytes()),
    {
        let bytes = hex.as_bytes();
        let n = bytes.len();
        let mut start: usize = 0;
        proof {
            assert(bytes@.skip(0) =~= bytes@);
        }
        while start < n && bytes[start] == 35
            invariant
                start <= n,
                n == bytes@.len(),
                trim_hashes(bytes@.skip(start as int)) == trim_hashes(bytes@),
            decreases n - start,
        {
            proof {
                assert(bytes@.skip(start as int).drop_first() =~= bytes@.skip(start + 1 as int));
            }
            start = start + 1;
        }
        proof {
            assert(trim_hashes(bytes@.skip(start as int)) == bytes@.skip(start as int));
        }
        let len = n - start;
        if len == 6 {
            Color {
                r: hex_byte_exec(bytes[start], bytes[start + 1], 0),
                g: hex_byte_exec(bytes[start + 2], bytes[start + 3], 0),
                b: hex_byte_exec(bytes[start + 4], bytes[start + 5], 0),
                a: 255,
            }
        } else if len == 8 {
            Color {
                r: hex_byte_exec(bytes[start], bytes[start + 1], 0),
                g: hex_byte_exec(bytes[start + 2], bytes[start + 3], 0),
                b: hex_byte_exec(bytes[start + 4], bytes[start + 5], 0),
                a: hex_byte_exec(bytes[start + 6], bytes[start + 7], 255),
            }
        } else {
            Color { r: 0, g: 0, b: 0, a: 255 }
        }
    }
}

impl Default for Color {
    /// Transparent black.
    fn default() -> (r: Self)
        ensures
            r == Color::spec_default(),
    {
        Color { r: 0, g: 0, b: 0, a: 0 }
    }
}

} // verus!
