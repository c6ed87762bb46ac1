//! Terminal rendering of 2048 tiles.
use crate::text::{decimal, decimal_chars, extend_chars, extend_str, chars_of, owned, string_of};
use vstd::prelude::*;

verus! {

/// `s` right-aligned in a field of six characters.
pub open spec fn pad6(s: Seq<char>) -> Seq<char> {
    if s.len() >= 6 {
        s
    } else {
        Seq::new((6 - s.len()) as nat, |i: int| ' ') + s
    }
}

/// The text of a tile: a coloured, right-aligned value of width six; a dot
/// for an empty cell; white on red for values beyond 2048.
pub open spec fn tile_text(val: u32) -> Seq<char> {
    if val == 0 {
        "\x1b[90m     .\x1b[0m"@
    } else if val == 2 {
        "\x1b[36m     2\x1b[0m"@
    } else if val == 4 {
        "\x1b[34m     4\x1b[0m"@
    } else if val == 8 {
        "\x1b[33m     8\x1b[0m"@
    } else if val == 16 {
        "\x1b[38;5;208m    16\x1b[0m"@
    } else if val == 32 {
        "\x1b[31m    32\x1b[0m"@
    } else if val == 64 {
        "\x1b[35m    64\x1b[0m"@
    } else if val == 128 {
        "\x1b[93m   128\x1b[0m"@
    } else if val == 256 {
        "\x1b[92m   256\x1b[0m"@
    } else if val == 512 {
        "\x1b[96m   512\x1b[0m"@
    } else if val == 1024 {
        "\x1b[95m  1024\x1b[0m"@
    } else if val == 2048 {
        "\x1b[1;93m  2048\x1b[0m"@
    } else {
        "\x1b[1;97;41m"@ + pad6(decimal(val as nat)) + "\x1b[0m"@
    }
}

/// The text of a tile (see `tile_text`).
pub fn format_tile(val: u32) -> (s: String)
    ensures
        s@ == tile_text(val),
{
    if val == 0 {
        owned("\x1b[90m     .\x1b[0m")
    } else if val == 2 {
        owned("\x1b[36m     2\x1b[0m")
    } else if val == 4 {
        owned("\x1b[34m     4\x1b[0m")
    } else if val == 8 {
        owned("\x1b[33m     8\x1b[0m")
    } else if val == 16 {
        owned("\x1b[38;5;208m    16\x1b[0m")
    } else if val == 32 {
        owned("\x1b[31m    32\x1b[0m")
    } else if val == 64 {
        owned("\x1b[35m    64\x1b[0m")
    } else if val == 128 {
        owned("\x1b[93m   128\x1b[0m")
    } else if val == 256 {
        owned("\x1b[92m   256\x1b[0m")
    } else if val == 512 {
        owned("\x1b[96m   512\x1b[0m")
    } else if val == 1024 {
        owned("\x1b[95m  1024\x1b[0m")
    } else if val == 2048 {
        owned("\x1b[1;93m  2048\x1b[0m")
    } else {
        let mut v = chars_of("\x1b[1;97;41m");
        let digits = decimal_chars(val as usize);
        let mut pad: usize = digits.len();
        let ghost v0 = v@;
        while pad < 6
            invariant
                digits@.len() <= pad <= 6 || (pad == digits@.len() && pad >= 6),
                v@ == v0 + Seq::new((pad - digits@.len()) as nat, |i: int| ' '),
            decreases 6 - pad,
        {
            v.push(' ');
            proof {
                assert(v@ =~= v0 + Seq::new((pad + 1 - digits@.len()) as nat, |i: int| ' '));
            }
            pad = pad + 1;
        }
        extend_chars(&mut v, digits.as_slice());
        extend_str(&mut v, "\x1b[0m");
        proof {
            let d = decimal(val as nat);
            if d.len() >= 6 {
                assert(Seq::new((pad - digits@.len()) as nat, |i: int| ' ') =~= Seq::<char>::empty());
            } else {
                assert(pad == 6);
            }
            assert(v@ =~= "\x1b[1;97;41m"@ + pad6(d) + "\x1b[0m"@);
        }
        string_of(v.as_slice())
    }
}

} // verus!
