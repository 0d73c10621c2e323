//! Month-name keys: a case-insensitive three-letter month abbreviation maps
//! to its ordinal 1..=12; anything else maps to 0, which orders lowest.

use vstd::prelude::*;
use crate::chars::lower_char;
use crate::chars::to_lower_char;

verus! {

/// The ordinal of a month abbreviation, 0 for an unrecognized line.
pub open spec fn month_ord(s: Seq<char>) -> int {
    if s.len() != 3 {
        0
    } else {
        let a = lower_char(s[0]);
        let b = lower_char(s[1]);
        let c = lower_char(s[2]);
        if a == 'j' && b == 'a' && c == 'n' {
            1
        } else if a == 'f' && b == 'e' && c == 'b' {
            2
        } else if a == 'm' && b == 'a' && c == 'r' {
            3
        } else if a == 'a' && b == 'p' && c == 'r' {
            4
        } else if a == 'm' && b == 'a' && c == 'y' {
            5
        } else if a == 'j' && b == 'u' && c == 'n' {
            6
        } else if a == 'j' && b == 'u' && c == 'l' {
            7
        } else if a == 'a' && b == 'u' && c == 'g' {
            8
        } else if a == 's' && b == 'e' && c == 'p' {
            9
        } else if a == 'o' && b == 'c' && c == 't' {
            10
        } else if a == 'n' && b == 'o' && c == 'v' {
            11
        } else if a == 'd' && b == 'e' && c == 'c' {
            12
        } else {
            0
        }
    }
}

/// Computes the month ordinal of a line.
pub fn month_key(s: &str) -> (r: u8)
    ensures
        r as int == month_ord(s@),
        r <= 12,
{
    let n = s.unicode_len();
    if n != 3 {
        return 0;
    }
    let a = to_lower_char(s.get_char(0));
    let b = to_lower_char(s.get_char(1));
    let c = to_lower_char(s.get_char(2));
    if a == 'j' && b == 'a' && c == 'n' {
        1
    } else if a == 'f' && b == 'e' && c == 'b' {
        2
    } else if a == 'm' && b == 'a' && c == 'r' {
        3
    } else if a == 'a' && b == 'p' && c == 'r' {
        4
    } else if a == 'm' && b == 'a' && c == 'y' {
        5
    } else if a == 'j' && b == 'u' && c == 'n' {
        6
    } else if a == 'j' && b == 'u' && c == 'l' {
        7
    } else if a == 'a' && b == 'u' && c == 'g' {
        8
    } else if a == 's' && b == 'e' && c == 'p' {
        9
    } else if a == 'o' && b == 'c' && c == 't' {
        10
    } else if a == 'n' && b == 'o' && c == 'v' {
        11
    } else if a == 'd' && b == 'e' && c == 'c' {
        12
    } else {
        0
    }
}

} // verus!
