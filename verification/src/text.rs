//! Decimal rendering of unsigned integers, used when edge conditions and
//! state identifiers are turned into text.

use vstd::prelude::*;

verus! {

/// The character for one decimal digit value.
pub open spec fn dec_digit(d: nat) -> char {
    if d == 0 {
        '0'
    } else if d == 1 {
        '1'
    } else if d == 2 {
        '2'
    } else if d == 3 {
        '3'
    } else if d == 4 {
        '4'
    } else if d == 5 {
        '5'
    } else if d == 6 {
        '6'
    } else if d == 7 {
        '7'
    } else if d == 8 {
        '8'
    } else {
        '9'
    }
}

/// The usual decimal notation of `n`, most significant digit first,
/// without leading zeros (except for `n == 0` itself).
pub open spec fn dec_of(n: nat) -> Seq<char>
    decreases n,
{
    if n < 10 {
        seq![dec_digit(n)]
    } else {
        dec_of(n / 10).push(dec_digit(n % 10))
    }
}

fn digit_str(d: u64) -> (r: &'static str)
    requires
        d < 10,
    ensures
        r@ == seq![dec_digit(d as nat)],
{
    proof {
        reveal_strlit("0");
        reveal_strlit("1");
        reveal_strlit("2");
        reveal_strlit("3");
        reveal_strlit("4");
        reveal_strlit("5");
        reveal_strlit("6");
        reveal_strlit("7");
        reveal_strlit("8");
        reveal_strlit("9");
    }
    let r = match d {
        0 => "0",
        1 => "1",
        2 => "2",
        3 => "3",
        4 => "4",
        5 => "5",
        6 => "6",
        7 => "7",
        8 => "8",
        _ => "9",
    };
    proof {
        assert(r@ =~= seq![dec_digit(d as nat)]);
    }
    r
}

/// Renders `n` in decimal notation.
pub fn u64_to_dec(n: u64) -> (r: String)
    ensures
        r@ == dec_of(n as nat),
    decreases n,
{
    if n < 10 {
        String::from_str(digit_str(n))
    } else {
        let mut s = u64_to_dec(n / 10);
        s.append(digit_str(n % 10));
        proof {
            assert(s@ =~= dec_of(n as nat));
        }
        s
    }
}

/// Renders a `usize` (a node or state index) in decimal notation.
pub fn usize_to_dec(n: usize) -> (r: String)
    ensures
        r@ == dec_of(n as nat),
{
    u64_to_dec(n as u64)
}

/// The character for one hexadecimal digit value, lower case.
pub open spec fn hex_digit(d: nat) -> char {
    if d < 10 {
        dec_digit(d)
    } else if d == 10 {
        'a'
    } else if d == 11 {
        'b'
    } else if d == 12 {
        'c'
    } else if d == 13 {
        'd'
    } else if d == 14 {
        'e'
    } else {
        'f'
    }
}

/// The hexadecimal notation of `n`, most significant digit first,
/// without leading zeros (except for `n == 0` itself).
pub open spec fn hex_of(n: nat) -> Seq<char>
    decreases n,
{
    if n < 16 {
        seq![hex_digit(n)]
    } else {
        hex_of(n / 16).push(hex_digit(n % 16))
    }
}

/// A run of `k` zero characters.
pub open spec fn zeros(k: nat) -> Seq<char>
    decreases k,
{
    if k == 0 {
        Seq::empty()
    } else {
        zeros((k - 1) as nat).push('0')
    }
}

/// `n` in hexadecimal, left-padded with zeros to at least four digits.
pub open spec fn hex4_of(n: nat) -> Seq<char> {
    let h = hex_of(n);
    if h.len() >= 4 {
        h
    } else {
        zeros((4 - h.len()) as nat) + h
    }
}

fn hex_digit_str(d: u32) -> (r: &'static str)
    requires
        d < 16,
    ensures
        r@ == seq![hex_digit(d as nat)],
{
    proof {
        reveal_strlit("a");
        reveal_strlit("b");
        reveal_strlit("c");
        reveal_strlit("d");
        reveal_strlit("e");
        reveal_strlit("f");
    }
    let r = match d {
        0 => "0",
        1 => "1",
        2 => "2",
        3 => "3",
        4 => "4",
        5 => "5",
        6 => "6",
        7 => "7",
        8 => "8",
        9 => "9",
        10 => "a",
        11 => "b",
        12 => "c",
        13 => "d",
        14 => "e",
        _ => "f",
    };
    proof {
        reveal_strlit("0");
        reveal_strlit("1");
        reveal_strlit("2");
        reveal_strlit("3");
        reveal_strlit("4");
        reveal_strlit("5");
        reveal_strlit("6");
        reveal_strlit("7");
        reveal_strlit("8");
        reveal_strlit("9");
        assert(r@ =~= seq![hex_digit(d as nat)]);
    }
    r
}

fn u32_to_hex(n: u32) -> (r: String)
    ensures
        r@ == hex_of(n as nat),
    decreases n,
{
    if n < 16 {
        String::from_str(hex_digit_str(n))
    } else {
        let mut s = u32_to_hex(n / 16);
        s.append(hex_digit_str(n % 16));
        proof {
            assert(s@ =~= hex_of(n as nat));
        }
        s
    }
}

/// Renders `n` in hexadecimal, zero-padded to at least four digits, as
/// `{:04x}` formatting does.
pub fn u32_to_hex4(n: u32) -> (r: String)
    ensures
        r@ == hex4_of(n as nat),
{
    let h = u32_to_hex(n);
    let len = h.as_str().unicode_len();
    let mut out = String::new();
    let mut i = len;
    while i < 4
        invariant
            len == hex_of(n as nat).len(),
            len <= i <= 4 || (len >= 4 && i == len),
            len < 4 ==> out@ == zeros((i - len) as nat),
            len >= 4 ==> out@ == Seq::<char>::empty(),
            h@ == hex_of(n as nat),
        decreases 4 - i,
    {
        out.append("0");
        proof {
            reveal_strlit("0");
            assert(out@ =~= zeros((i + 1 - len) as nat));
        }
        i += 1;
    }
    out.append(h.as_str());
    proof {
        if len >= 4 {
            assert(out@ =~= hex4_of(n as nat));
        } else {
            assert(out@ =~= hex4_of(n as nat));
        }
    }
    out
}

} // verus!
