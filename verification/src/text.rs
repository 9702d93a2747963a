//! Text of the library's messages.
use vstd::prelude::*;
use vstd::string::*;
use crate::coord::Axial;

verus! {

/// The character of a decimal digit.
pub open spec fn digit(d: int) -> char {
    if d == 0 {
        '0'
    } else if d == 1 {
        '1'
    } else if d == 2 {
        '2'
    } else if d == 3 {
        '3'
    } else if d == 4 {
        '4'
    } else if d == 5 {
        '5'
    } else if d == 6 {
        '6'
    } else if d == 7 {
        '7'
    } else if d == 8 {
        '8'
    } else {
        '9'
    }
}

/// Decimal notation.
pub open spec fn decimal(n: int) -> Seq<char>
    decreases n,
{
    if n < 10 {
        seq![digit(n)]
    } else {
        decimal(n / 10).push(digit(n % 10))
    }
}

/// Decimal notation with a leading minus sign for negative numbers.
pub open spec fn signed(n: int) -> Seq<char> {
    if n < 0 {
        "-"@ + decimal(-n)
    } else {
        decimal(n)
    }
}

/// A coordinate in the notation of its struct.
pub open spec fn axial_text(c: Axial) -> Seq<char> {
    "Axial { q: "@ + signed(c.q as int) + ", r: "@ + signed(c.r as int) + " }"@
}

fn append_digit(out: &mut String, d: u64)
    requires
        d < 10,
    ensures
        final(out)@ == old(out)@.push(digit(d as int)),
{
    proof {
        reveal_strlit("0");
        reveal_strlit("1");
        reveal_strlit("2");
        reveal_strlit("3");
        reveal_strlit("4");
        reveal_strlit("5");
        reveal_strlit("6");
        reveal_strlit("7");
        reveal_strlit("8");
        reveal_strlit("9");
    }
    let text: &str = if d == 0 {
        "0"
    } else if d == 1 {
        "1"
    } else if d == 2 {
        "2"
    } else if d == 3 {
        "3"
    } else if d == 4 {
        "4"
    } else if d == 5 {
        "5"
    } else if d == 6 {
        "6"
    } else if d == 7 {
        "7"
    } else if d == 8 {
        "8"
    } else {
        "9"
    };
    assert(text@ =~= seq![digit(d as int)]);
    out.append(text);
    assert(out@ =~= old(out)@.push(digit(d as int)));
}

/// Appends a number in decimal notation.
pub fn append_decimal(out: &mut String, n: u64)
    ensures
        final(out)@ == old(out)@ + decimal(n as int),
    decreases n,
{
    if n >= 10 {
        append_decimal(out, n / 10);
    }
    append_digit(out, n % 10);
    assert(out@ =~= old(out)@ + decimal(n as int));
}

/// Appends a signed number in decimal notation.
pub fn append_signed(out: &mut String, n: i64)
    ensures
        final(out)@ == old(out)@ + signed(n as int),
{
    if n < 0 {
        out.append("-");
    }
    append_decimal(out, crate::coord::magnitude(n));
    assert(out@ =~= old(out)@ + signed(n as int));
}

/// Appends a coordinate.
pub fn append_axial(out: &mut String, c: Axial)
    ensures
        final(out)@ == old(out)@ + axial_text(c),
{
    out.append("Axial { q: ");
    append_signed(out, c.q as i64);
    out.append(", r: ");
    append_signed(out, c.r as i64);
    out.append(" }");
    assert(out@ =~= old(out)@ + axial_text(c));
}

/// A new string with the given text.
pub fn text(s: &str) -> (out: String)
    ensures
        out@ == s@,
{
    s.to_owned()
}

/// The character of a hexadecimal digit.
pub open spec fn hex_digit(d: int) -> char {
    if d < 10 {
        digit(d)
    } else if d == 10 {
        'a'
    } else if d == 11 {
        'b'
    } else if d == 12 {
        'c'
    } else if d == 13 {
        'd'
    } else if d == 14 {
        'e'
    } else {
        'f'
    }
}

/// The last digits of a number in hexadecimal notation, with leading zeros.
pub open spec fn hexadecimal(n: int, digits: nat) -> Seq<char>
    decreases digits,
{
    if digits == 0 {
        seq![]
    } else {
        hexadecimal(n / 16, (digits - 1) as nat).push(hex_digit(n % 16))
    }
}

fn append_hex_digit(out: &mut String, d: u64)
    requires
        d < 16,
    ensures
        final(out)@ == old(out)@.push(hex_digit(d as int)),
{
    if d < 10 {
        append_digit(out, d);
        return ;
    }
    proof {
        reveal_strlit("a");
        reveal_strlit("b");
        reveal_strlit("c");
        reveal_strlit("d");
        reveal_strlit("e");
        reveal_strlit("f");
    }
    let text: &str = if d == 10 {
        "a"
    } else if d == 11 {
        "b"
    } else if d == 12 {
        "c"
    } else if d == 13 {
        "d"
    } else if d == 14 {
        "e"
    } else {
        "f"
    };
    assert(text@ =~= seq![hex_digit(d as int)]);
    out.append(text);
    assert(out@ =~= old(out)@.push(hex_digit(d as int)));
}

/// Appends the last digits of a number in hexadecimal notation.
pub fn append_hexadecimal(out: &mut String, n: u64, digits: u64)
    ensures
        final(out)@ == old(out)@ + hexadecimal(n as int, digits as nat),
    decreases digits,
{
    if digits > 0 {
        append_hexadecimal(out, n / 16, digits - 1);
        append_hex_digit(out, n % 16);
    }
    assert(out@ =~= old(out)@ + hexadecimal(n as int, digits as nat));
}

} // verus!
