//! Small operations on text that the other modules share.
use vstd::prelude::*;
use vstd::string::{StrSliceExecFns, StringExecFns};

verus! {

/// Whether a string is the given text.
pub fn is(s: &String, text: &str) -> (r: bool)
    ensures
        r == (s@ == text@),
{
    *s == text.to_owned()
}

// ------------------------------------------------------------- numbers

/// A decimal digit.
pub open spec fn digit(d: int) -> Seq<char> {
    if d == 0 {
        "0"@
    } else if d == 1 {
        "1"@
    } else if d == 2 {
        "2"@
    } else if d == 3 {
        "3"@
    } else if d == 4 {
        "4"@
    } else if d == 5 {
        "5"@
    } else if d == 6 {
        "6"@
    } else if d == 7 {
        "7"@
    } else if d == 8 {
        "8"@
    } else {
        "9"@
    }
}

/// A natural number in decimal digits.
pub open spec fn number(n: nat) -> Seq<char>
    decreases n,
{
    if n < 10 {
        digit(n as int)
    } else {
        number(n / 10) + digit((n % 10) as int)
    }
}

/// A number of tenths with its one decimal place.
pub open spec fn tenths(n: nat) -> Seq<char> {
    number(n / 10) + "."@ + digit((n % 10) as int)
}

/// Appends a digit.
fn push_digit(out: &mut String, d: u8)
    requires
        d < 10,
    ensures
        final(out)@ == old(out)@ + digit(d as int),
{
    if d == 0 {
        out.append("0");
    } else if d == 1 {
        out.append("1");
    } else if d == 2 {
        out.append("2");
    } else if d == 3 {
        out.append("3");
    } else if d == 4 {
        out.append("4");
    } else if d == 5 {
        out.append("5");
    } else if d == 6 {
        out.append("6");
    } else if d == 7 {
        out.append("7");
    } else if d == 8 {
        out.append("8");
    } else {
        out.append("9");
    }
}

/// Appends a number in decimal digits.
pub fn push_number(out: &mut String, n: u128)
    ensures
        final(out)@ == old(out)@ + number(n as nat),
    decreases n,
{
    let ghost before = out@;
    if n >= 10 {
        push_number(out, n / 10);
    }
    push_digit(out, (n % 10) as u8);
    assert(out@ =~= before + number(n as nat));
}

/// A number in decimal digits.
pub fn of_number(n: u128) -> (r: String)
    ensures
        r@ == number(n as nat),
{
    let mut out = String::new();
    push_number(&mut out, n);
    assert(out@ =~= number(n as nat));
    out
}

/// Appends a number of tenths with its one decimal place.
pub fn push_tenths(out: &mut String, n: u128)
    ensures
        final(out)@ == old(out)@ + tenths(n as nat),
{
    let ghost before = out@;
    push_number(out, n / 10);
    out.append(".");
    push_digit(out, (n % 10) as u8);
    assert(out@ =~= before + tenths(n as nat));
}

// ------------------------------------------------------------- columns

/// A number of spaces.
pub open spec fn spaces(n: int) -> Seq<char>
    decreases n,
{
    if n <= 0 {
        Seq::empty()
    } else {
        spaces(n - 1) + " "@
    }
}

/// A text at the left of a column of a width.
pub open spec fn left(s: Seq<char>, width: int) -> Seq<char> {
    s + spaces(width - s.len())
}

/// A text at the right of a column of a width.
pub open spec fn right(s: Seq<char>, width: int) -> Seq<char> {
    spaces(width - s.len()) + s
}

fn push_spaces(out: &mut String, n: usize)
    ensures
        final(out)@ == old(out)@ + spaces(n as int),
{
    let ghost before = out@;
    let mut i: usize = 0;
    assert(out@ =~= before + spaces(0));
    while i < n
        invariant
            i <= n,
            out@ == before + spaces(i as int),
        decreases n - i,
    {
        out.append(" ");
        i += 1;
        assert(out@ =~= before + spaces(i as int));
    }
}

/// Appends a text at the left of a column.
pub fn push_left(out: &mut String, s: &str, width: usize)
    ensures
        final(out)@ == old(out)@ + left(s@, width as int),
{
    let ghost before = out@;
    out.append(s);
    let n = s.unicode_len();
    push_spaces(
        out,
        if n < width {
            width - n
        } else {
            0
        },
    );
    assert(out@ =~= before + left(s@, width as int));
}

/// Appends a text at the right of a column.
pub fn push_right(out: &mut String, s: &str, width: usize)
    ensures
        final(out)@ == old(out)@ + right(s@, width as int),
{
    let ghost before = out@;
    let n = s.unicode_len();
    push_spaces(
        out,
        if n < width {
            width - n
        } else {
            0
        },
    );
    out.append(s);
    assert(out@ =~= before + right(s@, width as int));
}

} // verus!
