use vstd::prelude::*;
use vstd::string::StringExecFns;

verus! {

/// The character that prints one decimal digit.
pub open spec fn digit_char(d: int) -> char {
    if d == 0 {
        '0'
    } else if d == 1 {
        '1'
    } else if d == 2 {
        '2'
    } else if d == 3 {
        '3'
    } else if d == 4 {
        '4'
    } else if d == 5 {
        '5'
    } else if d == 6 {
        '6'
    } else if d == 7 {
        '7'
    } else if d == 8 {
        '8'
    } else {
        '9'
    }
}

/// The decimal digits of `n`, most significant first, without leading
/// zeros.
pub open spec fn decimal_digits(n: int) -> Seq<char>
    recommends
        n >= 0,
    decreases n,
{
    if n < 10 {
        seq![digit_char(n)]
    } else {
        decimal_digits(n / 10).push(digit_char(n % 10))
    }
}

/// A chunk number as printed: zero-padded on the left to two digits.
pub open spec fn padded_number(n: int) -> Seq<char> {
    if n < 10 {
        seq!['0'] + decimal_digits(n)
    } else {
        decimal_digits(n)
    }
}

/// The name of one output file: the base name, an underscore, the 1-based
/// chunk number zero-padded to two digits, and the gpx extension.
pub open spec fn chunk_name(base: Seq<char>, number: int) -> Seq<char> {
    base + seq!['_'] + padded_number(number) + seq!['.', 'g', 'p', 'x']
}

/// Append the character of one decimal digit.
fn append_digit(out: &mut String, d: u64)
    requires
        d < 10,
    ensures
        final(out)@ == old(out)@ + seq![digit_char(d as int)],
{
    match d {
        0 => out.append("0"),
        1 => out.append("1"),
        2 => out.append("2"),
        3 => out.append("3"),
        4 => out.append("4"),
        5 => out.append("5"),
        6 => out.append("6"),
        7 => out.append("7"),
        8 => out.append("8"),
        _ => out.append("9"),
    }
    proof {
        reveal_strlit("0");
        reveal_strlit("1");
        reveal_strlit("2");
        reveal_strlit("3");
        reveal_strlit("4");
        reveal_strlit("5");
        reveal_strlit("6");
        reveal_strlit("7");
        reveal_strlit("8");
        reveal_strlit("9");
        assert(out@ =~= old(out)@ + seq![digit_char(d as int)]);
    }
}

/// Append the decimal digits of `n`, most significant first.
fn append_decimal(out: &mut String, n: u64)
    ensures
        final(out)@ == old(out)@ + decimal_digits(n as int),
    decreases n,
{
    if n >= 10 {
        append_decimal(out, n / 10);
    }
    append_digit(out, n % 10);
    proof {
        if n < 10 {
            assert(out@ =~= old(out)@ + decimal_digits(n as int));
        } else {
            assert(decimal_digits(n as int) == decimal_digits(n as int / 10).push(
                digit_char(n as int % 10),
            ));
            assert(out@ =~= old(out)@ + decimal_digits(n as int));
        }
    }
}

/// The file name for the output chunk at `index` (0-based): the base name,
/// an underscore, the 1-based chunk number zero-padded to two digits, and
/// the gpx extension.
pub fn chunk_file_name(base: &str, index: usize) -> (r: String)
    requires
        index < usize::MAX,
    ensures
        r@ == chunk_name(base@, index as int + 1),
{
    let number: u64 = (index as u64) + 1;
    let mut out = base.to_owned();
    out.append("_");
    if number < 10 {
        out.append("0");
    }
    append_decimal(&mut out, number);
    out.append(".gpx");
    proof {
        reveal_strlit("_");
        reveal_strlit("0");
        reveal_strlit(".gpx");
        assert(out@ =~= chunk_name(base@, index as int + 1));
    }
    out
}

} // verus!
