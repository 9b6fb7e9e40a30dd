//! Character-level helpers: the characters of a string, centring, and the
//! clock face.
use vstd::prelude::*;
use vstd::string::StringExecFns;

verus! {

/// The characters of `s`, in order.
pub fn chars_of(s: &str) -> (r: Vec<char>)
    ensures
        r@ == s@,
{
    let mut r: Vec<char> = Vec::new();
    for c in it: s.chars()
        invariant
            it.seq() == s@,
            r@ == it.seq().take(it.index() as int),
    {
        r.push(c);
    }
    r
}

/// Column at which `text` starts when centred in `width` columns; zero
/// when it does not fit.
pub open spec fn centre_column(len: nat, width: nat) -> nat {
    if len >= width {
        0
    } else {
        ((width - len) as nat / 2) as nat
    }
}

/// Column at which `len` characters start when centred in a row of `width`
/// columns.
pub fn center_column(len: usize, width: u16) -> (x: u16)
    ensures
        x == centre_column(len as nat, width as nat),
{
    if len >= width as usize {
        return 0;
    }
    (width - len as u16) / 2
}

/// Column at which `text` starts when centred in a row of `width` columns.
pub fn center_text(text: &str, width: u16) -> (x: u16)
    ensures
        x == centre_column(text@.len(), width as nat),
{
    center_column(chars_of(text).len(), width)
}

/// The decimal digit for `d`.
pub open spec fn digit_char(d: nat) -> char {
    seq!['0', '1', '2', '3', '4', '5', '6', '7', '8', '9'][d as int]
}

/// `n` written in decimal, without leading zeros.
pub open spec fn decimal(n: nat) -> Seq<char>
    decreases n,
{
    if n < 10 {
        seq![digit_char(n)]
    } else {
        decimal(n / 10) + seq![digit_char(n % 10)]
    }
}

/// Seconds of a clock face: two digits, with a leading zero below ten.
pub open spec fn two_digits(n: nat) -> Seq<char> {
    if n < 10 {
        seq!['0'] + decimal(n)
    } else {
        decimal(n)
    }
}

/// The clock face for `s` seconds: `m:ss` from a minute on, plain seconds
/// below.
pub open spec fn clock_face(s: nat) -> Seq<char> {
    if s >= 60 {
        decimal(s / 60) + seq![':'] + two_digits(s % 60)
    } else {
        decimal(s)
    }
}

fn digit_str(d: u64) -> (r: &'static str)
    requires
        d < 10,
    ensures
        r@ == seq![digit_char(d as nat)],
{
    proof {
        reveal_strlit("0");
        reveal_strlit("1");
        reveal_strlit("2");
        reveal_strlit("3");
        reveal_strlit("4");
        reveal_strlit("5");
        reveal_strlit("6");
        reveal_strlit("7");
        reveal_strlit("8");
        reveal_strlit("9");
    }
    if d == 0 {
        "0"
    } else if d == 1 {
        "1"
    } else if d == 2 {
        "2"
    } else if d == 3 {
        "3"
    } else if d == 4 {
        "4"
    } else if d == 5 {
        "5"
    } else if d == 6 {
        "6"
    } else if d == 7 {
        "7"
    } else if d == 8 {
        "8"
    } else {
        "9"
    }
}

/// `n` in decimal.
pub fn decimal_string(n: u64) -> (r: String)
    ensures
        r@ == decimal(n as nat),
    decreases n,
{
    if n < 10 {
        String::from_str(digit_str(n))
    } else {
        let mut r = decimal_string(n / 10);
        r.append(digit_str(n % 10));
        r
    }
}

/// The remaining time as shown above the text: `m:ss` from a minute on,
/// plain seconds below.
pub fn format_time(seconds: u64) -> (r: String)
    ensures
        r@ == clock_face(seconds as nat),
{
    if seconds >= 60 {
        let mins = seconds / 60;
        let secs = seconds % 60;
        let mut r = decimal_string(mins);
        r.append(":");
        if secs < 10 {
            r.append("0");
        }
        r.append(decimal_string(secs).as_str());
        proof {
            reveal_strlit(":");
            reveal_strlit("0");
        }
        r
    } else {
        decimal_string(seconds)
    }
}

} // verus!
