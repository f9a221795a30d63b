//! What a run hands over to be written: encoded images, each under the name
//! of its file.

use vstd::prelude::*;
use vstd::string::StringExecFns;

verus! {

/// The character of the decimal digit `d`.
pub open spec fn digit(d: int) -> char {
    if d == 0 {
        '0'
    } else if d == 1 {
        '1'
    } else if d == 2 {
        '2'
    } else if d == 3 {
        '3'
    } else if d == 4 {
        '4'
    } else if d == 5 {
        '5'
    } else if d == 6 {
        '6'
    } else if d == 7 {
        '7'
    } else if d == 8 {
        '8'
    } else {
        '9'
    }
}

/// The number `n` in decimal digits, without leading zeros.
pub open spec fn decimal(n: nat) -> Seq<char>
    decreases n,
{
    if n < 10 {
        seq![digit(n as int)]
    } else {
        decimal(n / 10).push(digit((n % 10) as int))
    }
}

/// The name of the file of frame `number` of the run `name`:
/// the name, a hyphen, the number, and `.png`.
pub open spec fn frame_file_name_spec(name: Seq<char>, number: nat) -> Seq<char> {
    name + seq!['-'] + decimal(number) + seq!['.', 'p', 'n', 'g']
}

/// An encoded image and the name of the file that is to hold it.
#[derive(Clone, Debug)]
pub struct NamedImage {
    pub name: String,
    pub data: Vec<u8>,
}

/// The text of one decimal digit.
fn digit_str(d: usize) -> (s: &'static str)
    requires
        d < 10,
    ensures
        s@ == seq![digit(d as int)],
{
    proof {
        reveal_strlit("0");
        reveal_strlit("1");
        reveal_strlit("2");
        reveal_strlit("3");
        reveal_strlit("4");
        reveal_strlit("5");
        reveal_strlit("6");
        reveal_strlit("7");
        reveal_strlit("8");
        reveal_strlit("9");
    }
    let s = if d == 0 {
        "0"
    } else if d == 1 {
        "1"
    } else if d == 2 {
        "2"
    } else if d == 3 {
        "3"
    } else if d == 4 {
        "4"
    } else if d == 5 {
        "5"
    } else if d == 6 {
        "6"
    } else if d == 7 {
        "7"
    } else if d == 8 {
        "8"
    } else {
        "9"
    };
    assert(s@ =~= seq![digit(d as int)]);
    s
}

/// Appends the decimal digits of `n` to `text`.
fn push_decimal(text: &mut String, n: usize)
    ensures
        final(text)@ == old(text)@ + decimal(n as nat),
    decreases n,
{
    if n >= 10 {
        push_decimal(text, n / 10);
    }
    text.append(digit_str(n % 10));
    assert(text@ =~= old(text)@ + decimal(n as nat));
}

/// The name of the file of frame `number` of the run `name`.
pub fn frame_file_name(name: &str, number: usize) -> (file: String)
    ensures
        file@ == frame_file_name_spec(name@, number as nat),
{
    proof {
        reveal_strlit("-");
        reveal_strlit(".png");
    }
    let mut file = String::from_str(name);
    file.append("-");
    push_decimal(&mut file, number);
    file.append(".png");
    assert("-"@ =~= seq!['-']);
    assert(".png"@ =~= seq!['.', 'p', 'n', 'g']);
    assert(file@ =~= frame_file_name_spec(name@, number as nat));
    file
}

} // verus!
