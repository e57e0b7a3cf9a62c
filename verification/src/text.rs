//! Printed output. The library decides what is printed; the decimal digits
//! of a number are left to whoever writes the output, so a piece of output
//! is either finished text or a number with the form that it is to take.

use vstd::prelude::*;
use vstd::std_specs::iter::IteratorSpec;
use crate::number::{is_whole, is_whole_bits};

verus! {

/// The form in which the digits of a number are to be written.
#[derive(Debug, PartialEq, Eq, Clone, Copy, Structural)]
pub enum NumberForm {
    /// All digits of a whole number, without a decimal point: `3`.
    Whole,
    /// All digits of a whole number, and one decimal place: `3.0`.
    PointedWhole,
    /// The fewest digits that read back as the same number: `3.14`.
    Shortest,
    /// The fewest digits that read back as the same number, with a decimal
    /// point, or with an exponent where the number is very large or very
    /// small: `3.0`, `1e21`.
    Exponent,
}

/// A piece of printed output.
#[derive(Debug)]
pub enum Fragment {
    /// Text, written as it is.
    Text(String),
    /// A number, and the form in which it is to be written.
    Number(u64, NumberForm),
}

/// The mathematical value of a [`Fragment`].
pub ghost enum FragmentView {
    Text(Seq<char>),
    Number(u64, NumberForm),
}

impl View for Fragment {
    type V = FragmentView;

    open spec fn view(&self) -> FragmentView {
        match self {
            Fragment::Text(s) => FragmentView::Text(s@),
            Fragment::Number(n, form) => FragmentView::Number(*n, *form),
        }
    }
}

/// A number as `print` writes it: a whole number without a decimal point,
/// every other number with the fewest digits that read back as it.
pub open spec fn plain_number(bits: u64) -> FragmentView {
    FragmentView::Number(
        bits,
        if is_whole_bits(bits) {
            NumberForm::Whole
        } else {
            NumberForm::Shortest
        },
    )
}

/// A number as a token listing writes it: as `print` does, but a whole
/// number keeps one decimal place.
pub open spec fn pointed_number(bits: u64) -> FragmentView {
    FragmentView::Number(
        bits,
        if is_whole_bits(bits) {
            NumberForm::PointedWhole
        } else {
            NumberForm::Shortest
        },
    )
}

/// The values of a sequence of fragments, in order.
pub open spec fn fragment_views(fragments: Seq<Fragment>) -> Seq<FragmentView> {
    fragments.map_values(|f: Fragment| f@)
}

/// A text fragment.
pub open spec fn text(s: Seq<char>) -> FragmentView {
    FragmentView::Text(s)
}

/// The fragment that ends a line.
pub open spec fn end_of_line() -> FragmentView {
    FragmentView::Text("\n"@)
}

impl Fragment {
    /// A text fragment made from a string slice.
    pub fn from_text(s: &str) -> (f: Fragment)
        ensures
            f@ == text(s@),
    {
        Fragment::Text(String::from_str(s))
    }

    /// A number as `print` writes it.
    pub fn plain(bits: u64) -> (f: Fragment)
        ensures
            f@ == plain_number(bits),
    {
        if is_whole(bits) {
            Fragment::Number(bits, NumberForm::Whole)
        } else {
            Fragment::Number(bits, NumberForm::Shortest)
        }
    }

    /// A number as a token listing writes it.
    pub fn pointed(bits: u64) -> (f: Fragment)
        ensures
            f@ == pointed_number(bits),
    {
        if is_whole(bits) {
            Fragment::Number(bits, NumberForm::PointedWhole)
        } else {
            Fragment::Number(bits, NumberForm::Shortest)
        }
    }

    /// The fragment that ends a line.
    pub fn newline() -> (f: Fragment)
        ensures
            f@ == end_of_line(),
    {
        Fragment::Text(String::from_str("\n"))
    }
}

/// The digit character for a value below ten.
pub open spec fn digit_text(d: nat) -> Seq<char> {
    if d == 0 {
        "0"@
    } else if d == 1 {
        "1"@
    } else if d == 2 {
        "2"@
    } else if d == 3 {
        "3"@
    } else if d == 4 {
        "4"@
    } else if d == 5 {
        "5"@
    } else if d == 6 {
        "6"@
    } else if d == 7 {
        "7"@
    } else if d == 8 {
        "8"@
    } else {
        "9"@
    }
}

/// The decimal digits of a natural number, without leading zeros.
pub open spec fn decimal_text(n: nat) -> Seq<char>
    decreases n,
{
    if n < 10 {
        digit_text(n)
    } else {
        decimal_text(n / 10) + digit_text(n % 10)
    }
}

fn digit(d: usize) -> (s: &'static str)
    requires
        d < 10,
    ensures
        s@ == digit_text(d as nat),
{
    if d == 0 {
        "0"
    } else if d == 1 {
        "1"
    } else if d == 2 {
        "2"
    } else if d == 3 {
        "3"
    } else if d == 4 {
        "4"
    } else if d == 5 {
        "5"
    } else if d == 6 {
        "6"
    } else if d == 7 {
        "7"
    } else if d == 8 {
        "8"
    } else {
        "9"
    }
}

/// Writes a line number in decimal.
pub fn decimal(n: usize) -> (s: String)
    ensures
        s@ == decimal_text(n as nat),
    decreases n,
{
    if n < 10 {
        String::from_str(digit(n))
    } else {
        let mut s = decimal(n / 10);
        s.append(digit(n % 10));
        s
    }
}

/// Calls `String::push`, which appends one character to the end of the
/// string.
#[verifier::external_body]
pub(crate) fn push_char(s: &mut String, c: char)
    ensures
        final(s)@ == old(s)@.push(c),
{
    s.push(c);
}

/// The characters of a text, in order.
pub fn chars_of(s: &str) -> (chars: Vec<char>)
    ensures
        chars@ == s@,
{
    broadcast use vstd::string::group_string_axioms;

    let mut chars: Vec<char> = Vec::new();
    let mut rest = s.chars();
    loop
        invariant
            rest.obeys_prophetic_iter_laws(),
            rest.decrease() is Some,
            chars@ + rest.remaining() == s@,
        ensures
            chars@ == s@,
        decreases rest.decrease()->0,
    {
        let ghost before = rest.remaining();
        let ghost read = chars@;
        match rest.next() {
            Some(c) => {
                chars.push(c);
                assert(chars@ + rest.remaining() =~= read + before) by {
                    assert(before =~= seq![c] + before.drop_first());
                }
            },
            None => {
                assert(chars@ + before =~= chars@);
                break ;
            },
        }
    }
    chars
}

/// The text made of the characters `chars[from..to]`.
pub fn text_between(chars: &Vec<char>, from: usize, to: usize) -> (s: String)
    requires
        from <= to <= chars@.len(),
    ensures
        s@ == chars@.subrange(from as int, to as int),
{
    let mut s = String::new();
    let mut i: usize = from;
    assert(s@ =~= chars@.subrange(from as int, i as int));
    while i < to
        invariant
            from <= i <= to <= chars@.len(),
            s@ == chars@.subrange(from as int, i as int),
        decreases to - i,
    {
        push_char(&mut s, chars[i]);
        assert(s@ =~= chars@.subrange(from as int, i + 1));
        i += 1;
    }
    s
}

} // verus!
