//! The plain-text PPM encoding of an image.
//!
//! The text begins with the line `P3`, a line with width and height, and
//! the line `255`, the largest channel level. One line for each pixel
//! follows, in raster order, with the red, green and blue levels of the
//! pixel in decimal.

use vstd::prelude::*;
use vstd::string::StringExecFns;
use crate::color::Rgb;
use crate::raster::Raster;

verus! {

/// The character of the decimal digit `d`.
pub open spec fn digit_char(d: nat) -> char
    recommends
        d < 10,
{
    if d == 0 {
        '0'
    } else if d == 1 {
        '1'
    } else if d == 2 {
        '2'
    } else if d == 3 {
        '3'
    } else if d == 4 {
        '4'
    } else if d == 5 {
        '5'
    } else if d == 6 {
        '6'
    } else if d == 7 {
        '7'
    } else if d == 8 {
        '8'
    } else {
        '9'
    }
}

/// The decimal numeral of `n`, without leading zeros.
pub open spec fn decimal(n: nat) -> Seq<char>
    decreases n,
{
    if n < 10 {
        seq![digit_char(n)]
    } else {
        decimal(n / 10).push(digit_char(n % 10))
    }
}

/// The digit that a character stands for, and ten for any other character.
pub open spec fn digit_value(c: char) -> nat {
    if c == '0' {
        0
    } else if c == '1' {
        1
    } else if c == '2' {
        2
    } else if c == '3' {
        3
    } else if c == '4' {
        4
    } else if c == '5' {
        5
    } else if c == '6' {
        6
    } else if c == '7' {
        7
    } else if c == '8' {
        8
    } else if c == '9' {
        9
    } else {
        10
    }
}

/// The number that a run of decimal digits denotes.
pub open spec fn decimal_value(s: Seq<char>) -> nat
    decreases s.len(),
{
    if s.len() == 0 {
        0
    } else {
        decimal_value(s.drop_last()) * 10 + digit_value(s.last())
    }
}

/// The three header lines of an image of the given size.
pub open spec fn header_text(width: nat, height: nat) -> Seq<char> {
    seq!['P', '3', '\n'] + decimal(width) + seq![' '] + decimal(height) + seq![
        '\n',
        '2',
        '5',
        '5',
        '\n',
    ]
}

/// The line of one pixel: its three levels, separated by single spaces.
pub open spec fn pixel_text(p: Rgb) -> Seq<char> {
    decimal(p.r as nat) + seq![' '] + decimal(p.g as nat) + seq![' '] + decimal(p.b as nat)
        + seq!['\n']
}

/// The lines of a run of pixels, one after another.
pub open spec fn body_text(pixels: Seq<Rgb>) -> Seq<char>
    decreases pixels.len(),
{
    if pixels.len() == 0 {
        Seq::empty()
    } else {
        body_text(pixels.drop_last()) + pixel_text(pixels.last())
    }
}

/// The whole text of an image.
pub open spec fn image_text(width: nat, height: nat, pixels: Seq<Rgb>) -> Seq<char> {
    header_text(width, height) + body_text(pixels)
}

/// The one-character text of the digit `d`.
fn digit_str(d: u32) -> (s: &'static str)
    requires
        d < 10,
    ensures
        s@ == seq![digit_char(d as nat)],
{
    proof {
        reveal_strlit("0");
        reveal_strlit("1");
        reveal_strlit("2");
        reveal_strlit("3");
        reveal_strlit("4");
        reveal_strlit("5");
        reveal_strlit("6");
        reveal_strlit("7");
        reveal_strlit("8");
        reveal_strlit("9");
    }
    let s = if d == 0 {
        "0"
    } else if d == 1 {
        "1"
    } else if d == 2 {
        "2"
    } else if d == 3 {
        "3"
    } else if d == 4 {
        "4"
    } else if d == 5 {
        "5"
    } else if d == 6 {
        "6"
    } else if d == 7 {
        "7"
    } else if d == 8 {
        "8"
    } else {
        "9"
    };
    assert(s@ =~= seq![digit_char(d as nat)]);
    s
}

/// Appends the decimal numeral of `n` to `out`.
pub fn push_decimal(out: &mut String, n: u32)
    ensures
        final(out)@ == old(out)@ + decimal(n as nat),
    decreases n,
{
    if n >= 10 {
        push_decimal(out, n / 10);
    }
    out.append(digit_str(n % 10));
    assert(out@ =~= old(out)@ + decimal(n as nat));
}

/// Appends the line of one pixel to `out`.
pub fn push_pixel(out: &mut String, p: Rgb)
    ensures
        final(out)@ == old(out)@ + pixel_text(p),
{
    proof {
        reveal_strlit(" ");
        reveal_strlit("\n");
    }
    push_decimal(out, p.r as u32);
    out.append(" ");
    push_decimal(out, p.g as u32);
    out.append(" ");
    push_decimal(out, p.b as u32);
    out.append("\n");
    assert(out@ =~= old(out)@ + pixel_text(p));
}

/// The header of an image of the given size.
pub fn header(width: u32, height: u32) -> (text: String)
    ensures
        text@ == header_text(width as nat, height as nat),
{
    proof {
        reveal_strlit("P3\n");
        reveal_strlit(" ");
        reveal_strlit("\n255\n");
    }
    let mut text = String::new();
    text.append("P3\n");
    push_decimal(&mut text, width);
    text.append(" ");
    push_decimal(&mut text, height);
    text.append("\n255\n");
    assert(text@ =~= header_text(width as nat, height as nat));
    text
}

/// The whole text of an image whose pixels are given in raster order.
/// `None` when `pixels` does not hold one pixel for each position.
pub fn encode(raster: &Raster, pixels: &Vec<Rgb>) -> (text: Option<String>)
    ensures
        text.is_some() <==> pixels@.len() == raster.spec_pixel_count(),
        text matches Some(t) ==> t@ == image_text(
            raster.spec_width() as nat,
            raster.spec_height() as nat,
            pixels@,
        ),
{
    if pixels.len() as u64 != raster.pixel_count() {
        return None;
    }
    let mut text = header(raster.width(), raster.height());
    let mut k: usize = 0;
    while k < pixels.len()
        invariant
            k <= pixels@.len(),
            text@ == header_text(raster.spec_width() as nat, raster.spec_height() as nat)
                + body_text(pixels@.take(k as int)),
        decreases pixels@.len() - k,
    {
        proof {
            assert(pixels@.take(k + 1).drop_last() =~= pixels@.take(k as int));
        }
        push_pixel(&mut text, pixels[k]);
        k += 1;
    }
    assert(pixels@.take(k as int) =~= pixels@);
    Some(text)
}

/// A numeral holds decimal digits only, begins with a zero only when it
/// is `0` itself, and denotes the number it was made from.
pub proof fn lemma_decimal_round_trip(n: nat)
    ensures
        decimal(n).len() >= 1,
        forall|k: int| 0 <= k < decimal(n).len() ==> digit_value(#[trigger] decimal(n)[k]) < 10,
        decimal(n)[0] == '0' ==> n == 0,
        decimal_value(decimal(n)) == n,
    decreases n,
{
    if n < 10 {
        assert(decimal(n).drop_last() =~= Seq::<char>::empty());
        assert(decimal_value(decimal(n)) == decimal_value(Seq::<char>::empty()) * 10 + digit_value(
            digit_char(n),
        ));
    } else {
        lemma_decimal_round_trip(n / 10);
        let shorter = decimal(n / 10);
        assert(decimal(n).drop_last() =~= shorter);
        assert(decimal(n).last() == digit_char(n % 10));
        assert(decimal(n)[0] == shorter[0]);
        assert forall|k: int| 0 <= k < decimal(n).len() implies digit_value(
            #[trigger] decimal(n)[k],
        ) < 10 by {
            if k < shorter.len() {
                assert(decimal(n)[k] == shorter[k]);
            }
        }
    }
}

/// A channel level takes one to three digits.
pub proof fn lemma_level_width(level: u8)
    ensures
        1 <= decimal(level as nat).len() <= 3,
{
    reveal_with_fuel(decimal, 3);
}

} // verus!
