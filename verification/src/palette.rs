//! Colours as text, and the entries of a palette that shows each colour
//! beside its simulation.

use vstd::prelude::*;
use vstd::string::*;
use crate::color_parser::{
    Failure, color, hex_value, is_hex_digit, is_space, lemma_leading_hex_digits,
    lemma_leading_spaces, lemma_trailing_spaces, trimmed,
};
use crate::colorblind::{simulate_color_blindness, simulated, ColorBlindnessType};

verus! {

broadcast use vstd::string::group_string_axioms;

/// The digit for a number below sixteen, letters in upper case.
pub open spec fn digit_char(n: nat) -> char {
    if n < 10 {
        (n + 48) as char
    } else {
        (n + 55) as char
    }
}

/// A number in decimal digits, without leading zeros.
pub open spec fn decimal_text(n: nat) -> Seq<char>
    decreases n,
{
    if n < 10 {
        seq![digit_char(n)]
    } else {
        decimal_text(n / 10).push(digit_char(n % 10))
    }
}

/// A colour as `#RRGGBB`, two upper-case hexadecimal digits to a channel.
pub open spec fn hex_text(r: u8, g: u8, b: u8) -> Seq<char> {
    seq![
        '#',
        digit_char(r as nat / 16),
        digit_char(r as nat % 16),
        digit_char(g as nat / 16),
        digit_char(g as nat % 16),
        digit_char(b as nat / 16),
        digit_char(b as nat % 16),
    ]
}

/// A colour as `RGB(r, g, b) / #RRGGBB`.
pub open spec fn color_text(r: u8, g: u8, b: u8) -> Seq<char> {
    "RGB("@ + decimal_text(r as nat) + ", "@ + decimal_text(g as nat) + ", "@ + decimal_text(
        b as nat,
    ) + ") / "@ + hex_text(r, g, b)
}

/// A colour of a palette as it is shown: the colour as simulated, the text
/// of the colour itself, and the text of the simulated colour.
pub struct PaletteEntry {
    pub color: (u8, u8, u8),
    pub original_rgb: String,
    pub simulated_rgb: String,
}

/// Whether an entry is the one that shows `color` under the given kind of
/// vision. Under unimpaired vision the text of the simulated colour says
/// that nothing was simulated.
pub open spec fn shows_color(entry: PaletteEntry, color: (u8, u8, u8), kind: ColorBlindnessType)
    -> bool {
    let seen = simulated(color.0, color.1, color.2, kind);
    &&& entry.color == seen
    &&& entry.original_rgb@ == color_text(color.0, color.1, color.2)
    &&& entry.simulated_rgb@ == if kind is Normal {
        "No simulation applied"@
    } else {
        color_text(seen.0, seen.1, seen.2)
    }
}

/// The digit for a number below sixteen is a hexadecimal digit that stands
/// for that number, and no whitespace.
pub proof fn lemma_digit_char(n: nat)
    requires
        n < 16,
    ensures
        is_hex_digit(digit_char(n)),
        hex_value(digit_char(n)) == n,
        !is_space(digit_char(n)),
{
}

/// A colour written as `#RRGGBB` parses as that colour.
pub proof fn lemma_hex_text_parses(r: u8, g: u8, b: u8)
    ensures
        color(hex_text(r, g, b)) == Ok::<(u8, u8, u8), Failure>((r, g, b)),
{
    let text = hex_text(r, g, b);
    lemma_digit_char(r as nat / 16);
    lemma_digit_char(r as nat % 16);
    lemma_digit_char(g as nat / 16);
    lemma_digit_char(g as nat % 16);
    lemma_digit_char(b as nat / 16);
    lemma_digit_char(b as nat % 16);
    assert(trimmed(text) == text) by {
        lemma_leading_spaces(text, 0);
        assert(text.skip(0) =~= text);
        lemma_trailing_spaces(text, 0);
        assert(text.take(text.len() as int) =~= text);
    }
    let digits = text.drop_first();
    assert(vstd::utf8::encode_utf8(digits).len() == 6) by {
        assert(vstd::utf8::is_ascii_chars(digits));
        vstd::utf8::is_ascii_chars_encode_utf8(digits);
    }
    lemma_leading_hex_digits(digits, 6);
}

/// The digit for a number below sixteen, as a text.
fn digit_text(n: u8) -> (text: &'static str)
    requires
        n < 16,
    ensures
        text@ == seq![digit_char(n as nat)],
{
    proof {
        reveal_strlit("0");
        reveal_strlit("1");
        reveal_strlit("2");
        reveal_strlit("3");
        reveal_strlit("4");
        reveal_strlit("5");
        reveal_strlit("6");
        reveal_strlit("7");
        reveal_strlit("8");
        reveal_strlit("9");
        reveal_strlit("A");
        reveal_strlit("B");
        reveal_strlit("C");
        reveal_strlit("D");
        reveal_strlit("E");
        reveal_strlit("F");
    }
    let text = match n {
        0 => "0",
        1 => "1",
        2 => "2",
        3 => "3",
        4 => "4",
        5 => "5",
        6 => "6",
        7 => "7",
        8 => "8",
        9 => "9",
        10 => "A",
        11 => "B",
        12 => "C",
        13 => "D",
        14 => "E",
        _ => "F",
    };
    assert(text@ =~= seq![digit_char(n as nat)]);
    text
}

/// Writes a channel in decimal digits at the end of a text.
fn append_decimal(text: &mut String, n: u8)
    ensures
        final(text)@ == old(text)@ + decimal_text(n as nat),
{
    let ghost before = text@;
    if n >= 100 {
        text.append(digit_text(n / 100));
    }
    if n >= 10 {
        text.append(digit_text(n / 10 % 10));
    }
    text.append(digit_text(n % 10));
    proof {
        reveal_with_fuel(decimal_text, 3);
        assert(text@ =~= before + decimal_text(n as nat));
    }
}

/// Writes a colour as `#RRGGBB` at the end of a text.
fn append_hex(text: &mut String, r: u8, g: u8, b: u8)
    ensures
        final(text)@ == old(text)@ + hex_text(r, g, b),
{
    let ghost before = text@;
    proof {
        reveal_strlit("#");
    }
    text.append("#");
    text.append(digit_text(r / 16));
    text.append(digit_text(r % 16));
    text.append(digit_text(g / 16));
    text.append(digit_text(g % 16));
    text.append(digit_text(b / 16));
    text.append(digit_text(b % 16));
    proof {
        assert(text@ =~= before + hex_text(r, g, b));
    }
}

/// Writes a colour as `#RRGGBB`.
pub fn hex_code(r: u8, g: u8, b: u8) -> (text: String)
    ensures
        text@ == hex_text(r, g, b),
{
    let mut text = String::new();
    append_hex(&mut text, r, g, b);
    proof {
        assert(text@ =~= hex_text(r, g, b));
    }
    text
}

/// Writes a colour as `RGB(r, g, b) / #RRGGBB`.
pub fn describe_color(r: u8, g: u8, b: u8) -> (text: String)
    ensures
        text@ == color_text(r, g, b),
{
    let mut text = String::from_str("RGB(");
    append_decimal(&mut text, r);
    text.append(", ");
    append_decimal(&mut text, g);
    text.append(", ");
    append_decimal(&mut text, b);
    text.append(") / ");
    append_hex(&mut text, r, g, b);
    proof {
        assert(text@ =~= color_text(r, g, b));
    }
    text
}

/// Makes the palette entry of one colour under the given kind of vision.
pub fn palette_entry(r: u8, g: u8, b: u8, cb_type: ColorBlindnessType) -> (entry: PaletteEntry)
    ensures
        shows_color(entry, (r, g, b), cb_type),
{
    let (sim_r, sim_g, sim_b) = simulate_color_blindness(r, g, b, cb_type);
    let simulated_rgb = match cb_type {
        ColorBlindnessType::Normal => String::from_str("No simulation applied"),
        _ => describe_color(sim_r, sim_g, sim_b),
    };
    PaletteEntry { color: (sim_r, sim_g, sim_b), original_rgb: describe_color(r, g, b), simulated_rgb }
}

/// Makes the palette entries of a run of colours, in their order.
pub fn color_palette(colors: &[(u8, u8, u8)], cb_type: ColorBlindnessType) -> (entries: Vec<
    PaletteEntry,
>)
    ensures
        entries@.len() == colors@.len(),
        forall|i: int|
            0 <= i < colors@.len() ==> shows_color(#[trigger] entries@[i], colors@[i], cb_type),
{
    let mut entries: Vec<PaletteEntry> = Vec::new();
    let mut i: usize = 0;
    while i < colors.len()
        invariant
            i <= colors@.len(),
            entries@.len() == i,
            forall|j: int| 0 <= j < i ==> shows_color(#[trigger] entries@[j], colors@[j], cb_type),
        decreases colors@.len() - i,
    {
        let (r, g, b) = colors[i];
        entries.push(palette_entry(r, g, b, cb_type));
        i = i + 1;
    }
    entries
}

} // verus!
