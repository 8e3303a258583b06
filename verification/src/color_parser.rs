//! Parsing of colour notations: `#RRGGBB`, `RRGGBB`, `R,G,B` and
//! `R,G,B,L`.
//!
//! Every function here is specified over the characters of its input: the
//! `spec` functions say what a text means, and the executable functions
//! return exactly that.

use vstd::prelude::*;
use vstd::std_specs::iter::IteratorSpec;
use vstd::string::*;
use vstd::utf8::encode_utf8;

verus! {

broadcast use vstd::string::group_string_axioms;

/// One of the three colour channels.
#[derive(Debug, Clone, Copy, PartialEq, Eq, Structural)]
pub enum Channel {
    Red,
    Green,
    Blue,
}

/// Why a text is not a colour.
#[derive(Debug, PartialEq, Eq)]
pub enum ColorParseError {
    /// Nothing but whitespace.
    EmptyInput,
    /// What follows `#` is not six bytes long.
    HexLength,
    /// The two digits of this channel are not both hexadecimal digits.
    HexDigit(Channel),
    /// Not exactly three fields where three are asked for.
    RgbFieldCount,
    /// Not exactly four fields where four are asked for.
    RgblFieldCount,
    /// The field of this channel, given with its text, is not a whole
    /// number from 0 to 255.
    ChannelValue(Channel, String),
    /// None of the notations.
    InvalidFormat,
}

/// `ColorParseError` over the characters of the text that it holds.
pub enum Failure {
    EmptyInput,
    HexLength,
    HexDigit(Channel),
    RgbFieldCount,
    RgblFieldCount,
    ChannelValue(Channel, Seq<char>),
    InvalidFormat,
}

impl View for ColorParseError {
    type V = Failure;

    open spec fn view(&self) -> Failure {
        match self {
            ColorParseError::EmptyInput => Failure::EmptyInput,
            ColorParseError::HexLength => Failure::HexLength,
            ColorParseError::HexDigit(channel) => Failure::HexDigit(*channel),
            ColorParseError::RgbFieldCount => Failure::RgbFieldCount,
            ColorParseError::RgblFieldCount => Failure::RgblFieldCount,
            ColorParseError::ChannelValue(channel, text) => Failure::ChannelValue(*channel, text@),
            ColorParseError::InvalidFormat => Failure::InvalidFormat,
        }
    }
}

impl Channel {
    /// The channel's name in lower case.
    pub open spec fn name(self) -> Seq<char> {
        match self {
            Channel::Red => "red"@,
            Channel::Green => "green"@,
            Channel::Blue => "blue"@,
        }
    }

    /// The channel's name in lower case.
    pub fn name_text(self) -> (text: &'static str)
        ensures
            text@ == self.name(),
    {
        match self {
            Channel::Red => "red",
            Channel::Green => "green",
            Channel::Blue => "blue",
        }
    }
}

impl Failure {
    /// The reason in words.
    pub open spec fn message(self) -> Seq<char> {
        match self {
            Failure::EmptyInput => "Empty input"@,
            Failure::HexLength => "HEX color must be 6 characters (e.g., #FF0000)"@,
            Failure::HexDigit(channel) => "Invalid HEX value for "@ + channel.name() + " channel"@,
            Failure::RgbFieldCount => "RGB format requires exactly 3 values"@,
            Failure::RgblFieldCount => "RGBL format requires exactly 4 values"@,
            Failure::ChannelValue(channel, text) => "Invalid "@ + channel.name()
                + " channel value: '"@ + text + "'. Must be 0-255"@,
            Failure::InvalidFormat =>
                "Invalid color format. Use HEX (#FF0000), RGB (255,0,0), or RGBL format"@,
        }
    }
}

impl ColorParseError {
    /// The reason in words.
    pub fn message(&self) -> (text: String)
        ensures
            text@ == self@.message(),
    {
        match self {
            ColorParseError::EmptyInput => String::from_str("Empty input"),
            ColorParseError::HexLength => String::from_str(
                "HEX color must be 6 characters (e.g., #FF0000)",
            ),
            ColorParseError::HexDigit(channel) => {
                let mut text = String::from_str("Invalid HEX value for ");
                text.append(channel.name_text());
                text.append(" channel");
                text
            },
            ColorParseError::RgbFieldCount => String::from_str(
                "RGB format requires exactly 3 values",
            ),
            ColorParseError::RgblFieldCount => String::from_str(
                "RGBL format requires exactly 4 values",
            ),
            ColorParseError::ChannelValue(channel, value) => {
                let mut text = String::from_str("Invalid ");
                text.append(channel.name_text());
                text.append(" channel value: '");
                text.append(value.as_str());
                text.append("'. Must be 0-255");
                text
            },
            ColorParseError::InvalidFormat => String::from_str(
                "Invalid color format. Use HEX (#FF0000), RGB (255,0,0), or RGBL format",
            ),
        }
    }
}

/// The result of parsing a colour, with a failure taken by its view.
pub open spec fn outcome(out: Result<(u8, u8, u8), ColorParseError>) -> Result<
    (u8, u8, u8),
    Failure,
> {
    match out {
        Ok(color) => Ok(color),
        Err(error) => Err(error@),
    }
}

/// The result of parsing one channel, with a failure taken by its view.
pub open spec fn channel_outcome(out: Result<u8, ColorParseError>) -> Result<u8, Failure> {
    match out {
        Ok(value) => Ok(value),
        Err(error) => Err(error@),
    }
}

/// Whether a character is whitespace: the code points with the Unicode
/// property `White_Space`.
pub open spec fn is_space(c: char) -> bool {
    let n = c as u32;
    ||| 0x09 <= n <= 0x0D
    ||| n == 0x20
    ||| n == 0x85
    ||| n == 0xA0
    ||| n == 0x1680
    ||| 0x2000 <= n <= 0x200A
    ||| n == 0x2028
    ||| n == 0x2029
    ||| n == 0x202F
    ||| n == 0x205F
    ||| n == 0x3000
}

/// Whether a character is one of `0` to `9`.
pub open spec fn is_digit(c: char) -> bool {
    '0' <= c <= '9'
}

/// The number that a decimal digit stands for.
pub open spec fn digit_value(c: char) -> nat {
    (c as u32 - '0' as u32) as nat
}

/// Whether a character is a hexadecimal digit, in either case.
pub open spec fn is_hex_digit(c: char) -> bool {
    '0' <= c <= '9' || 'a' <= c <= 'f' || 'A' <= c <= 'F'
}

/// The number that a hexadecimal digit stands for.
pub open spec fn hex_value(c: char) -> nat {
    if '0' <= c <= '9' {
        (c as u32 - '0' as u32) as nat
    } else if 'a' <= c <= 'f' {
        (c as u32 - 'a' as u32 + 10) as nat
    } else {
        (c as u32 - 'A' as u32 + 10) as nat
    }
}

/// How many whitespace characters a text begins with.
pub open spec fn leading_spaces(s: Seq<char>) -> nat
    decreases s.len(),
{
    if s.len() > 0 && is_space(s[0]) {
        1 + leading_spaces(s.drop_first())
    } else {
        0
    }
}

/// How many whitespace characters a text ends with.
pub open spec fn trailing_spaces(s: Seq<char>) -> nat
    decreases s.len(),
{
    if s.len() > 0 && is_space(s.last()) {
        1 + trailing_spaces(s.drop_last())
    } else {
        0
    }
}

/// How many hexadecimal digits a text begins with.
pub open spec fn leading_hex_digits(s: Seq<char>) -> nat
    decreases s.len(),
{
    if s.len() > 0 && is_hex_digit(s[0]) {
        1 + leading_hex_digits(s.drop_first())
    } else {
        0
    }
}

/// A text without the whitespace at its beginning and at its end.
pub open spec fn trimmed(s: Seq<char>) -> Seq<char> {
    let rest = s.skip(leading_spaces(s) as int);
    rest.take(rest.len() - trailing_spaces(rest))
}

/// The number that a run of decimal digits stands for.
pub open spec fn decimal_value(digits: Seq<char>) -> nat
    decreases digits.len(),
{
    if digits.len() == 0 {
        0
    } else {
        10 * decimal_value(digits.drop_last()) + digit_value(digits.last())
    }
}

/// Whether a text consists of decimal digits only.
pub open spec fn all_digits(s: Seq<char>) -> bool {
    forall|i: int| 0 <= i < s.len() ==> is_digit(#[trigger] s[i])
}

/// The number from 0 to 255 that a text denotes: decimal digits, at least
/// one, any number of leading zeros, with or without a `+` before them.
pub open spec fn byte_value(s: Seq<char>) -> Option<u8> {
    let digits = if s.len() > 0 && s[0] == '+' {
        s.drop_first()
    } else {
        s
    };
    if digits.len() > 0 && all_digits(digits) && decimal_value(digits) <= 255 {
        Some(decimal_value(digits) as u8)
    } else {
        None
    }
}

/// The value of one field of a decimal notation: the number that the
/// field denotes once trimmed, or else a failure that names the channel and
/// holds the trimmed field.
pub open spec fn channel(field: Seq<char>, which: Channel) -> Result<u8, Failure> {
    match byte_value(trimmed(field)) {
        Some(value) => Ok(value),
        None => Err(Failure::ChannelValue(which, trimmed(field))),
    }
}

/// The channel that the hexadecimal digit at place `i` belongs to.
pub open spec fn channel_of_digit(i: int) -> Channel {
    if i < 2 {
        Channel::Red
    } else if i < 4 {
        Channel::Green
    } else {
        Channel::Blue
    }
}

/// The number that two hexadecimal digits stand for.
pub open spec fn hex_pair(high: char, low: char) -> u8 {
    (16 * hex_value(high) + hex_value(low)) as u8
}

/// The colour that a hexadecimal notation denotes, with or without one `#`
/// before it. What follows the `#` must take six bytes in UTF-8 and be six
/// hexadecimal digits; the first character that is none decides which
/// channel the failure names.
pub open spec fn hex_color(s: Seq<char>) -> Result<(u8, u8, u8), Failure> {
    let digits = if s.len() > 0 && s[0] == '#' {
        s.drop_first()
    } else {
        s
    };
    if encode_utf8(digits).len() != 6 {
        Err(Failure::HexLength)
    } else if leading_hex_digits(digits) < digits.len() {
        Err(Failure::HexDigit(channel_of_digit(leading_hex_digits(digits) as int)))
    } else {
        Ok(
            (
                hex_pair(digits[0], digits[1]),
                hex_pair(digits[2], digits[3]),
                hex_pair(digits[4], digits[5]),
            ),
        )
    }
}

/// Whether a text consists of hexadecimal digits only.
pub open spec fn all_hex_digits(s: Seq<char>) -> bool {
    forall|i: int| 0 <= i < s.len() ==> is_hex_digit(#[trigger] s[i])
}

/// The fields of a text that commas separate: read from the left, a comma
/// begins a new field and any other character joins the last one. There is
/// always at least one field, and a field may be empty.
pub open spec fn fields(s: Seq<char>) -> Seq<Seq<char>>
    decreases s.len(),
{
    if s.len() == 0 {
        seq![Seq::<char>::empty()]
    } else {
        let before = fields(s.drop_last());
        if s.last() == ',' {
            before.push(Seq::<char>::empty())
        } else {
            before.update(before.len() - 1, before.last().push(s.last()))
        }
    }
}

/// The fields of a text, each one trimmed.
pub open spec fn trimmed_fields(s: Seq<char>) -> Seq<Seq<char>> {
    Seq::new(fields(s).len(), |i: int| trimmed(fields(s)[i]))
}

/// The characters of each of a run of texts.
pub open spec fn texts(parts: Seq<&str>) -> Seq<Seq<char>> {
    Seq::new(parts.len(), |i: int| parts[i]@)
}

/// The colour that the first three of a run of fields denote: red, green
/// and blue in this order, the failure being that of the first field that
/// is no number from 0 to 255.
pub open spec fn leading_channels(parts: Seq<Seq<char>>) -> Result<(u8, u8, u8), Failure> {
    match channel(parts[0], Channel::Red) {
        Err(failure) => Err(failure),
        Ok(r) => match channel(parts[1], Channel::Green) {
            Err(failure) => Err(failure),
            Ok(g) => match channel(parts[2], Channel::Blue) {
                Err(failure) => Err(failure),
                Ok(b) => Ok((r, g, b)),
            },
        },
    }
}

/// The colour that exactly three decimal fields denote.
pub open spec fn rgb_color(parts: Seq<Seq<char>>) -> Result<(u8, u8, u8), Failure> {
    if parts.len() != 3 {
        Err(Failure::RgbFieldCount)
    } else {
        leading_channels(parts)
    }
}

/// The colour that exactly four decimal fields denote: that of the first
/// three, whatever the fourth holds.
pub open spec fn rgbl_color(parts: Seq<Seq<char>>) -> Result<(u8, u8, u8), Failure> {
    if parts.len() != 4 {
        Err(Failure::RgblFieldCount)
    } else {
        leading_channels(parts)
    }
}

/// The colour that a text denotes. The text is trimmed; then the first of
/// these that applies decides: nothing is left; it begins with `#`; commas
/// part it into three fields; into four; it is six hexadecimal digits.
pub open spec fn color(s: Seq<char>) -> Result<(u8, u8, u8), Failure> {
    let text = trimmed(s);
    if text.len() == 0 {
        Err(Failure::EmptyInput)
    } else if text[0] == '#' {
        hex_color(text)
    } else if fields(text).len() == 3 {
        rgb_color(trimmed_fields(text))
    } else if fields(text).len() == 4 {
        rgbl_color(trimmed_fields(text))
    } else if text.len() == 6 && all_hex_digits(text) {
        hex_color(seq!['#'] + text)
    } else {
        Err(Failure::InvalidFormat)
    }
}

/// A text has at least one field.
pub proof fn lemma_fields_nonempty(s: Seq<char>)
    ensures
        fields(s).len() >= 1,
    decreases s.len(),
{
    if s.len() > 0 {
        lemma_fields_nonempty(s.drop_last());
    }
}

/// The first `n` characters of a text are whitespace and the next one, if
/// there is one, is not: then `n` is the number of leading spaces.
pub proof fn lemma_leading_spaces(s: Seq<char>, n: int)
    requires
        0 <= n <= s.len(),
        forall|k: int| 0 <= k < n ==> is_space(#[trigger] s[k]),
        n < s.len() ==> !is_space(s[n]),
    ensures
        leading_spaces(s) == n,
    decreases n,
{
    if n > 0 {
        lemma_leading_spaces(s.drop_first(), n - 1);
    }
}

/// The last `n` characters of a text are whitespace and the one before
/// them, if there is one, is not: then `n` is the number of trailing spaces.
pub proof fn lemma_trailing_spaces(s: Seq<char>, n: int)
    requires
        0 <= n <= s.len(),
        forall|k: int| s.len() - n <= k < s.len() ==> is_space(#[trigger] s[k]),
        n < s.len() ==> !is_space(s[s.len() - n - 1]),
    ensures
        trailing_spaces(s) == n,
    decreases n,
{
    if n > 0 {
        lemma_trailing_spaces(s.drop_last(), n - 1);
    }
}

/// The first `n` characters of a text are hexadecimal digits and the next
/// one, if there is one, is not: then `n` is the number of leading digits.
pub proof fn lemma_leading_hex_digits(s: Seq<char>, n: int)
    requires
        0 <= n <= s.len(),
        forall|k: int| 0 <= k < n ==> is_hex_digit(#[trigger] s[k]),
        n < s.len() ==> !is_hex_digit(s[n]),
    ensures
        leading_hex_digits(s) == n,
    decreases n,
{
    if n > 0 {
        lemma_leading_hex_digits(s.drop_first(), n - 1);
    }
}

/// The characters of a text, in order.
pub(crate) fn chars_of(s: &str) -> (chars: Vec<char>)
    ensures
        chars@ == s@,
{
    let mut chars: Vec<char> = Vec::new();
    let mut rest = s.chars();
    loop
        invariant
            chars@ + rest.remaining() == s@,
            rest.decrease() is Some,
        ensures
            chars@ == s@,
        decreases rest.decrease()->0,
    {
        let ghost before = rest.remaining();
        let ghost read = chars@;
        match rest.next() {
            Some(c) => {
                chars.push(c);
                assert(chars@ + rest.remaining() =~= read + before) by {
                    assert(before =~= seq![c] + before.drop_first());
                }
            },
            None => {
                assert(chars@ + before =~= chars@);
                break ;
            },
        }
    }
    chars
}

/// Whether two texts hold the same characters.
pub(crate) fn same_text(a: &str, b: &str) -> (same: bool)
    ensures
        same == (a@ == b@),
{
    let left = chars_of(a);
    let right = chars_of(b);
    if left.len() != right.len() {
        return false;
    }
    let mut i: usize = 0;
    while i < left.len()
        invariant
            i <= left.len(),
            left.len() == right.len(),
            left@ == a@,
            right@ == b@,
            forall|j: int| 0 <= j < i ==> left@[j] == right@[j],
        decreases left.len() - i,
    {
        if left[i] != right[i] {
            return false;
        }
        i = i + 1;
    }
    proof {
        assert(left@ =~= right@);
    }
    true
}

/// Whether a character is whitespace.
fn is_space_char(c: char) -> (yes: bool)
    ensures
        yes == is_space(c),
{
    let n: u32 = c as u32;
    (0x09 <= n && n <= 0x0D) || n == 0x20 || n == 0x85 || n == 0xA0 || n == 0x1680 || (0x2000 <= n
        && n <= 0x200A) || n == 0x2028 || n == 0x2029 || n == 0x202F || n == 0x205F || n == 0x3000
}

/// Whether a character is a hexadecimal digit.
fn is_hex_digit_char(c: char) -> (yes: bool)
    ensures
        yes == is_hex_digit(c),
{
    ('0' <= c && c <= '9') || ('a' <= c && c <= 'f') || ('A' <= c && c <= 'F')
}

/// The number that a hexadecimal digit stands for.
fn hex_value_of(c: char) -> (value: u8)
    requires
        is_hex_digit(c),
    ensures
        value == hex_value(c),
        value < 16,
{
    if '0' <= c && c <= '9' {
        (c as u32 - '0' as u32) as u8
    } else if 'a' <= c && c <= 'f' {
        (c as u32 - 'a' as u32 + 10) as u8
    } else {
        (c as u32 - 'A' as u32 + 10) as u8
    }
}

/// Cuts the whitespace off both ends of a text.
fn trim(s: &str) -> (t: &str)
    ensures
        t@ == trimmed(s@),
{
    let chars = chars_of(s);
    let mut start: usize = 0;
    while start < chars.len() && is_space_char(chars[start])
        invariant
            start <= chars.len(),
            forall|k: int| 0 <= k < start ==> is_space(#[trigger] chars@[k]),
        decreases chars.len() - start,
    {
        start = start + 1;
    }
    let mut end: usize = chars.len();
    while end > start && is_space_char(chars[end - 1])
        invariant
            start <= end <= chars.len(),
            forall|k: int| end <= k < chars.len() ==> is_space(#[trigger] chars@[k]),
        decreases end,
    {
        end = end - 1;
    }
    proof {
        lemma_leading_spaces(s@, start as int);
        let rest = s@.skip(start as int);
        assert forall|k: int| rest.len() - (chars.len() - end) <= k < rest.len() implies is_space(
            #[trigger] rest[k],
        ) by {
            assert(rest[k] == chars@[k + start]);
        }
        lemma_trailing_spaces(rest, chars.len() - end);
        assert(rest.take(rest.len() - (chars.len() - end)) =~= s@.subrange(
            start as int,
            end as int,
        ));
    }
    s.substring_char(start, end)
}

/// Reads a whole number from 0 to 255.
fn byte_value_of(chars: &Vec<char>) -> (value: Option<u8>)
    ensures
        value == byte_value(chars@),
{
    let first: usize = if chars.len() > 0 && chars[0] == '+' {
        1
    } else {
        0
    };
    let ghost digits = chars@.skip(first as int);
    proof {
        assert(digits =~= if first == 1 {
            chars@.drop_first()
        } else {
            chars@
        });
    }
    if first == chars.len() {
        return None;
    }
    let mut total: u32 = 0;
    let mut i: usize = first;
    while i < chars.len()
        invariant
            first <= i <= chars.len(),
            digits == chars@.skip(first as int),
            digits == if chars@.len() > 0 && chars@[0] == '+' {
                chars@.drop_first()
            } else {
                chars@
            },
            forall|k: int| 0 <= k < i - first ==> is_digit(#[trigger] digits[k]),
            total <= 256,
            total == if decimal_value(digits.take(i - first)) > 255 {
                256
            } else {
                decimal_value(digits.take(i - first))
            },
        decreases chars.len() - i,
    {
        let c = chars[i];
        if !('0' <= c && c <= '9') {
            proof {
                assert(!is_digit(digits[i - first]));
            }
            return None;
        }
        proof {
            let longer = digits.take(i - first + 1);
            assert(longer.drop_last() =~= digits.take(i - first));
            assert(longer.last() == c);
        }
        let digit: u32 = c as u32 - '0' as u32;
        total = total * 10 + digit;
        if total > 255 {
            total = 256;
        }
        i = i + 1;
    }
    proof {
        assert(digits.take(chars.len() - first) =~= digits);
    }
    if total > 255 {
        None
    } else {
        Some(total as u8)
    }
}

/// The channel that the hexadecimal digit at place `i` belongs to.
fn channel_for(i: usize) -> (which: Channel)
    ensures
        which == channel_of_digit(i as int),
{
    if i < 2 {
        Channel::Red
    } else if i < 4 {
        Channel::Green
    } else {
        Channel::Blue
    }
}

/// Reads two hexadecimal digits.
fn hex_pair_of(high: char, low: char) -> (value: u8)
    requires
        is_hex_digit(high),
        is_hex_digit(low),
    ensures
        value == hex_pair(high, low),
{
    hex_value_of(high) * 16 + hex_value_of(low)
}

/// Where each field of a text begins and ends.
fn field_bounds(chars: &Vec<char>) -> (bounds: Vec<(usize, usize)>)
    ensures
        bounds@.len() == fields(chars@).len(),
        forall|j: int|
            0 <= j < bounds@.len() ==> (#[trigger] bounds@[j]).0 <= bounds@[j].1 <= chars@.len()
                && fields(chars@)[j] == chars@.subrange(bounds@[j].0 as int, bounds@[j].1 as int),
{
    let mut bounds: Vec<(usize, usize)> = Vec::new();
    let mut start: usize = 0;
    let mut i: usize = 0;
    while i < chars.len()
        invariant
            start <= i <= chars.len(),
            fields(chars@.take(i as int)).len() == bounds@.len() + 1,
            fields(chars@.take(i as int)).last() == chars@.subrange(start as int, i as int),
            forall|j: int|
                0 <= j < bounds@.len() ==> (#[trigger] bounds@[j]).0 <= bounds@[j].1 <= chars@.len()
                    && fields(chars@.take(i as int))[j] == chars@.subrange(
                    bounds@[j].0 as int,
                    bounds@[j].1 as int,
                ),
        decreases chars.len() - i,
    {
        proof {
            let longer = chars@.take(i + 1);
            assert(longer.drop_last() =~= chars@.take(i as int));
            assert(longer.last() == chars@[i as int]);
            assert(chars@.subrange(start as int, i as int).push(chars@[i as int]) =~= chars@.subrange(
                start as int,
                i + 1,
            ));
            assert(chars@.subrange(i + 1, i + 1) =~= Seq::<char>::empty());
        }
        if chars[i] == ',' {
            bounds.push((start, i));
            start = i + 1;
        }
        i = i + 1;
    }
    proof {
        assert(chars@.take(chars@.len() as int) =~= chars@);
    }
    bounds.push((start, i));
    bounds
}

/// Reads one field of a decimal notation as the value of a channel.
pub fn parse_channel(value: &str, which: Channel) -> (out: Result<u8, ColorParseError>)
    ensures
        channel_outcome(out) == channel(value@, which),
{
    let text = trim(value);
    let chars = chars_of(text);
    match byte_value_of(&chars) {
        Some(number) => Ok(number),
        None => Err(ColorParseError::ChannelValue(which, String::from_str(text))),
    }
}

/// Reads the first three of at least three fields as red, green and blue.
fn parse_leading_channels(parts: &[&str]) -> (out: Result<(u8, u8, u8), ColorParseError>)
    requires
        parts@.len() >= 3,
    ensures
        outcome(out) == leading_channels(texts(parts@)),
{
    let r = match parse_channel(parts[0], Channel::Red) {
        Ok(value) => value,
        Err(error) => {
            return Err(error);
        },
    };
    let g = match parse_channel(parts[1], Channel::Green) {
        Ok(value) => value,
        Err(error) => {
            return Err(error);
        },
    };
    let b = match parse_channel(parts[2], Channel::Blue) {
        Ok(value) => value,
        Err(error) => {
            return Err(error);
        },
    };
    Ok((r, g, b))
}

/// Reads three decimal fields as a colour.
pub fn parse_rgb(parts: &[&str]) -> (out: Result<(u8, u8, u8), ColorParseError>)
    ensures
        outcome(out) == rgb_color(texts(parts@)),
{
    if parts.len() != 3 {
        return Err(ColorParseError::RgbFieldCount);
    }
    parse_leading_channels(parts)
}

/// Reads four decimal fields as a colour; the fourth, a luminance, is not
/// looked at.
pub fn parse_rgbl(parts: &[&str]) -> (out: Result<(u8, u8, u8), ColorParseError>)
    ensures
        outcome(out) == rgbl_color(texts(parts@)),
{
    if parts.len() != 4 {
        return Err(ColorParseError::RgblFieldCount);
    }
    parse_leading_channels(parts)
}

/// Reads a hexadecimal notation, with or without one `#` before it.
pub fn parse_hex(hex: &str) -> (out: Result<(u8, u8, u8), ColorParseError>)
    ensures
        outcome(out) == hex_color(hex@),
{
    let chars = chars_of(hex);
    let n: usize = chars.len();
    let skip: usize = if n > 0 && chars[0] == '#' {
        1
    } else {
        0
    };
    let digits = hex.substring_char(skip, n);
    proof {
        assert(digits@ =~= if skip == 1 {
            hex@.drop_first()
        } else {
            hex@
        });
    }
    if digits.as_bytes().len() != 6 {
        return Err(ColorParseError::HexLength);
    }
    let mut k: usize = skip;
    while k < n
        invariant
            skip <= k <= n,
            n == chars@.len(),
            chars@ == hex@,
            digits@ == chars@.subrange(skip as int, n as int),
            digits@ == if hex@.len() > 0 && hex@[0] == '#' {
                hex@.drop_first()
            } else {
                hex@
            },
            encode_utf8(digits@).len() == 6,
            forall|j: int| 0 <= j < k - skip ==> is_hex_digit(#[trigger] digits@[j]),
        decreases n - k,
    {
        if !is_hex_digit_char(chars[k]) {
            proof {
                lemma_leading_hex_digits(digits@, k - skip);
            }
            return Err(ColorParseError::HexDigit(channel_for(k - skip)));
        }
        k = k + 1;
    }
    proof {
        lemma_leading_hex_digits(digits@, n - skip);
        vstd::utf8::is_ascii_chars_encode_utf8(digits@);
    }
    Ok(
        (
            hex_pair_of(chars[skip], chars[skip + 1]),
            hex_pair_of(chars[skip + 2], chars[skip + 3]),
            hex_pair_of(chars[skip + 4], chars[skip + 5]),
        ),
    )
}

/// Whether every character is a hexadecimal digit.
fn all_hex_digit_chars(chars: &Vec<char>) -> (yes: bool)
    ensures
        yes == all_hex_digits(chars@),
{
    let mut i: usize = 0;
    while i < chars.len()
        invariant
            i <= chars.len(),
            forall|j: int| 0 <= j < i ==> is_hex_digit(#[trigger] chars@[j]),
        decreases chars.len() - i,
    {
        if !is_hex_digit_char(chars[i]) {
            return false;
        }
        i = i + 1;
    }
    true
}

/// Reads a colour in any of the notations `#RRGGBB`, `R,G,B`, `R,G,B,L`
/// and `RRGGBB`, with whitespace allowed around the text and around each
/// decimal field.
pub fn parse_color(input: &str) -> (out: Result<(u8, u8, u8), ColorParseError>)
    ensures
        outcome(out) == color(input@),
{
    let text = trim(input);
    let chars = chars_of(text);
    if chars.len() == 0 {
        return Err(ColorParseError::EmptyInput);
    }
    if chars[0] == '#' {
        return parse_hex(text);
    }
    let bounds = field_bounds(&chars);
    if bounds.len() == 3 || bounds.len() == 4 {
        let mut parts: Vec<&str> = Vec::new();
        let mut j: usize = 0;
        while j < bounds.len()
            invariant
                j <= bounds@.len(),
                parts@.len() == j,
                chars@ == text@,
                bounds@.len() == fields(chars@).len(),
                forall|m: int|
                    0 <= m < bounds@.len() ==> (#[trigger] bounds@[m]).0 <= bounds@[m].1
                        <= chars@.len() && fields(chars@)[m] == chars@.subrange(
                        bounds@[m].0 as int,
                        bounds@[m].1 as int,
                    ),
                forall|m: int| 0 <= m < j ==> (#[trigger] parts@[m])@ == trimmed(fields(chars@)[m]),
            decreases bounds@.len() - j,
        {
            let (from, to) = bounds[j];
            parts.push(trim(text.substring_char(from, to)));
            j = j + 1;
        }
        proof {
            assert(texts(parts@) =~= trimmed_fields(text@));
        }
        if parts.len() == 3 {
            return parse_rgb(parts.as_slice());
        } else {
            return parse_rgbl(parts.as_slice());
        }
    }
    if chars.len() == 6 && all_hex_digit_chars(&chars) {
        proof {
            reveal_strlit("#");
            assert("#"@ =~= seq!['#']);
        }
        let marked = String::from_str("#").concat(text);
        return parse_hex(marked.as_str());
    }
    Err(ColorParseError::InvalidFormat)
}

} // verus!
