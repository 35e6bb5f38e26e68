//! The saved lighting settings.

use vstd::prelude::*;

use crate::colour::Rgb;
use crate::text::chars_of;

verus! {

/// The value of the hexadecimal digit `c`, if it is one (either case).
pub open spec fn hex_digit(c: char) -> Option<u8> {
    if '0' <= c <= '9' {
        Some((c as u32 - '0' as u32) as u8)
    } else if 'a' <= c <= 'f' {
        Some((c as u32 - 'a' as u32 + 10) as u8)
    } else if 'A' <= c <= 'F' {
        Some((c as u32 - 'A' as u32 + 10) as u8)
    } else {
        None
    }
}

/// The byte that the two hexadecimal digits `high`, `low` stand for.
pub open spec fn hex_byte(high: char, low: char) -> u8 {
    (hex_digit(high)->0 * 16 + hex_digit(low)->0) as u8
}

/// The colour that the text `text` names: six hexadecimal digits, red first.
pub open spec fn colour_of(text: Seq<char>) -> Option<Rgb> {
    if text.len() == 6 && forall|i: int| 0 <= i < 6 ==> #[trigger] hex_digit(text[i]) is Some {
        Some(
            Rgb {
                red: hex_byte(text[0], text[1]),
                green: hex_byte(text[2], text[3]),
                blue: hex_byte(text[4], text[5]),
            },
        )
    } else {
        None
    }
}

/// The black colour: no light on any channel.
pub open spec fn black() -> Rgb {
    Rgb { red: 0, green: 0, blue: 0 }
}

/// The colour that settings with colour text `text` show: the colour the text names,
/// or black where it is not six hexadecimal digits.
pub open spec fn settings_colour(text: Seq<char>) -> Rgb {
    match colour_of(text) {
        Some(rgb) => rgb,
        None => black(),
    }
}

/// A colour text names a colour exactly when it is six characters, each a digit,
/// `a` to `f` or `A` to `F`.
pub proof fn law_colour_text_is_six_hex_digits(text: Seq<char>)
    ensures
        colour_of(text) is Some <==> text.len() == 6 && forall|i: int|
            0 <= i < 6 ==> {
                let c = #[trigger] text[i];
                ('0' <= c && c <= '9') || ('a' <= c && c <= 'f') || ('A' <= c && c <= 'F')
            },
{
}

/// The six digits of a colour text give its red, green and blue bytes, high digit
/// first, each digit standing for its place in `0123456789abcdef`, in either case.
pub proof fn law_colour_digits(text: Seq<char>, d: Seq<int>)
    requires
        text.len() == 6,
        d.len() == 6,
        forall|i: int|
            0 <= i < 6 ==> 0 <= #[trigger] d[i] < 16 && (text[i] == seq![
                '0', '1', '2', '3', '4', '5', '6', '7', '8', '9', 'a', 'b', 'c', 'd', 'e', 'f',
            ][d[i]] || text[i] == seq![
                '0', '1', '2', '3', '4', '5', '6', '7', '8', '9', 'A', 'B', 'C', 'D', 'E', 'F',
            ][d[i]]),
    ensures
        colour_of(text) == Some(
            Rgb {
                red: (16 * d[0] + d[1]) as u8,
                green: (16 * d[2] + d[3]) as u8,
                blue: (16 * d[4] + d[5]) as u8,
            },
        ),
{
    assert forall|i: int| 0 <= i < 6 implies #[trigger] hex_digit(text[i]) == Some(d[i] as u8) by {
        lemma_hex_digit_table(d[i], text[i]);
    }
}

proof fn lemma_hex_digit_table(k: int, c: char)
    requires
        0 <= k < 16,
        c == seq!['0', '1', '2', '3', '4', '5', '6', '7', '8', '9', 'a', 'b', 'c', 'd', 'e', 'f'][k]
            || c == seq![
            '0', '1', '2', '3', '4', '5', '6', '7', '8', '9', 'A', 'B', 'C', 'D', 'E', 'F',
        ][k],
    ensures
        hex_digit(c) == Some(k as u8),
{
    let lower = seq!['0', '1', '2', '3', '4', '5', '6', '7', '8', '9', 'a', 'b', 'c', 'd', 'e', 'f'];
    let upper = seq!['0', '1', '2', '3', '4', '5', '6', '7', '8', '9', 'A', 'B', 'C', 'D', 'E', 'F'];
    if k < 10 {
        assert(lower[k] == upper[k]);
        assert(lower[k] as u32 == '0' as u32 + k) by {
            if k == 0 { assert(lower[0] == '0'); }
            if k == 1 { assert(lower[1] == '1'); }
            if k == 2 { assert(lower[2] == '2'); }
            if k == 3 { assert(lower[3] == '3'); }
            if k == 4 { assert(lower[4] == '4'); }
            if k == 5 { assert(lower[5] == '5'); }
            if k == 6 { assert(lower[6] == '6'); }
            if k == 7 { assert(lower[7] == '7'); }
            if k == 8 { assert(lower[8] == '8'); }
            if k == 9 { assert(lower[9] == '9'); }
        }
    } else {
        assert(lower[k] as u32 == 'a' as u32 + k - 10 && upper[k] as u32 == 'A' as u32 + k - 10)
            by {
            if k == 10 { assert(lower[10] == 'a' && upper[10] == 'A'); }
            if k == 11 { assert(lower[11] == 'b' && upper[11] == 'B'); }
            if k == 12 { assert(lower[12] == 'c' && upper[12] == 'C'); }
            if k == 13 { assert(lower[13] == 'd' && upper[13] == 'D'); }
            if k == 14 { assert(lower[14] == 'e' && upper[14] == 'E'); }
            if k == 15 { assert(lower[15] == 'f' && upper[15] == 'F'); }
        }
    }
}

/// The lighting settings: whether the LEDs are on, their brightness in percent, and
/// their colour as six hexadecimal digits.
#[derive(Clone, Debug, PartialEq, Eq)]
pub struct LightingConfig {
    pub version: u32,
    pub enabled: bool,
    pub brightness: u8,
    pub color: String,
}

impl LightingConfig {
    /// The colour that the settings show: the one `color` names as six hexadecimal
    /// digits, or black where it is anything else.
    pub fn rgb(&self) -> (rgb: Rgb)
        ensures
            rgb == settings_colour(self.color@),
    {
        match self.named_colour() {
            Some(rgb) => rgb,
            None => Rgb { red: 0, green: 0, blue: 0 },
        }
    }

    /// The colour that `color` names, if it is six hexadecimal digits.
    pub fn named_colour(&self) -> (rgb: Option<Rgb>)
        ensures
            rgb == colour_of(self.color@),
    {
        let chars: Vec<char> = chars_of(self.color.as_str());
        if chars.len() != 6 {
            return None;
        }
        let mut values: Vec<u8> = Vec::new();
        let mut i: usize = 0;
        while i < 6
            invariant
                chars@ == self.color@,
                chars@.len() == 6,
                i <= 6,
                values@.len() == i,
                forall|k: int| 0 <= k < i ==> #[trigger] hex_digit(chars@[k]) == Some(values@[k]),
            decreases 6 - i,
        {
            match hex_value(chars[i]) {
                Some(v) => values.push(v),
                None => {
                    return None;
                },
            }
            i = i + 1;
        }
        let ghost c = chars@;
        assert(hex_digit(c[0]) == Some(values@[0]));
        assert(hex_digit(c[1]) == Some(values@[1]));
        assert(hex_digit(c[2]) == Some(values@[2]));
        assert(hex_digit(c[3]) == Some(values@[3]));
        assert(hex_digit(c[4]) == Some(values@[4]));
        assert(hex_digit(c[5]) == Some(values@[5]));
        Some(
            Rgb {
                red: values[0] * 16 + values[1],
                green: values[2] * 16 + values[3],
                blue: values[4] * 16 + values[5],
            },
        )
    }
}

fn hex_value(c: char) -> (value: Option<u8>)
    ensures
        value == hex_digit(c),
        value matches Some(v) ==> v < 16,
{
    if '0' <= c && c <= '9' {
        Some(((c as u32) - ('0' as u32)) as u8)
    } else if 'a' <= c && c <= 'f' {
        Some(((c as u32) - ('a' as u32) + 10) as u8)
    } else if 'A' <= c && c <= 'F' {
        Some(((c as u32) - ('A' as u32) + 10) as u8)
    } else {
        None
    }
}

} // verus!
