//! Paintable rectangles and ARGB colours: what the pipeline hands to an
//! external renderer.

use vstd::prelude::*;

verus! {

use vstd::string::StrSliceExecFns;

/// The colour text did not match the hex-colour grammar.
#[derive(Debug, PartialEq, Eq, Structural)]
pub struct ColourParseError {}

/// A colour as 8-bit alpha, red, green and blue components.
#[derive(Copy, Clone, Debug, PartialEq, Eq, Structural)]
pub struct ArgbColour {
    pub a: u8,
    pub r: u8,
    pub g: u8,
    pub b: u8,
}

/// Whether `c` is a hexadecimal digit, either case.
pub open spec fn is_hex_digit(c: char) -> bool {
    ('0' <= c && c <= '9') || ('a' <= c && c <= 'f') || ('A' <= c && c <= 'F')
}

/// The numeric value of a hexadecimal digit.
pub open spec fn hex_digit_value(c: char) -> int {
    if '0' <= c && c <= '9' {
        c as int - '0' as int
    } else if 'a' <= c && c <= 'f' {
        c as int - 'a' as int + 10
    } else if 'A' <= c && c <= 'F' {
        c as int - 'A' as int + 10
    } else {
        0
    }
}

/// Whether `s` consists of hexadecimal digits only.
pub open spec fn all_hex_digits(s: Seq<char>) -> bool {
    forall|i: int| 0 <= i < s.len() ==> is_hex_digit(#[trigger] s[i])
}

/// The bytes spelled by an even-length string of hexadecimal digit
/// pairs, high digit first.
pub open spec fn hex_decoded(s: Seq<char>) -> Seq<u8> {
    Seq::new((s.len() / 2) as nat, |i: int| (hex_digit_value(s[2 * i]) * 16 + hex_digit_value(
        s[2 * i + 1],
    )) as u8)
}

/// Relies on `hex::decode`: an even-length string of hexadecimal digits
/// (either case) decodes to its byte pairs, anything else is refused.
#[verifier::external_body]
fn hex_decode(digits: &str) -> (r: Option<Vec<u8>>)
    ensures
        match r {
            Some(v) => digits@.len() % 2 == 0 && all_hex_digits(digits@) && v@ == hex_decoded(
                digits@,
            ),
            None => !(digits@.len() % 2 == 0 && all_hex_digits(digits@)),
        },
{
    hex::decode(digits).ok()
}

/// The colour spelled by `s`: an optional `#`, then exactly three, six
/// or eight hexadecimal digits. Three digits are doubled (`f` means
/// `ff`); six digits are fully opaque red, green, blue; eight digits
/// carry the alpha first.
pub open spec fn spec_parse_colour(s: Seq<char>) -> Option<ArgbColour> {
    let digits = if s.len() > 0 && s[0] == '#' {
        s.subrange(1, s.len() as int)
    } else {
        s
    };
    if !all_hex_digits(digits) {
        None
    } else if digits.len() == 3 {
        Some(
            ArgbColour {
                a: 255,
                r: (hex_digit_value(digits[0]) * 17) as u8,
                g: (hex_digit_value(digits[1]) * 17) as u8,
                b: (hex_digit_value(digits[2]) * 17) as u8,
            },
        )
    } else if digits.len() == 6 {
        Some(
            ArgbColour {
                a: 255,
                r: hex_decoded(digits)[0],
                g: hex_decoded(digits)[1],
                b: hex_decoded(digits)[2],
            },
        )
    } else if digits.len() == 8 {
        Some(
            ArgbColour {
                a: hex_decoded(digits)[0],
                r: hex_decoded(digits)[1],
                g: hex_decoded(digits)[2],
                b: hex_decoded(digits)[3],
            },
        )
    } else {
        None
    }
}

/// The value of one hexadecimal digit, or `None` for any other character.
fn parse_hex_digit(c: char) -> (r: Option<u8>)
    ensures
        match r {
            Some(v) => is_hex_digit(c) && v == hex_digit_value(c),
            None => !is_hex_digit(c),
        },
{
    if '0' <= c && c <= '9' {
        Some((c as u32 as u8) - 48)
    } else if 'a' <= c && c <= 'f' {
        Some((c as u32 - 97) as u8 + 10)
    } else if 'A' <= c && c <= 'F' {
        Some((c as u32 - 65) as u8 + 10)
    } else {
        None
    }
}

impl ArgbColour {
    /// Parses a hex colour: an optional `#`, then exactly three, six or
    /// eight hexadecimal digits; everything else is refused.
    pub fn from_hex(hex: &str) -> (r: Result<ArgbColour, ColourParseError>)
        ensures
            match r {
                Ok(c) => spec_parse_colour(hex@) == Some(c),
                Err(_) => spec_parse_colour(hex@) is None,
            },
    {
        let len = hex.unicode_len();
        let digits: &str = if len >= 1 && hex.get_char(0) == '#' {
            hex.substring_char(1, len)
        } else {
            hex
        };
        let ghost dv = digits@;
        let digit_count = digits.unicode_len();

        if digit_count == 3 {
            let h0 = parse_hex_digit(digits.get_char(0));
            let h1 = parse_hex_digit(digits.get_char(1));
            let h2 = parse_hex_digit(digits.get_char(2));
            match (h0, h1, h2) {
                (Some(r), Some(g), Some(b)) => {
                    proof {
                        assert forall|i: int| 0 <= i < dv.len() implies is_hex_digit(
                            #[trigger] dv[i],
                        ) by {
                            assert(i == 0 || i == 1 || i == 2);
                        }
                    }
                    Ok(ArgbColour { a: 255, r: r * 17, g: g * 17, b: b * 17 })
                },
                _ => Err(ColourParseError {}),
            }
        } else if digit_count == 6 {
            match hex_decode(digits) {
                Some(bytes) => Ok(
                    ArgbColour { a: 255, r: bytes[0], g: bytes[1], b: bytes[2] },
                ),
                None => Err(ColourParseError {}),
            }
        } else if digit_count == 8 {
            match hex_decode(digits) {
                Some(bytes) => Ok(
                    ArgbColour { a: bytes[0], r: bytes[1], g: bytes[2], b: bytes[3] },
                ),
                None => Err(ColourParseError {}),
            }
        } else {
            Err(ColourParseError {})
        }
    }

    /// The colour with every channel flipped; the alpha is kept.
    pub fn invert(&self) -> (r: ArgbColour)
        ensures
            r.a == self.a,
            r.r == self.r ^ 0xFF,
            r.g == self.g ^ 0xFF,
            r.b == self.b ^ 0xFF,
    {
        ArgbColour { a: self.a, r: self.r ^ 0xFF, g: self.g ^ 0xFF, b: self.b ^ 0xFF }
    }
}

/// A paintable rectangle: absolute geometry in whole device-independent
/// units, a stroke colour and a fill colour.
#[derive(Debug, Copy, Clone, PartialEq, Eq, Structural)]
pub struct Rect {
    pub x: u64,
    pub y: u64,
    pub width: u64,
    pub height: u64,
    pub stroke_colour: ArgbColour,
    pub fill_colour: ArgbColour,
}

/// The mathematical shape of a [`Rect`].
pub ghost struct RectModel {
    pub x: int,
    pub y: int,
    pub width: int,
    pub height: int,
    pub stroke_colour: ArgbColour,
    pub fill_colour: ArgbColour,
}

impl View for Rect {
    type V = RectModel;

    open spec fn view(&self) -> RectModel {
        RectModel {
            x: self.x as int,
            y: self.y as int,
            width: self.width as int,
            height: self.height as int,
            stroke_colour: self.stroke_colour,
            fill_colour: self.fill_colour,
        }
    }
}

/// The models of a sequence of rectangles.
pub open spec fn rects_view(s: Seq<Rect>) -> Seq<RectModel>
    decreases s.len(),
{
    if s.len() == 0 {
        Seq::empty()
    } else {
        rects_view(s.drop_last()).push(s.last()@)
    }
}

/// The model of a concatenation is the concatenation of the models.
pub proof fn lemma_rects_view_add(s1: Seq<Rect>, s2: Seq<Rect>)
    ensures
        rects_view(s1 + s2) == rects_view(s1) + rects_view(s2),
    decreases s2.len(),
{
    if s2.len() == 0 {
        assert(s1 + s2 =~= s1);
        assert(rects_view(s1) + rects_view(s2) =~= rects_view(s1));
    } else {
        lemma_rects_view_add(s1, s2.drop_last());
        assert((s1 + s2).drop_last() =~= s1 + s2.drop_last());
        assert((s1 + s2).last() == s2.last());
        assert(rects_view(s1) + rects_view(s2) =~= (rects_view(s1) + rects_view(
            s2.drop_last(),
        )).push(s2.last()@));
    }
}

} // verus!
