//! The colors of players.
use vstd::prelude::*;

use crate::passwords::random_bytes;
use crate::text::{ascii_lower, ascii_lowered, chars_of, code_point, trim, trimmed};

verus! {

/// How many colors there are to choose from.
pub const COLOR_COUNT: usize = 36;

/// The colors to choose from.
pub open spec fn palette() -> Seq<Seq<char>> {
    seq![
        "#c81c1c"@,
        "#c8391c"@,
        "#c8561c"@,
        "#c8721c"@,
        "#c88f1c"@,
        "#c8ac1c"@,
        "#c8c81c"@,
        "#acc81c"@,
        "#8fc81c"@,
        "#72c81c"@,
        "#56c81c"@,
        "#39c81c"@,
        "#1cc81c"@,
        "#1cc839"@,
        "#1cc856"@,
        "#1cc872"@,
        "#1cc88f"@,
        "#1cc8ac"@,
        "#1cc8c8"@,
        "#1cacc8"@,
        "#1c8fc8"@,
        "#1c72c8"@,
        "#1c56c8"@,
        "#1c39c8"@,
        "#1c1cc8"@,
        "#391cc8"@,
        "#561cc8"@,
        "#721cc8"@,
        "#8f1cc8"@,
        "#ac1cc8"@,
        "#c81cc8"@,
        "#c81cac"@,
        "#c81c8f"@,
        "#c81c72"@,
        "#c81c56"@,
        "#c81c39"@,
    ]
}

/// The color at a place of the palette.
pub fn palette_color(i: usize) -> (r: &'static str)
    requires
        i < COLOR_COUNT,
    ensures
        r@ == palette()[i as int],
{
    match i {
        0 => "#c81c1c",
        1 => "#c8391c",
        2 => "#c8561c",
        3 => "#c8721c",
        4 => "#c88f1c",
        5 => "#c8ac1c",
        6 => "#c8c81c",
        7 => "#acc81c",
        8 => "#8fc81c",
        9 => "#72c81c",
        10 => "#56c81c",
        11 => "#39c81c",
        12 => "#1cc81c",
        13 => "#1cc839",
        14 => "#1cc856",
        15 => "#1cc872",
        16 => "#1cc88f",
        17 => "#1cc8ac",
        18 => "#1cc8c8",
        19 => "#1cacc8",
        20 => "#1c8fc8",
        21 => "#1c72c8",
        22 => "#1c56c8",
        23 => "#1c39c8",
        24 => "#1c1cc8",
        25 => "#391cc8",
        26 => "#561cc8",
        27 => "#721cc8",
        28 => "#8f1cc8",
        29 => "#ac1cc8",
        30 => "#c81cc8",
        31 => "#c81cac",
        32 => "#c81c8f",
        33 => "#c81c72",
        34 => "#c81c56",
        _ => "#c81c39",
    }
}

/// The color that a random byte stands for.
pub fn color_for(byte: u8) -> (r: String)
    ensures
        r@ == palette()[byte as int % 36],
{
    palette_color(byte as usize % COLOR_COUNT).to_owned()
}

/// One of the colors, at random.
pub fn random_player_color() -> (r: String)
    ensures
        palette().contains(r@),
{
    let bytes = random_bytes();
    let r = color_for(bytes[0]);
    proof {
        assert(palette()[bytes[0] as int % 36] == r@);
    }
    r
}

/// A hexadecimal digit.
pub open spec fn is_hex_digit(c: char) -> bool {
    48 <= c as int <= 57 || 65 <= c as int <= 70 || 97 <= c as int <= 102
}

/// A color as it is written: a hash sign and six hexadecimal digits.
pub open spec fn is_color(s: Seq<char>) -> bool {
    &&& s.len() == 7
    &&& s[0] == '#'
    &&& forall|i: int| 0 < i < 7 ==> is_hex_digit(#[trigger] s[i])
}

fn written_as_color(s: &str) -> (r: bool)
    ensures
        r == is_color(s@),
{
    let chars = chars_of(s);
    if chars.len() != 7 || chars[0] != '#' {
        return false;
    }
    let mut i: usize = 1;
    while i < 7
        invariant
            chars@ == s@,
            chars.len() == 7,
            chars@[0] == '#',
            1 <= i <= 7,
            forall|k: int| 0 < k < i ==> is_hex_digit(#[trigger] s@[k]),
        decreases 7 - i,
    {
        let c: u32 = code_point(chars[i]);
        if !((c >= 48 && c <= 57) || (c >= 65 && c <= 70) || (c >= 97 && c <= 102)) {
            proof {
                assert(!is_hex_digit(s@[i as int]));
            }
            return false;
        }
        i += 1;
    }
    true
}

/// The color that a player asked for, in small letters, if it is one.
pub open spec fn asked_color(color: Option<&str>) -> Option<Seq<char>> {
    match color {
        Some(c) => if is_color(trimmed(c@)) {
            Some(ascii_lowered(trimmed(c@)))
        } else {
            None
        },
        None => None,
    }
}

/// The color that a player asked for, or else one at random.
pub fn normalize_player_color(color: Option<&str>) -> (r: String)
    ensures
        match asked_color(color) {
            Some(asked) => r@ == asked,
            None => palette().contains(r@),
        },
{
    if let Some(c) = color {
        let bare = trim(c);
        if written_as_color(bare.as_str()) {
            return ascii_lower(bare.as_str());
        }
    }
    random_player_color()
}

/// Every color of the palette is one that a player might ask for.
pub proof fn law_palette_is_written_out(i: int)
    requires
        0 <= i < 36,
    ensures
        is_color(palette()[i]),
{
    reveal_strlit("#c81c1c");
    reveal_strlit("#c8391c");
    reveal_strlit("#c8561c");
    reveal_strlit("#c8721c");
    reveal_strlit("#c88f1c");
    reveal_strlit("#c8ac1c");
    reveal_strlit("#c8c81c");
    reveal_strlit("#acc81c");
    reveal_strlit("#8fc81c");
    reveal_strlit("#72c81c");
    reveal_strlit("#56c81c");
    reveal_strlit("#39c81c");
    reveal_strlit("#1cc81c");
    reveal_strlit("#1cc839");
    reveal_strlit("#1cc856");
    reveal_strlit("#1cc872");
    reveal_strlit("#1cc88f");
    reveal_strlit("#1cc8ac");
    reveal_strlit("#1cc8c8");
    reveal_strlit("#1cacc8");
    reveal_strlit("#1c8fc8");
    reveal_strlit("#1c72c8");
    reveal_strlit("#1c56c8");
    reveal_strlit("#1c39c8");
    reveal_strlit("#1c1cc8");
    reveal_strlit("#391cc8");
    reveal_strlit("#561cc8");
    reveal_strlit("#721cc8");
    reveal_strlit("#8f1cc8");
    reveal_strlit("#ac1cc8");
    reveal_strlit("#c81cc8");
    reveal_strlit("#c81cac");
    reveal_strlit("#c81c8f");
    reveal_strlit("#c81c72");
    reveal_strlit("#c81c56");
    reveal_strlit("#c81c39");
}

/// A player gets the color that was asked for exactly if it is, without white space around it,
/// a hash sign and six hexadecimal digits. The letters among them are then small.
pub proof fn law_which_color_is_taken(color: &str)
    ensures
        ({
            let s = trimmed(color@);
            let asked = asked_color(Some(color));
            &&& asked is Some <==> s.len() == 7 && s[0] == '#' && forall|i: int|
                1 <= i < 7 ==> {
                    ||| '0' <= #[trigger] s[i] && s[i] <= '9'
                    ||| 'a' <= s[i] && s[i] <= 'f'
                    ||| 'A' <= s[i] && s[i] <= 'F'
                }
            &&& asked is Some ==> asked->0.len() == 7 && asked->0[0] == '#'
            &&& asked is Some ==> forall|i: int|
                1 <= i < 7 ==> {
                    &&& 'A' <= s[i] && s[i] <= 'F' ==> #[trigger] asked->0[i] as int == s[i] as int
                        + 32
                    &&& !('A' <= s[i] && s[i] <= 'F') ==> asked->0[i] == s[i]
                }
        }),
        asked_color(None) is None,
{
    let s = trimmed(color@);
    assert forall|i: int| 1 <= i < s.len() && s.len() == 7 implies (is_hex_digit(#[trigger] s[i])
        <==> {
        ||| '0' <= s[i] && s[i] <= '9'
        ||| 'a' <= s[i] && s[i] <= 'f'
        ||| 'A' <= s[i] && s[i] <= 'F'
    }) by {}
}

} // verus!
