//! The block palette: which block stands for which colour, and the choice of
//! the nearest one.
use vstd::prelude::*;
use std::collections::BTreeMap;
use std::str::FromStr;

verus! {

/// Errors in the block palette file.
#[derive(Clone, Copy, Debug, PartialEq, Eq)]
pub enum PaletteError {
    /// The file is not a JSON object of strings.
    InvalidJson,
    /// A key is not a hex colour code.
    InvalidColor,
    /// The palette names no block.
    Empty,
}


/// Value of a hexadecimal digit.
pub open spec fn hex_digit(c: char) -> Option<int> {
    if '0' <= c && c <= '9' {
        Some(c as int - '0' as int)
    } else if 'a' <= c && c <= 'f' {
        Some(c as int - 'a' as int + 10)
    } else if 'A' <= c && c <= 'F' {
        Some(c as int - 'A' as int + 10)
    } else {
        None
    }
}

/// The byte written by the two hex digits of `d` from `i` on.
pub open spec fn hex_byte(d: Seq<char>, i: int) -> u8 {
    (hex_digit(d[i]).unwrap() * 16 + hex_digit(d[i + 1]).unwrap()) as u8
}

/// The digits of a colour code: the code without one leading `#`.
pub open spec fn code_digits(code: Seq<char>) -> Seq<char> {
    if code.len() > 0 && code[0] == '#' {
        code.drop_first()
    } else {
        code
    }
}

/// A two-character group read as a base-16 number: two hex digits, or a
/// `+` sign and one digit.
pub open spec fn hex_group(a: char, b: char) -> Option<int> {
    if a == '+' {
        hex_digit(b)
    } else if hex_digit(a) is Some && hex_digit(b) is Some {
        Some(hex_digit(a).unwrap() * 16 + hex_digit(b).unwrap())
    } else {
        None
    }
}

/// The colour that an ASCII hex colour code stands for: after one optional
/// `#`, three digits (each repeated) or three two-character groups.
pub open spec fn hex_color_of(code: Seq<char>) -> Option<(u8, u8, u8)> {
    let d = code_digits(code);
    if d.len() == 3 {
        if hex_digit(d[0]) is Some && hex_digit(d[1]) is Some && hex_digit(d[2]) is Some {
            Some(
                (
                    (hex_digit(d[0]).unwrap() * 17) as u8,
                    (hex_digit(d[1]).unwrap() * 17) as u8,
                    (hex_digit(d[2]).unwrap() * 17) as u8,
                ),
            )
        } else {
            None
        }
    } else if d.len() == 6 {
        if hex_group(d[0], d[1]) is Some && hex_group(d[2], d[3]) is Some && hex_group(d[4], d[5]) is Some {
            Some(
                (
                    hex_group(d[0], d[1]).unwrap() as u8,
                    hex_group(d[2], d[3]).unwrap() as u8,
                    hex_group(d[4], d[5]).unwrap() as u8,
                ),
            )
        } else {
            None
        }
    } else {
        None
    }
}

/// The colour that six hex digits write.
pub open spec fn six_hex_digits(d: Seq<char>) -> Option<(u8, u8, u8)> {
    if d.len() == 6 && forall|i: int| 0 <= i < 6 ==> (#[trigger] hex_digit(d[i])) is Some {
        Some((hex_byte(d, 0), hex_byte(d, 2), hex_byte(d, 4)))
    } else {
        None
    }
}

/// The colour of a code of six hex digits, with or without a leading `#`.
pub open spec fn six_digit_color(code: Seq<char>) -> Option<(u8, u8, u8)> {
    six_hex_digits(code_digits(code))
}

/// The key/value pairs of a JSON object whose values are all strings, in
/// ascending key order, or `None` where the bytes are no such object.
pub uninterp spec fn json_string_pairs(data: Seq<u8>) -> Option<Seq<(Seq<char>, Seq<char>)>>;

pub open spec fn pair_view(p: (String, String)) -> (Seq<char>, Seq<char>) {
    (p.0@, p.1@)
}

/// Relies on palette's `FromStr` for `Srgb<u8>`: strips one `#`, then reads
/// three one-digit or three two-character groups with `u8::from_str_radix`.
/// It measures and cuts the text in bytes, so it is given ASCII text only.
#[verifier::external_body]
fn parse_hex_color(code: &str) -> (r: Option<(u8, u8, u8)>)
    requires
        vstd::utf8::is_ascii_chars(code@),
    ensures
        r == hex_color_of(code@),
{
    palette::Srgb::<u8>::from_str(code).ok().map(|c| (c.red, c.green, c.blue))
}

/// Relies on serde_json's `from_slice`: reads a JSON object of strings into an
/// ordered map, whose pairs come out by ascending key.
#[verifier::external_body]
fn parse_string_map(data: &[u8]) -> (r: Option<Vec<(String, String)>>)
    ensures
        match r {
            Some(v) => json_string_pairs(data@) == Some(v@.map_values(|p| pair_view(p))),
            None => json_string_pairs(data@) is None,
        },
{
    serde_json::from_slice::<BTreeMap<String, String>>(data).ok().map(|m| m.into_iter().collect())
}

/// Blocks, each with the colour it stands for.
pub struct BlockPalette {
    pub colors: Vec<(u8, u8, u8)>,
    pub blocks: Vec<String>,
}

/// A key is a colour code: ASCII text that reads as a hex colour.
pub open spec fn color_valid(code: Seq<char>) -> bool {
    vstd::utf8::is_ascii_chars(code) && hex_color_of(code) is Some
}

/// Every key of `pairs` is a hex colour code.
pub open spec fn all_colors_valid(pairs: Seq<(Seq<char>, Seq<char>)>) -> bool {
    forall|k: int| 0 <= k < pairs.len() ==> color_valid(#[trigger] pairs[k].0)
}

/// Every key of `pairs` is a code of six hex digits, with or without `#`.
pub open spec fn all_six_digit(pairs: Seq<(Seq<char>, Seq<char>)>) -> bool {
    forall|k: int| 0 <= k < pairs.len() ==> (#[trigger] six_digit_color(pairs[k].0)) is Some
}

/// A six-digit code is ASCII text, and reads as its six digits.
pub proof fn lemma_six_digit_ascii(code: Seq<char>)
    requires
        six_digit_color(code) is Some,
    ensures
        vstd::utf8::is_ascii_chars(code),
        hex_color_of(code) == six_digit_color(code),
{
    let d = code_digits(code);
    assert(d.len() == 6 && forall|i: int| 0 <= i < 6 ==> (#[trigger] hex_digit(d[i])) is Some);
    assert(hex_digit(d[0]) is Some && hex_digit(d[1]) is Some && hex_digit(d[2]) is Some);
    assert(hex_digit(d[3]) is Some && hex_digit(d[4]) is Some && hex_digit(d[5]) is Some);
    assert(hex_color_of(code) == six_digit_color(code));
    assert forall|i: int| 0 <= i < code.len() implies '\0' <= #[trigger] code[i] <= '\u{7f}' by {
        if code.len() > 0 && code[0] == '#' {
            if i > 0 {
                assert(code[i] == d[i - 1]);
                assert(hex_digit(d[i - 1]) is Some);
            }
        } else {
            assert(hex_digit(d[i]) is Some);
        }
    }
}

impl BlockPalette {
    pub open spec fn wf(&self) -> bool {
        self.colors@.len() == self.blocks@.len() && self.blocks@.len() > 0
    }

    /// This palette holds exactly the pairs given, in their order, each colour
    /// read from its code.
    pub open spec fn holds(&self, pairs: Seq<(Seq<char>, Seq<char>)>) -> bool {
        &&& self.colors@.len() == pairs.len()
        &&& self.blocks@.len() == pairs.len()
        &&& forall|k: int|
            0 <= k < pairs.len() ==> Some(#[trigger] self.colors@[k]) == hex_color_of(pairs[k].0)
                && self.blocks@[k]@ == pairs[k].1
    }

    /// Builds the palette from colour-code/block pairs. An empty list and a
    /// key that is no colour code are errors.
    pub fn from_entries(entries: Vec<(String, String)>) -> (r: Result<BlockPalette, PaletteError>)
        ensures
            entries@.len() == 0 ==> r == Err::<BlockPalette, PaletteError>(PaletteError::Empty),
            entries@.len() > 0 && !all_colors_valid(entries@.map_values(|p| pair_view(p))) ==> r
                == Err::<BlockPalette, PaletteError>(PaletteError::InvalidColor),
            entries@.len() > 0 && all_colors_valid(entries@.map_values(|p| pair_view(p))) ==> (r matches Ok(
                bp,
            ) && bp.wf() && bp.holds(entries@.map_values(|p| pair_view(p)))),
            entries@.len() > 0 && all_six_digit(entries@.map_values(|p| pair_view(p))) ==> (r matches Ok(
                bp,
            ) && bp.wf() && forall|k: int|
                0 <= k < entries@.len() ==> Some(#[trigger] bp.colors@[k]) == six_digit_color(
                    entries@[k].0@,
                )),
    {
        let ghost pairs = entries@.map_values(|p| pair_view(p));
        if entries.len() == 0 {
            return Err(PaletteError::Empty);
        }
        let mut colors: Vec<(u8, u8, u8)> = Vec::new();
        let mut blocks: Vec<String> = Vec::new();
        let mut k: usize = 0;
        while k < entries.len()
            invariant
                k <= entries@.len(),
                pairs == entries@.map_values(|p| pair_view(p)),
                colors@.len() == k,
                blocks@.len() == k,
                forall|j: int|
                    0 <= j < k ==> Some(#[trigger] colors@[j]) == hex_color_of(pairs[j].0)
                        && blocks@[j]@ == pairs[j].1 && color_valid(pairs[j].0),
                forall|j: int|
                    0 <= j < k && six_digit_color(pairs[j].0) is Some ==> Some(#[trigger] colors@[j])
                        == six_digit_color(pairs[j].0),
            decreases entries@.len() - k,
        {
            if !entries[k].0.as_str().is_ascii() {
                proof {
                    assert(!color_valid(pairs[k as int].0));
                    if six_digit_color(pairs[k as int].0) is Some {
                        lemma_six_digit_ascii(pairs[k as int].0);
                    }
                }
                return Err(PaletteError::InvalidColor);
            }
            proof {
                if six_digit_color(pairs[k as int].0) is Some {
                    lemma_six_digit_ascii(pairs[k as int].0);
                }
            }
            match parse_hex_color(entries[k].0.as_str()) {
                Some(c) => {
                    colors.push(c);
                    blocks.push(entries[k].1.clone());
                },
                None => {
                    assert(!color_valid(pairs[k as int].0));
                    return Err(PaletteError::InvalidColor);
                },
            }
            k = k + 1;
        }
        assert forall|j: int| 0 <= j < pairs.len() implies color_valid(#[trigger] pairs[j].0) by {
            assert(Some(colors@[j]) == hex_color_of(pairs[j].0));
        }
        Ok(BlockPalette { colors, blocks })
    }

    /// Reads the palette from a JSON object that maps colour codes to block names.
    pub fn from_json(data: &[u8]) -> (r: Result<BlockPalette, PaletteError>)
        ensures
            match json_string_pairs(data@) {
                None => r == Err::<BlockPalette, PaletteError>(PaletteError::InvalidJson),
                Some(pairs) => {
                    &&& pairs.len() == 0 ==> r == Err::<BlockPalette, PaletteError>(
                        PaletteError::Empty,
                    )
                    &&& pairs.len() > 0 && !all_colors_valid(pairs) ==> r == Err::<
                        BlockPalette,
                        PaletteError,
                    >(PaletteError::InvalidColor)
                    &&& pairs.len() > 0 && all_colors_valid(pairs) ==> (r matches Ok(bp) && bp.wf()
                        && bp.holds(pairs))
                    &&& pairs.len() > 0 && all_six_digit(pairs) ==> (r matches Ok(bp) && bp.wf()
                        && forall|k: int|
                        0 <= k < pairs.len() ==> Some(#[trigger] bp.colors@[k]) == six_digit_color(
                            pairs[k].0,
                        ))
                },
            },
    {
        match parse_string_map(data) {
            Some(entries) => BlockPalette::from_entries(entries),
            None => Err(PaletteError::InvalidJson),
        }
    }

    /// Index of the block nearest to a colour, given the distance of that
    /// colour to each block's colour: the first of the smallest distances.
    pub fn closest_index(&self, distances: &Vec<u32>) -> (r: usize)
        requires
            self.wf(),
            distances@.len() == self.blocks@.len(),
        ensures
            r < self.blocks@.len(),
            forall|k: int| 0 <= k < distances@.len() ==> distances@[r as int] <= #[trigger] distances@[k],
            forall|k: int| 0 <= k < r ==> distances@[r as int] < #[trigger] distances@[k],
    {
        let mut best: usize = 0;
        let mut k: usize = 1;
        while k < distances.len()
            invariant
                1 <= k <= distances@.len(),
                best < k,
                forall|j: int| 0 <= j < k ==> distances@[best as int] <= #[trigger] distances@[j],
                forall|j: int| 0 <= j < best ==> distances@[best as int] < #[trigger] distances@[j],
            decreases distances@.len() - k,
        {
            if distances[k] < distances[best] {
                best = k;
            }
            k = k + 1;
        }
        best
    }

    /// The block nearest to a colour, given the distance of that colour to
    /// each block's colour.
    pub fn closest_block(&self, distances: &Vec<u32>) -> (r: &String)
        requires
            self.wf(),
            distances@.len() == self.blocks@.len(),
        ensures
            exists|i: int|
                0 <= i < self.blocks@.len() && *r == self.blocks@[i] && (forall|k: int|
                    0 <= k < distances@.len() ==> distances@[i] <= #[trigger] distances@[k]) && (
                forall|k: int| 0 <= k < i ==> distances@[i] < #[trigger] distances@[k]),
    {
        let i = self.closest_index(distances);
        &self.blocks[i]
    }
}

} // verus!
