//! Picture operations and the text form they are given in.
//!
//! One operation is one word: `rotate90`, `rotate180`, `flip-x`, `flip-y`, or
//! `crop:<x>:<y>:<width>:<height>` with four decimal numbers.

use std::str::FromStr;
use vstd::prelude::*;
use vstd::string::StringSliceAdditionalSpecFns;

verus! {

/// A step of preparing a picture.
#[derive(Clone, Copy, Debug, PartialEq, Eq, Structural)]
pub enum ImageOp {
    Rotate90,
    Rotate180,
    FlipHorizontal,
    FlipVertical,
    Crop { x: u32, y: u32, w: u32, h: u32 },
}

/// The four numbers of a crop, in the order they are written.
#[derive(Clone, Copy, Debug, PartialEq, Eq, Structural)]
pub enum CropField {
    X,
    Y,
    Width,
    Height,
}

/// Why a text is no operation.
#[derive(Clone, Copy, Debug, PartialEq, Eq, Structural)]
pub enum ParseError {
    /// A crop whose number in the given place is no 32-bit decimal number.
    BadNumber(CropField),
    /// Neither one of the four plain words nor a crop with four fields.
    UnknownOperation,
}

/// The byte that parts the fields of a crop.
pub const SEPARATOR: u8 = ':' as u8;

/// The fields of `s`: the stretches between its separators. A text
/// without separator is one field, also where it is empty.
pub open spec fn split(s: Seq<u8>, separator: u8) -> Seq<Seq<u8>>
    decreases s.len(),
{
    if s.len() == 0 {
        seq![Seq::empty()]
    } else {
        let before = split(s.drop_last(), separator);
        if s.last() == separator {
            before.push(Seq::empty())
        } else {
            before.drop_last().push(before.last().push(s.last()))
        }
    }
}

/// The number that a row of decimal digits spells.
pub open spec fn decimal_value(digits: Seq<u8>) -> int
    decreases digits.len(),
{
    if digits.len() == 0 {
        0
    } else {
        decimal_value(digits.drop_last()) * 10 + (digits.last() - '0' as u8)
    }
}

/// Every byte is a decimal digit.
pub open spec fn all_digits(s: Seq<u8>) -> bool {
    forall|i: int| 0 <= i < s.len() ==> ('0' as u8) <= #[trigger] s[i] <= ('9' as u8)
}

/// What is left of a number when a plus sign in front is taken away.
pub open spec fn unsigned_part(s: Seq<u8>) -> Seq<u8> {
    if s.len() > 0 && s[0] == '+' as u8 {
        s.subrange(1, s.len() as int)
    } else {
        s
    }
}

/// The 32-bit number that `s` spells: one or more decimal digits, with or
/// without a plus sign in front, and nothing else.
pub open spec fn parsed_u32(s: Seq<u8>) -> Option<u32> {
    let digits = unsigned_part(s);
    if digits.len() > 0 && all_digits(digits) && decimal_value(digits) <= u32::MAX {
        Some(decimal_value(digits) as u32)
    } else {
        None
    }
}

/// The bytes of a word in UTF-8.
pub open spec fn text(word: &str) -> Seq<u8> {
    word.spec_bytes()
}

/// The crop that four fields spell, or the first of them that is no number.
pub open spec fn parsed_crop(x: Seq<u8>, y: Seq<u8>, w: Seq<u8>, h: Seq<u8>) -> Result<
    ImageOp,
    ParseError,
> {
    match parsed_u32(x) {
        None => Err(ParseError::BadNumber(CropField::X)),
        Some(x) => match parsed_u32(y) {
            None => Err(ParseError::BadNumber(CropField::Y)),
            Some(y) => match parsed_u32(w) {
                None => Err(ParseError::BadNumber(CropField::Width)),
                Some(w) => match parsed_u32(h) {
                    None => Err(ParseError::BadNumber(CropField::Height)),
                    Some(h) => Ok(ImageOp::Crop { x, y, w, h }),
                },
            },
        },
    }
}

/// The operation that the text `s` stands for.
pub open spec fn parsed(s: Seq<u8>) -> Result<ImageOp, ParseError> {
    let fields = split(s, SEPARATOR);
    if fields.len() == 1 && fields[0] == text("rotate90") {
        Ok(ImageOp::Rotate90)
    } else if fields.len() == 1 && fields[0] == text("rotate180") {
        Ok(ImageOp::Rotate180)
    } else if fields.len() == 1 && fields[0] == text("flip-x") {
        Ok(ImageOp::FlipHorizontal)
    } else if fields.len() == 1 && fields[0] == text("flip-y") {
        Ok(ImageOp::FlipVertical)
    } else if fields.len() == 5 && fields[0] == text("crop") {
        parsed_crop(fields[1], fields[2], fields[3], fields[4])
    } else {
        Err(ParseError::UnknownOperation)
    }
}

/// The views of a list of byte strings.
pub open spec fn views(fields: Seq<Vec<u8>>) -> Seq<Seq<u8>> {
    Seq::new(fields.len(), |i: int| fields[i]@)
}

/// Where every byte is a digit, a number is no smaller than what its first
/// `k` digits spell.
proof fn lemma_decimal_value_grows(digits: Seq<u8>, k: int)
    requires
        all_digits(digits),
        0 <= k <= digits.len(),
    ensures
        0 <= decimal_value(digits.subrange(0, k)) <= decimal_value(digits),
    decreases digits.len() - k,
{
    if k == digits.len() {
        assert(digits.subrange(0, k) == digits);
        lemma_decimal_value_is_natural(digits);
    } else {
        lemma_decimal_value_grows(digits, k + 1);
        let longer = digits.subrange(0, k + 1);
        assert(longer.drop_last() == digits.subrange(0, k));
        assert(longer.last() == digits[k]);
        lemma_decimal_value_is_natural(digits.subrange(0, k));
    }
}

proof fn lemma_decimal_value_is_natural(digits: Seq<u8>)
    requires
        all_digits(digits),
    ensures
        0 <= decimal_value(digits),
    decreases digits.len(),
{
    if digits.len() > 0 {
        lemma_decimal_value_is_natural(digits.drop_last());
    }
}

/// Splits `s` at every separator.
pub fn split_fields(s: &[u8], separator: u8) -> (fields: Vec<Vec<u8>>)
    ensures
        views(fields@) == split(s@, separator),
{
    let mut done: Vec<Vec<u8>> = Vec::new();
    let mut current: Vec<u8> = Vec::new();
    let mut i: usize = 0;
    proof {
        assert(s@.subrange(0, 0) == Seq::<u8>::empty());
        assert(views(done@).push(current@) == seq![Seq::<u8>::empty()]);
    }
    while i < s.len()
        invariant
            i <= s@.len(),
            views(done@).push(current@) == split(s@.subrange(0, i as int), separator),
        decreases s.len() - i,
    {
        let b: u8 = s[i];
        let ghost head = s@.subrange(0, i as int);
        let ghost next = s@.subrange(0, i + 1);
        let ghost before = views(done@).push(current@);
        proof {
            assert(next.drop_last() == head);
            assert(next.last() == b);
        }
        if b == separator {
            let ghost done_before = done@;
            done.push(current);
            current = Vec::new();
            proof {
                assert(views(done@) == before);
                assert(views(done@).push(current@) == before.push(Seq::empty()));
            }
        } else {
            let ghost current_before = current@;
            current.push(b);
            proof {
                assert(before.drop_last() == views(done@));
                assert(before.last() == current_before);
            }
        }
        i = i + 1;
    }
    proof {
        assert(s@.subrange(0, i as int) == s@);
    }
    let ghost before = views(done@).push(current@);
    done.push(current);
    proof {
        assert(views(done@) == before);
    }
    done
}

/// Reads a 32-bit decimal number.
pub fn parse_u32(s: &Vec<u8>) -> (out: Option<u32>)
    ensures
        out == parsed_u32(s@),
{
    let start: usize = if s.len() > 0 && s[0] == '+' as u8 {
        1
    } else {
        0
    };
    let ghost digits = unsigned_part(s@);
    if start == s.len() {
        return None;
    }
    let mut value: u64 = 0;
    let mut i: usize = start;
    proof {
        assert(digits.subrange(0, 0) == Seq::<u8>::empty());
    }
    while i < s.len()
        invariant
            start <= i <= s@.len(),
            start <= 1,
            digits == s@.subrange(start as int, s@.len() as int),
            digits == unsigned_part(s@),
            digits.len() > 0,
            all_digits(digits.subrange(0, i - start)),
            value == decimal_value(digits.subrange(0, i - start)),
            value <= u32::MAX,
        decreases s.len() - i,
    {
        let b: u8 = s[i];
        let ghost head = digits.subrange(0, i - start);
        let ghost next = digits.subrange(0, i - start + 1);
        proof {
            assert(next.drop_last() == head);
            assert(next.last() == b);
            assert(digits[i - start] == b);
        }
        if b < ('0' as u8) || b > ('9' as u8) {
            return None;
        }
        proof {
            assert forall|k: int| 0 <= k < next.len() implies ('0' as u8) <= #[trigger] next[k]
                <= ('9' as u8) by {
                if k < head.len() {
                    assert(next[k] == head[k]);
                }
            }
        }
        value = value * 10 + (b - ('0' as u8)) as u64;
        if value > u32::MAX as u64 {
            proof {
                if all_digits(digits) {
                    lemma_decimal_value_grows(digits, i - start + 1);
                }
            }
            return None;
        }
        i = i + 1;
    }
    proof {
        assert(digits.subrange(0, i - start) == digits);
    }
    Some(value as u32)
}

/// Whether the bytes of `field` are those of `word`.
fn is_word(field: &Vec<u8>, word: &str) -> (same: bool)
    ensures
        same == (field@ == text(word)),
{
    let bytes = word.as_bytes();
    if field.len() != bytes.len() {
        return false;
    }
    let mut i: usize = 0;
    while i < bytes.len()
        invariant
            i <= bytes@.len(),
            field@.len() == bytes@.len(),
            bytes@ == text(word),
            forall|k: int| 0 <= k < i ==> field@[k] == bytes@[k],
        decreases bytes.len() - i,
    {
        if field[i] != bytes[i] {
            return false;
        }
        i = i + 1;
    }
    assert(field@ =~= bytes@);
    true
}

/// Reads one operation from the bytes of its text form.
pub fn parse_op(s: &[u8]) -> (out: Result<ImageOp, ParseError>)
    ensures
        out == parsed(s@),
{
    let fields = split_fields(s, SEPARATOR);
    let ghost model = split(s@, SEPARATOR);
    assert(model.len() == fields@.len());
    assert(forall|i: int| 0 <= i < fields@.len() ==> model[i] == #[trigger] fields@[i]@);
    if fields.len() == 1 {
        assert(model[0] == fields@[0]@);
        if is_word(&fields[0], "rotate90") {
            Ok(ImageOp::Rotate90)
        } else if is_word(&fields[0], "rotate180") {
            Ok(ImageOp::Rotate180)
        } else if is_word(&fields[0], "flip-x") {
            Ok(ImageOp::FlipHorizontal)
        } else if is_word(&fields[0], "flip-y") {
            Ok(ImageOp::FlipVertical)
        } else {
            Err(ParseError::UnknownOperation)
        }
    } else if fields.len() == 5 {
        assert(model[0] == fields@[0]@);
        assert(model[1] == fields@[1]@);
        assert(model[2] == fields@[2]@);
        assert(model[3] == fields@[3]@);
        assert(model[4] == fields@[4]@);
        if !is_word(&fields[0], "crop") {
            return Err(ParseError::UnknownOperation);
        }
        let x: u32 = match parse_u32(&fields[1]) {
            Some(v) => v,
            None => {
                return Err(ParseError::BadNumber(CropField::X));
            },
        };
        let y: u32 = match parse_u32(&fields[2]) {
            Some(v) => v,
            None => {
                return Err(ParseError::BadNumber(CropField::Y));
            },
        };
        let w: u32 = match parse_u32(&fields[3]) {
            Some(v) => v,
            None => {
                return Err(ParseError::BadNumber(CropField::Width));
            },
        };
        let h: u32 = match parse_u32(&fields[4]) {
            Some(v) => v,
            None => {
                return Err(ParseError::BadNumber(CropField::Height));
            },
        };
        Ok(ImageOp::Crop { x, y, w, h })
    } else {
        Err(ParseError::UnknownOperation)
    }
}

impl ImageOp {
    /// Reads one operation from its text form.
    pub fn parse(s: &str) -> (out: Result<ImageOp, ParseError>)
        ensures
            out == parsed(s.spec_bytes()),
    {
        parse_op(s.as_bytes())
    }
}

impl FromStr for ImageOp {
    type Err = ParseError;

    /// Reads one operation from its text form.
    fn from_str(s: &str) -> (out: Result<ImageOp, ParseError>)
        ensures
            out == parsed(s.spec_bytes()),
    {
        ImageOp::parse(s)
    }
}

} // verus!
