//! Source lines and their classification.
//!
//! Every non-empty source line is assigned exactly one kind, decided by its
//! leading byte: a letter or digit starts prose, `+` a choice, `=` a label,
//! `-` an end marker, and anything else is left unclassified.

use vstd::prelude::*;

use crate::ascii::{DIGIT_0, DIGIT_9, EQUALS, LOWER_A, LOWER_Z, MINUS, PLUS, UPPER_A, UPPER_Z};

verus! {

/// The kind of a classified source line.
#[derive(Debug, PartialEq, Eq, Structural, Clone, Copy)]
pub enum LineType {
    /// Not (or not yet) recognized as any of the other kinds.
    Undefined,
    /// A prose line, emitted literally.
    Text,
    /// A choice line: `+ [prompt] -> target`.
    Question,
    /// A label line: `=== name`; records an offset, emits nothing.
    Bookmark,
    /// An end marker line: `-> END`.
    End,
}

/// One source line: its raw bytes and its classified kind.
pub struct Line {
    pub text: Vec<u8>,
    pub type_: LineType,
}

/// Mathematical image of a [`Line`]: the byte sequence and the kind.
pub struct LineV {
    pub text: Seq<u8>,
    pub kind: LineType,
}

impl View for Line {
    type V = LineV;

    open spec fn view(&self) -> LineV {
        LineV { text: self.text@, kind: self.type_ }
    }
}

/// The kind that a line whose first byte is `b` belongs to.
pub open spec fn classify_byte(b: u8) -> LineType {
    if (LOWER_A <= b && b <= LOWER_Z) || (UPPER_A <= b && b <= UPPER_Z) || (DIGIT_0 <= b && b <= DIGIT_9) {
        LineType::Text
    } else if b == PLUS {
        LineType::Question
    } else if b == EQUALS {
        LineType::Bookmark
    } else if b == MINUS {
        LineType::End
    } else {
        LineType::Undefined
    }
}

/// The kind of a whole line: decided by its leading byte; an empty line is
/// left unclassified.
pub open spec fn classify_line(text: Seq<u8>) -> LineType {
    if text.len() == 0 {
        LineType::Undefined
    } else {
        classify_byte(text[0])
    }
}

/// Classifies one raw line by its leading byte.
pub fn classify(text: &Vec<u8>) -> (t: LineType)
    ensures
        t == classify_line(text@),
{
    if text.len() == 0 {
        return LineType::Undefined;
    }
    let b = text[0];
    if (LOWER_A <= b && b <= LOWER_Z) || (UPPER_A <= b && b <= UPPER_Z) || (DIGIT_0 <= b && b <= DIGIT_9) {
        LineType::Text
    } else if b == PLUS {
        LineType::Question
    } else if b == EQUALS {
        LineType::Bookmark
    } else if b == MINUS {
        LineType::End
    } else {
        LineType::Undefined
    }
}

impl Line {
    /// A fresh, not yet classified line holding `text`.
    pub fn new(text: Vec<u8>) -> (r: Self)
        ensures
            r@.text == text@,
            r@.kind == LineType::Undefined,
    {
        Self { text, type_: LineType::Undefined }
    }
}

} // verus!
