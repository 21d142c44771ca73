//! Parsing choice lines.
//!
//! A choice line has the shape `+ [prompt] -> target`: the prompt is the
//! substring between the first `[` and the first `]` after it, and the target
//! name is the substring after the first `->` marker, trimmed of surrounding
//! blanks. A line missing either part is malformed.

use vstd::prelude::*;

use crate::ascii::LBRACKET;
use crate::ascii::RBRACKET;
use crate::ascii::SPACE;
use crate::ascii::TAB;
use crate::bytestr::find_arrow;
use crate::bytestr::find_byte;
use crate::bytestr::first_arrow_at_or_after;
use crate::bytestr::first_at_or_after;
use crate::bytestr::copy_range;
use crate::bytestr::lemma_first_arrow_at_or_after;
use crate::bytestr::lemma_first_at_or_after;
use crate::bytestr::trim_pad;
use crate::bytestr::trim_range;

verus! {

/// A choice as it stands in the output stream: the prompt text and the
/// position of the 5-digit jump field emitted for it.
pub struct Question {
    pub text: Vec<u8>,
    pub jump_pos: usize,
}

/// The decomposition of a choice line into `(prompt, target)`, or `None` when
/// the line is malformed: the prompt is the substring between the first `[`
/// and the first `]` after it, the target is the substring after the first
/// `->`, trimmed of blanks; either part missing (or an empty target) makes
/// the line malformed.
pub open spec fn parse_choice(t: Seq<u8>) -> Option<(Seq<u8>, Seq<u8>)> {
    let lb = first_at_or_after(t, LBRACKET, 0);
    if lb == t.len() {
        None
    } else {
        let rb = first_at_or_after(t, RBRACKET, lb + 1);
        if rb == t.len() {
            None
        } else {
            let ar = first_arrow_at_or_after(t, 0);
            if ar == t.len() {
                None
            } else {
                let target = trim_pad(t.subrange(ar + 2, t.len() as int), SPACE, TAB);
                if target.len() == 0 {
                    None
                } else {
                    Some((t.subrange(lb + 1, rb), target))
                }
            }
        }
    }
}

/// Decomposes a choice line into its prompt and target name, or reports that
/// the line is malformed.
pub fn parse_choice_line(text: &Vec<u8>) -> (r: Option<(Vec<u8>, Vec<u8>)>)
    ensures
        match r {
            Some(p) => parse_choice(text@) == Some((p.0@, p.1@)),
            None => parse_choice(text@) is None,
        },
{
    proof {
        lemma_first_at_or_after(text@, LBRACKET, 0);
    }
    let lb = find_byte(text, LBRACKET, 0);
    if lb == text.len() {
        return None;
    }
    proof {
        lemma_first_at_or_after(text@, RBRACKET, lb + 1);
    }
    let rb = find_byte(text, RBRACKET, lb + 1);
    if rb == text.len() {
        return None;
    }
    proof {
        lemma_first_arrow_at_or_after(text@, 0);
    }
    let ar = find_arrow(text, 0);
    if ar == text.len() {
        return None;
    }
    let target = trim_range(text, ar + 2, text.len(), SPACE, TAB);
    if target.len() == 0 {
        return None;
    }
    let prompt = copy_range(text, lb + 1, rb);
    Some((prompt, target))
}

} // verus!
