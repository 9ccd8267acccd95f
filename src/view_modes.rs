//! The small pieces of viewer state: which buffer is shown, how cells are
//! labelled and colored, and per-byte helpers for the cell text and the
//! difference between the two buffers.
use vstd::prelude::*;

verus! {

/// Which of the two loaded buffers is active.
#[derive(Debug, Clone, Copy, PartialEq, Eq, Structural)]
pub enum WhichFile {
    File0,
    File1,
}

impl WhichFile {
    /// The other buffer.
    pub fn next(&self) -> (r: Self)
        ensures
            r != *self,
    {
        match self {
            WhichFile::File0 => WhichFile::File1,
            WhichFile::File1 => WhichFile::File0,
        }
    }
}

/// How a single cell is labelled.
#[derive(Debug, Clone, Copy, PartialEq, Eq, Structural)]
pub enum CellViewMode {
    Hex,
    Ascii,
}

impl CellViewMode {
    /// The other labelling.
    pub fn next(&self) -> (r: Self)
        ensures
            r != *self,
    {
        match self {
            CellViewMode::Hex => CellViewMode::Ascii,
            CellViewMode::Ascii => CellViewMode::Hex,
        }
    }
}

/// How cells and blocks are colored.
#[derive(Debug, Clone, Copy, PartialEq, Eq, Structural)]
pub enum ColorMode {
    Value,
    Diff,
    Semantic01,
}

impl ColorMode {
    /// The following mode, cycling Value, Diff, Semantic01.
    pub fn next(&self) -> (r: Self)
        ensures
            *self == ColorMode::Value ==> r == ColorMode::Diff,
            *self == ColorMode::Diff ==> r == ColorMode::Semantic01,
            *self == ColorMode::Semantic01 ==> r == ColorMode::Value,
    {
        match self {
            ColorMode::Value => ColorMode::Diff,
            ColorMode::Diff => ColorMode::Semantic01,
            ColorMode::Semantic01 => ColorMode::Value,
        }
    }
}

/// Which layers of the view are drawn.
#[derive(Debug, Clone, Copy, PartialEq, Eq)]
pub struct UIConfig {
    pub final_incomplete_block: bool,
    pub cell_text: bool,
    pub block_address_text: bool,
    pub block_group_outline: bool,
    pub selection_boxes: bool,
    pub selection_border_corner_points: bool,
    pub selection_border: bool,
    pub selected_subblock_boxes: bool,
    pub selected_block: bool,
    pub cursor: bool,
}

/// The upper-case hexadecimal digit of `d`.
pub open spec fn hex_digit(d: int) -> char {
    if d < 10 {
        (48 + d) as char
    } else {
        (55 + d) as char
    }
}

/// The label of a byte: two upper-case hexadecimal digits, or the character
/// itself where it is printable ASCII other than space, else a dot.
pub open spec fn byte_label(byte: u8, mode: CellViewMode) -> Seq<char> {
    match mode {
        CellViewMode::Hex => seq![hex_digit(byte as int / 16), hex_digit(byte as int % 16)],
        CellViewMode::Ascii => if 0x21 <= byte <= 0x7e {
            seq![byte as char]
        } else {
            seq!['.']
        },
    }
}

/// Relies on `String::push`: appends one character.
#[verifier::external_body]
fn push_char(s: &mut String, c: char)
    ensures
        final(s)@ == old(s)@.push(c),
{
    s.push(c)
}

fn hex_char(d: u8) -> (r: char)
    requires
        d < 16,
    ensures
        r == hex_digit(d as int),
{
    if d < 10 {
        (48 + d) as char
    } else {
        (55 + d) as char
    }
}

/// The text shown in the cell of `byte`.
pub fn byte_text(byte: u8, cell_view_mode: CellViewMode) -> (r: String)
    ensures
        r@ == byte_label(byte, cell_view_mode),
{
    let mut text = String::new();
    match cell_view_mode {
        CellViewMode::Hex => {
            push_char(&mut text, hex_char(byte / 16));
            push_char(&mut text, hex_char(byte % 16));
            proof {
                assert(text@ =~= byte_label(byte, cell_view_mode));
            }
        },
        CellViewMode::Ascii => {
            if 0x21 <= byte && byte <= 0x7e {
                push_char(&mut text, byte as char);
            } else {
                push_char(&mut text, '.');
            }
            proof {
                assert(text@ =~= byte_label(byte, cell_view_mode));
            }
        },
    }
    text
}

/// Whether the two buffers differ at `index`: `Some(1)` where both hold a byte
/// there and the bytes differ, `Some(0)` where they agree, `None` where either
/// buffer is missing or too short.
pub fn diff_at_index(data0: Option<&[u8]>, data1: Option<&[u8]>, index: usize) -> (r: Option<
    usize,
>)
    ensures
        r == match (data0, data1) {
            (Some(d0), Some(d1)) => if index < d0@.len() && index < d1@.len() {
                Some(if d0@[index as int] == d1@[index as int] { 0usize } else { 1usize })
            } else {
                None
            },
            _ => None,
        },
{
    if let (Some(d0), Some(d1)) = (data0, data1) {
        if index < d0.len() && index < d1.len() {
            return Some(if d0[index] == d1[index] { 0 } else { 1 });
        }
    }
    None
}

} // verus!
