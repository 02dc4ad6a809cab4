//! Tokens of highlighted text.
use vstd::prelude::*;

use crate::cursor::IdxSize;
use crate::styles::{BOLD, ITALIC, STRIKETHROUGH};

verus! {

/// The language a text is highlighted as; `Plain` is none.
pub enum Semantics {
    Plain,
    JSON,
    ES3,
    ES3JSON,
    ES3asm,
    MD,
    LangServer(String),
}

/// How a token is underlined, with the colour of the line; `Plain` is no underline.
#[derive(Clone, Copy, Debug)]
pub enum UnderlineStyle {
    Plain,
    Normal((u8, u8, u8, u8)),
    Squiggly((u8, u8, u8, u8)),
    Dotted((u8, u8, u8, u8)),
}

/// Layout instructions among the tokens of a text.
#[derive(Clone, Copy, Debug, PartialEq, Eq, Structural)]
pub enum ControlToken {
    Newline,
    Tab,
    CarriageReturn,
    LineDelta(IdxSize),
    ColDelta(IdxSize),
}

/// A run of text with its colour, underline and style bits.
pub struct SemanticToken {
    pub content: String,
    pub color: (u8, u8, u8, u8),
    pub underline_style: UnderlineStyle,
    pub styles: u8,
}

impl SemanticToken {
    pub fn new(content: String, color: (u8, u8, u8, u8), underline_style: UnderlineStyle, styles: u8) -> (r: Self)
        ensures
            r.content@ == content@,
            r.color == color,
            r.underline_style == underline_style,
            r.styles == styles,
    {
        SemanticToken { content, color, underline_style, styles }
    }

    pub fn set_bold(&mut self, bold: bool)
        ensures
            final(self).styles == if bold {
                old(self).styles | BOLD
            } else {
                old(self).styles & !BOLD
            },
            final(self).content == old(self).content,
            final(self).color == old(self).color,
            final(self).underline_style == old(self).underline_style,
    {
        if bold {
            self.styles = self.styles | BOLD;
        } else {
            self.styles = self.styles & !BOLD;
        }
    }

    pub fn set_italic(&mut self, italic: bool)
        ensures
            final(self).styles == if italic {
                old(self).styles | ITALIC
            } else {
                old(self).styles & !ITALIC
            },
            final(self).content == old(self).content,
            final(self).color == old(self).color,
            final(self).underline_style == old(self).underline_style,
    {
        if italic {
            self.styles = self.styles | ITALIC;
        } else {
            self.styles = self.styles & !ITALIC;
        }
    }

    pub fn set_strikethrough(&mut self, strikethrough: bool)
        ensures
            final(self).styles == if strikethrough {
                old(self).styles | STRIKETHROUGH
            } else {
                old(self).styles & !STRIKETHROUGH
            },
            final(self).content == old(self).content,
            final(self).color == old(self).color,
            final(self).underline_style == old(self).underline_style,
    {
        if strikethrough {
            self.styles = self.styles | STRIKETHROUGH;
        } else {
            self.styles = self.styles & !STRIKETHROUGH;
        }
    }

    /// Keeps the three style bits of `style` and drops the rest.
    pub fn set_style(&mut self, style: u8)
        ensures
            final(self).styles == style & 0b111,
            final(self).content == old(self).content,
            final(self).color == old(self).color,
            final(self).underline_style == old(self).underline_style,
    {
        self.styles = style & 0b111;
    }
}

} // verus!
