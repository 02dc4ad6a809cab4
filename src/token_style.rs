//! A set of style flags, one bit each.
use vstd::prelude::*;

use crate::style_flags::{BACKGROUND, BOLD, ERROR, FADED, ITALIC, STRIKETHROUGH, UNDERLINE, WARNING};

verus! {

/// Style flags, from the lowest bit up: bold, italic, underline,
/// strikethrough, error, warning, faded, background.
#[derive(Clone, Copy, Debug, PartialEq, Eq, Structural)]
pub struct TokenStyle {
    pub flags: u8,
}

impl TokenStyle {
    pub fn new(flags: u8) -> (r: Self)
        ensures
            r.flags == flags,
    {
        TokenStyle { flags }
    }

    /// Sets (`value`) or clears the bits of `flag`, leaving the others.
    pub fn set_flag(&mut self, flag: u8, value: bool)
        ensures
            final(self).flags == if value {
                old(self).flags | flag
            } else {
                old(self).flags & !flag
            },
    {
        if value {
            self.flags = self.flags | flag;
        } else {
            self.flags = self.flags & !flag;
        }
    }

    pub fn is_bold(&self) -> (r: bool)
        ensures
            r == (self.flags & BOLD != 0),
    {
        self.flags & BOLD != 0
    }

    pub fn is_italic(&self) -> (r: bool)
        ensures
            r == (self.flags & ITALIC != 0),
    {
        self.flags & ITALIC != 0
    }

    pub fn is_underline(&self) -> (r: bool)
        ensures
            r == (self.flags & UNDERLINE != 0),
    {
        self.flags & UNDERLINE != 0
    }

    pub fn is_strikethrough(&self) -> (r: bool)
        ensures
            r == (self.flags & STRIKETHROUGH != 0),
    {
        self.flags & STRIKETHROUGH != 0
    }

    pub fn is_error(&self) -> (r: bool)
        ensures
            r == (self.flags & ERROR != 0),
    {
        self.flags & ERROR != 0
    }

    pub fn is_warning(&self) -> (r: bool)
        ensures
            r == (self.flags & WARNING != 0),
    {
        self.flags & WARNING != 0
    }

    pub fn is_faded(&self) -> (r: bool)
        ensures
            r == (self.flags & FADED != 0),
    {
        self.flags & FADED != 0
    }

    pub fn is_background(&self) -> (r: bool)
        ensures
            r == (self.flags & BACKGROUND != 0),
    {
        self.flags & BACKGROUND != 0
    }

    pub fn clear_flags(&mut self)
        ensures
            final(self).flags == 0,
    {
        self.flags = 0;
    }

    pub fn set_flags(&mut self, flags: u8)
        ensures
            final(self).flags == flags,
    {
        self.flags = flags;
    }
}

} // verus!
