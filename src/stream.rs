use vstd::prelude::*;
use vstd::slice::slice_to_vec;

verus! {

/// A forward cursor over a resident byte buffer, with one saved position
/// that a speculative sub-parse can return to.
pub struct MessageStream {
    pub data: Vec<u8>,
    pub pos: usize,
    pub saved: usize,
}

impl MessageStream {
    /// Both positions lie within the buffer.
    pub open spec fn wf(&self) -> bool {
        self.pos <= self.data@.len() && self.saved <= self.data@.len()
    }

    /// The bytes not yet consumed.
    pub open spec fn rest(&self) -> Seq<u8> {
        self.data@.skip(self.pos as int)
    }

    pub fn new(data: &[u8]) -> (r: MessageStream)
        ensures
            r.wf(),
            r.data@ == data@,
            r.pos == 0,
    {
        MessageStream { data: slice_to_vec(data), pos: 0, saved: 0 }
    }

    /// Consumes and returns the next byte, or `None` at the end of the buffer.
    pub fn next(&mut self) -> (r: Option<u8>)
        requires
            old(self).wf(),
        ensures
            final(self).wf(),
            final(self).data == old(self).data,
            final(self).saved == old(self).saved,
            old(self).pos < old(self).data@.len() ==> r == Some(old(self).data@[old(self).pos as int])
                && final(self).pos == old(self).pos + 1,
            old(self).pos >= old(self).data@.len() ==> r is None && final(self).pos == old(self).pos,
    {
        if self.pos < self.data.len() {
            let b = self.data[self.pos];
            self.pos = self.pos + 1;
            Some(b)
        } else {
            None
        }
    }

    /// Tells whether the next byte is `ch`, without consuming it.
    pub fn peek_char(&self, ch: u8) -> (r: bool)
        requires
            self.wf(),
        ensures
            r == (self.pos < self.data@.len() && self.data@[self.pos as int] == ch),
    {
        self.pos < self.data.len() && self.data[self.pos] == ch
    }

    /// Tells whether the next byte is a space or a tab, without consuming it.
    pub fn try_next_is_space(&self) -> (r: bool)
        requires
            self.wf(),
        ensures
            r == (self.pos < self.data@.len() && is_blank(self.data@[self.pos as int])),
    {
        self.pos < self.data.len() && (self.data[self.pos] == SP || self.data[self.pos] == TAB)
    }

    /// Saves the current position.
    pub fn checkpoint(&mut self)
        requires
            old(self).wf(),
        ensures
            final(self).wf(),
            final(self).data == old(self).data,
            final(self).pos == old(self).pos,
            final(self).saved == old(self).pos,
    {
        self.saved = self.pos;
    }

    /// Returns to the saved position.
    pub fn restore(&mut self)
        requires
            old(self).wf(),
        ensures
            final(self).wf(),
            final(self).data == old(self).data,
            final(self).pos == old(self).saved,
            final(self).saved == old(self).saved,
    {
        self.pos = self.saved;
    }

    /// The number of bytes consumed so far; after `next` returned a byte,
    /// the one-based position of that byte.
    pub fn offset(&self) -> (r: usize)
        ensures
            r == self.pos,
    {
        self.pos
    }
}

pub const TAB: u8 = 0x09;

pub const LF: u8 = 0x0a;

pub const CR: u8 = 0x0d;

pub const SP: u8 = 0x20;

/// A space or a horizontal tab.
pub open spec fn is_blank(b: u8) -> bool {
    b == SP || b == TAB
}

} // verus!
