//! A byte cursor with the variable-length numbers of picture headers.

use vstd::prelude::*;

use crate::bytes::{le16, le32, u16_at, u32_at};

verus! {

/// The compressed word at `pos` and where it ends: one byte, whose value is
/// half of it, where that byte is even; otherwise half of a 16-bit number.
pub open spec fn cword_at(data: Seq<u8>, pos: int) -> Option<(u32, int)> {
    if pos + 1 > data.len() {
        None
    } else if data[pos] % 2 == 0 {
        Some(((data[pos] / 2) as u32, pos + 1))
    } else if pos + 2 > data.len() {
        None
    } else {
        Some(((le16(data, pos) / 2) as u32, pos + 2))
    }
}

/// The compressed double word at `pos` and where it ends: half of a 16-bit
/// number where that number is even; otherwise half of a 32-bit number.
pub open spec fn cdword_at(data: Seq<u8>, pos: int) -> Option<(u32, int)> {
    if pos + 2 > data.len() {
        None
    } else if le16(data, pos) % 2 == 0 {
        Some(((le16(data, pos) / 2) as u32, pos + 2))
    } else if pos + 4 > data.len() {
        None
    } else {
        Some((le32(data, pos) / 2, pos + 4))
    }
}

/// A position in a byte slice.
pub struct Cursor<'a> {
    data: &'a [u8],
    pos: usize,
}

impl<'a> Cursor<'a> {
    /// The bytes that are read.
    pub closed spec fn source(&self) -> Seq<u8> {
        self.data@
    }

    /// The position.
    pub closed spec fn at(&self) -> int {
        self.pos as int
    }

    /// The position lies within the bytes.
    pub closed spec fn wf(&self) -> bool {
        self.pos <= self.data@.len()
    }

    /// A cursor at the start of `data`.
    pub fn new(data: &'a [u8]) -> (c: Self)
        ensures
            c.wf(),
            c.source() == data@,
            c.at() == 0,
    {
        Cursor { data, pos: 0 }
    }

    /// A cursor at `pos`.
    pub fn new_at(data: &'a [u8], pos: usize) -> (c: Self)
        requires
            pos <= data@.len(),
        ensures
            c.wf(),
            c.source() == data@,
            c.at() == pos,
    {
        Cursor { data, pos }
    }

    /// The position.
    pub fn pos(&self) -> (p: usize)
        requires
            self.wf(),
        ensures
            p == self.at(),
            p <= self.source().len(),
    {
        self.pos
    }

    /// Reads a 16-bit number.
    pub fn take_u16(&mut self) -> (r: Option<u16>)
        requires
            old(self).wf(),
        ensures
            final(self).wf(),
            final(self).source() == old(self).source(),
            match r {
                Some(n) => old(self).at() + 2 <= old(self).source().len() && n == le16(
                    old(self).source(),
                    old(self).at(),
                ) && final(self).at() == old(self).at() + 2,
                None => old(self).at() + 2 > old(self).source().len(),
            },
    {
        if self.data.len() - self.pos < 2 {
            return None;
        }
        let n: u16 = u16_at(self.data, self.pos);
        self.pos = self.pos + 2;
        Some(n)
    }

    /// Reads a 32-bit number.
    pub fn take_u32(&mut self) -> (r: Option<u32>)
        requires
            old(self).wf(),
        ensures
            final(self).wf(),
            final(self).source() == old(self).source(),
            match r {
                Some(n) => old(self).at() + 4 <= old(self).source().len() && n == le32(
                    old(self).source(),
                    old(self).at(),
                ) && final(self).at() == old(self).at() + 4,
                None => old(self).at() + 4 > old(self).source().len(),
            },
    {
        if self.data.len() - self.pos < 4 {
            return None;
        }
        let n: u32 = u32_at(self.data, self.pos);
        self.pos = self.pos + 4;
        Some(n)
    }

    /// Reads a compressed word.
    pub fn take_cword(&mut self) -> (r: Option<u32>)
        requires
            old(self).wf(),
        ensures
            final(self).wf(),
            final(self).source() == old(self).source(),
            match r {
                Some(n) => cword_at(old(self).source(), old(self).at()) == Some(
                    (n, final(self).at()),
                ),
                None => cword_at(old(self).source(), old(self).at()) == None::<(u32, int)>,
            },
            r matches Some(n) ==> n <= 0x7FFF,
    {
        if self.data.len() - self.pos < 1 {
            return None;
        }
        let b: u8 = self.data[self.pos];
        if b % 2 == 0 {
            self.pos = self.pos + 1;
            Some((b / 2) as u32)
        } else {
            match self.take_u16() {
                Some(n) => Some((n / 2) as u32),
                None => None,
            }
        }
    }

    /// Reads a compressed double word.
    pub fn take_cdword(&mut self) -> (r: Option<u32>)
        requires
            old(self).wf(),
        ensures
            final(self).wf(),
            final(self).source() == old(self).source(),
            match r {
                Some(n) => cdword_at(old(self).source(), old(self).at()) == Some(
                    (n, final(self).at()),
                ),
                None => cdword_at(old(self).source(), old(self).at()) == None::<(u32, int)>,
            },
            r matches Some(n) ==> n <= 0x7FFF_FFFF,
    {
        if self.data.len() - self.pos < 2 {
            return None;
        }
        let n: u16 = u16_at(self.data, self.pos);
        if n % 2 == 0 {
            self.pos = self.pos + 2;
            Some((n / 2) as u32)
        } else {
            match self.take_u32() {
                Some(n) => Some(n / 2),
                None => None,
            }
        }
    }
}

} // verus!
