//! The byte cursor: holds the input buffer and a read position.
//!
//! `getc` hands out the input one byte at a time as an `i32`, and the
//! end-of-input sentinel [`EOZ`] once the buffer is exhausted.  The cursor
//! never rewinds.

use vstd::prelude::*;
use vstd::string::StringSliceAdditionalSpecFns;

verus! {

/// End-of-input sentinel returned by [`Source::getc`]; distinct from every
/// byte value.
pub const EOZ: i32 = -1;

/// The character value the cursor yields at position `p` of input `s`:
/// the byte widened to `i32`, or [`EOZ`] past the end.
pub open spec fn byte_at(s: Seq<u8>, p: int) -> i32 {
    if 0 <= p < s.len() {
        s[p] as i32
    } else {
        EOZ
    }
}

pub struct Source {
    bytes: Vec<u8>,
    n: usize,
}

impl Source {
    /// The whole input buffer.
    pub closed spec fn input(&self) -> Seq<u8> {
        self.bytes@
    }

    /// The read position: how many bytes have been handed out.
    pub closed spec fn pos(&self) -> int {
        self.n as int
    }

    pub open spec fn wf(&self) -> bool {
        0 <= self.pos() <= self.input().len() && self.input().len() <= usize::MAX
    }

    pub fn new(input: &str) -> (s: Source)
        ensures
            s.wf(),
            s.input() == input.spec_bytes(),
            s.pos() == 0,
    {
        let bytes = vstd::slice::slice_to_vec(input.as_bytes());
        proof {
            assert(bytes@.len() == vstd::std_specs::vec::spec_vec_len(&bytes));
        }
        Source { bytes, n: 0 }
    }

    /// Read the next byte, or `EOZ` once the input is exhausted.
    pub fn getc(&mut self) -> (ch: i32)
        requires
            old(self).wf(),
        ensures
            final(self).wf(),
            final(self).input() == old(self).input(),
            ch == byte_at(old(self).input(), old(self).pos()),
            final(self).pos() == if old(self).pos() < old(self).input().len() {
                old(self).pos() + 1
            } else {
                old(self).pos()
            },
    {
        if self.n >= self.bytes.len() {
            EOZ
        } else {
            let ch = self.bytes[self.n];
            self.n = self.n + 1;
            ch as i32
        }
    }
}

} // verus!
