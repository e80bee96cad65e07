//! The string interner: a bump-allocated arena of fixed-size pages plus a
//! content-keyed set of entries.
//!
//! Every distinct byte sequence seen during a lexing session is stored
//! exactly once; interning it again returns the existing handle.  Handles
//! compare equal exactly when the interned contents are equal, so equality of
//! interned text is a constant-time handle comparison.  The arena only grows:
//! interned text lives for the whole session.
//!
//! A new sequence is copied into the first existing page with enough room
//! left (first fit), or into a fresh page when none fits.  A sequence longer
//! than one page cannot be stored and is rejected with an error.

use vstd::prelude::*;

use crate::keywords::keyword_code;
use crate::keywords::spec_keyword;

verus! {

/// Capacity of one arena page in bytes.  A byte sequence longer than this
/// cannot be interned: strings never span pages.
pub const PAGE_CAPACITY: usize = 1024;

/// Failure of [`Interner::intern`]: the byte sequence does not fit in one
/// arena page.
#[derive(Debug, Clone, Copy, PartialEq, Eq)]
pub enum InternError {
    StringTooLarge,
}

/// An opaque, copyable handle to interned text.  Two handles of one interner
/// compare equal exactly when the interned byte contents are equal.
#[derive(Debug, Clone, Copy, PartialEq, Eq, Structural)]
pub struct StringRef {
    pub idx: usize,
}

/// A fixed-capacity byte buffer allocated on demand and never freed; its
/// write cursor is the current length of `data`.
struct Page {
    data: Vec<u8>,
}

/// One interned byte sequence: where its copy lives in the arena, and its
/// keyword mark when the bytes spell a reserved word.
#[derive(Clone, Copy)]
struct InternedString {
    page: usize,
    start: usize,
    len: usize,
    reserved: Option<i32>,
}

pub struct Interner {
    pages: Vec<Page>,
    entries: Vec<InternedString>,
}

/// The interner's contents after interning `s`: unchanged when `s` is
/// already present, extended by `s` otherwise.
pub open spec fn spec_interned(c: Seq<Seq<u8>>, s: Seq<u8>) -> Seq<Seq<u8>> {
    if c.contains(s) {
        c
    } else {
        c.push(s)
    }
}

/// The first index at or after `k` of a page with room for `n` more bytes,
/// or the page count when no page has room.
pub open spec fn first_fit_from(pv: Seq<Seq<u8>>, n: int, k: int) -> int
    decreases pv.len() - k,
{
    if k < 0 || k >= pv.len() {
        pv.len() as int
    } else if pv[k].len() + n <= PAGE_CAPACITY {
        k
    } else {
        first_fit_from(pv, n, k + 1)
    }
}

/// The allocation policy's choice of page for `n` more bytes: the first
/// existing page with enough remaining capacity, or the page count when a
/// fresh page must be allocated.
pub open spec fn first_fit(pv: Seq<Seq<u8>>, n: int) -> int {
    first_fit_from(pv, n, 0)
}

/// The arena after copying `s` into it: appended to the first existing page
/// with room (first fit across all pages, not last-page-only), or into a
/// fresh page when no existing page fits.
pub open spec fn spec_allocated(pv: Seq<Seq<u8>>, s: Seq<u8>) -> Seq<Seq<u8>> {
    let k = first_fit(pv, s.len() as int);
    if k < pv.len() {
        pv.update(k, pv[k] + s)
    } else {
        pv.push(s)
    }
}

impl Interner {
    /// The bytes of entry `i`.
    closed spec fn entry_bytes(&self, i: int) -> Seq<u8> {
        let e = self.entries@[i];
        self.pages@[e.page as int].data@.subrange(e.start as int, e.start + e.len)
    }

    /// The interned byte sequences, in order of first interning; a
    /// [`StringRef`] is an index into this sequence.
    pub closed spec fn contents(&self) -> Seq<Seq<u8>> {
        Seq::new(self.entries@.len(), |i: int| self.entry_bytes(i))
    }

    /// The contents of the arena's pages, in allocation order.
    pub closed spec fn arena(&self) -> Seq<Seq<u8>> {
        Seq::new(self.pages@.len(), |i: int| self.pages@[i].data@)
    }

    pub closed spec fn wf(&self) -> bool {
        &&& forall|p: int|
            0 <= p < self.pages@.len() ==> (#[trigger] self.pages@[p].data@.len())
                <= PAGE_CAPACITY
        &&& forall|i: int|
            0 <= i < self.entries@.len() ==> {
                let e = #[trigger] self.entries@[i];
                e.page < self.pages@.len() && e.start + e.len <= self.pages@[
                    e.page as int
                ].data@.len()
            }
        &&& forall|i: int, j: int|
            0 <= i < j < self.entries@.len() ==> self.entry_bytes(i) != self.entry_bytes(j)
        &&& forall|i: int|
            0 <= i < self.entries@.len() ==> (#[trigger] self.entries@[i].reserved)
                == spec_keyword(self.entry_bytes(i))
    }

    /// Distinct handles always hold distinct contents: content equality is
    /// handle equality, never a byte comparison.
    pub proof fn lemma_handle_equality(&self, a: StringRef, b: StringRef)
        requires
            self.wf(),
            a.idx < self.contents().len(),
            b.idx < self.contents().len(),
        ensures
            (a == b) <==> (self.contents()[a.idx as int] == self.contents()[b.idx as int]),
    {
        if a.idx != b.idx {
            if a.idx < b.idx {
                assert(self.entry_bytes(a.idx as int) != self.entry_bytes(b.idx as int));
            } else {
                assert(self.entry_bytes(b.idx as int) != self.entry_bytes(a.idx as int));
            }
        }
    }

    pub fn new() -> (it: Interner)
        ensures
            it.wf(),
            it.contents() == Seq::<Seq<u8>>::empty(),
    {
        let it = Interner { pages: Vec::new(), entries: Vec::new() };
        proof {
            assert(it.contents() =~= Seq::<Seq<u8>>::empty());
        }
        it
    }

    /// How many distinct byte sequences have been interned.
    pub fn count(&self) -> (n: usize)
        ensures
            n == self.contents().len(),
    {
        self.entries.len()
    }

    /// Whether entry `i` holds exactly the bytes of `bytes`.
    fn entry_matches(&self, i: usize, bytes: &Vec<u8>) -> (r: bool)
        requires
            self.wf(),
            i < self.contents().len(),
        ensures
            r == (self.contents()[i as int] == bytes@),
    {
        let e = self.entries[i];
        if e.len != bytes.len() {
            return false;
        }
        let mut k: usize = 0;
        while k < e.len
            invariant
                self.wf(),
                i < self.entries@.len(),
                e == self.entries@[i as int],
                e.len == bytes@.len(),
                0 <= k <= e.len,
                forall|m: int|
                    0 <= m < k ==> self.contents()[i as int][m] == bytes@[m],
            decreases e.len - k,
        {
            if self.pages[e.page].data[e.start + k] != bytes[k] {
                proof {
                    assert(self.contents()[i as int][k as int] != bytes@[k as int]);
                }
                return false;
            }
            k = k + 1;
        }
        proof {
            assert(self.contents()[i as int] =~= bytes@);
        }
        true
    }

    /// Content-keyed lookup: the handle of the entry with exactly these
    /// bytes, if one exists.
    fn lookup(&self, bytes: &Vec<u8>) -> (r: Option<StringRef>)
        requires
            self.wf(),
        ensures
            match r {
                Some(sr) => sr.idx < self.contents().len() && self.contents()[sr.idx as int]
                    == bytes@,
                None => forall|i: int|
                    0 <= i < self.contents().len() ==> self.contents()[i] != bytes@,
            },
    {
        let n = self.entries.len();
        let mut i: usize = 0;
        while i < n
            invariant
                self.wf(),
                n == self.contents().len(),
                0 <= i <= n,
                forall|m: int| 0 <= m < i ==> self.contents()[m] != bytes@,
            decreases n - i,
        {
            if self.entry_matches(i, bytes) {
                return Some(StringRef { idx: i });
            }
            i = i + 1;
        }
        None
    }

    /// The index of the first page with room for `n` more bytes, if any.
    fn find_page(&self, n: usize) -> (r: Option<usize>)
        requires
            self.wf(),
            n <= PAGE_CAPACITY,
        ensures
            r matches Some(p) ==> p < self.pages@.len() && self.pages@[p as int].data@.len() + n
                <= PAGE_CAPACITY && p == first_fit(self.arena(), n as int),
            r is None ==> first_fit(self.arena(), n as int) == self.arena().len(),
    {
        let npages = self.pages.len();
        let mut p: usize = 0;
        while p < npages
            invariant
                self.wf(),
                npages == self.pages@.len(),
                n <= PAGE_CAPACITY,
                0 <= p <= npages,
                first_fit(self.arena(), n as int) == first_fit_from(
                    self.arena(),
                    n as int,
                    p as int,
                ),
            decreases npages - p,
        {
            if self.pages[p].data.len() <= PAGE_CAPACITY - n {
                return Some(p);
            }
            p = p + 1;
        }
        None
    }

    /// Intern a byte sequence: return the existing handle when identical
    /// bytes were interned before, otherwise copy the bytes into the arena
    /// and register a new handle.  Fails exactly when the sequence exceeds
    /// one page's capacity.
    pub fn intern(&mut self, bytes: &Vec<u8>) -> (r: Result<StringRef, InternError>)
        requires
            old(self).wf(),
        ensures
            final(self).wf(),
            (r is Ok) <==> bytes@.len() <= PAGE_CAPACITY,
            r matches Ok(sr) ==> {
                &&& final(self).contents() == spec_interned(old(self).contents(), bytes@)
                &&& sr.idx < final(self).contents().len()
                &&& final(self).contents()[sr.idx as int] == bytes@
                &&& final(self).arena() == (if old(self).contents().contains(bytes@) {
                    old(self).arena()
                } else {
                    spec_allocated(old(self).arena(), bytes@)
                })
            },
            r is Err ==> final(self).contents() == old(self).contents() && final(self).arena()
                == old(self).arena(),
    {
        let n = bytes.len();
        if n > PAGE_CAPACITY {
            return Err(InternError::StringTooLarge);
        }
        if let Some(sr) = self.lookup(bytes) {
            proof {
                assert(old(self).contents().contains(bytes@));
            }
            return Ok(sr);
        }
        let page_idx: usize = match self.find_page(n) {
            Some(p) => p,
            None => {
                self.pages.push(Page { data: Vec::new() });
                self.pages.len() - 1
            },
        };
        let start = self.pages[page_idx].data.len();
        let ghost mid = *self;
        proof {
            assert forall|i: int| 0 <= i < mid.entries@.len() implies mid.entry_bytes(i) == old(
                self,
            ).entry_bytes(i) by {
                let ei = mid.entries@[i];
                assert(ei == old(self).entries@[i]);
                assert(mid.pages@[ei.page as int] == old(self).pages@[ei.page as int]);
            }
            assert(mid.contents() =~= old(self).contents());
            assert(mid.wf());
        }
        let mut k: usize = 0;
        while k < n
            invariant
                mid.wf(),
                mid.contents() == old(self).contents(),
                0 <= k <= n,
                n == bytes@.len(),
                n <= PAGE_CAPACITY,
                page_idx < self.pages@.len(),
                mid.pages@.len() == self.pages@.len(),
                mid.entries@ == self.entries@,
                start == mid.pages@[page_idx as int].data@.len(),
                start + n <= PAGE_CAPACITY,
                self.pages@[page_idx as int].data@ == mid.pages@[page_idx as int].data@
                    + bytes@.subrange(0, k as int),
                forall|p: int|
                    0 <= p < self.pages@.len() && p != page_idx ==> self.pages@[p]
                        == mid.pages@[p],
            decreases n - k,
        {
            let b = bytes[k];
            self.pages[page_idx].data.push(b);
            proof {
                assert(self.pages@[page_idx as int].data@ =~= mid.pages@[page_idx as int].data@
                    + bytes@.subrange(0, k + 1));
            }
            k = k + 1;
        }
        proof {
            assert(self.pages@[page_idx as int].data@ =~= mid.pages@[page_idx as int].data@
                + bytes@);
        }
        let reserved = keyword_code(bytes);
        let e = InternedString { page: page_idx, start, len: n, reserved };
        self.entries.push(e);
        let sr = StringRef { idx: self.entries.len() - 1 };
        proof {
            let newi = self.entries@.len() - 1;
            assert forall|i: int| 0 <= i < newi implies self.entry_bytes(i) == mid.entry_bytes(
                i,
            ) by {
                let ei = self.entries@[i];
                assert(ei == mid.entries@[i]);
                if ei.page == page_idx {
                    assert(self.pages@[ei.page as int].data@.subrange(
                        ei.start as int,
                        ei.start + ei.len,
                    ) =~= mid.pages@[ei.page as int].data@.subrange(
                        ei.start as int,
                        ei.start + ei.len,
                    ));
                } else {
                    assert(self.pages@[ei.page as int] == mid.pages@[ei.page as int]);
                }
            }
            assert(self.entry_bytes(newi) =~= bytes@);
            assert(!old(self).contents().contains(bytes@));
            assert(self.contents() =~= old(self).contents().push(bytes@));
            assert forall|i: int, j: int| 0 <= i < j < self.entries@.len() implies self.entry_bytes(
                i,
            ) != self.entry_bytes(j) by {
                if j < newi {
                    assert(mid.entry_bytes(i) != mid.entry_bytes(j));
                } else {
                    assert(self.entry_bytes(i) == old(self).contents()[i]);
                    assert(old(self).contents()[i] != bytes@);
                }
            }
            assert(self.pages@[page_idx as int].data@.len() == start + n);
            let pv0 = old(self).arena();
            let nn = bytes@.len() as int;
            if mid.pages@.len() == pv0.len() {
                // the bytes were copied into an existing page: the first fit
                assert(page_idx as int == first_fit(pv0, nn));
                assert(self.arena() =~~= pv0.update(
                    page_idx as int,
                    pv0[page_idx as int] + bytes@,
                ));
            } else {
                // no page had room: the bytes fill a fresh page
                assert(first_fit(pv0, nn) == pv0.len());
                assert(page_idx as int == pv0.len());
                assert(mid.pages@[page_idx as int].data@ =~= Seq::<u8>::empty());
                assert forall|i: int| 0 <= i < pv0.len() implies self.pages@[i].data@ == pv0[i] by {
                    assert(self.pages@[i] == mid.pages@[i]);
                    assert(mid.pages@[i] == old(self).pages@[i]);
                }
                assert(self.pages@[page_idx as int].data@ =~= bytes@);
                assert(self.arena() =~~= pv0.push(bytes@));
            }
            assert(self.arena() == spec_allocated(pv0, bytes@));
            assert forall|p: int| 0 <= p < self.pages@.len() implies (
            #[trigger] self.pages@[p].data@.len()) <= PAGE_CAPACITY by {
                if p != page_idx {
                    assert(self.pages@[p] == mid.pages@[p]);
                    assert(mid.pages@[p].data@.len() <= PAGE_CAPACITY);
                }
            }
            assert forall|i: int| 0 <= i < self.entries@.len() implies {
                let ei = #[trigger] self.entries@[i];
                ei.page < self.pages@.len() && ei.start + ei.len <= self.pages@[
                    ei.page as int
                ].data@.len()
            } by {
                let ei = self.entries@[i];
                if i < newi {
                    assert(ei == mid.entries@[i]);
                    if ei.page == page_idx {
                        assert(self.pages@[ei.page as int].data@.len() >= mid.pages@[
                            ei.page as int
                        ].data@.len());
                    } else {
                        assert(self.pages@[ei.page as int] == mid.pages@[ei.page as int]);
                    }
                }
            }
            assert forall|i: int| 0 <= i < self.entries@.len() implies (
            #[trigger] self.entries@[i].reserved) == spec_keyword(self.entry_bytes(i)) by {
                if i < newi {
                    assert(self.entries@[i] == mid.entries@[i]);
                    assert(self.entry_bytes(i) == mid.entry_bytes(i));
                    assert(mid.entries@[i].reserved == spec_keyword(mid.entry_bytes(i)));
                }
            }
        }
        Ok(sr)
    }

    /// The keyword mark of an interned byte sequence: the reserved word's
    /// token kind when the bytes spell one, `None` otherwise.
    pub fn is_reserved(&self, r: StringRef) -> (k: Option<i32>)
        requires
            self.wf(),
            r.idx < self.contents().len(),
        ensures
            k == spec_keyword(self.contents()[r.idx as int]),
    {
        self.entries[r.idx].reserved
    }

    /// Round-trip a handle back to a copy of the interned bytes; `None`
    /// exactly when the handle is not one this interner handed out.
    pub fn resolve(&self, r: StringRef) -> (b: Option<Vec<u8>>)
        requires
            self.wf(),
        ensures
            match b {
                Some(v) => r.idx < self.contents().len() && v@ == self.contents()[r.idx as int],
                None => r.idx >= self.contents().len(),
            },
    {
        if r.idx >= self.entries.len() {
            return None;
        }
        let e = self.entries[r.idx];
        let mut out: Vec<u8> = Vec::new();
        let mut k: usize = 0;
        while k < e.len
            invariant
                self.wf(),
                r.idx < self.entries@.len(),
                e == self.entries@[r.idx as int],
                0 <= k <= e.len,
                out@.len() == k,
                forall|m: int| 0 <= m < k ==> out@[m] == self.contents()[r.idx as int][m],
            decreases e.len - k,
        {
            let b = self.pages[e.page].data[e.start + k];
            out.push(b);
            k = k + 1;
        }
        proof {
            assert(out@ =~= self.contents()[r.idx as int]);
        }
        Some(out)
    }
}

} // verus!
