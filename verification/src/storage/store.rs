//! The document store: documents in their binary form, one behind the other
//! in the data region, found again through the entry-pointer table.

use vstd::prelude::*;
use crate::error::{Corruption, Limit, PiramidError};
use crate::storage::codec::{decode_document, decoded, enc_document, encode_document};
use crate::storage::document::{Document, DocumentView};
use crate::storage::persistence::index::{
    apart, high_water, is_high_water, lemma_high_water, non_overlapping, EntryPointer,
    PointerTable,
};
use crate::storage::persistence::mmap::{
    ensure_file_size, grow_mmap_if_needed, grown_len, read_window, write_at,
};
use crate::DocId;

verus! {

/// The bytes of the region that `p` points at.
pub open spec fn window(region: Seq<u8>, p: EntryPointer) -> Seq<u8> {
    region.subrange(p.offset as int, p.end())
}

/// Whether the window of `p` lies in the region and holds the binary form of
/// a document with the id `id`.
pub open spec fn holds(region: Seq<u8>, id: DocId, p: EntryPointer) -> bool {
    &&& p.end() <= region.len()
    &&& decoded(window(region, p)) is Some
    &&& decoded(window(region, p))->0.id == id
}

/// What reading the window of `p` gives.
pub open spec fn read_result(region: Seq<u8>, p: EntryPointer) -> Result<
    DocumentView,
    PiramidError,
> {
    if p.end() > region.len() {
        Err(PiramidError::OutOfBounds)
    } else {
        match decoded(window(region, p)) {
            Some(d) => Ok(d),
            None => Err(PiramidError::CorruptedData(Corruption::Document)),
        }
    }
}

/// The data region with its entry-pointer table.
#[derive(Debug)]
pub struct DocumentStore {
    /// The image of the data file.
    pub region: Vec<u8>,
    /// Where each document lies.
    pub index: PointerTable,
}

impl DocumentStore {
    /// Every id of the table has a readable document of that id at its window.
    pub open spec fn wf(&self) -> bool {
        &&& self.index.wf()
        &&& forall|id: DocId|
            self.index@.contains_key(id) ==> holds(self.region@, id, #[trigger] self.index@[id])
    }

    /// The live documents: what each id of the table stands for.
    pub open spec fn live(&self) -> Map<DocId, DocumentView> {
        Map::new(
            |id: DocId| self.index@.contains_key(id),
            |id: DocId| decoded(window(self.region@, self.index@[id]))->0,
        )
    }

    /// The outcome that appending a binary form of `len` bytes owes: no
    /// pointer can hold a length beyond 32 bits, and the region cannot grow
    /// beyond what the machine addresses.
    pub open spec fn append_outcome(&self, len: int) -> Result<(), PiramidError> {
        let end = high_water(self.index@) + len;
        if len > u32::MAX {
            Err(PiramidError::LimitsExceeded(Limit::MaxVectorBytes))
        } else if end > u64::MAX || (end > self.region@.len() && 2 * end > usize::MAX) {
            Err(PiramidError::Io)
        } else {
            Ok(())
        }
    }

    /// A store over an existing region, with no document in it.
    pub fn new(region: Vec<u8>) -> (r: Self)
        ensures
            r.wf(),
            r.region@ == region@,
            r.index@ == Map::<DocId, EntryPointer>::empty(),
            r.live() == Map::<DocId, DocumentView>::empty(),
    {
        let r = DocumentStore { region, index: PointerTable::new() };
        assert(r.live() =~= Map::<DocId, DocumentView>::empty());
        r
    }

    /// Number of live documents.
    pub fn len(&self) -> (r: usize)
        requires
            self.wf(),
        ensures
            r == self.live().dom().len(),
            self.live().dom().finite(),
    {
        assert(self.live().dom() =~= self.index@.dom());
        self.index.len()
    }

    /// There are finitely many live documents.
    pub proof fn lemma_live_finite(&self)
        requires
            self.wf(),
        ensures
            self.live().dom().finite(),
            self.live().dom() == self.index@.dom(),
    {
        self.index.lemma_order();
        assert(self.live().dom() =~= self.index@.dom());
    }

    /// The table has a high-water mark.
    pub proof fn lemma_has_high_water(&self)
        requires
            self.wf(),
        ensures
            is_high_water(self.index@, high_water(self.index@)),
            0 <= high_water(self.index@) <= self.region@.len(),
    {
        self.index.lemma_has_high_water();
        let w = high_water(self.index@);
        if w != 0 {
            let id = choose|id: DocId|
                self.index@.contains_key(id) && (#[trigger] self.index@[id]).end() == w;
            assert(holds(self.region@, id, self.index@[id]));
        }
    }

    /// The offset at which the next document is appended.
    pub fn next_offset(&self) -> (r: u64)
        requires
            self.wf(),
        ensures
            is_high_water(self.index@, r as int),
            r == high_water(self.index@),
            r <= self.region@.len(),
    {
        let capacity: usize = self.region.len();
        assert forall|id: DocId| self.index@.contains_key(id) implies (
        #[trigger] self.index@[id]).end() <= u64::MAX by {
            assert(holds(self.region@, id, self.index@[id]));
        }
        let r = self.index.next_offset();
        proof {
            if r != 0 {
                let id = choose|id: DocId|
                    self.index@.contains_key(id) && (#[trigger] self.index@[id]).end() == r;
                assert(holds(self.region@, id, self.index@[id]));
            }
            lemma_high_water(self.index@, r as int);
        }
        r
    }

    /// The offset at which the next document would be appended if the
    /// document with the id `skip` were forgotten first.
    pub fn next_offset_without(&self, skip: DocId) -> (r: u64)
        requires
            self.wf(),
        ensures
            r == high_water(self.index@.remove(skip)),
            r <= self.region@.len(),
    {
        let capacity: usize = self.region.len();
        assert forall|id: DocId| self.index@.contains_key(id) implies (
        #[trigger] self.index@[id]).end() <= u64::MAX by {
            assert(holds(self.region@, id, self.index@[id]));
        }
        let r = self.index.next_offset_without(skip);
        proof {
            let rest = self.index@.remove(skip);
            if r != 0 {
                let id = choose|id: DocId| rest.contains_key(id) && (#[trigger] rest[id]).end() == r;
                assert(holds(self.region@, id, self.index@[id]));
            }
            lemma_high_water(rest, r as int);
        }
        r
    }

    /// Append the binary form `bytes` of a document with the id `id` behind
    /// every document that the table points at, growing the region where it
    /// has to, and point `id` at it.
    pub fn append_encoded(&mut self, id: DocId, bytes: &[u8]) -> (r: Result<
        EntryPointer,
        PiramidError,
    >)
        requires
            old(self).wf(),
            decoded(bytes@) is Some,
            decoded(bytes@)->0.id == id,
        ensures
            match r {
                Ok(p) => {
                    &&& final(self).wf()
                    &&& p.offset == high_water(old(self).index@)
                    &&& p.length == bytes@.len()
                    &&& old(self).append_outcome(bytes@.len() as int) is Ok
                    &&& final(self).index@ == old(self).index@.insert(id, p)
                    &&& final(self).live() == old(self).live().insert(id, decoded(bytes@)->0)
                    &&& final(self).region@.len() == grown_len(
                        old(self).region@.len() as int,
                        p.end(),
                    )
                    &&& forall|i: int|
                        0 <= i < old(self).region@.len() && !(p.offset <= i < p.end())
                            ==> final(self).region@[i] == old(self).region@[i]
                    &&& non_overlapping(old(self).index@) ==> non_overlapping(final(self).index@)
                },
                Err(e) => {
                    &&& *final(self) == *old(self)
                    &&& old(self).append_outcome(bytes@.len() as int) == Err::<(), PiramidError>(e)
                },
            },
    {
        let offset: u64 = self.next_offset();
        proof {
            lemma_high_water(self.index@, offset as int);
        }
        if bytes.len() > u32::MAX as usize {
            return Err(PiramidError::LimitsExceeded(Limit::MaxVectorBytes));
        }
        let length: u32 = bytes.len() as u32;
        if length as u64 > u64::MAX - offset {
            return Err(PiramidError::Io);
        }
        let required: u64 = offset + length as u64;
        let ghost before = self.region@;
        let ghost table = self.index@;
        match grow_mmap_if_needed(&mut self.region, required) {
            Ok(_) => {},
            Err(e) => { return Err(e); },
        }
        let ghost grown = self.region@;
        let capacity: usize = self.region.len();
        assert(required <= capacity);
        write_at(&mut self.region, offset as usize, bytes);
        let p = EntryPointer::new(offset, length);
        self.index.insert(id, p);
        proof {
            let after = self.region@;
            assert(window(after, p) =~= bytes@);
            assert forall|i: int| 0 <= i < before.len() && !(p.offset <= i < p.end()) implies after[i]
                == before[i] by {
                assert(grown.subrange(0, before.len() as int)[i] == before[i]);
            }
            assert forall|other: DocId| table.contains_key(other) && other != id implies window(
                after,
                #[trigger] table[other],
            ) == window(before, table[other]) by {
                let q = table[other];
                assert(holds(before, other, q));
                assert(q.end() <= offset);
                assert(window(after, q) =~= window(before, q));
            }
            assert forall|other: DocId| self.index@.contains_key(other) implies holds(
                after,
                other,
                #[trigger] self.index@[other],
            ) by {
                if other != id {
                    assert(holds(before, other, table[other]));
                }
            }
            assert(self.live() =~= old(self).live().insert(id, decoded(bytes@)->0));
            if non_overlapping(table) {
                assert forall|a: DocId, b: DocId|
                    self.index@.contains_key(a) && self.index@.contains_key(b) && a != b implies apart(
                    #[trigger] self.index@[a],
                    #[trigger] self.index@[b],
                ) by {
                    if a == id {
                        assert(table[b].end() <= offset);
                    } else if b == id {
                        assert(table[a].end() <= offset);
                    }
                }
            }
        }
        Ok(p)
    }

    /// Bring the region to at least `min_size` bytes. No document is touched.
    pub fn ensure_size(&mut self, min_size: u64) -> (r: Result<(), PiramidError>)
        requires
            old(self).wf(),
        ensures
            match r {
                Ok(_) => {
                    &&& min_size <= usize::MAX
                    &&& final(self).wf()
                    &&& final(self).index == old(self).index
                    &&& final(self).live() == old(self).live()
                    &&& final(self).region@.len() == if old(self).region@.len() < min_size {
                        min_size as int
                    } else {
                        old(self).region@.len() as int
                    }
                },
                Err(e) => {
                    &&& e == PiramidError::Io
                    &&& min_size > usize::MAX
                    &&& *final(self) == *old(self)
                },
            },
    {
        let ghost before = self.region@;
        match ensure_file_size(&mut self.region, min_size) {
            Ok(_) => {},
            Err(e) => { return Err(e); },
        }
        proof {
            let after = self.region@;
            assert forall|id: DocId| self.index@.contains_key(id) implies window(
                after,
                #[trigger] self.index@[id],
            ) == window(before, self.index@[id]) by {
                let q = self.index@[id];
                assert(holds(before, id, q));
                assert forall|i: int| q.offset <= i < q.end() implies after[i] == before[i] by {
                    assert(after.subrange(0, before.len() as int)[i] == before[i]);
                }
                assert(window(after, q) =~= window(before, q));
            }
            assert forall|id: DocId| self.index@.contains_key(id) implies holds(
                after,
                id,
                #[trigger] self.index@[id],
            ) by {
                assert(holds(before, id, self.index@[id]));
            }
            assert(self.live() =~= old(self).live());
        }
        Ok(())
    }

    /// Make room for `required` bytes in the region, as `grow_mmap_if_needed`
    /// does. No document is touched.
    pub fn reserve(&mut self, required: u64) -> (r: Result<(), PiramidError>)
        requires
            old(self).wf(),
        ensures
            match r {
                Ok(_) => {
                    &&& final(self).wf()
                    &&& final(self).index == old(self).index
                    &&& final(self).live() == old(self).live()
                    &&& final(self).region@.len() == grown_len(
                        old(self).region@.len() as int,
                        required as int,
                    )
                },
                Err(e) => {
                    &&& e == PiramidError::Io
                    &&& required > old(self).region@.len()
                    &&& 2 * required > usize::MAX
                    &&& *final(self) == *old(self)
                },
            },
    {
        let ghost before = self.region@;
        match grow_mmap_if_needed(&mut self.region, required) {
            Ok(_) => {},
            Err(e) => { return Err(e); },
        }
        proof {
            let after = self.region@;
            assert forall|id: DocId| self.index@.contains_key(id) implies window(
                after,
                #[trigger] self.index@[id],
            ) == window(before, self.index@[id]) by {
                let q = self.index@[id];
                assert(holds(before, id, q));
                assert forall|i: int| q.offset <= i < q.end() implies after[i] == before[i] by {
                    assert(after.subrange(0, before.len() as int)[i] == before[i]);
                }
                assert(window(after, q) =~= window(before, q));
            }
            assert forall|id: DocId| self.index@.contains_key(id) implies holds(
                after,
                id,
                #[trigger] self.index@[id],
            ) by {
                assert(holds(before, id, self.index@[id]));
            }
            assert(self.live() =~= old(self).live());
        }
        Ok(())
    }

    /// Append `doc` in its binary form and point its id at it.
    pub fn append(&mut self, doc: &Document) -> (r: Result<EntryPointer, PiramidError>)
        requires
            old(self).wf(),
        ensures
            match r {
                Ok(p) => {
                    &&& final(self).wf()
                    &&& p.offset == high_water(old(self).index@)
                    &&& p.length == enc_document(doc@).len()
                    &&& old(self).append_outcome(enc_document(doc@).len() as int) is Ok
                    &&& final(self).index@ == old(self).index@.insert(doc.id, p)
                    &&& final(self).live() == old(self).live().insert(doc.id, doc@)
                    &&& final(self).region@.len() == grown_len(
                        old(self).region@.len() as int,
                        p.end(),
                    )
                    &&& non_overlapping(old(self).index@) ==> non_overlapping(final(self).index@)
                },
                Err(e) => {
                    &&& *final(self) == *old(self)
                    &&& old(self).append_outcome(enc_document(doc@).len() as int) == Err::<
                        (),
                        PiramidError,
                    >(e)
                },
            },
    {
        let bytes = encode_document(doc);
        self.append_encoded(doc.id, bytes.as_slice())
    }

    /// The document in the window of `ptr`.
    pub fn read(&self, ptr: &EntryPointer) -> (r: Result<Document, PiramidError>)
        ensures
            match r {
                Ok(d) => read_result(self.region@, *ptr) == Ok::<DocumentView, PiramidError>(d@),
                Err(e) => read_result(self.region@, *ptr) == Err::<DocumentView, PiramidError>(e),
            },
    {
        let bytes = match read_window(self.region.as_slice(), ptr) {
            Ok(w) => w,
            Err(e) => { return Err(e); },
        };
        match decode_document(bytes) {
            Some(d) => Ok(d),
            None => Err(PiramidError::CorruptedData(Corruption::Document)),
        }
    }

    /// The document with the id `id`, if there is one.
    pub fn get(&self, id: DocId) -> (r: Option<Document>)
        requires
            self.wf(),
        ensures
            match r {
                Some(d) => self.live().contains_key(id) && self.live()[id] == d@ && d.id == id,
                None => !self.live().contains_key(id),
            },
    {
        match self.index.get(id) {
            Some(p) => {
                assert(holds(self.region@, id, self.index@[id]));
                match self.read(&p) {
                    Ok(d) => Some(d),
                    Err(_) => None,
                }
            },
            None => None,
        }
    }

    /// Forget the document with the id `id`. Its bytes stay in the region
    /// as dead space. Returns whether there was such a document.
    pub fn remove(&mut self, id: DocId) -> (r: bool)
        requires
            old(self).wf(),
        ensures
            final(self).wf(),
            r == old(self).live().contains_key(id),
            final(self).region == old(self).region,
            final(self).index@ == old(self).index@.remove(id),
            final(self).live() == old(self).live().remove(id),
            non_overlapping(old(self).index@) ==> non_overlapping(final(self).index@),
    {
        let r = self.index.remove(id);
        assert(self.live() =~= old(self).live().remove(id));
        r
    }

    /// Whether the table points at a document with the id `id`.
    pub fn contains(&self, id: DocId) -> (r: bool)
        requires
            self.wf(),
        ensures
            r == self.live().contains_key(id),
    {
        self.index.contains_key(id)
    }
}

} // verus!
