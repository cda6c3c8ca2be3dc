//! The document: what a collection stores under one id.

use vstd::prelude::*;
use crate::metadata::{EntryView, Metadata};
use crate::quantization::{QuantizedVector, QuantizedVectorView};
use crate::DocId;

verus! {

/// One stored document.
#[derive(Debug)]
pub struct Document {
    /// Unique identifier, assigned at creation.
    pub id: DocId,
    /// The vector, in its quantized form.
    pub vector: QuantizedVector,
    /// The text, an arbitrary byte string.
    pub text: Vec<u8>,
    /// Structured metadata.
    pub metadata: Metadata,
}

/// What a `Document` holds.
pub struct DocumentView {
    pub id: DocId,
    pub vector: QuantizedVectorView,
    pub text: Seq<u8>,
    pub metadata: Seq<EntryView>,
}

/// A document under the name it has as input to a collection.
pub type VectorEntry = Document;

impl View for Document {
    type V = DocumentView;

    open spec fn view(&self) -> DocumentView {
        DocumentView {
            id: self.id,
            vector: self.vector@,
            text: self.text@,
            metadata: self.metadata@,
        }
    }
}

/// The bits that mark a 128-bit id as a random (version 4) UUID of the
/// standard variant.
pub const UUID_V4_MASK: u128 = 0x0000_0000_0000_f000_c000_0000_0000_0000;

/// The value of the bits under `UUID_V4_MASK` in such an id.
pub const UUID_V4_BITS: u128 = 0x0000_0000_0000_4000_8000_0000_0000_0000;

/// `uuid::Uuid::new_v4`, as the 128-bit value that `Uuid::as_u128` gives: a
/// random id. Whatever the random source returns, the version and variant bits
/// are set as for every version 4 UUID; nothing else is known of the result.
#[verifier::external_body]
pub(crate) fn fresh_id() -> (id: DocId)
    ensures
        id & UUID_V4_MASK == UUID_V4_BITS,
{
    uuid::Uuid::new_v4().as_u128()
}

impl Document {
    /// A document with a fresh random id and no metadata.
    pub fn new(vector: QuantizedVector, text: Vec<u8>) -> (r: Self)
        ensures
            r@.vector == vector@,
            r@.text == text@,
            r@.metadata == Seq::<EntryView>::empty(),
            r.id & UUID_V4_MASK == UUID_V4_BITS,
    {
        Document { id: fresh_id(), vector, text, metadata: Metadata::new() }
    }

    /// A document with a fresh random id.
    pub fn with_metadata(vector: QuantizedVector, text: Vec<u8>, metadata: Metadata) -> (r: Self)
        ensures
            r@.vector == vector@,
            r@.text == text@,
            r@.metadata == metadata@,
            r.id & UUID_V4_MASK == UUID_V4_BITS,
    {
        Document { id: fresh_id(), vector, text, metadata }
    }

    /// A document under a given id.
    pub fn with_id(id: DocId, vector: QuantizedVector, text: Vec<u8>, metadata: Metadata) -> (r:
        Self)
        ensures
            r@ == (DocumentView { id, vector: vector@, text: text@, metadata: metadata@ }),
    {
        Document { id, vector, text, metadata }
    }

    /// The stored vector.
    pub fn get_vector(&self) -> (r: &QuantizedVector)
        ensures
            r@ == self@.vector,
    {
        &self.vector
    }

    /// A copy of this document.
    pub fn duplicate(&self) -> (r: Self)
        ensures
            r@ == self@,
    {
        let text = self.text.clone();
        assert(text@ =~= self.text@);
        Document {
            id: self.id,
            vector: self.vector.duplicate(),
            text,
            metadata: self.metadata.duplicate(),
        }
    }
}

impl Clone for Document {
    fn clone(&self) -> (r: Self)
        ensures
            r@ == self@,
    {
        self.duplicate()
    }
}

} // verus!
