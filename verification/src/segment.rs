//! What a collector sees of a segment: document addresses, scores, and the
//! fast-field columns, each read by local document id.

use vstd::prelude::*;

verus! {

/// A document's id within its segment.
pub type DocId = u32;

/// A segment's ordinal within the index snapshot.
pub type SegmentLocalId = u32;

/// A relevance score, carried as the bit pattern of a 32-bit float.
#[derive(Clone, Copy, Debug, PartialEq, Eq, Structural)]
pub struct Score {
    pub bits: u32,
}

impl Score {
    /// The score with the given bit pattern.
    pub fn from_bits(bits: u32) -> (s: Score)
        ensures
            s.bits == bits,
    {
        Score { bits }
    }

    /// The score's bit pattern.
    pub fn to_bits(&self) -> (bits: u32)
        ensures
            bits == self.bits,
    {
        self.bits
    }
}

/// A document within a multi-segment snapshot: segment ordinal, then the
/// document's id within that segment.
#[derive(Clone, Copy, Debug, PartialEq, Eq, Structural)]
pub struct DocAddress(pub SegmentLocalId, pub DocId);

impl DocAddress {
    /// The ordinal of the segment that holds the document.
    pub fn segment_ord(&self) -> (ord: SegmentLocalId)
        ensures
            ord == self.0,
    {
        self.0
    }

    /// The document's id within its segment.
    pub fn doc(&self) -> (doc: DocId)
        ensures
            doc == self.1,
    {
        self.1
    }
}

/// Names a field of the schema by its position.
#[derive(Clone, Copy, Debug, PartialEq, Eq, Structural)]
pub struct Field(pub u32);

/// Why a collector could not be set up for a segment.
#[derive(Clone, Copy, Debug, PartialEq, Eq, Structural)]
pub enum CollectError {
    /// The segment has no fast-field column of the wanted kind for the field.
    MissingResource,
}

/// Appends a copy of every element of `src` to `dst`.
pub fn append_copy<T: Copy>(dst: &mut Vec<T>, src: &[T])
    ensures
        final(dst)@ == old(dst)@ + src@,
{
    let mut i: usize = 0;
    while i < src.len()
        invariant
            i <= src@.len(),
            dst@ == old(dst)@ + src@.take(i as int),
        decreases src@.len() - i,
    {
        dst.push(src[i]);
        i = i + 1;
        assert(src@.take(i as int) =~= src@.take(i - 1).push(src@[i - 1]));
    }
    assert(src@.take(i as int) =~= src@);
}

/// One fast-field column of a segment, indexed by local document id.
pub enum FastFieldColumn {
    /// One unsigned 64-bit value per document.
    Numeric(Vec<u64>),
    /// One byte string per document.
    Bytes(Vec<Vec<u8>>),
}

/// Random access to a numeric fast-field column.
pub struct FastFieldReader {
    values: Vec<u64>,
}

impl FastFieldReader {
    /// The column: the value of each document, by document id.
    pub closed spec fn column(&self) -> Seq<u64> {
        self.values@
    }

    /// The value of document `doc`.
    pub fn get(&self, doc: DocId) -> (val: u64)
        requires
            doc < self.column().len(),
        ensures
            val == self.column()[doc as int],
    {
        self.values[doc as usize]
    }
}

/// Random access to a byte-string fast-field column.
pub struct BytesFastFieldReader {
    values: Vec<Vec<u8>>,
}

impl BytesFastFieldReader {
    /// The column: the byte string of each document, by document id.
    pub closed spec fn column(&self) -> Seq<Seq<u8>> {
        Seq::new(self.values@.len(), |i: int| self.values@[i]@)
    }

    /// The byte string of document `doc`.
    pub fn get_val(&self, doc: DocId) -> (val: &[u8])
        requires
            doc < self.column().len(),
        ensures
            val@ == self.column()[doc as int],
    {
        self.values[doc as usize].as_slice()
    }
}

/// A segment as collectors see it: its fast-field columns, by field.
pub struct SegmentReader {
    columns: Vec<FastFieldColumn>,
}

impl SegmentReader {
    /// The numeric column of `field`, if the segment has one.
    pub open spec fn numeric_column(&self, field: Field) -> Option<Seq<u64>> {
        if field.0 < self.columns().len() {
            match self.columns()[field.0 as int] {
                FastFieldColumn::Numeric(values) => Some(values@),
                FastFieldColumn::Bytes(_) => None,
            }
        } else {
            None
        }
    }

    /// The byte-string column of `field`, if the segment has one.
    pub open spec fn bytes_column(&self, field: Field) -> Option<Seq<Seq<u8>>> {
        if field.0 < self.columns().len() {
            match self.columns()[field.0 as int] {
                FastFieldColumn::Numeric(_) => None,
                FastFieldColumn::Bytes(values) => Some(
                    Seq::new(values@.len(), |i: int| values@[i]@),
                ),
            }
        } else {
            None
        }
    }

    /// The columns of the segment, the column of field `n` at position `n`.
    pub closed spec fn columns(&self) -> Seq<FastFieldColumn> {
        self.columns@
    }

    /// A segment with the given columns, the column of field `n` at
    /// position `n`.
    pub fn new(columns: Vec<FastFieldColumn>) -> (r: SegmentReader)
        ensures
            r.columns() == columns@,
    {
        SegmentReader { columns }
    }

    /// A reader for the numeric column of `field`; `MissingResource` when
    /// the segment has no such field or its column holds byte strings.
    pub fn fast_field_reader(&self, field: Field) -> (r: Result<FastFieldReader, CollectError>)
        ensures
            match self.numeric_column(field) {
                Some(column) => r is Ok && r->Ok_0.column() == column,
                None => r == Err::<FastFieldReader, CollectError>(CollectError::MissingResource),
            },
    {
        if field.0 as usize >= self.columns.len() {
            return Err(CollectError::MissingResource);
        }
        match &self.columns[field.0 as usize] {
            FastFieldColumn::Numeric(values) => {
                let mut copy: Vec<u64> = Vec::new();
                append_copy(&mut copy, values.as_slice());
                Ok(FastFieldReader { values: copy })
            },
            FastFieldColumn::Bytes(_) => Err(CollectError::MissingResource),
        }
    }

    /// A reader for the byte-string column of `field`; `MissingResource`
    /// when the segment has no such field or its column holds numbers.
    pub fn bytes_fast_field_reader(&self, field: Field) -> (r: Result<
        BytesFastFieldReader,
        CollectError,
    >)
        ensures
            match self.bytes_column(field) {
                Some(column) => r is Ok && r->Ok_0.column() == column,
                None => r == Err::<BytesFastFieldReader, CollectError>(
                    CollectError::MissingResource,
                ),
            },
    {
        if field.0 as usize >= self.columns.len() {
            return Err(CollectError::MissingResource);
        }
        match &self.columns[field.0 as usize] {
            FastFieldColumn::Numeric(_) => Err(CollectError::MissingResource),
            FastFieldColumn::Bytes(values) => {
                let mut copy: Vec<Vec<u8>> = Vec::new();
                let mut i: usize = 0;
                while i < values.len()
                    invariant
                        i <= values@.len(),
                        copy@.len() == i,
                        forall|j: int| 0 <= j < i ==> (#[trigger] copy@[j])@ == values@[j]@,
                    decreases values@.len() - i,
                {
                    let mut item: Vec<u8> = Vec::new();
                    append_copy(&mut item, values[i].as_slice());
                    copy.push(item);
                    i = i + 1;
                }
                let reader = BytesFastFieldReader { values: copy };
                assert(reader.column() =~= Seq::new(values@.len(), |i: int| values@[i]@));
                Ok(reader)
            },
        }
    }
}

} // verus!
