//! The term dictionary: sorted byte-string keys, each with a value kept in a
//! blob behind the automaton index.
//!
//! Layout of a dictionary, front to back: the automaton bytes, the value
//! blob, and the blob's length as four little-endian bytes.

use crate::codec::BinarySerializable;
use crate::codec::{le_bytes_u32, le_value_u32, lemma_le_u32_round_trip};
use crate::segment::append_copy;
use crate::fst_index::{
    ascending, automaton_bytes, builder_entries, builder_insert, builder_into_inner, builder_new,
    is_proper_prefix, key_follows, lex_lt, map_entries, map_from_bytes, map_get, map_sound,
    map_stream, smaller_at, stream_next, stream_rest, EntryStream, InsertRefusal,
};
use vstd::prelude::*;

verus! {

/// What can go wrong while a dictionary is built or opened.
#[derive(Clone, Copy, Debug, PartialEq, Eq, Structural)]
pub enum DictError {
    /// A key did not sort strictly after the key inserted before it.
    OrderViolation,
    /// The bytes are too short for a footer, the footer claims more value
    /// bytes than there are, or the automaton section does not parse.
    CorruptData,
    /// The byte sink under the automaton builder refused a write. The
    /// builder's in-memory sink never does, so no function here returns it.
    SinkFailure,
    /// The value blob is too long for its length to fit the footer.
    BlobTooLarge,
}

/// The concatenated encodings of `values`, first to last.
pub open spec fn encode_all<V: BinarySerializable>(values: Seq<V>) -> Seq<u8>
    decreases values.len(),
{
    if values.len() == 0 {
        Seq::<u8>::empty()
    } else {
        encode_all(values.drop_last()) + values.last().spec_encode()
    }
}

/// Each entry's offset into `blob` is where the value of the same rank
/// decodes.
pub open spec fn decodes_to<V: BinarySerializable>(
    entries: Seq<(Seq<u8>, u64)>,
    blob: Seq<u8>,
    values: Seq<V>,
) -> bool {
    &&& entries.len() == values.len()
    &&& forall|i: int|
        0 <= i < entries.len() ==> V::spec_decode(blob, (#[trigger] entries[i]).1 as int) == Some(
            values[i],
        )
}

/// The complete byte image of a dictionary with the given index entries and
/// value blob.
pub open spec fn dictionary_bytes(entries: Seq<(Seq<u8>, u64)>, blob: Seq<u8>) -> Seq<u8> {
    automaton_bytes(entries) + blob + le_bytes_u32(blob.len() as u32)
}

/// Splits a byte image at the places its footer names: the automaton section
/// and the value blob. `None` when there is no room for a footer or the
/// footer claims more value bytes than precede it.
pub open spec fn split_footer(source: Seq<u8>) -> Option<(Seq<u8>, Seq<u8>)> {
    if source.len() < 4 {
        None
    } else {
        let body = source.len() - 4;
        let blob_len = le_value_u32(source, body) as int;
        if blob_len > body {
            None
        } else {
            Some((source.subrange(0, body - blob_len), source.subrange(body - blob_len, body)))
        }
    }
}

/// Splits a byte image at the places its footer names.
pub fn split_source(source: &[u8]) -> (r: Option<(Vec<u8>, Vec<u8>)>)
    ensures
        match r {
            Some((index, blob)) => split_footer(source@) == Some((index@, blob@)),
            None => split_footer(source@) is None,
        },
{
    let len = source.len();
    if len < 4 {
        return None;
    }
    let body = len - 4;
    let footer = match u32::deserialize(source, body) {
        Some(footer) => footer,
        None => {
            return None;
        },
    };
    if footer as usize > body {
        return None;
    }
    let split = body - footer as usize;
    let index = vstd::slice::slice_to_vec(vstd::slice::slice_subrange(source, 0, split));
    let blob = vstd::slice::slice_to_vec(vstd::slice::slice_subrange(source, split, body));
    Some((index, blob))
}

/// Completes a byte image: behind the automaton bytes goes the value blob,
/// then the blob's length as four little-endian bytes.
pub fn seal_image(automaton: Vec<u8>, blob: &[u8]) -> (image: Vec<u8>)
    requires
        blob@.len() <= u32::MAX,
    ensures
        image@ == automaton@ + blob@ + le_bytes_u32(blob@.len() as u32),
{
    let mut image = automaton;
    append_copy(&mut image, blob);
    let footer = blob.len() as u32;
    footer.serialize(&mut image);
    image
}

/// Whether `a` sorts strictly before `b` in lexicographic byte order.
pub fn sorts_before(a: &[u8], b: &[u8]) -> (r: bool)
    ensures
        r == lex_lt(a@, b@),
{
    let mut i: usize = 0;
    while i < a.len() && i < b.len()
        invariant
            i <= a@.len(),
            i <= b@.len(),
            forall|j: int| 0 <= j < i ==> a@[j] == b@[j],
        decreases a@.len() - i,
    {
        if a[i] < b[i] {
            assert(smaller_at(a@, b@, i as int));
            return true;
        }
        if a[i] > b[i] {
            assert forall|k: int| !smaller_at(a@, b@, k) by {
                if smaller_at(a@, b@, k) && k > i {
                    assert(a@[i as int] == b@[i as int]);
                }
            }
            return false;
        }
        i = i + 1;
    }
    assert forall|k: int| !smaller_at(a@, b@, k) by {}
    a.len() < b.len()
}

/// Lexicographic order is transitive.
pub proof fn lemma_lex_lt_transitive(a: Seq<u8>, b: Seq<u8>, c: Seq<u8>)
    requires
        lex_lt(a, b),
        lex_lt(b, c),
    ensures
        lex_lt(a, c),
{
    if is_proper_prefix(a, b) {
        if !is_proper_prefix(b, c) {
            let k = choose|k: int| smaller_at(b, c, k);
            if k < a.len() {
                assert(smaller_at(a, c, k));
            }
        }
    } else {
        let k1 = choose|k: int| smaller_at(a, b, k);
        if is_proper_prefix(b, c) {
            assert(smaller_at(a, c, k1));
        } else {
            let k2 = choose|k: int| smaller_at(b, c, k);
            if k1 <= k2 {
                assert(smaller_at(a, c, k1));
            } else {
                assert(smaller_at(a, c, k2));
            }
        }
    }
}

/// In an ascending run, an earlier key sorts strictly before every later one.
pub proof fn lemma_ascending_pairwise(entries: Seq<(Seq<u8>, u64)>, i: int, j: int)
    requires
        ascending(entries),
        0 <= i < j < entries.len(),
    ensures
        lex_lt(entries[i].0, entries[j].0),
    decreases j - i,
{
    if i + 1 < j {
        lemma_ascending_pairwise(entries, i, j - 1);
        assert(lex_lt(entries[j - 1].0, entries[j].0));
        lemma_lex_lt_transitive(entries[i].0, entries[j - 1].0, entries[j].0);
    } else {
        assert(lex_lt(entries[j - 1].0, entries[j].0));
    }
}

/// No key occurs twice in an ascending run.
pub proof fn lemma_ascending_distinct(entries: Seq<(Seq<u8>, u64)>, i: int, j: int)
    requires
        ascending(entries),
        0 <= i < entries.len(),
        0 <= j < entries.len(),
        entries[i].0 == entries[j].0,
    ensures
        i == j,
{
    if i < j {
        lemma_ascending_pairwise(entries, i, j);
    } else if j < i {
        lemma_ascending_pairwise(entries, j, i);
    }
}

/// A byte image written from ascending entries and a blob whose length fits
/// the footer splits back into exactly the automaton section and that blob.
pub proof fn lemma_split_after_build(entries: Seq<(Seq<u8>, u64)>, blob: Seq<u8>)
    requires
        blob.len() <= u32::MAX,
    ensures
        split_footer(dictionary_bytes(entries, blob)) == Some((automaton_bytes(entries), blob)),
{
    let index = automaton_bytes(entries);
    let footer = le_bytes_u32(blob.len() as u32);
    let source = dictionary_bytes(entries, blob);
    let body = source.len() - 4;
    assert(source.subrange(body, body + 4) =~= footer);
    lemma_le_u32_round_trip(blob.len() as u32, source, body);
    assert(source.subrange(0, body - blob.len()) =~= index);
    assert(source.subrange(body - blob.len(), body) =~= blob);
}

/// Appending one more value extends the concatenated encodings by that
/// value's bytes, and leaves the encodings of every shorter prefix alone.
pub proof fn lemma_encode_all_push<V: BinarySerializable>(values: Seq<V>, value: V)
    ensures
        encode_all(values.push(value)) == encode_all(values) + value.spec_encode(),
{
    assert(values.push(value).drop_last() =~= values);
}

/// The encodings of the first `i` values, of the value of rank `i`, and of
/// the values behind it, in this order, make up the whole blob.
pub proof fn lemma_encode_all_split<V: BinarySerializable>(values: Seq<V>, i: int)
    requires
        0 <= i < values.len(),
    ensures
        encode_all(values) == encode_all(values.take(i)) + values[i].spec_encode() + encode_all(
            values.skip(i + 1),
        ),
    decreases values.len(),
{
    let behind = values.skip(i + 1);
    if i == values.len() - 1 {
        assert(values.take(i) =~= values.drop_last());
        assert(encode_all(values) =~= encode_all(values.take(i)) + values[i].spec_encode()
            + encode_all(behind));
    } else {
        let shorter = values.drop_last();
        lemma_encode_all_split(shorter, i);
        assert(shorter.take(i) =~= values.take(i));
        assert(behind.drop_last() =~= shorter.skip(i + 1));
        assert(behind.last() == values.last());
        assert(encode_all(values) =~= encode_all(values.take(i)) + values[i].spec_encode()
            + encode_all(behind));
    }
}

/// Builds a dictionary from keys inserted in strictly ascending order.
pub struct FstMapBuilder<V: BinarySerializable> {
    fst_builder: fst::MapBuilder<Vec<u8>>,
    data: Vec<u8>,
    values: Ghost<Seq<V>>,
}

impl<V: BinarySerializable> FstMapBuilder<V> {
    /// The index entries so far: each key with the blob offset of its value.
    pub closed spec fn entries(&self) -> Seq<(Seq<u8>, u64)> {
        builder_entries(self.fst_builder)
    }

    /// The value blob so far.
    pub closed spec fn blob(&self) -> Seq<u8> {
        self.data@
    }

    /// The values inserted so far, in order of insertion.
    pub closed spec fn values(&self) -> Seq<V> {
        self.values@
    }

    /// Keys ascend, the blob is the values' encodings back to back, and each
    /// key's offset is where its value's encoding starts.
    pub open spec fn wf(&self) -> bool {
        &&& ascending(self.entries())
        &&& self.entries().len() == self.values().len()
        &&& self.blob() == encode_all(self.values())
        &&& forall|i: int|
            0 <= i < self.entries().len() ==> (#[trigger] self.entries()[i]).1 as int
                == encode_all(self.values().take(i)).len()
    }

    /// In a well-formed builder every offset decodes to the value that was
    /// inserted with its key.
    pub proof fn lemma_wf_decodes(&self)
        requires
            self.wf(),
        ensures
            decodes_to(self.entries(), self.blob(), self.values()),
    {
        assert forall|i: int| 0 <= i < self.entries().len() implies V::spec_decode(
            self.blob(),
            (#[trigger] self.entries()[i]).1 as int,
        ) == Some(self.values()[i]) by {
            lemma_encode_all_split(self.values(), i);
            self.values()[i].lemma_decode_encode(
                encode_all(self.values().take(i)),
                encode_all(self.values().skip(i + 1)),
            );
        }
    }

    /// Starts an empty dictionary. This always succeeds.
    pub fn new() -> (r: Result<FstMapBuilder<V>, DictError>)
        ensures
            r is Ok,
            r->Ok_0.wf(),
            r->Ok_0.entries().len() == 0,
            r->Ok_0.blob().len() == 0,
            r->Ok_0.values().len() == 0,
    {
        match builder_new() {
            Ok(fst_builder) => {
                Ok(FstMapBuilder { fst_builder, data: Vec::new(), values: Ghost(Seq::empty()) })
            },
            Err(_) => Err(DictError::SinkFailure),
        }
    }

    /// Adds `key` with `value`. The key must sort strictly after every key
    /// inserted before; otherwise the builder is left as it was and
    /// `OrderViolation` comes back. Every other key is accepted: the value
    /// is appended to the blob and its offset recorded under the key.
    pub fn insert(&mut self, key: &[u8], value: &V) -> (r: Result<(), DictError>)
        requires
            old(self).wf(),
        ensures
            r is Ok <==> key_follows(old(self).entries(), key@),
            r is Err ==> r == Err::<(), DictError>(DictError::OrderViolation),
            r is Ok ==> {
                &&& final(self).wf()
                &&& final(self).entries() == old(self).entries().push(
                    (key@, old(self).blob().len() as u64),
                )
                &&& final(self).blob() == old(self).blob() + value.spec_encode()
                &&& final(self).values() == old(self).values().push(*value)
            },
            r == Err::<(), DictError>(DictError::OrderViolation) ==> {
                &&& final(self).wf()
                &&& final(self).entries() == old(self).entries()
                &&& final(self).blob() == old(self).blob()
                &&& final(self).values() == old(self).values()
            },
    {
        let offset = self.data.len() as u64;
        match builder_insert(&mut self.fst_builder, key, offset) {
            Ok(()) => {
                value.serialize(&mut self.data);
                proof {
                    let before = old(self).values();
                    let after = before.push(*value);
                    self.values@ = after;
                    lemma_encode_all_push(before, *value);
                    assert(after.take(before.len() as int) =~= before);
                    assert forall|i: int| 0 <= i < self.entries().len() implies (
                    #[trigger] self.entries()[i]).1 as int == encode_all(after.take(i)).len() by {
                        if i < before.len() {
                            assert(after.take(i) =~= before.take(i));
                            assert(self.entries()[i] == old(self).entries()[i]);
                        }
                    }
                    assert forall|i: int| 0 < i < self.entries().len() implies lex_lt(
                        self.entries()[i - 1].0,
                        #[trigger] self.entries()[i].0,
                    ) by {
                        if i < before.len() {
                            assert(self.entries()[i] == old(self).entries()[i]);
                            assert(self.entries()[i - 1] == old(self).entries()[i - 1]);
                        }
                    }
                }
                Ok(())
            },
            Err(InsertRefusal::Order) => Err(DictError::OrderViolation),
            Err(InsertRefusal::Sink) => Err(DictError::SinkFailure),
        }
    }

    /// Seals the dictionary and returns its byte image: the automaton, the
    /// value blob, and the blob's length in four little-endian bytes. Only
    /// a blob whose length does not fit those four bytes is refused.
    pub fn finish(self) -> (r: Result<Vec<u8>, DictError>)
        requires
            self.wf(),
        ensures
            match r {
                Ok(out) => self.blob().len() <= u32::MAX && out@ == dictionary_bytes(
                    self.entries(),
                    self.blob(),
                ),
                Err(e) => self.blob().len() > u32::MAX && e == DictError::BlobTooLarge,
            },
    {
        if self.data.len() > u32::MAX as usize {
            return Err(DictError::BlobTooLarge);
        }
        match builder_into_inner(self.fst_builder) {
            Ok(file) => Ok(seal_image(file, self.data.as_slice())),
            Err(_) => Err(DictError::SinkFailure),
        }
    }
}

/// An opened, read-only dictionary.
pub struct FstMap<V: BinarySerializable> {
    fst_index: fst::Map,
    values_blob: Vec<u8>,
    _phantom_: core::marker::PhantomData<V>,
}

impl<V: BinarySerializable> FstMap<V> {
    /// The index entries in ascending key order: each key with the blob
    /// offset of its value.
    pub closed spec fn entries(&self) -> Seq<(Seq<u8>, u64)> {
        map_entries(self.fst_index)
    }

    /// The value blob.
    pub closed spec fn blob(&self) -> Seq<u8> {
        self.values_blob@
    }

    /// The automaton section is a faithful encoding of `entries()`.
    pub closed spec fn sound(&self) -> bool {
        map_sound(self.fst_index)
    }

    /// The value stored with the entry of rank `i`, if its offset decodes.
    pub open spec fn value_at(&self, i: int) -> Option<V> {
        V::spec_decode(self.blob(), self.entries()[i].1 as int)
    }

    /// The automaton is sound, its keys ascend, and every offset decodes.
    pub open spec fn wf(&self) -> bool {
        &&& self.sound()
        &&& ascending(self.entries())
        &&& forall|i: int| 0 <= i < self.entries().len() ==> (#[trigger] self.value_at(i)) is Some
    }

    /// What opening `source` may give. With no room for a footer, or a
    /// footer that claims more value bytes than precede it, the image is
    /// corrupt. Otherwise the blob is the bytes the footer names; an
    /// automaton section that a builder wrote from ascending entries opens
    /// into exactly those entries, and only a section that no builder wrote
    /// is rejected.
    pub open spec fn opens_as(source: Seq<u8>, r: Result<FstMap<V>, DictError>) -> bool {
        match split_footer(source) {
            None => r == Err::<FstMap<V>, DictError>(DictError::CorruptData),
            Some((index, blob)) => match r {
                Ok(m) => m.blob() == blob && index.len() >= 32 && forall|e: Seq<(Seq<u8>, u64)>|
                    ascending(e) && index == #[trigger] automaton_bytes(e) ==> m.sound()
                        && m.entries() == e,
                Err(e) => e == DictError::CorruptData && forall|e: Seq<(Seq<u8>, u64)>|
                    ascending(e) ==> index != #[trigger] automaton_bytes(e),
            },
        }
    }

    /// What a lookup of `key` may give: the decoded value of an entry with
    /// that key, or `None` when no entry has it.
    pub open spec fn is_lookup(&self, key: Seq<u8>, r: Option<V>) -> bool {
        match r {
            Some(v) => exists|i: int|
                0 <= i < self.entries().len() && (#[trigger] self.entries()[i]).0 == key
                    && self.value_at(i) == Some(v),
            None => forall|i: int|
                0 <= i < self.entries().len() ==> (#[trigger] self.entries()[i]).0 != key,
        }
    }

    /// Opens a dictionary from its byte image.
    ///
    /// The last four bytes give the length of the value blob, which sits
    /// just before them; everything in front of the blob is the automaton.
    /// `CorruptData` comes back when the image cannot be split that way or
    /// the automaton section is rejected. An image that a builder wrote is
    /// never rejected and opens into the entries it was written from.
    pub fn from_source(source: Vec<u8>) -> (r: Result<FstMap<V>, DictError>)
        ensures
            Self::opens_as(source@, r),
    {
        match split_source(source.as_slice()) {
            None => Err(DictError::CorruptData),
            Some((index, values_blob)) => match map_from_bytes(index) {
                Ok(fst_index) => Ok(
                    FstMap { fst_index, values_blob, _phantom_: core::marker::PhantomData },
                ),
                Err(_) => Err(DictError::CorruptData),
            },
        }
    }

    /// Walks a sound dictionary once and tells whether it is well-formed:
    /// whether its keys ascend and every stored offset decodes. A dictionary
    /// that passes may be looked up and streamed.
    pub fn is_well_formed(&self) -> (ok: bool)
        requires
            self.sound(),
        ensures
            ok == self.wf(),
    {
        let ghost entries = self.entries();
        let mut streamer = map_stream(&self.fst_index);
        let mut previous: Option<Vec<u8>> = None;
        let ghost mut at: int = 0;
        assert(entries.skip(0) =~= entries);
        loop
            invariant
                entries == self.entries(),
                self.sound(),
                0 <= at <= entries.len(),
                stream_rest(streamer) == entries.skip(at),
                forall|i: int| 0 < i < at ==> lex_lt(entries[i - 1].0, #[trigger] entries[i].0),
                forall|i: int| 0 <= i < at ==> (#[trigger] self.value_at(i)) is Some,
                match previous {
                    None => at == 0,
                    Some(key) => at > 0 && key@ == entries[at - 1].0,
                },
            decreases entries.len() - at,
        {
            match stream_next(&mut streamer) {
                None => {
                    assert(at == entries.len());
                    return true;
                },
                Some((key, offset)) => {
                    assert(entries.skip(at)[0] == entries[at]);
                    assert(entries.skip(at).skip(1) =~= entries.skip(at + 1));
                    let in_order = match &previous {
                        None => true,
                        Some(before) => sorts_before(before.as_slice(), key.as_slice()),
                    };
                    if !in_order {
                        assert(!lex_lt(entries[at - 1].0, entries[at].0));
                        return false;
                    }
                    if !self.decodes_at(offset) {
                        assert(self.value_at(at) is None);
                        return false;
                    }
                    assert(self.value_at(at) is Some);
                    previous = Some(key);
                    proof {
                        at = at + 1;
                    }
                },
            }
        }
    }

    /// Whether a value can be decoded at `offset` in the blob.
    fn decodes_at(&self, offset: u64) -> (r: bool)
        ensures
            r == V::spec_decode(self.blob(), offset as int) is Some,
    {
        let blob = self.values_blob.as_slice();
        if offset > blob.len() as u64 {
            proof {
                V::lemma_decode_in_bounds(self.blob(), offset as int);
            }
            return false;
        }
        V::deserialize(blob, offset as usize).is_some()
    }

    /// Decodes the value that starts at `offset` in the blob.
    fn read_value(&self, offset: u64) -> (r: V)
        requires
            V::spec_decode(self.blob(), offset as int) is Some,
        ensures
            Some(r) == V::spec_decode(self.blob(), offset as int),
    {
        let blob = self.values_blob.as_slice();
        let limit = blob.len();
        proof {
            V::lemma_decode_in_bounds(self.blob(), offset as int);
            assert(offset as int <= limit);
        }
        V::deserialize(blob, offset as usize).unwrap()
    }

    /// Looks `key` up: its value if the key is present, `None` if not.
    pub fn get(&self, key: &[u8]) -> (r: Option<V>)
        requires
            self.wf(),
        ensures
            self.is_lookup(key@, r),
    {
        match map_get(&self.fst_index, key) {
            Some(offset) => {
                proof {
                    let i = choose|i: int|
                        0 <= i < map_entries(self.fst_index).len() && #[trigger] map_entries(
                            self.fst_index,
                        )[i] == (key@, offset);
                    assert(self.value_at(i) is Some);
                }
                Some(self.read_value(offset))
            },
            None => None,
        }
    }

    /// Starts a pass over all entries in ascending key order.
    pub fn stream<'a>(&'a self) -> (it: FstMapIter<'a, V>)
        requires
            self.wf(),
        ensures
            it.wf(),
            it.position() == 0,
            it.dictionary() == self,
    {
        let streamer = map_stream(&self.fst_index);
        assert(self.entries().skip(0) =~= self.entries());
        FstMapIter { streamer, fst_map: self }
    }
}

/// A pass over a dictionary's entries, handed out one at a time as the
/// automaton is walked.
pub struct FstMapIter<'a, V: BinarySerializable> {
    streamer: EntryStream<'a>,
    fst_map: &'a FstMap<V>,
}

impl<'a, V: BinarySerializable> FstMapIter<'a, V> {
    /// The dictionary being walked.
    pub closed spec fn dictionary(&self) -> &FstMap<V> {
        self.fst_map
    }

    /// The index entries still to be handed out.
    pub closed spec fn remaining(&self) -> Seq<(Seq<u8>, u64)> {
        stream_rest(self.streamer)
    }

    /// How many entries have been handed out.
    pub open spec fn position(&self) -> int {
        self.dictionary().entries().len() - self.remaining().len()
    }

    /// The pass walks a well-formed dictionary, and what remains is the
    /// dictionary's entries from the current position on.
    pub open spec fn wf(&self) -> bool {
        &&& self.dictionary().wf()
        &&& 0 <= self.position() <= self.dictionary().entries().len()
        &&& self.remaining() == self.dictionary().entries().skip(self.position())
    }

    /// The next entry in ascending key order, or `None` once every entry has
    /// been handed out.
    pub fn next(&mut self) -> (r: Option<(Vec<u8>, V)>)
        requires
            old(self).wf(),
        ensures
            final(self).wf(),
            final(self).dictionary() == old(self).dictionary(),
            match r {
                Some((key, value)) => {
                    &&& old(self).position() < old(self).dictionary().entries().len()
                    &&& final(self).position() == old(self).position() + 1
                    &&& key@ == old(self).dictionary().entries()[old(self).position()].0
                    &&& Some(value) == old(self).dictionary().value_at(old(self).position())
                },
                None => {
                    &&& old(self).position() == old(self).dictionary().entries().len()
                    &&& final(self).position() == old(self).position()
                },
            },
    {
        let ghost entries = self.fst_map.entries();
        let ghost at = self.position();
        match stream_next(&mut self.streamer) {
            Some((key, offset)) => {
                proof {
                    assert(entries.skip(at)[0] == entries[at]);
                    assert(entries.skip(at).skip(1) =~= entries.skip(at + 1));
                    assert(self.fst_map.value_at(at) is Some);
                }
                let value = self.fst_map.read_value(offset);
                Some((key, value))
            },
            None => {
                assert(self.remaining() =~= entries.skip(at));
                None
            },
        }
    }
}

/// Reopening what was built loses nothing: the byte image written from
/// ascending entries, a blob that fits the footer, and values that decode at
/// the entries' offsets always opens, into a well-formed dictionary with the
/// same entries in the same order, each with the value it was given.
pub proof fn lemma_reopen_keeps_entries<V: BinarySerializable>(
    entries: Seq<(Seq<u8>, u64)>,
    blob: Seq<u8>,
    values: Seq<V>,
    opened: Result<FstMap<V>, DictError>,
)
    requires
        ascending(entries),
        decodes_to(entries, blob, values),
        blob.len() <= u32::MAX,
        FstMap::<V>::opens_as(dictionary_bytes(entries, blob), opened),
    ensures
        opened is Ok,
        opened->Ok_0.wf(),
        opened->Ok_0.entries() == entries,
        opened->Ok_0.blob() == blob,
        forall|i: int| 0 <= i < entries.len() ==> opened->Ok_0.value_at(i) == Some(values[i]),
{
    lemma_split_after_build(entries, blob);
    // The automaton section is what a builder emits for `entries`.
    let index = automaton_bytes(entries);
    assert(split_footer(dictionary_bytes(entries, blob)) == Some((index, blob)));
    let m = opened->Ok_0;
    assert forall|i: int| 0 <= i < entries.len() implies m.value_at(i) == Some(values[i]) by {
        assert(V::spec_decode(blob, entries[i].1 as int) == Some(values[i]));
    }
}

/// What a well-formed builder seals can always be reopened, and the
/// reopened dictionary holds every inserted key, in the order of insertion,
/// with the value it was inserted with, and nothing else.
pub proof fn lemma_reopen_after_finish<V: BinarySerializable>(
    builder: FstMapBuilder<V>,
    image: Seq<u8>,
    opened: Result<FstMap<V>, DictError>,
)
    requires
        builder.wf(),
        builder.blob().len() <= u32::MAX,
        image == dictionary_bytes(builder.entries(), builder.blob()),
        FstMap::<V>::opens_as(image, opened),
    ensures
        opened is Ok,
        opened->Ok_0.wf(),
        opened->Ok_0.entries() == builder.entries(),
        opened->Ok_0.entries().len() == builder.values().len(),
        forall|i: int|
            0 <= i < builder.values().len() ==> opened->Ok_0.value_at(i) == Some(
                builder.values()[i],
            ),
{
    builder.lemma_wf_decodes();
    lemma_reopen_keeps_entries(builder.entries(), builder.blob(), builder.values(), opened);
}

/// In a well-formed dictionary a lookup of a stored key gives exactly the
/// value stored with it.
pub proof fn lemma_lookup_of_stored_key<V: BinarySerializable>(
    map: FstMap<V>,
    i: int,
    found: Option<V>,
)
    requires
        map.wf(),
        0 <= i < map.entries().len(),
        map.is_lookup(map.entries()[i].0, found),
    ensures
        found == map.value_at(i),
{
    match found {
        Some(v) => {
            let j = choose|j: int|
                0 <= j < map.entries().len() && (#[trigger] map.entries()[j]).0 == map.entries()[i].0
                    && map.value_at(j) == Some(v);
            lemma_ascending_distinct(map.entries(), i, j);
        },
        None => {
            assert(map.entries()[i].0 == map.entries()[i].0);
        },
    }
}

} // verus!
