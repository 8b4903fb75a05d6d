//! The automaton index that backs the term dictionary, as provided by the
//! `fst` crate.
//!
//! The functions of this module call into the crate. Their contracts are
//! taken on trust: each restates, over the entries an automaton holds, what
//! the crate's documentation and source say of the call.

use vstd::prelude::*;

verus! {

/// `fst::MapBuilder`, the automaton under construction. Opaque.
#[verifier::external_type_specification]
#[verifier::external_body]
#[verifier::reject_recursive_types(W)]
pub struct ExMapBuilder<W>(fst::MapBuilder<W>);

/// `fst::Map`, an opened automaton. Opaque.
#[verifier::external_type_specification]
#[verifier::external_body]
pub struct ExMap(fst::Map);

/// `fst::Error`, carried from the crate's calls to where it is mapped.
#[verifier::external_type_specification]
#[verifier::external_body]
pub struct ExFstError(fst::Error);

/// A pass over an opened automaton: an `fst::map::Stream`, which borrows
/// the automaton it walks. Opaque.
#[verifier::external_body]
pub struct EntryStream<'m> {
    inner: fst::map::Stream<'m>,
}

/// The entries a pass has yet to hand out, in the order in which it will.
pub uninterp spec fn stream_rest(s: EntryStream<'_>) -> Seq<(Seq<u8>, u64)>;

/// The `(key, output)` pairs accepted by an automaton builder so far, in the
/// order of insertion.
pub uninterp spec fn builder_entries(b: fst::MapBuilder<Vec<u8>>) -> Seq<(Seq<u8>, u64)>;

/// The `(key, output)` pairs stored in an opened automaton, in the order in
/// which it streams them.
pub uninterp spec fn map_entries(m: fst::Map) -> Seq<(Seq<u8>, u64)>;

/// Whether the bytes behind an opened automaton are a well-formed encoding.
/// Opening performs only a shallow check, and traversing a malformed automaton
/// may abort, so lookups demand this.
pub uninterp spec fn map_sound(m: fst::Map) -> bool;

/// The bytes that a builder starting from an empty sink emits for the given
/// entries once it is sealed.
pub uninterp spec fn automaton_bytes(entries: Seq<(Seq<u8>, u64)>) -> Seq<u8>;

/// `a` is `b` cut short: `b` starts with all of `a` and goes on.
pub open spec fn is_proper_prefix(a: Seq<u8>, b: Seq<u8>) -> bool {
    a.len() < b.len() && forall|j: int| 0 <= j < a.len() ==> a[j] == b[j]
}

/// `a` and `b` agree before position `k`, where `a` has the smaller byte.
pub open spec fn smaller_at(a: Seq<u8>, b: Seq<u8>, k: int) -> bool {
    0 <= k < a.len() && k < b.len() && a[k] < b[k] && forall|j: int| 0 <= j < k ==> a[j] == b[j]
}

/// `a` sorts strictly before `b` in lexicographic byte order.
pub open spec fn lex_lt(a: Seq<u8>, b: Seq<u8>) -> bool {
    is_proper_prefix(a, b) || exists|k: int| smaller_at(a, b, k)
}

/// Every key sorts strictly after the one before it.
pub open spec fn ascending(entries: Seq<(Seq<u8>, u64)>) -> bool {
    forall|i: int| 0 < i < entries.len() ==> lex_lt(entries[i - 1].0, #[trigger] entries[i].0)
}

/// `key` may be appended: it sorts strictly after the last key, if any.
pub open spec fn key_follows(entries: Seq<(Seq<u8>, u64)>, key: Seq<u8>) -> bool {
    entries.len() == 0 || lex_lt(entries.last().0, key)
}

/// Why the automaton builder turned an insertion down.
#[derive(Clone, Copy, Debug, PartialEq, Eq, Structural)]
pub enum InsertRefusal {
    /// The key does not sort strictly after the previous one.
    Order,
    /// The byte sink refused a write. The in-memory sink never does.
    Sink,
}

/// `fst::MapBuilder::new` on an empty in-memory sink. The call fails only
/// when the sink refuses a write, and a `Vec<u8>` takes every write (the
/// crate's own `memory` constructor relies on it): a builder comes back, and
/// it holds no entries.
#[verifier::external_body]
pub(crate) fn builder_new() -> (r: Result<fst::MapBuilder<Vec<u8>>, fst::Error>)
    ensures
        r is Ok,
        r matches Ok(b) ==> builder_entries(b) == Seq::<(Seq<u8>, u64)>::empty(),
{
    fst::MapBuilder::new(Vec::new())
}

/// `fst::MapBuilder::insert`. The crate checks the key against the last one
/// before touching its state: a key that is not strictly greater is refused
/// and leaves the builder as it was. Any other key is appended with its
/// output; beyond the order of the keys only a write to the sink can fail,
/// and the in-memory sink takes every write.
#[verifier::external_body]
pub(crate) fn builder_insert(b: &mut fst::MapBuilder<Vec<u8>>, key: &[u8], val: u64) -> (r: Result<
    (),
    InsertRefusal,
>)
    ensures
        r is Ok <==> key_follows(builder_entries(*old(b)), key@),
        r == Err::<(), InsertRefusal>(InsertRefusal::Order) <==> !key_follows(
            builder_entries(*old(b)),
            key@,
        ),
        r is Ok ==> builder_entries(*final(b)) == builder_entries(*old(b)).push((key@, val)),
        r == Err::<(), InsertRefusal>(InsertRefusal::Order) ==> builder_entries(*final(b))
            == builder_entries(*old(b)),
{
    match b.insert(key, val) {
        Ok(()) => Ok(()),
        Err(fst::Error::Fst(fst::raw::Error::DuplicateKey { .. })) => Err(InsertRefusal::Order),
        Err(fst::Error::Fst(fst::raw::Error::OutOfOrder { .. })) => Err(InsertRefusal::Order),
        Err(_) => Err(InsertRefusal::Sink),
    }
}

/// `fst::MapBuilder::into_inner`: seals the automaton and hands the sink
/// back. Sealing only writes to the sink, which takes every write, so the
/// bytes always come back; they are determined by the entries alone.
#[verifier::external_body]
pub(crate) fn builder_into_inner(b: fst::MapBuilder<Vec<u8>>) -> (r: Result<Vec<u8>, fst::Error>)
    ensures
        r is Ok,
        r matches Ok(bytes) ==> bytes@ == automaton_bytes(builder_entries(b)),
{
    b.into_inner()
}

/// `fst::Map::from_bytes`. Fewer than 32 bytes are always rejected. Bytes
/// that a builder emitted for an ascending run of entries open into a sound
/// automaton holding exactly those entries.
#[verifier::external_body]
pub(crate) fn map_from_bytes(bytes: Vec<u8>) -> (r: Result<fst::Map, fst::Error>)
    ensures
        bytes@.len() < 32 ==> r is Err,
        match r {
            Ok(m) => forall|e: Seq<(Seq<u8>, u64)>|
                ascending(e) && bytes@ == #[trigger] automaton_bytes(e) ==> map_sound(m)
                    && map_entries(m) == e,
            Err(_) => forall|e: Seq<(Seq<u8>, u64)>|
                ascending(e) ==> bytes@ != #[trigger] automaton_bytes(e),
        },
{
    fst::Map::from_bytes(bytes)
}

/// `fst::Map::get` on a sound automaton: the output stored under `key`, or
/// `None` when no entry has that key.
#[verifier::external_body]
pub(crate) fn map_get(m: &fst::Map, key: &[u8]) -> (r: Option<u64>)
    requires
        map_sound(*m),
    ensures
        match r {
            Some(v) => exists|i: int|
                0 <= i < map_entries(*m).len() && #[trigger] map_entries(*m)[i] == (key@, v),
            None => forall|i: int|
                0 <= i < map_entries(*m).len() ==> (#[trigger] map_entries(*m)[i]).0 != key@,
        },
{
    m.get(key)
}

/// `fst::Map::stream` on a sound automaton: a pass that has every entry
/// still to hand out, in stored order.
#[verifier::external_body]
pub(crate) fn map_stream<'m>(m: &'m fst::Map) -> (s: EntryStream<'m>)
    requires
        map_sound(*m),
    ensures
        stream_rest(s) == map_entries(*m),
{
    EntryStream { inner: m.stream() }
}

/// `fst::Streamer::next` on a map's stream: hands out the first of the
/// remaining entries, its key copied, or `None` once none remains.
#[verifier::external_body]
pub(crate) fn stream_next(s: &mut EntryStream<'_>) -> (r: Option<(Vec<u8>, u64)>)
    ensures
        match r {
            Some((key, val)) => stream_rest(*old(s)).len() > 0 && stream_rest(*old(s))[0] == (
                key@,
                val,
            ) && stream_rest(*final(s)) == stream_rest(*old(s)).skip(1),
            None => stream_rest(*old(s)).len() == 0 && stream_rest(*final(s)).len() == 0,
        },
{
    fst::Streamer::next(&mut s.inner).map(|(key, val)| (key.to_vec(), val))
}

} // verus!
