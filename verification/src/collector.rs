//! Collectors: per-segment gathering of matching documents, and the merge of
//! the per-segment results into the result of the query.
//!
//! The children handed to a merge arrive in no particular order. A collector
//! whose result depends on segment order must restore it from what the
//! children carry.

use crate::segment::{
    append_copy, BytesFastFieldReader, CollectError, DocAddress, DocId, FastFieldReader, Field,
    Score, SegmentLocalId, SegmentReader,
};
use vstd::prelude::*;

verus! {

/// The per-segment half of a collector. It is fed the segment's matching
/// documents and then harvested, once.
pub trait SegmentCollector: Sized {
    /// What one segment yields.
    type Fruit;

    /// Whether `fruit` is what this collector has gathered.
    spec fn yields(&self, fruit: Self::Fruit) -> bool;

    /// Gives up the collected result.
    fn harvest(self) -> (fruit: Self::Fruit)
        ensures
            self.yields(fruit),
    ;
}

/// Takes the matching documents of one segment, in ascending id order.
pub trait CollectDocScore: Sized {
    /// Whether `doc` is a document this collector can take.
    spec fn accepts(&self, doc: DocId) -> bool;

    /// Whether `after` is this collector once it has taken `doc`.
    spec fn takes(&self, doc: DocId, score: Score, after: Self) -> bool;

    /// Takes one matching document. The score means something only if the
    /// owning collector asked for scoring.
    fn collect(&mut self, doc: DocId, score: Score)
        requires
            old(self).accepts(doc),
        ensures
            old(self).takes(doc, score, *final(self)),
    ;
}

/// The query-wide half of a collector: makes one child per segment and
/// merges what the children yield.
pub trait Collector {
    /// What each segment yields, and what the whole query yields.
    type Fruit;

    /// The per-segment collector.
    type Child: SegmentCollector;

    /// Whether `made` is what setting up a child for the segment gives.
    spec fn makes(
        &self,
        segment_ord: SegmentLocalId,
        reader: &SegmentReader,
        made: Result<Self::Child, CollectError>,
    ) -> bool;

    /// Whether this collector wants scores. It says the same every time.
    spec fn wants_scores(&self) -> bool;

    /// Whether `merged` is the merge of `children`.
    spec fn merges(&self, children: Seq<Self::Fruit>, merged: Self::Fruit) -> bool;

    /// Makes the child for one segment.
    fn for_segment(&self, segment_ord: SegmentLocalId, reader: &SegmentReader) -> (made: Result<
        Self::Child,
        CollectError,
    >)
        ensures
            self.makes(segment_ord, reader, made),
    ;

    /// Whether documents must be scored for this collector.
    fn requires_scoring(&self) -> (wanted: bool)
        ensures
            wanted == self.wants_scores(),
    ;

    /// Merges the per-segment results, given in any order.
    fn merge_fruits(&self, children: Vec<Self::Fruit>) -> (merged: Self::Fruit)
        ensures
            self.merges(children@, merged),
    ;
}

/// The elements of every part, part after part in the order given.
pub open spec fn concat_all<T>(parts: Seq<Vec<T>>) -> Seq<T>
    decreases parts.len(),
{
    if parts.len() == 0 {
        Seq::<T>::empty()
    } else {
        concat_all(parts.drop_last()) + parts.last()@
    }
}

/// Concatenates the parts in the order given.
pub fn flatten_in_order<T: Copy>(parts: &Vec<Vec<T>>) -> (flat: Vec<T>)
    ensures
        flat@ == concat_all(parts@),
{
    let mut flat: Vec<T> = Vec::new();
    let mut i: usize = 0;
    while i < parts.len()
        invariant
            i <= parts@.len(),
            flat@ == concat_all(parts@.take(i as int)),
        decreases parts@.len() - i,
    {
        append_copy(&mut flat, parts[i].as_slice());
        i = i + 1;
        assert(parts@.take(i as int).drop_last() =~= parts@.take(i - 1));
    }
    assert(parts@.take(i as int) =~= parts@);
    flat
}

/// Concatenating two runs of parts concatenates their elements.
pub proof fn lemma_concat_all_append<T>(front: Seq<Vec<T>>, back: Seq<Vec<T>>)
    ensures
        concat_all(front + back) == concat_all(front) + concat_all(back),
    decreases back.len(),
{
    if back.len() == 0 {
        assert(front + back =~= front);
        assert(concat_all(front) + concat_all(back) =~= concat_all(front));
    } else {
        lemma_concat_all_append(front, back.drop_last());
        assert((front + back).drop_last() =~= front + back.drop_last());
        assert(concat_all(front + back) =~= concat_all(front) + concat_all(back));
    }
}

/// What the doc-and-score collector yields: the documents collected, and
/// the score of each at the same position.
pub struct TestFruit {
    docs: Vec<DocAddress>,
    scores: Vec<Score>,
}

impl TestFruit {
    /// The documents, in collection order.
    pub closed spec fn spec_docs(&self) -> Seq<DocAddress> {
        self.docs@
    }

    /// The scores, in collection order.
    pub closed spec fn spec_scores(&self) -> Seq<Score> {
        self.scores@
    }

    /// The ordinal by which fruits are ordered before a merge: that of the
    /// first document's segment, or 0 for a fruit without documents.
    pub open spec fn first_segment_ord(&self) -> SegmentLocalId {
        if self.spec_docs().len() == 0 {
            0
        } else {
            self.spec_docs()[0].0
        }
    }

    /// The documents, in collection order.
    pub fn docs(&self) -> (r: &[DocAddress])
        ensures
            r@ == self.spec_docs(),
    {
        self.docs.as_slice()
    }

    /// The scores, in collection order.
    pub fn scores(&self) -> (r: &[Score])
        ensures
            r@ == self.spec_scores(),
    {
        self.scores.as_slice()
    }

    fn sort_key(&self) -> (ord: SegmentLocalId)
        ensures
            ord == self.first_segment_ord(),
    {
        if self.docs.len() == 0 {
            0
        } else {
            self.docs[0].segment_ord()
        }
    }
}

impl Default for TestFruit {
    fn default() -> (r: TestFruit)
        ensures
            r.spec_docs().len() == 0,
            r.spec_scores().len() == 0,
    {
        TestFruit { docs: Vec::new(), scores: Vec::new() }
    }
}

/// Where a fruit with ordinal `ord` goes in an ordered run: behind every
/// fruit whose ordinal is not greater.
pub open spec fn insertion_point(ordered: Seq<TestFruit>, ord: SegmentLocalId) -> int
    decreases ordered.len(),
{
    if ordered.len() == 0 {
        0
    } else if ordered.last().first_segment_ord() <= ord {
        ordered.len() as int
    } else {
        insertion_point(ordered.drop_last(), ord)
    }
}

/// The fruits ordered by first-segment ordinal; fruits with equal ordinals
/// keep the order in which they were given.
pub open spec fn by_first_segment(children: Seq<TestFruit>) -> Seq<TestFruit>
    decreases children.len(),
{
    if children.len() == 0 {
        Seq::<TestFruit>::empty()
    } else {
        let ordered = by_first_segment(children.drop_last());
        let last = children.last();
        ordered.insert(insertion_point(ordered, last.first_segment_ord()), last)
    }
}

/// The documents of every fruit, fruit after fruit.
pub open spec fn concat_docs(fruits: Seq<TestFruit>) -> Seq<DocAddress>
    decreases fruits.len(),
{
    if fruits.len() == 0 {
        Seq::<DocAddress>::empty()
    } else {
        concat_docs(fruits.drop_last()) + fruits.last().spec_docs()
    }
}

/// The scores of every fruit, fruit after fruit.
pub open spec fn concat_scores(fruits: Seq<TestFruit>) -> Seq<Score>
    decreases fruits.len(),
{
    if fruits.len() == 0 {
        Seq::<Score>::empty()
    } else {
        concat_scores(fruits.drop_last()) + fruits.last().spec_scores()
    }
}

/// The insertion point lies within the run; every fruit before it has an
/// ordinal that is not greater, every fruit from it on a greater one.
pub proof fn lemma_insertion_point(ordered: Seq<TestFruit>, ord: SegmentLocalId)
    requires
        forall|i: int, j: int|
            0 <= i < j < ordered.len() ==> ordered[i].first_segment_ord()
                <= ordered[j].first_segment_ord(),
    ensures
        0 <= insertion_point(ordered, ord) <= ordered.len(),
        forall|i: int|
            0 <= i < insertion_point(ordered, ord) ==> (#[trigger] ordered[i]).first_segment_ord()
                <= ord,
        forall|i: int|
            insertion_point(ordered, ord) <= i < ordered.len() ==> (
            #[trigger] ordered[i]).first_segment_ord() > ord,
    decreases ordered.len(),
{
    if ordered.len() > 0 && ordered.last().first_segment_ord() > ord {
        let shorter = ordered.drop_last();
        assert forall|i: int, j: int| 0 <= i < j < shorter.len() implies shorter[i].first_segment_ord()
            <= shorter[j].first_segment_ord() by {
            assert(shorter[i] == ordered[i] && shorter[j] == ordered[j]);
        }
        lemma_insertion_point(shorter, ord);
        assert forall|i: int| 0 <= i < insertion_point(ordered, ord) implies (
        #[trigger] ordered[i]).first_segment_ord() <= ord by {
            assert(ordered[i] == shorter[i]);
        }
        assert forall|i: int| insertion_point(ordered, ord) <= i < ordered.len() implies (
        #[trigger] ordered[i]).first_segment_ord() > ord by {
            if i < shorter.len() {
                assert(ordered[i] == shorter[i]);
            }
        }
    } else if ordered.len() > 0 {
        assert forall|i: int| 0 <= i < ordered.len() implies (
        #[trigger] ordered[i]).first_segment_ord() <= ord by {
            if i < ordered.len() - 1 {
                assert(ordered[i].first_segment_ord() <= ordered[ordered.len() - 1].first_segment_ord());
            }
        }
    }
}

/// Ordering keeps every fruit and leaves them in ascending order of
/// first-segment ordinal, whatever order they were given in.
pub proof fn lemma_by_first_segment_ordered(children: Seq<TestFruit>)
    ensures
        by_first_segment(children).len() == children.len(),
        by_first_segment(children).to_multiset() == children.to_multiset(),
        forall|i: int, j: int|
            0 <= i < j < children.len() ==> by_first_segment(children)[i].first_segment_ord()
                <= by_first_segment(children)[j].first_segment_ord(),
    decreases children.len(),
{
    broadcast use vstd::seq_lib::group_to_multiset_ensures;

    if children.len() == 0 {
        assert(by_first_segment(children) =~= children);
    } else {
        let shorter = children.drop_last();
        let last = children.last();
        lemma_by_first_segment_ordered(shorter);
        let ordered = by_first_segment(shorter);
        let at = insertion_point(ordered, last.first_segment_ord());
        lemma_insertion_point(ordered, last.first_segment_ord());
        let out = ordered.insert(at, last);
        assert(out == by_first_segment(children));
        assert forall|i: int, j: int| 0 <= i < j < out.len() implies out[i].first_segment_ord()
            <= out[j].first_segment_ord() by {
            if j < at {
                assert(out[i] == ordered[i] && out[j] == ordered[j]);
            } else if j == at {
                assert(out[i] == ordered[i]);
            } else if i < at {
                assert(out[i] == ordered[i] && out[j] == ordered[j - 1]);
            } else if i == at {
                assert(out[j] == ordered[j - 1]);
            } else {
                assert(out[i] == ordered[i - 1] && out[j] == ordered[j - 1]);
            }
        }
        assert(children =~= shorter.push(last));
        assert(out.remove(at) =~= ordered);
        assert(out[at] == last);
        assert(out.to_multiset().count(last) > 0) by {
            assert(out.contains(last));
        }
        assert(out.to_multiset() =~= ordered.to_multiset().insert(last));
        assert(out.to_multiset() =~= children.to_multiset());
    }
}

/// The fruits whose first-segment ordinal is `ord`, in the order given.
pub open spec fn with_ordinal(fruits: Seq<TestFruit>, ord: SegmentLocalId) -> Seq<TestFruit>
    decreases fruits.len(),
{
    if fruits.len() == 0 {
        Seq::<TestFruit>::empty()
    } else if fruits.last().first_segment_ord() == ord {
        with_ordinal(fruits.drop_last(), ord).push(fruits.last())
    } else {
        with_ordinal(fruits.drop_last(), ord)
    }
}

/// Placing a fruit into a run changes the fruits of one ordinal only if it
/// has that ordinal, and then adds it behind them, provided none of them
/// stands at or behind the place it takes.
pub proof fn lemma_with_ordinal_insert(
    fruits: Seq<TestFruit>,
    at: int,
    fruit: TestFruit,
    ord: SegmentLocalId,
)
    requires
        0 <= at <= fruits.len(),
        fruit.first_segment_ord() == ord ==> forall|i: int|
            at <= i < fruits.len() ==> (#[trigger] fruits[i]).first_segment_ord() != ord,
    ensures
        with_ordinal(fruits.insert(at, fruit), ord) == if fruit.first_segment_ord() == ord {
            with_ordinal(fruits, ord).push(fruit)
        } else {
            with_ordinal(fruits, ord)
        },
    decreases fruits.len() - at,
{
    let placed = fruits.insert(at, fruit);
    if at == fruits.len() {
        assert(placed.drop_last() =~= fruits);
        assert(placed.last() == fruit);
    } else {
        let shorter = fruits.drop_last();
        assert(placed.drop_last() =~= shorter.insert(at, fruit));
        assert(placed.last() == fruits.last());
        assert forall|i: int| at <= i < shorter.len() implies (
        #[trigger] shorter[i]).first_segment_ord() != ord || fruit.first_segment_ord() != ord by {
            assert(shorter[i] == fruits[i]);
        }
        lemma_with_ordinal_insert(shorter, at, fruit, ord);
        if fruit.first_segment_ord() == ord {
            assert(fruits[fruits.len() - 1].first_segment_ord() != ord);
        }
    }
}

/// Ordering is stable: the fruits of any one ordinal stand in the ordered
/// run as they stood in the run given. With the ascending order of the
/// ordinals this fixes the ordered run completely.
pub proof fn lemma_by_first_segment_stable(children: Seq<TestFruit>, ord: SegmentLocalId)
    ensures
        with_ordinal(by_first_segment(children), ord) == with_ordinal(children, ord),
    decreases children.len(),
{
    if children.len() > 0 {
        let shorter = children.drop_last();
        let last = children.last();
        lemma_by_first_segment_stable(shorter, ord);
        lemma_by_first_segment_ordered(shorter);
        let ordered = by_first_segment(shorter);
        let at = insertion_point(ordered, last.first_segment_ord());
        lemma_insertion_point(ordered, last.first_segment_ord());
        lemma_with_ordinal_insert(ordered, at, last, ord);
    }
}

fn find_insertion_point(ordered: &Vec<TestFruit>, ord: SegmentLocalId) -> (at: usize)
    ensures
        at == insertion_point(ordered@, ord),
{
    let mut at: usize = ordered.len();
    let mut settled = false;
    assert(ordered@.take(at as int) =~= ordered@);
    while at > 0 && !settled
        invariant
            at <= ordered@.len(),
            insertion_point(ordered@, ord) == insertion_point(ordered@.take(at as int), ord),
            settled ==> at > 0 && ordered@[at - 1].first_segment_ord() <= ord,
        decreases at + if settled { 0int } else { 1int },
    {
        if ordered[at - 1].sort_key() <= ord {
            settled = true;
        } else {
            assert(ordered@.take(at as int).drop_last() =~= ordered@.take(at - 1));
            at = at - 1;
        }
    }
    assert(at > 0 ==> ordered@.take(at as int).last() == ordered@[at - 1]);
    at
}

fn order_by_first_segment(children: Vec<TestFruit>) -> (ordered: Vec<TestFruit>)
    ensures
        ordered@ == by_first_segment(children@),
{
    let ghost given = children@;
    let mut rest = children;
    let mut ordered: Vec<TestFruit> = Vec::new();
    let ghost mut taken: int = 0;
    assert(given.take(0) =~= Seq::<TestFruit>::empty());
    assert(given.skip(0) =~= given);
    while rest.len() > 0
        invariant
            0 <= taken <= given.len(),
            rest@ == given.skip(taken),
            ordered@ == by_first_segment(given.take(taken)),
        decreases rest@.len(),
    {
        let fruit = rest.remove(0);
        let at = find_insertion_point(&ordered, fruit.sort_key());
        proof {
            lemma_by_first_segment_ordered(given.take(taken));
            lemma_insertion_point(ordered@, fruit.first_segment_ord());
            assert(given.take(taken + 1).drop_last() =~= given.take(taken));
            assert(given.take(taken + 1).last() == fruit);
            assert(given.skip(taken).remove(0) =~= given.skip(taken + 1));
            taken = taken + 1;
        }
        ordered.insert(at, fruit);
    }
    assert(given.take(taken) =~= given);
    ordered
}

/// Collects every matching document with its score.
pub struct TestCollector {
    docs: Vec<DocAddress>,
    scores: Vec<Score>,
}

impl Default for TestCollector {
    fn default() -> (r: TestCollector) {
        TestCollector { docs: Vec::new(), scores: Vec::new() }
    }
}

/// The per-segment half of [`TestCollector`].
pub struct TestSegmentCollector {
    segment_id: SegmentLocalId,
    fruit: TestFruit,
}

impl TestSegmentCollector {
    /// The ordinal of the segment being collected.
    pub closed spec fn segment(&self) -> SegmentLocalId {
        self.segment_id
    }

    /// The documents collected so far.
    pub closed spec fn collected_docs(&self) -> Seq<DocAddress> {
        self.fruit.spec_docs()
    }

    /// The scores collected so far.
    pub closed spec fn collected_scores(&self) -> Seq<Score> {
        self.fruit.spec_scores()
    }
}

impl Collector for TestCollector {
    type Fruit = TestFruit;

    type Child = TestSegmentCollector;

    /// The child for a segment starts empty and remembers the segment's
    /// ordinal. It needs nothing from the segment, so it never fails.
    open spec fn makes(
        &self,
        segment_ord: SegmentLocalId,
        reader: &SegmentReader,
        made: Result<TestSegmentCollector, CollectError>,
    ) -> bool {
        &&& made is Ok
        &&& made->Ok_0.segment() == segment_ord
        &&& made->Ok_0.collected_docs().len() == 0
        &&& made->Ok_0.collected_scores().len() == 0
    }

    /// Scores are always wanted.
    open spec fn wants_scores(&self) -> bool {
        true
    }

    /// The children are ordered by first-segment ordinal, children without
    /// documents first, and their documents and scores strung together.
    open spec fn merges(&self, children: Seq<TestFruit>, merged: TestFruit) -> bool {
        &&& merged.spec_docs() == concat_docs(by_first_segment(children))
        &&& merged.spec_scores() == concat_scores(by_first_segment(children))
    }

    fn for_segment(&self, segment_ord: SegmentLocalId, reader: &SegmentReader) -> (made: Result<
        TestSegmentCollector,
        CollectError,
    >) {
        Ok(TestSegmentCollector { segment_id: segment_ord, fruit: TestFruit::default() })
    }

    fn requires_scoring(&self) -> (wanted: bool) {
        true
    }

    fn merge_fruits(&self, children: Vec<TestFruit>) -> (merged: TestFruit) {
        let ordered = order_by_first_segment(children);
        let mut docs: Vec<DocAddress> = Vec::new();
        let mut scores: Vec<Score> = Vec::new();
        let mut i: usize = 0;
        while i < ordered.len()
            invariant
                i <= ordered@.len(),
                docs@ == concat_docs(ordered@.take(i as int)),
                scores@ == concat_scores(ordered@.take(i as int)),
            decreases ordered@.len() - i,
        {
            append_copy(&mut docs, ordered[i].docs());
            append_copy(&mut scores, ordered[i].scores());
            i = i + 1;
            assert(ordered@.take(i as int).drop_last() =~= ordered@.take(i - 1));
        }
        assert(ordered@.take(i as int) =~= ordered@);
        TestFruit { docs, scores }
    }
}

impl SegmentCollector for TestSegmentCollector {
    type Fruit = TestFruit;

    /// The fruit holds the documents and scores collected.
    open spec fn yields(&self, fruit: TestFruit) -> bool {
        &&& fruit.spec_docs() == self.collected_docs()
        &&& fruit.spec_scores() == self.collected_scores()
    }

    fn harvest(self) -> (fruit: TestFruit) {
        self.fruit
    }
}

impl CollectDocScore for TestSegmentCollector {
    /// Every document is taken.
    open spec fn accepts(&self, doc: DocId) -> bool {
        true
    }

    /// The document's address in this segment is recorded, and its score.
    open spec fn takes(&self, doc: DocId, score: Score, after: TestSegmentCollector) -> bool {
        &&& after.segment() == self.segment()
        &&& after.collected_docs() == self.collected_docs().push(DocAddress(self.segment(), doc))
        &&& after.collected_scores() == self.collected_scores().push(score)
    }

    fn collect(&mut self, doc: DocId, score: Score) {
        self.fruit.docs.push(DocAddress(self.segment_id, doc));
        self.fruit.scores.push(score);
    }
}

/// Collects, in order, one numeric fast-field value per matching document.
pub struct FastFieldTestCollector {
    field: Field,
}

/// The per-segment half of [`FastFieldTestCollector`].
pub struct FastFieldSegmentCollector {
    vals: Vec<u64>,
    reader: FastFieldReader,
}

impl FastFieldTestCollector {
    /// The field whose column is read.
    pub closed spec fn field(&self) -> Field {
        self.field
    }

    /// A collector that reads the numeric column of `field`.
    pub fn for_field(field: Field) -> (r: FastFieldTestCollector)
        ensures
            r.field() == field,
    {
        FastFieldTestCollector { field }
    }
}

impl FastFieldSegmentCollector {
    /// The values collected so far.
    pub closed spec fn collected(&self) -> Seq<u64> {
        self.vals@
    }

    /// The column the values are read from.
    pub closed spec fn column(&self) -> Seq<u64> {
        self.reader.column()
    }
}

impl Collector for FastFieldTestCollector {
    type Fruit = Vec<u64>;

    type Child = FastFieldSegmentCollector;

    /// The child reads the segment's numeric column of the field; without
    /// such a column there is no child.
    open spec fn makes(
        &self,
        segment_ord: SegmentLocalId,
        reader: &SegmentReader,
        made: Result<FastFieldSegmentCollector, CollectError>,
    ) -> bool {
        match reader.numeric_column(self.field()) {
            Some(column) => {
                &&& made is Ok
                &&& made->Ok_0.column() == column
                &&& made->Ok_0.collected().len() == 0
            },
            None => made == Err::<FastFieldSegmentCollector, CollectError>(
                CollectError::MissingResource,
            ),
        }
    }

    /// Scores are never wanted.
    open spec fn wants_scores(&self) -> bool {
        false
    }

    /// The children are strung together in the order given.
    open spec fn merges(&self, children: Seq<Vec<u64>>, merged: Vec<u64>) -> bool {
        merged@ == concat_all(children)
    }

    fn for_segment(&self, segment_ord: SegmentLocalId, reader: &SegmentReader) -> (made: Result<
        FastFieldSegmentCollector,
        CollectError,
    >) {
        match reader.fast_field_reader(self.field) {
            Ok(reader) => Ok(FastFieldSegmentCollector { vals: Vec::new(), reader }),
            Err(e) => Err(e),
        }
    }

    fn requires_scoring(&self) -> (wanted: bool) {
        false
    }

    fn merge_fruits(&self, children: Vec<Vec<u64>>) -> (merged: Vec<u64>) {
        flatten_in_order(&children)
    }
}

impl CollectDocScore for FastFieldSegmentCollector {
    /// A document is taken if the column has a value for it.
    open spec fn accepts(&self, doc: DocId) -> bool {
        doc < self.column().len()
    }

    /// The document's value in the column is appended.
    open spec fn takes(&self, doc: DocId, score: Score, after: FastFieldSegmentCollector) -> bool {
        &&& after.column() == self.column()
        &&& after.collected() == self.collected().push(self.column()[doc as int])
    }

    fn collect(&mut self, doc: DocId, score: Score) {
        let val = self.reader.get(doc);
        self.vals.push(val);
    }
}

impl SegmentCollector for FastFieldSegmentCollector {
    type Fruit = Vec<u64>;

    /// The fruit is the values collected.
    open spec fn yields(&self, fruit: Vec<u64>) -> bool {
        fruit@ == self.collected()
    }

    fn harvest(self) -> (fruit: Vec<u64>) {
        self.vals
    }
}

/// Collects, in order, the fast-field bytes of every matching document.
pub struct BytesFastFieldTestCollector {
    field: Field,
}

/// The per-segment half of [`BytesFastFieldTestCollector`].
pub struct BytesFastFieldSegmentCollector {
    vals: Vec<u8>,
    reader: BytesFastFieldReader,
}

impl BytesFastFieldTestCollector {
    /// The field whose column is read.
    pub closed spec fn field(&self) -> Field {
        self.field
    }

    /// A collector that reads the byte-string column of `field`.
    pub fn for_field(field: Field) -> (r: BytesFastFieldTestCollector)
        ensures
            r.field() == field,
    {
        BytesFastFieldTestCollector { field }
    }
}

impl BytesFastFieldSegmentCollector {
    /// The bytes collected so far.
    pub closed spec fn collected(&self) -> Seq<u8> {
        self.vals@
    }

    /// The column the bytes are read from.
    pub closed spec fn column(&self) -> Seq<Seq<u8>> {
        self.reader.column()
    }
}

impl Collector for BytesFastFieldTestCollector {
    type Fruit = Vec<u8>;

    type Child = BytesFastFieldSegmentCollector;

    /// The child reads the segment's byte-string column of the field;
    /// without such a column there is no child.
    open spec fn makes(
        &self,
        segment_ord: SegmentLocalId,
        reader: &SegmentReader,
        made: Result<BytesFastFieldSegmentCollector, CollectError>,
    ) -> bool {
        match reader.bytes_column(self.field()) {
            Some(column) => {
                &&& made is Ok
                &&& made->Ok_0.column() == column
                &&& made->Ok_0.collected().len() == 0
            },
            None => made == Err::<BytesFastFieldSegmentCollector, CollectError>(
                CollectError::MissingResource,
            ),
        }
    }

    /// Scores are never wanted.
    open spec fn wants_scores(&self) -> bool {
        false
    }

    /// The children are strung together in the order given.
    open spec fn merges(&self, children: Seq<Vec<u8>>, merged: Vec<u8>) -> bool {
        merged@ == concat_all(children)
    }

    fn for_segment(&self, segment_ord: SegmentLocalId, reader: &SegmentReader) -> (made: Result<
        BytesFastFieldSegmentCollector,
        CollectError,
    >) {
        match reader.bytes_fast_field_reader(self.field) {
            Ok(reader) => Ok(BytesFastFieldSegmentCollector { vals: Vec::new(), reader }),
            Err(e) => Err(e),
        }
    }

    fn requires_scoring(&self) -> (wanted: bool) {
        false
    }

    fn merge_fruits(&self, children: Vec<Vec<u8>>) -> (merged: Vec<u8>) {
        flatten_in_order(&children)
    }
}

impl SegmentCollector for BytesFastFieldSegmentCollector {
    type Fruit = Vec<u8>;

    /// The fruit is the bytes collected.
    open spec fn yields(&self, fruit: Vec<u8>) -> bool {
        fruit@ == self.collected()
    }

    fn harvest(self) -> (fruit: Vec<u8>) {
        self.vals
    }
}

impl CollectDocScore for BytesFastFieldSegmentCollector {
    /// A document is taken if the column has a byte string for it.
    open spec fn accepts(&self, doc: DocId) -> bool {
        doc < self.column().len()
    }

    /// The document's bytes are appended, with nothing to mark where they
    /// end.
    open spec fn takes(
        &self,
        doc: DocId,
        score: Score,
        after: BytesFastFieldSegmentCollector,
    ) -> bool {
        &&& after.column() == self.column()
        &&& after.collected() == self.collected() + self.column()[doc as int]
    }

    fn collect(&mut self, doc: DocId, score: Score) {
        let data = self.reader.get_val(doc);
        append_copy(&mut self.vals, data);
    }
}

} // verus!
