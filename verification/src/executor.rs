//! Fork-join execution of one task per item, inline or on a fixed pool of
//! worker threads.

use vstd::prelude::*;

verus! {

/// `scoped_pool::Pool`, a fixed set of worker threads. Opaque.
#[verifier::external_type_specification]
#[verifier::external_body]
pub struct ExPool(scoped_pool::Pool);

/// The number of worker threads a pool was made with.
pub uninterp spec fn pool_workers(pool: scoped_pool::Pool) -> nat;

/// `slot` sends each task to a place of its own among `len` results.
pub open spec fn is_arrangement(slot: Seq<int>, len: int) -> bool {
    &&& slot.len() == len
    &&& forall|i: int| 0 <= i < len ==> 0 <= #[trigger] slot[i] < len
    &&& forall|i: int, j: int| 0 <= i < j < len ==> #[trigger] slot[i] != #[trigger] slot[j]
}

/// Every task ran once, and the outcome of task `i` is found at
/// `slot[i]`.
pub open spec fn arrived_as<A, R, E, F: Fn(A) -> Result<R, E>>(
    f: F,
    args: Seq<A>,
    outcomes: Seq<Result<R, E>>,
    slot: Seq<int>,
) -> bool {
    &&& outcomes.len() == args.len()
    &&& is_arrangement(slot, args.len() as int)
    &&& forall|i: int|
        0 <= i < args.len() ==> call_ensures(f, (args[i],), #[trigger] outcomes[slot[i]])
}

/// `f` may return a value, rather than an error, for `arg`.
pub open spec fn may_succeed<A, R, E, F: Fn(A) -> Result<R, E>>(f: F, arg: A) -> bool {
    exists|value: R| call_ensures(f, (arg,), Ok::<R, E>(value))
}

/// What an inline batch comes to: the value of every item, in the order of
/// the items, or the error of the first item that `f` fails on, every item
/// before it having a value.
pub open spec fn mapped_in_order<A, R, E, F: Fn(A) -> Result<R, E>>(
    f: F,
    args: Seq<A>,
    r: Result<Vec<R>, E>,
) -> bool {
    match r {
        Ok(values) => {
            &&& values@.len() == args.len()
            &&& forall|i: int|
                #![trigger args[i]]
                #![trigger values@[i]]
                0 <= i < args.len() ==> call_ensures(f, (args[i],), Ok::<R, E>(values@[i]))
        },
        Err(e) => exists|i: int|
            {
                &&& 0 <= i < args.len()
                &&& call_ensures(f, (#[trigger] args[i],), Err::<R, E>(e))
                &&& forall|j: int| 0 <= j < i ==> may_succeed(f, #[trigger] args[j])
            },
    }
}

/// What a pooled batch comes to: every task ran to its end, and the
/// outcomes were gathered in the order in which they arrived.
pub open spec fn mapped_on_pool<A, R, E, F: Fn(A) -> Result<R, E>>(
    f: F,
    args: Seq<A>,
    r: Result<Vec<R>, E>,
) -> bool {
    exists|outcomes: Seq<Result<R, E>>, slot: Seq<int>|
        #[trigger] arrived_as(f, args, outcomes, slot) && gathered_as(outcomes, r)
}

/// What every batch comes to, inline or pooled: one value for each item,
/// each at a place of its own, or an error that `f` returned for an item.
pub open spec fn mapped_each_once<A, R, E, F: Fn(A) -> Result<R, E>>(
    f: F,
    args: Seq<A>,
    r: Result<Vec<R>, E>,
) -> bool {
    match r {
        Ok(values) => {
            &&& values@.len() == args.len()
            &&& exists|slot: Seq<int>|
                {
                    &&& #[trigger] is_arrangement(slot, args.len() as int)
                    &&& forall|i: int|
                        0 <= i < args.len() ==> call_ensures(
                            f,
                            (args[i],),
                            Ok::<R, E>(#[trigger] values@[slot[i]]),
                        )
                }
        },
        Err(e) => exists|i: int|
            0 <= i < args.len() && call_ensures(f, (#[trigger] args[i],), Err::<R, E>(e)),
    }
}

/// `scoped_pool::Pool::new`: a pool with `size` worker threads.
#[verifier::external_body]
fn pool_new(size: usize) -> (pool: scoped_pool::Pool)
    ensures
        pool_workers(pool) == size,
{
    scoped_pool::Pool::new(size)
}

/// One task: `f` applied to one item.
fn run_task<A, R, E, F: Fn(A) -> Result<R, E>>(f: &F, arg: A) -> (outcome: Result<R, E>)
    requires
        call_requires(*f, (arg,)),
    ensures
        call_ensures(*f, (arg,), outcome),
{
    f(arg)
}

/// One job per item on `scoped_pool::Pool::scoped`, each sending the outcome
/// of its task into a `crossbeam::channel::unbounded` channel, which is
/// drained once the scope has joined. The scope returns only when every job
/// has run, so each outcome arrives exactly once; the order of arrival is
/// that of completion. A pool without workers would never run a job, so
/// it is given none.
#[verifier::external_body]
fn run_on_pool<A: Send, R: Send, E: Send, F: Sync + Fn(A) -> Result<R, E>>(
    pool: &scoped_pool::Pool,
    f: &F,
    args: Vec<A>,
) -> (outcomes: Vec<Result<R, E>>)
    requires
        pool_workers(*pool) > 0 || args@.len() == 0,
        forall|i: int| 0 <= i < args@.len() ==> call_requires(*f, (#[trigger] args@[i],)),
    ensures
        exists|slot: Seq<int>| arrived_as(*f, args@, outcomes@, slot),
{
    let (sender, receiver) = crossbeam::channel::unbounded();
    pool.scoped(|scope| {
        for arg in args {
            let sender = &sender;
            scope.execute(move || { let _ = sender.send(run_task(f, arg)); });
        }
    });
    receiver.try_iter().collect()
}

/// `r` is what a batch with these outcomes comes to: every value, in the
/// order of the outcomes, or the first error among them.
pub open spec fn gathered_as<R, E>(outcomes: Seq<Result<R, E>>, r: Result<Vec<R>, E>) -> bool {
    match r {
        Ok(values) => {
            &&& values@.len() == outcomes.len()
            &&& forall|i: int|
                #![trigger outcomes[i]]
                #![trigger values@[i]]
                0 <= i < outcomes.len() ==> outcomes[i] == Ok::<R, E>(values@[i])
        },
        Err(e) => exists|i: int|
            {
                &&& 0 <= i < outcomes.len()
                &&& #[trigger] outcomes[i] == Err::<R, E>(e)
                &&& forall|j: int| 0 <= j < i ==> (#[trigger] outcomes[j]) is Ok
            },
    }
}

/// Turns the outcomes of a batch into the outcome of the batch: every
/// value, in the order given, or the first error.
pub fn gather<R, E>(outcomes: Vec<Result<R, E>>) -> (r: Result<Vec<R>, E>)
    ensures
        gathered_as(outcomes@, r),
{
    let ghost given = outcomes@;
    let mut rest = outcomes;
    let mut values: Vec<R> = Vec::new();
    assert(given.skip(0) =~= given);
    while rest.len() > 0
        invariant
            given == outcomes@,
            values@.len() <= given.len(),
            rest@ == given.skip(values@.len() as int),
            forall|i: int| 0 <= i < values@.len() ==> given[i] == Ok::<R, E>(#[trigger] values@[i]),
        decreases rest@.len(),
    {
        let ghost done = values@.len() as int;
        let outcome = rest.remove(0);
        assert(outcome == given[done]);
        assert(given.skip(done).remove(0) =~= given.skip(done + 1));
        match outcome {
            Ok(value) => {
                values.push(value);
            },
            Err(e) => {
                assert(given[done] == Err::<R, E>(e));
                assert forall|j: int| 0 <= j < done implies (#[trigger] given[j]) is Ok by {
                    assert(given[j] == Ok::<R, E>(values@[j]));
                }
                return Err(e);
            },
        }
    }
    Ok(values)
}

/// Runs one task per item, either in the calling thread or on a pool of
/// worker threads.
pub enum Executor {
    /// Every task runs in the calling thread, one after the other.
    SingleThread,
    /// Tasks are handed to the workers of a pool.
    ThreadPool(scoped_pool::Pool),
}

impl Executor {
    /// Whether a task handed to this executor gets run at all: always
    /// inline, and on a pool as long as it has a worker.
    pub open spec fn can_run(&self) -> bool {
        match self {
            Executor::SingleThread => true,
            Executor::ThreadPool(pool) => pool_workers(*pool) > 0,
        }
    }

    /// An executor that runs every task in the calling thread.
    pub fn single_thread() -> (executor: Executor)
        ensures
            executor == Executor::SingleThread,
    {
        Executor::SingleThread
    }

    /// An executor that hands tasks to a pool of `num_threads` workers.
    pub fn multi_thread(num_threads: usize) -> (executor: Executor)
        ensures
            match executor {
                Executor::SingleThread => false,
                Executor::ThreadPool(pool) => pool_workers(pool) == num_threads,
            },
    {
        Executor::ThreadPool(pool_new(num_threads))
    }

    /// Applies `f` to every item and gathers what it returns.
    ///
    /// Inline, the items are taken in order and the first error ends the
    /// batch; the values come back in the order of the items. On a pool
    /// every task runs to its end before anything comes back, and the
    /// outcomes are gathered in the order in which the tasks completed.
    /// Either way an `Ok` holds one value per item, and an `Err` is an error
    /// that `f` returned for one of the items.
    pub fn map<A: Send, R: Send, E: Send, F: Sized + Sync + Fn(A) -> Result<R, E>>(
        &self,
        f: F,
        args: Vec<A>,
    ) -> (r: Result<Vec<R>, E>)
        requires
            self.can_run() || args@.len() == 0,
            forall|i: int| 0 <= i < args@.len() ==> call_requires(f, (#[trigger] args@[i],)),
        ensures
            self is SingleThread ==> mapped_in_order(f, args@, r),
            self is ThreadPool ==> mapped_on_pool(f, args@, r),
            mapped_each_once(f, args@, r),
    {
        match self {
            Executor::SingleThread => {
                let ghost given = args@;
                let mut rest = args;
                let mut values: Vec<R> = Vec::new();
                assert(given.skip(0) =~= given);
                while rest.len() > 0
                    invariant
                        self is SingleThread,
                        given == args@,
                        values@.len() <= given.len(),
                        rest@ == given.skip(values@.len() as int),
                        forall|i: int| 0 <= i < given.len() ==> call_requires(f, (#[trigger] given[i],)),
                        forall|i: int|
                            0 <= i < values@.len() ==> call_ensures(
                                f,
                                (given[i],),
                                Ok::<R, E>(#[trigger] values@[i]),
                            ),
                    decreases rest@.len(),
                {
                    let ghost done = values@.len() as int;
                    let arg = rest.remove(0);
                    assert(arg == given[done]);
                    assert(given.skip(done).remove(0) =~= given.skip(done + 1));
                    match run_task(&f, arg) {
                        Ok(value) => {
                            values.push(value);
                        },
                        Err(e) => {
                            assert(call_ensures(f, (given[done],), Err::<R, E>(e)));
                            assert forall|j: int| 0 <= j < done implies may_succeed(
                                f,
                                #[trigger] given[j],
                            ) by {
                                assert(call_ensures(f, (given[j],), Ok::<R, E>(values@[j])));
                            }
                            return Err(e);
                        },
                    }
                }
                proof {
                    let slot = Seq::new(given.len(), |i: int| i);
                    assert(is_arrangement(slot, given.len() as int));
                    assert forall|i: int| 0 <= i < given.len() implies call_ensures(
                        f,
                        (given[i],),
                        Ok::<R, E>(#[trigger] values@[slot[i]]),
                    ) by {
                        assert(slot[i] == i);
                    }
                }
                Ok(values)
            },
            Executor::ThreadPool(pool) => {
                let ghost given = args@;
                let outcomes = run_on_pool(pool, &f, args);
                let ghost slot = choose|slot: Seq<int>| arrived_as(f, given, outcomes@, slot);
                let ghost arrived = outcomes@;
                let r = gather(outcomes);
                proof {
                    assert(arrived_as(f, given, arrived, slot) && gathered_as(arrived, r));
                    if r is Ok {
                            let values = r->Ok_0;
                            assert forall|i: int| 0 <= i < given.len() implies call_ensures(
                                f,
                                (given[i],),
                                Ok::<R, E>(#[trigger] values@[slot[i]]),
                            ) by {
                                assert(call_ensures(f, (given[i],), outcomes@[slot[i]]));
                                assert(outcomes@[slot[i]] == Ok::<R, E>(values@[slot[i]]));
                            }
                    } else {
                            let e = r->Err_0;
                            let at = choose|at: int|
                                0 <= at < outcomes@.len() && #[trigger] outcomes@[at] == Err::<R, E>(
                                    e,
                                ) && forall|j: int| 0 <= j < at ==> (#[trigger] outcomes@[j]) is Ok;
                            lemma_slot_reaches(slot, given.len() as int, at);
                            let i = choose|i: int| 0 <= i < given.len() && slot[i] == at;
                            assert(call_ensures(f, (given[i],), outcomes@[slot[i]]));
                    }
                }
                r
            },
        }
    }
}

/// One failed task fails the batch: outcomes with an error among them are
/// never gathered into a collection of values.
pub proof fn lemma_error_fails_batch<R, E>(
    outcomes: Seq<Result<R, E>>,
    r: Result<Vec<R>, E>,
    i: int,
)
    requires
        gathered_as(outcomes, r),
        0 <= i < outcomes.len(),
        outcomes[i] is Err,
    ensures
        r is Err,
{
}

/// An arrangement leaves no place empty: every place is some task's slot.
pub proof fn lemma_slot_reaches(slot: Seq<int>, len: int, at: int)
    requires
        is_arrangement(slot, len),
        0 <= at < len,
    ensures
        exists|i: int| 0 <= i < len && slot[i] == at,
{
    if forall|i: int| 0 <= i < len ==> slot[i] != at {
        // `slot` would place `len` tasks on the `len - 1` places other than `at`.
        let places = Set::new(|p: int| 0 <= p < len && p != at);
        let tasks = Set::new(|i: int| 0 <= i < len);
        lemma_range_set(len);
        assert(places =~= tasks.remove(at));
        assert(places.len() == len - 1);
        assert forall|i: int| tasks.contains(i) implies places.contains(#[trigger] slot[i]) by {}
        assert forall|i: int, j: int|
            tasks.contains(i) && tasks.contains(j) && slot[i] == slot[j] implies i == j by {
            if i < j {
                assert(slot[i] != slot[j]);
            } else if j < i {
                assert(slot[j] != slot[i]);
            }
        }
        let image = tasks.map(|i: int| slot[i]);
        vstd::set_lib::lemma_map_size(tasks, image, |i: int| slot[i]);
        assert(image.subset_of(places));
        vstd::set_lib::lemma_len_subset(image, places);
        assert(false);
    }
}

/// Results that hold each input once, each at a place of its own, hold the
/// same elements as the inputs, each as often.
pub proof fn lemma_arranged_multiset<T>(inputs: Seq<T>, outputs: Seq<T>, slot: Seq<int>)
    requires
        outputs.len() == inputs.len(),
        is_arrangement(slot, inputs.len() as int),
        forall|i: int| 0 <= i < inputs.len() ==> outputs[#[trigger] slot[i]] == inputs[i],
    ensures
        outputs.to_multiset() == inputs.to_multiset(),
    decreases inputs.len(),
{
    broadcast use vstd::seq_lib::group_to_multiset_ensures;

    if inputs.len() == 0 {
        assert(outputs =~= inputs);
    } else {
        let n = inputs.len() as int;
        let at = slot[n - 1];
        let fewer_inputs = inputs.drop_last();
        let fewer_outputs = outputs.remove(at);
        let fewer_slot = Seq::new(
            (n - 1) as nat,
            |i: int|
                if slot[i] > at {
                    slot[i] - 1
                } else {
                    slot[i]
                },
        );
        assert forall|i: int| 0 <= i < n - 1 implies 0 <= #[trigger] fewer_slot[i] < n - 1 by {
            assert(slot[i] != slot[n - 1]);
        }
        assert forall|i: int, j: int| 0 <= i < j < n - 1 implies #[trigger] fewer_slot[i]
            != #[trigger] fewer_slot[j] by {
            assert(slot[i] != slot[j]);
            assert(slot[i] != slot[n - 1]);
            assert(slot[j] != slot[n - 1]);
        }
        assert forall|i: int| 0 <= i < n - 1 implies fewer_outputs[#[trigger] fewer_slot[i]]
            == fewer_inputs[i] by {
            assert(slot[i] != slot[n - 1]);
            assert(outputs[slot[i]] == inputs[i]);
        }
        lemma_arranged_multiset(fewer_inputs, fewer_outputs, fewer_slot);
        assert(outputs[at] == inputs[n - 1]);
        assert(outputs.to_multiset().count(outputs[at]) > 0) by {
            assert(outputs.contains(outputs[at]));
        }
        assert(outputs.to_multiset() =~= fewer_outputs.to_multiset().insert(outputs[at]));
        assert(inputs =~= fewer_inputs.push(inputs[n - 1]));
    }
}

/// Where every value that `f` returns for an item is `g` of that item, the
/// values of a successful batch are `g` of the items, each exactly once,
/// whatever the order in which they arrived.
pub proof fn lemma_map_values_multiset<A, R, E, F: Fn(A) -> Result<R, E>>(
    f: F,
    g: spec_fn(A) -> R,
    args: Seq<A>,
    values: Seq<R>,
    slot: Seq<int>,
)
    requires
        forall|arg: A, value: R| #[trigger]
            call_ensures(f, (arg,), Ok::<R, E>(value)) ==> value == g(arg),
        values.len() == args.len(),
        is_arrangement(slot, args.len() as int),
        forall|i: int|
            0 <= i < args.len() ==> call_ensures(
                f,
                (args[i],),
                Ok::<R, E>(values[#[trigger] slot[i]]),
            ),
    ensures
        values.to_multiset() == args.map_values(g).to_multiset(),
{
    let images = args.map_values(g);
    assert forall|i: int| 0 <= i < images.len() implies values[#[trigger] slot[i]]
        == images[i] by {
        assert(call_ensures(f, (args[i],), Ok::<R, E>(values[slot[i]])));
    }
    lemma_arranged_multiset(images, values, slot);
}

/// The integers from 0 up to `len` form a finite set of `len` elements.
proof fn lemma_range_set(len: int)
    requires
        len >= 0,
    ensures
        Set::new(|i: int| 0 <= i < len).finite(),
        Set::new(|i: int| 0 <= i < len).len() == len,
    decreases len,
{
    let s = Set::new(|i: int| 0 <= i < len);
    if len == 0 {
        assert(s =~= Set::<int>::empty());
    } else {
        lemma_range_set(len - 1);
        let shorter = Set::new(|i: int| 0 <= i < len - 1);
        assert(s =~= shorter.insert(len - 1));
    }
}

} // verus!
