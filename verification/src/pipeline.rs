//! Pipelines: operators composed one after the other, run on one thread.

use crate::error::DslineError;
use std::marker::PhantomData;
use vstd::prelude::*;
use vstd::std_specs::iter::IteratorSpec;

verus! {

/// A source of items.
pub trait Stream: Sized {
    type Item;

    /// Whether the source can be asked, now and after every answer.
    closed spec fn valid(&self) -> bool {
        true
    }

    /// A bound on how many items are still to come.
    closed spec fn bound(&self) -> nat {
        arbitrary()
    }

    /// Whether asking can turn one state into another with the given answer. A source that does
    /// not state it can answer anything.
    closed spec fn polled(
        before: Self,
        r: Result<Option<Self::Item>, DslineError>,
        after: Self,
    ) -> bool {
        true
    }

    /// Asks for the next item. `Ok(None)` is the end.
    fn poll_next(&mut self) -> (r: Result<Option<Self::Item>, DslineError>)
        requires
            old(self).valid(),
        ensures
            final(self).valid(),
            Self::polled(*old(self), r, *final(self)),
            r matches Ok(Some(_)) ==> final(self).bound() < old(self).bound(),
    ;
}

/// A consumer at the end of a pipeline.
pub trait Sink: Sized {
    type Item;

    /// Whether handing over an item can turn one state into another with the given answer. A sink
    /// that does not state it can answer anything.
    closed spec fn sent(
        before: Self,
        item: Self::Item,
        r: Result<(), DslineError>,
        after: Self,
    ) -> bool {
        true
    }

    /// Whether closing can turn one state into another with the given answer.
    closed spec fn closed(before: Self, r: Result<(), DslineError>, after: Self) -> bool {
        true
    }

    /// Hands over one item.
    fn poll_send(&mut self, item: Self::Item) -> (r: Result<(), DslineError>)
        ensures
            Self::sent(*old(self), item, r, *final(self)),
    ;

    /// Called once, after the source is exhausted.
    fn close(&mut self) -> (r: Result<(), DslineError>)
        ensures
            Self::closed(*old(self), r, *final(self)),
    ;
}

/// An iterator as a source.
pub struct IterStream<I> {
    inner: I,
}

impl<I> IterStream<I> {
    /// The iterator.
    pub closed spec fn iterator(&self) -> I {
        self.inner
    }

    pub fn new(inner: I) -> (stream: IterStream<I>)
        ensures
            stream.iterator() == inner,
    {
        IterStream { inner }
    }
}

impl<I, T> Stream for IterStream<I> where I: Iterator<Item = Result<T, DslineError>> {
    type Item = T;

    /// The iterator comes to an end and has a measure of how far it is from it.
    open spec fn valid(&self) -> bool {
        self.iterator().obeys_prophetic_iter_laws() && self.iterator().decrease() is Some
    }

    open spec fn bound(&self) -> nat {
        self.iterator().decrease()->0
    }

    open spec fn polled(
        before: Self,
        r: Result<Option<T>, DslineError>,
        after: Self,
    ) -> bool {
        r matches Ok(Some(_)) ==> after.iterator().decrease()->0 < before.iterator().decrease()->0
    }

    fn poll_next(&mut self) -> (r: Result<Option<T>, DslineError>)
        ensures
            old(self).iterator().remaining().len() > 0 ==> {
                &&& final(self).iterator().remaining() == old(
                    self,
                ).iterator().remaining().drop_first()
                &&& r == match old(self).iterator().remaining()[0] {
                    Ok(item) => Ok::<Option<T>, DslineError>(Some(item)),
                    Err(e) => Err(e),
                }
            },
            old(self).iterator().remaining().len() == 0 ==> r == Ok::<Option<T>, DslineError>(None),
    {
        match self.inner.next() {
            Some(Ok(item)) => Ok(Some(item)),
            Some(Err(e)) => Err(e),
            None => Ok(None),
        }
    }
}

/// A sink that keeps the items.
pub struct CollectSink<T> {
    items: Vec<T>,
}

impl<T> View for CollectSink<T> {
    type V = Seq<T>;

    closed spec fn view(&self) -> Seq<T> {
        self.items@
    }
}

impl<T> CollectSink<T> {
    pub fn new() -> (sink: CollectSink<T>)
        ensures
            sink@ == Seq::<T>::empty(),
    {
        CollectSink { items: Vec::new() }
    }

    /// The items, in the order in which they came.
    pub fn into_items(self) -> (items: Vec<T>)
        ensures
            items@ == self@,
    {
        self.items
    }
}

impl<T> Default for CollectSink<T> {
    fn default() -> (sink: CollectSink<T>)
        ensures
            sink@ == Seq::<T>::empty(),
    {
        CollectSink::new()
    }
}

impl<T> Sink for CollectSink<T> {
    type Item = T;

    open spec fn sent(before: Self, item: T, r: Result<(), DslineError>, after: Self) -> bool {
        r == Ok::<(), DslineError>(()) && after@ == before@.push(item)
    }

    open spec fn closed(before: Self, r: Result<(), DslineError>, after: Self) -> bool {
        r == Ok::<(), DslineError>(()) && after == before
    }

    fn poll_send(&mut self, item: T) -> (r: Result<(), DslineError>) {
        self.items.push(item);
        Ok(())
    }

    fn close(&mut self) -> (r: Result<(), DslineError>) {
        Ok(())
    }
}

/// Something that makes zero or more items of one.
pub trait Operator<In, Out>: Sized {
    /// Whether it can be applied to any item.
    spec fn ready(&self) -> bool;

    /// Whether applying it to an item can give this answer.
    spec fn gives(&self, input: In, r: Result<Vec<Out>, DslineError>) -> bool;

    /// Applies it to an item.
    fn apply(&mut self, input: In) -> (r: Result<Vec<Out>, DslineError>)
        requires
            old(self).ready(),
        ensures
            *final(self) == *old(self),
            old(self).gives(input, r),
    ;
}

/// The operator that passes every item on.
pub struct Identity;

impl<T> Operator<T, T> for Identity {
    open spec fn ready(&self) -> bool {
        true
    }

    open spec fn gives(&self, input: T, r: Result<Vec<T>, DslineError>) -> bool {
        r is Ok && r->Ok_0@ == seq![input]
    }

    fn apply(&mut self, input: T) -> (r: Result<Vec<T>, DslineError>) {
        let mut out: Vec<T> = Vec::new();
        out.push(input);
        proof {
            assert(out@ =~= seq![input]);
        }
        Ok(out)
    }
}

/// One operator and then a function on each item that it gives.
pub struct Then<P, F, Mid> {
    prev: P,
    next: F,
    mid: PhantomData<Mid>,
}

impl<P, F, Mid> Then<P, F, Mid> {
    /// The operator that comes first.
    pub closed spec fn previous(&self) -> P {
        self.prev
    }

    /// The function that is applied to each item that comes of it.
    pub closed spec fn function(&self) -> F {
        self.next
    }
}

/// Whether applying a function to items in order, until one fails, can give this answer: what it
/// gives for each, in order, or the first error.
pub open spec fn maps_to<F, Mid, Out>(
    f: F,
    items: Seq<Mid>,
    front: Seq<Out>,
    r: Result<Vec<Out>, DslineError>,
) -> bool where F: FnMut(Mid) -> Result<Vec<Out>, DslineError>
    decreases items.len(),
{
    if items.len() == 0 {
        r is Ok && r->Ok_0@ == front
    } else {
        exists|out: Result<Vec<Out>, DslineError>|
            #[trigger] call_ensures(f, (items[0],), out) && match out {
                Err(e) => r == Err::<Vec<Out>, DslineError>(e),
                Ok(more) => maps_to(f, items.skip(1), front + more@, r),
            }
    }
}

impl<In, Mid, Out, P, F> Operator<In, Out> for Then<P, F, Mid> where
    P: Operator<In, Mid>,
    F: FnMut(Mid) -> Result<Vec<Out>, DslineError>,
 {
    open spec fn ready(&self) -> bool {
        self.previous().ready() && forall|x: Mid| #[trigger] call_requires(self.function(), (x,))
    }

    open spec fn gives(&self, input: In, r: Result<Vec<Out>, DslineError>) -> bool {
        exists|mid: Result<Vec<Mid>, DslineError>| #[trigger]
            self.previous().gives(input, mid) && match mid {
                Err(e) => r == Err::<Vec<Out>, DslineError>(e),
                Ok(items) => maps_to(self.function(), items@, Seq::<Out>::empty(), r),
            }
    }

    fn apply(&mut self, input: In) -> (r: Result<Vec<Out>, DslineError>) {
        let mids = match self.prev.apply(input) {
            Ok(mids) => mids,
            Err(e) => {
                return Err(e);
            },
        };
        let ghost all = mids@;
        let ghost answer = Ok::<Vec<Mid>, DslineError>(mids);
        let mut result: Vec<Out> = Vec::new();
        proof {
            assert(all.skip(0) =~= all);
        }
        for mid in iter: mids
            invariant
                *self == *old(self),
                self.ready(),
                iter.seq() == all,
                answer is Ok && answer->Ok_0@ == all,
                self.prev.gives(input, answer),
                forall|r: Result<Vec<Out>, DslineError>|
                    maps_to(self.next, all.skip(iter.index() as int), result@, r)
                        ==> #[trigger] maps_to(self.next, all, Seq::<Out>::empty(), r),
        {
            let ghost left = all.skip(iter.index() as int);
            let ghost front = result@;
            proof {
                assert(left[0] == mid);
                assert(left.skip(1) =~= all.skip(iter.index() + 1));
                assert(call_requires(self.function(), (mid,)));
            }
            match (self.next)(mid) {
                Ok(more) => {
                    let ghost out = Ok::<Vec<Out>, DslineError>(more);
                    let mut more = more;
                    result.append(&mut more);
                    proof {
                        assert(call_ensures(self.next, (left[0],), out));
                        assert forall|r: Result<Vec<Out>, DslineError>|
                            maps_to(
                                self.next,
                                left.skip(1),
                                result@,
                                r,
                            ) implies #[trigger] maps_to(
                            self.next,
                            all,
                            Seq::<Out>::empty(),
                            r,
                        ) by {
                            assert(maps_to(self.next, left, front, r));
                        }
                    }
                },
                Err(e) => {
                    proof {
                        let out = Err::<Vec<Out>, DslineError>(e);
                        assert(call_ensures(self.next, (left[0],), out));
                        assert(maps_to(self.next, left, front, out));
                        assert(maps_to(self.next, all, Seq::<Out>::empty(), out));
                    }
                    return Err(e);
                },
            }
        }
        proof {
            let out = Ok::<Vec<Out>, DslineError>(result);
            assert(all.skip(all.len() as int).len() == 0);
            assert(maps_to(self.next, all, Seq::<Out>::empty(), out));
        }
        Ok(result)
    }
}

/// A composed operator that makes `Out` items of `In` items.
///
/// It starts as [`Pipeline::identity`], grows by [`Pipeline::pipe`] and is executed by
/// [`Pipeline::run`].
pub struct Pipeline<In, Out, O = Identity> {
    op: O,
    types: PhantomData<(In, Out)>,
}

impl<T> Pipeline<T, T, Identity> {
    /// A pipeline that passes every item on.
    pub fn identity() -> (pipeline: Self)
        ensures
            pipeline.operator() == Identity,
    {
        Pipeline { op: Identity, types: PhantomData }
    }
}

/// Whether handing items to a sink in order, until it refuses one, can turn one state into another
/// with the given answer.
pub open spec fn delivers<K: Sink>(
    before: K,
    items: Seq<K::Item>,
    r: Result<(), DslineError>,
    after: K,
) -> bool
    decreases items.len(),
{
    if items.len() == 0 {
        r == Ok::<(), DslineError>(()) && after == before
    } else {
        exists|one: Result<(), DslineError>, next: K| #[trigger]
            K::sent(before, items[0], one, next) && match one {
                Err(e) => r == Err::<(), DslineError>(e) && after == next,
                Ok(()) => delivers(next, items.skip(1), r, after),
            }
    }
}

/// Whether closing a sink at the end can give this answer: the sink, or why it could not be closed.
pub open spec fn finishes<K: Sink>(sink: K, r: Result<K, DslineError>) -> bool {
    exists|closing: Result<(), DslineError>, after: K| #[trigger]
        K::closed(sink, closing, after) && r == match closing {
            Ok(()) => Ok::<K, DslineError>(after),
            Err(e) => Err(e),
        }
}

/// Whether running an operator between a source and a sink can give this answer after at most
/// this many items: each item of the source goes through the operator, and what comes of it goes
/// to the sink before the next item is asked for; the first error ends the run; at the end of the
/// source the sink is closed.
pub open spec fn runs<In, Out, O, S, K>(
    op: O,
    source: S,
    sink: K,
    items: nat,
    r: Result<K, DslineError>,
) -> bool where
    O: Operator<In, Out>,
    S: Stream<Item = In>,
    K: Sink<Item = Out>,

    decreases items,
{
    exists|poll: Result<Option<In>, DslineError>, rest: S| #[trigger]
        S::polled(source, poll, rest) && match poll {
            Err(e) => r == Err::<K, DslineError>(e),
            Ok(None) => finishes(sink, r),
            Ok(Some(item)) => items > 0 && exists|outs: Result<Vec<Out>, DslineError>| #[trigger]
                op.gives(item, outs) && match outs {
                    Err(e) => r == Err::<K, DslineError>(e),
                    Ok(outs) => exists|handed: Result<(), DslineError>, next: K| #[trigger]
                        delivers(sink, outs@, handed, next) && match handed {
                            Err(e) => r == Err::<K, DslineError>(e),
                            Ok(()) => runs::<In, Out, O, S, K>(
                                op,
                                rest,
                                next,
                                (items - 1) as nat,
                                r,
                            ),
                        },
                },
        }
}

/// Whether running an operator over the answers of an iterator can give this answer: each item goes
/// through the operator, and what comes of it goes to the sink before the next item is asked for;
/// the first error ends the run; at the end of the iterator the sink is closed.
pub open spec fn runs_over<In, Out, O, K>(
    op: O,
    items: Seq<Result<In, DslineError>>,
    sink: K,
    r: Result<K, DslineError>,
) -> bool where O: Operator<In, Out>, K: Sink<Item = Out>
    decreases items.len(),
{
    if items.len() == 0 {
        finishes(sink, r)
    } else {
        match items[0] {
            Err(e) => r == Err::<K, DslineError>(e),
            Ok(item) => exists|outs: Result<Vec<Out>, DslineError>| #[trigger]
                op.gives(item, outs) && match outs {
                    Err(e) => r == Err::<K, DslineError>(e),
                    Ok(outs) => exists|handed: Result<(), DslineError>, next: K| #[trigger]
                        delivers(sink, outs@, handed, next) && match handed {
                            Err(e) => r == Err::<K, DslineError>(e),
                            Ok(()) => runs_over::<In, Out, O, K>(op, items.skip(1), next, r),
                        },
                },
        }
    }
}

/// Hands items to a sink in order.
fn deliver<K: Sink>(sink: &mut K, items: Vec<K::Item>) -> (r: Result<(), DslineError>)
    ensures
        delivers(*old(sink), items@, r, *final(sink)),
{
    let ghost all = items@;
    proof {
        assert(all.skip(0) =~= all);
    }
    for item in iter: items
        invariant
            iter.seq() == all,
            forall|r: Result<(), DslineError>, after: K|
                delivers(*sink, all.skip(iter.index() as int), r, after) ==> #[trigger] delivers(
                    *old(sink),
                    all,
                    r,
                    after,
                ),
    {
        let ghost left = all.skip(iter.index() as int);
        let ghost before = *sink;
        proof {
            assert(left[0] == item);
            assert(left.skip(1) =~= all.skip(iter.index() + 1));
        }
        let answer = sink.poll_send(item);
        let ghost one = answer;
        match answer {
            Ok(()) => {
                proof {
                    assert(K::sent(before, left[0], one, *sink));
                    assert forall|r: Result<(), DslineError>, after: K|
                        delivers(*sink, left.skip(1), r, after) implies #[trigger] delivers(
                        *old(sink),
                        all,
                        r,
                        after,
                    ) by {
                        assert(delivers(before, left, r, after));
                    }
                }
            },
            Err(e) => {
                proof {
                    let r = Err::<(), DslineError>(e);
                    assert(K::sent(before, left[0], r, *sink));
                    assert(delivers(before, left, r, *sink));
                    assert(delivers(*old(sink), all, r, *sink));
                }
                return Err(e);
            },
        }
    }
    proof {
        let r = Ok::<(), DslineError>(());
        assert(all.skip(all.len() as int).len() == 0);
        assert(delivers(*sink, all.skip(all.len() as int), r, *sink));
        assert(delivers(*old(sink), all, r, *sink));
    }
    Ok(())
}

impl<In, Out, O: Operator<In, Out>> Pipeline<In, Out, O> {
    /// Runs the pipeline to the end of the source, then closes the sink and gives it back.
    pub fn run<S, K>(self, source: S, sink: K) -> (r: Result<K, DslineError>) where
        S: Stream<Item = In>,
        K: Sink<Item = Out>,

        requires
            self.operator().ready(),
            source.valid(),
        ensures
            exists|items: nat|
                #[trigger] runs::<In, Out, O, S, K>(self.operator(), source, sink, items, r),
    {
        let mut op = self.op;
        let mut from = source;
        let mut to = sink;
        let ghost done: nat = 0;
        let ghost whole = self.operator();
        loop
            invariant
                op == whole,
                whole == self.operator(),
                op.ready(),
                from.valid(),
                forall|items: nat, r: Result<K, DslineError>|
                    #[trigger] runs::<In, Out, O, S, K>(op, from, to, items, r) ==> runs::<
                        In,
                        Out,
                        O,
                        S,
                        K,
                    >(whole, source, sink, items + done, r),
            decreases from.bound(),
        {
            let ghost old_from = from;
            let ghost old_to = to;
            let poll = from.poll_next();
            let ghost asked = poll;
            let item = match poll {
                Ok(Some(item)) => item,
                Ok(None) => {
                    let closing = to.close();
                    let r = match closing {
                        Ok(()) => Ok(to),
                        Err(e) => Err(e),
                    };
                    proof {
                        assert(finishes(old_to, r));
                        assert(S::polled(old_from, asked, from));
                        assert(runs::<In, Out, O, S, K>(op, old_from, old_to, 0, r));
                        assert(runs::<In, Out, O, S, K>(whole, source, sink, 0 + done, r));
                    }
                    return r;
                },
                Err(e) => {
                    proof {
                        let r = Err::<K, DslineError>(e);
                        assert(S::polled(old_from, asked, from));
                        assert(runs::<In, Out, O, S, K>(op, old_from, old_to, 0, r));
                        assert(runs::<In, Out, O, S, K>(whole, source, sink, 0 + done, r));
                    }
                    return Err(e);
                },
            };
            let given = op.apply(item);
            let ghost outs_given = given;
            let outs = match given {
                Ok(outs) => outs,
                Err(e) => {
                    proof {
                        let r = Err::<K, DslineError>(e);
                        assert(S::polled(old_from, asked, from));
                        assert(op.gives(item, outs_given));
                        assert(runs::<In, Out, O, S, K>(op, old_from, old_to, 1, r));
                        assert(runs::<In, Out, O, S, K>(whole, source, sink, 1 + done, r));
                    }
                    return Err(e);
                },
            };
            let ghost list = outs@;
            let delivered = deliver(&mut to, outs);
            let ghost handed = delivered;
            match delivered {
                Ok(()) => {
                    proof {
                        assert(S::polled(old_from, asked, from));
                        assert(op.gives(item, outs_given));
                        assert(delivers(old_to, list, handed, to));
                        assert forall|items: nat, r: Result<K, DslineError>| #[trigger]
                            runs::<In, Out, O, S, K>(op, from, to, items, r) implies runs::<
                            In,
                            Out,
                            O,
                            S,
                            K,
                        >(whole, source, sink, items + (done + 1), r) by {
                            assert(((items + 1) - 1) as nat == items);
                            assert(runs::<In, Out, O, S, K>(op, old_from, old_to, items + 1, r));
                        }
                        done = done + 1;
                    }
                },
                Err(e) => {
                    proof {
                        let r = Err::<K, DslineError>(e);
                        assert(S::polled(old_from, asked, from));
                        assert(op.gives(item, outs_given));
                        assert(delivers(old_to, list, handed, to));
                        assert(runs::<In, Out, O, S, K>(op, old_from, old_to, 1, r));
                        assert(runs::<In, Out, O, S, K>(whole, source, sink, 1 + done, r));
                    }
                    return Err(e);
                },
            }
        }
    }
}

impl<In, Out, O: Operator<In, Out>> Pipeline<In, Out, O> {
    /// Runs the pipeline to the end of an iterator, then closes the sink and gives it back.
    pub fn run_over<I, K>(self, source: IterStream<I>, sink: K) -> (r: Result<K, DslineError>) where
        I: Iterator<Item = Result<In, DslineError>>,
        K: Sink<Item = Out>,

        requires
            self.operator().ready(),
            source.valid(),
        ensures
            runs_over::<In, Out, O, K>(
                self.operator(),
                source.iterator().remaining(),
                sink,
                r,
            ),
    {
        let mut op = self.op;
        let mut from = source;
        let mut to = sink;
        let ghost whole = self.operator();
        loop
            invariant
                op == whole,
                whole == self.operator(),
                op.ready(),
                from.valid(),
                forall|r: Result<K, DslineError>|
                    #[trigger] runs_over::<In, Out, O, K>(
                        op,
                        from.iterator().remaining(),
                        to,
                        r,
                    ) ==> runs_over::<In, Out, O, K>(
                        whole,
                        source.iterator().remaining(),
                        sink,
                        r,
                    ),
            decreases from.bound(),
        {
            let ghost old_from = from;
            let ghost old_to = to;
            let poll = from.poll_next();
            let item = match poll {
                Ok(Some(item)) => item,
                Ok(None) => {
                    let closing = to.close();
                    let r = match closing {
                        Ok(()) => Ok(to),
                        Err(e) => Err(e),
                    };
                    proof {
                        assert(finishes(old_to, r));
                        assert(runs_over::<In, Out, O, K>(
                            op,
                            old_from.iterator().remaining(),
                            old_to,
                            r,
                        ));
                    }
                    return r;
                },
                Err(e) => {
                    proof {
                        let r = Err::<K, DslineError>(e);
                        assert(runs_over::<In, Out, O, K>(
                            op,
                            old_from.iterator().remaining(),
                            old_to,
                            r,
                        ));
                    }
                    return Err(e);
                },
            };
            let given = op.apply(item);
            let ghost outs_given = given;
            let outs = match given {
                Ok(outs) => outs,
                Err(e) => {
                    proof {
                        let r = Err::<K, DslineError>(e);
                        assert(op.gives(item, outs_given));
                        assert(runs_over::<In, Out, O, K>(
                            op,
                            old_from.iterator().remaining(),
                            old_to,
                            r,
                        ));
                    }
                    return Err(e);
                },
            };
            let ghost list = outs@;
            let delivered = deliver(&mut to, outs);
            let ghost handed = delivered;
            proof {
                assert(op.gives(item, outs_given));
                assert(delivers(old_to, list, handed, to));
                assert(old_from.iterator().remaining().skip(1)
                    =~= old_from.iterator().remaining().drop_first());
            }
            match delivered {
                Ok(()) => {
                    proof {
                        assert forall|r: Result<K, DslineError>| #[trigger]
                            runs_over::<In, Out, O, K>(
                                op,
                                from.iterator().remaining(),
                                to,
                                r,
                            ) implies runs_over::<In, Out, O, K>(
                            whole,
                            source.iterator().remaining(),
                            sink,
                            r,
                        ) by {
                            assert(runs_over::<In, Out, O, K>(
                                op,
                                old_from.iterator().remaining(),
                                old_to,
                                r,
                            ));
                        }
                    }
                },
                Err(e) => {
                    proof {
                        let r = Err::<K, DslineError>(e);
                        assert(runs_over::<In, Out, O, K>(
                            op,
                            old_from.iterator().remaining(),
                            old_to,
                            r,
                        ));
                    }
                    return Err(e);
                },
            }
        }
    }
}

impl<In, Out, O> Pipeline<In, Out, O> {
    /// The operator.
    pub closed spec fn operator(&self) -> O {
        self.op
    }

    /// Adds a function that makes zero or more items of each item so far.
    pub fn pipe<F, Next>(self, next: F) -> (pipeline: Pipeline<In, Next, Then<O, F, Out>>) where
        O: Operator<In, Out>,
        F: FnMut(Out) -> Result<Vec<Next>, DslineError>,

        ensures
            pipeline.operator().previous() == self.operator(),
            pipeline.operator().function() == next,
            self.operator().ready() && (forall|x: Out| #[trigger] call_requires(next, (x,)))
                ==> pipeline.operator().ready(),
            forall|input: In, r: Result<Vec<Next>, DslineError>| #[trigger]
                pipeline.operator().gives(input, r) ==> exists|mid: Result<Vec<Out>, DslineError>|
                 #[trigger]
                    self.operator().gives(input, mid) && match mid {
                        Err(e) => r == Err::<Vec<Next>, DslineError>(e),
                        Ok(items) => maps_to(next, items@, Seq::<Next>::empty(), r),
                    },
    {
        Pipeline { op: Then { prev: self.op, next, mid: PhantomData }, types: PhantomData }
    }
}

/// A collecting sink takes every item, and keeps them all in order behind those it had.
pub proof fn law_collecting_keeps_order<T>(
    before: CollectSink<T>,
    items: Seq<T>,
    r: Result<(), DslineError>,
    after: CollectSink<T>,
)
    requires
        delivers(before, items, r, after),
    ensures
        r == Ok::<(), DslineError>(()),
        after@ == before@ + items,
    decreases items.len(),
{
    if items.len() == 0 {
        assert(before@ + items =~= before@);
    } else {
        let (one, next) = choose|one: Result<(), DslineError>, next: CollectSink<T>| #[trigger]
            <CollectSink<T> as Sink>::sent(before, items[0], one, next) && match one {
                Err(e) => r == Err::<(), DslineError>(e) && after == next,
                Ok(()) => delivers(next, items.skip(1), r, after),
            };
        law_collecting_keeps_order(next, items.skip(1), r, after);
        assert(before@ + items =~= before@.push(items[0]) + items.skip(1));
    }
}

/// A function that answers every item in one way only makes of a list what it makes of each item,
/// in order.
pub proof fn law_mapping_keeps_order<F, Mid, Out>(
    f: F,
    each: spec_fn(Mid) -> Seq<Out>,
    items: Seq<Mid>,
    front: Seq<Out>,
    r: Result<Vec<Out>, DslineError>,
) where F: FnMut(Mid) -> Result<Vec<Out>, DslineError>
    requires
        maps_to(f, items, front, r),
        forall|x: Mid, out: Result<Vec<Out>, DslineError>|
            #[trigger] call_ensures(f, (x,), out) ==> out is Ok && out->Ok_0@ == each(x),
    ensures
        r is Ok,
        r->Ok_0@ == front + items.map_values(each).flatten(),
    decreases items.len(),
{
    if items.len() == 0 {
        assert(items.map_values(each).flatten() =~= seq![]);
        assert(front + Seq::<Out>::empty() =~= front);
    } else {
        let out = choose|out: Result<Vec<Out>, DslineError>|
            #[trigger] call_ensures(f, (items[0],), out) && match out {
                Err(e) => r == Err::<Vec<Out>, DslineError>(e),
                Ok(more) => maps_to(f, items.skip(1), front + more@, r),
            };
        let rest = items.skip(1);
        law_mapping_keeps_order(f, each, rest, front + each(items[0]), r);
        assert(items.map_values(each).drop_first() =~= rest.map_values(each));
        assert(front + items.map_values(each).flatten() =~= front + each(items[0])
            + rest.map_values(each).flatten());
    }
}

/// Whether a source can hand out these items and then come to its end.
pub open spec fn yields<S: Stream>(source: S, items: Seq<S::Item>) -> bool
    decreases items.len(),
{
    exists|poll: Result<Option<S::Item>, DslineError>, rest: S| #[trigger]
        S::polled(source, poll, rest) && if items.len() == 0 {
            poll matches Ok(None)
        } else {
            poll == Ok::<Option<S::Item>, DslineError>(Some(items[0])) && yields(
                rest,
                items.skip(1),
            )
        }
}

/// A run that succeeds has taken all items of the source, and the sink has collected what the
/// operator makes of each, in order. The items are those returned here.
pub proof fn law_run_collects_everything<In, Out, O, S>(
    op: O,
    each: spec_fn(In) -> Seq<Out>,
    source: S,
    sink: CollectSink<Out>,
    count: nat,
    r: Result<CollectSink<Out>, DslineError>,
) -> (items: Seq<In>) where O: Operator<In, Out>, S: Stream<Item = In>
    requires
        runs::<In, Out, O, S, CollectSink<Out>>(op, source, sink, count, r),
        r is Ok,
        forall|x: In, out: Result<Vec<Out>, DslineError>|
            #[trigger] op.gives(x, out) ==> out is Ok && out->Ok_0@ == each(x),
    ensures
        yields(source, items),
        r->Ok_0@ == sink@ + items.map_values(each).flatten(),
    decreases count,
{
    let (poll, rest) = choose|poll: Result<Option<In>, DslineError>, rest: S| #[trigger]
        S::polled(source, poll, rest) && match poll {
            Err(e) => r == Err::<CollectSink<Out>, DslineError>(e),
            Ok(None) => finishes(sink, r),
            Ok(Some(item)) => count > 0 && exists|outs: Result<Vec<Out>, DslineError>| #[trigger]
                op.gives(item, outs) && match outs {
                    Err(e) => r == Err::<CollectSink<Out>, DslineError>(e),
                    Ok(outs) => exists|handed: Result<(), DslineError>, next: CollectSink<Out>|
                     #[trigger]
                        delivers(sink, outs@, handed, next) && match handed {
                            Err(e) => r == Err::<CollectSink<Out>, DslineError>(e),
                            Ok(()) => runs::<In, Out, O, S, CollectSink<Out>>(
                                op,
                                rest,
                                next,
                                (count - 1) as nat,
                                r,
                            ),
                        },
                },
        };
    match poll {
        Ok(Some(item)) => {
            let outs = choose|outs: Result<Vec<Out>, DslineError>| #[trigger]
                op.gives(item, outs) && match outs {
                    Err(e) => r == Err::<CollectSink<Out>, DslineError>(e),
                    Ok(outs) => exists|handed: Result<(), DslineError>, next: CollectSink<Out>|
                     #[trigger]
                        delivers(sink, outs@, handed, next) && match handed {
                            Err(e) => r == Err::<CollectSink<Out>, DslineError>(e),
                            Ok(()) => runs::<In, Out, O, S, CollectSink<Out>>(
                                op,
                                rest,
                                next,
                                (count - 1) as nat,
                                r,
                            ),
                        },
                };
            let list = outs->Ok_0@;
            let (handed, next) = choose|handed: Result<(), DslineError>, next: CollectSink<Out>|
             #[trigger]
                delivers(sink, list, handed, next) && match handed {
                    Err(e) => r == Err::<CollectSink<Out>, DslineError>(e),
                    Ok(()) => runs::<In, Out, O, S, CollectSink<Out>>(
                        op,
                        rest,
                        next,
                        (count - 1) as nat,
                        r,
                    ),
                };
            law_collecting_keeps_order(sink, list, handed, next);
            let later = law_run_collects_everything(
                op,
                each,
                rest,
                next,
                (count - 1) as nat,
                r,
            );
            let items = seq![item] + later;
            assert(items.skip(1) =~= later);
            assert(items[0] == item);
            assert(yields(source, items));
            assert(items.map_values(each).drop_first() =~= later.map_values(each));
            assert(items.map_values(each)[0] == each(item));
            assert(sink@ + items.map_values(each).flatten() =~= sink@ + each(item)
                + later.map_values(each).flatten());
            items
        },
        _ => {
            let items = Seq::<In>::empty();
            assert(S::polled(source, poll, rest));
            assert(yields(source, items));
            assert(items.map_values(each).flatten() =~= Seq::<Out>::empty());
            assert(sink@ + Seq::<Out>::empty() =~= sink@);
            items
        },
    }
}

/// Where an iterator hands out items only, and the operator answers each item in one way, a run
/// over it succeeds, and the sink has collected what the operator makes of each item, in order.
pub proof fn law_run_over_collects_everything<In, Out, O>(
    op: O,
    each: spec_fn(In) -> Seq<Out>,
    items: Seq<In>,
    sink: CollectSink<Out>,
    r: Result<CollectSink<Out>, DslineError>,
) where O: Operator<In, Out>
    requires
        runs_over::<In, Out, O, CollectSink<Out>>(
            op,
            items.map_values(|item: In| Ok::<In, DslineError>(item)),
            sink,
            r,
        ),
        forall|x: In, out: Result<Vec<Out>, DslineError>|
            #[trigger] op.gives(x, out) ==> out is Ok && out->Ok_0@ == each(x),
    ensures
        r is Ok,
        r->Ok_0@ == sink@ + items.map_values(each).flatten(),
    decreases items.len(),
{
    let answers = items.map_values(|item: In| Ok::<In, DslineError>(item));
    if items.len() == 0 {
        assert(items.map_values(each).flatten() =~= seq![]);
        assert(sink@ + Seq::<Out>::empty() =~= sink@);
    } else {
        let rest = items.skip(1);
        let outs = choose|outs: Result<Vec<Out>, DslineError>| #[trigger]
            op.gives(items[0], outs) && match outs {
                Err(e) => r == Err::<CollectSink<Out>, DslineError>(e),
                Ok(outs) => exists|handed: Result<(), DslineError>, next: CollectSink<Out>|
                 #[trigger]
                    delivers(sink, outs@, handed, next) && match handed {
                        Err(e) => r == Err::<CollectSink<Out>, DslineError>(e),
                        Ok(()) => runs_over::<In, Out, O, CollectSink<Out>>(
                            op,
                            answers.skip(1),
                            next,
                            r,
                        ),
                    },
            };
        let (handed, next) = choose|handed: Result<(), DslineError>, next: CollectSink<Out>|
         #[trigger]
            delivers(sink, outs->Ok_0@, handed, next) && match handed {
                Err(e) => r == Err::<CollectSink<Out>, DslineError>(e),
                Ok(()) => runs_over::<In, Out, O, CollectSink<Out>>(op, answers.skip(1), next, r),
            };
        law_collecting_keeps_order(sink, outs->Ok_0@, handed, next);
        assert(answers.skip(1) =~= rest.map_values(|item: In| Ok::<In, DslineError>(item)));
        law_run_over_collects_everything(op, each, rest, next, r);
        assert(items.map_values(each).drop_first() =~= rest.map_values(each));
        assert(sink@ + items.map_values(each).flatten() =~= sink@ + each(items[0])
            + rest.map_values(each).flatten());
    }
}

/// The first error of an iterator ends a run over it, if the operator and the sink take every item
/// before it.
pub proof fn law_first_error_ends_the_run<In, Out, O>(
    op: O,
    items: Seq<Result<In, DslineError>>,
    first: int,
    sink: CollectSink<Out>,
    r: Result<CollectSink<Out>, DslineError>,
) where O: Operator<In, Out>
    requires
        runs_over::<In, Out, O, CollectSink<Out>>(op, items, sink, r),
        0 <= first < items.len(),
        items[first] is Err,
        forall|i: int| 0 <= i < first ==> (#[trigger] items[i]) is Ok,
        forall|x: In, out: Result<Vec<Out>, DslineError>| #[trigger] op.gives(x, out) ==> out is Ok,
    ensures
        r == Err::<CollectSink<Out>, DslineError>(items[first]->Err_0),
    decreases first,
{
    if first > 0 {
        let item = items[0]->Ok_0;
        let outs = choose|outs: Result<Vec<Out>, DslineError>| #[trigger]
            op.gives(item, outs) && match outs {
                Err(e) => r == Err::<CollectSink<Out>, DslineError>(e),
                Ok(outs) => exists|handed: Result<(), DslineError>, next: CollectSink<Out>|
                 #[trigger]
                    delivers(sink, outs@, handed, next) && match handed {
                        Err(e) => r == Err::<CollectSink<Out>, DslineError>(e),
                        Ok(()) => runs_over::<In, Out, O, CollectSink<Out>>(
                            op,
                            items.skip(1),
                            next,
                            r,
                        ),
                    },
            };
        let (handed, next) = choose|handed: Result<(), DslineError>, next: CollectSink<Out>|
         #[trigger]
            delivers(sink, outs->Ok_0@, handed, next) && match handed {
                Err(e) => r == Err::<CollectSink<Out>, DslineError>(e),
                Ok(()) => runs_over::<In, Out, O, CollectSink<Out>>(op, items.skip(1), next, r),
            };
        law_collecting_keeps_order(sink, outs->Ok_0@, handed, next);
        assert forall|i: int| 0 <= i < first - 1 implies (#[trigger] items.skip(1)[i]) is Ok by {
            assert(items[i + 1] is Ok);
        }
        law_first_error_ends_the_run(op, items.skip(1), first - 1, next, r);
    }
}

/// Where a function answers an item only with an error, and every item before it with items, that
/// error is what applying it to the list gives, wherever in the list the item stands.
pub proof fn law_first_failure_is_the_answer<F, Mid, Out>(
    f: F,
    items: Seq<Mid>,
    front: Seq<Out>,
    failing: int,
    error: DslineError,
    r: Result<Vec<Out>, DslineError>,
) where F: FnMut(Mid) -> Result<Vec<Out>, DslineError>
    requires
        maps_to(f, items, front, r),
        0 <= failing < items.len(),
        forall|i: int, out: Result<Vec<Out>, DslineError>|
            0 <= i < failing && #[trigger] call_ensures(f, (items[i],), out) ==> out is Ok,
        forall|out: Result<Vec<Out>, DslineError>| #[trigger]
            call_ensures(f, (items[failing],), out) ==> out == Err::<Vec<Out>, DslineError>(error),
    ensures
        r == Err::<Vec<Out>, DslineError>(error),
    decreases failing,
{
    let out = choose|out: Result<Vec<Out>, DslineError>|
        #[trigger] call_ensures(f, (items[0],), out) && match out {
            Err(e) => r == Err::<Vec<Out>, DslineError>(e),
            Ok(more) => maps_to(f, items.skip(1), front + more@, r),
        };
    if failing > 0 {
        let rest = items.skip(1);
        assert forall|i: int, one: Result<Vec<Out>, DslineError>|
            0 <= i < failing - 1 && #[trigger] call_ensures(f, (rest[i],), one) implies one
            is Ok by {
            assert(rest[i] == items[i + 1]);
        }
        assert(rest[failing - 1] == items[failing]);
        law_first_failure_is_the_answer(
            f,
            rest,
            front + out->Ok_0@,
            failing - 1,
            error,
            r,
        );
    }
}

/// An operator behind another fails with the other's error, and with the first error of its own
/// among the items that come of the other.
pub proof fn law_chain_fails_with_the_first_failure<In, Mid, Out, P, F>(
    op: Then<P, F, Mid>,
    input: In,
    items: Seq<Mid>,
    failing: int,
    error: DslineError,
    r: Result<Vec<Out>, DslineError>,
) where P: Operator<In, Mid>, F: FnMut(Mid) -> Result<Vec<Out>, DslineError>
    requires
        <Then<P, F, Mid> as Operator<In, Out>>::gives(&op, input, r),
    ensures
        (forall|mid: Result<Vec<Mid>, DslineError>| #[trigger]
            op.previous().gives(input, mid) ==> mid == Err::<Vec<Mid>, DslineError>(error)) ==> r
            == Err::<Vec<Out>, DslineError>(error),
        0 <= failing < items.len() && (forall|mid: Result<Vec<Mid>, DslineError>| #[trigger]
            op.previous().gives(input, mid) ==> mid is Ok && mid->Ok_0@ == items) && (forall|
            i: int,
            out: Result<Vec<Out>, DslineError>,
        |
            0 <= i < failing && #[trigger] call_ensures(op.function(), (items[i],), out) ==> out
                is Ok) && (forall|out: Result<Vec<Out>, DslineError>| #[trigger]
            call_ensures(op.function(), (items[failing],), out) ==> out == Err::<
                Vec<Out>,
                DslineError,
            >(error)) ==> r == Err::<Vec<Out>, DslineError>(error),
{
    let mid = choose|mid: Result<Vec<Mid>, DslineError>| #[trigger]
        op.previous().gives(input, mid) && match mid {
            Err(e) => r == Err::<Vec<Out>, DslineError>(e),
            Ok(all) => maps_to(op.function(), all@, Seq::<Out>::empty(), r),
        };
    if mid is Ok && mid->Ok_0@ == items && 0 <= failing < items.len() && (forall|
        i: int,
        out: Result<Vec<Out>, DslineError>,
    |
        0 <= i < failing && #[trigger] call_ensures(op.function(), (items[i],), out) ==> out is Ok)
        && (forall|out: Result<Vec<Out>, DslineError>| #[trigger]
        call_ensures(op.function(), (items[failing],), out) ==> out == Err::<Vec<Out>, DslineError>(
            error,
        )) {
        law_first_failure_is_the_answer(
            op.function(),
            items,
            Seq::<Out>::empty(),
            failing,
            error,
            r,
        );
    }
}

/// Where no operator fails, an operator behind another gives what it makes of each item that comes
/// of the other, in order.
pub proof fn law_chain_keeps_order<In, Mid, Out, P, F>(
    op: Then<P, F, Mid>,
    input: In,
    items: Seq<Mid>,
    each: spec_fn(Mid) -> Seq<Out>,
    r: Result<Vec<Out>, DslineError>,
) where P: Operator<In, Mid>, F: FnMut(Mid) -> Result<Vec<Out>, DslineError>
    requires
        <Then<P, F, Mid> as Operator<In, Out>>::gives(&op, input, r),
        forall|mid: Result<Vec<Mid>, DslineError>| #[trigger]
            op.previous().gives(input, mid) ==> mid is Ok && mid->Ok_0@ == items,
        forall|x: Mid, out: Result<Vec<Out>, DslineError>| #[trigger]
            call_ensures(op.function(), (x,), out) ==> out is Ok && out->Ok_0@ == each(x),
    ensures
        r is Ok,
        r->Ok_0@ == items.map_values(each).flatten(),
{
    let mid = choose|mid: Result<Vec<Mid>, DslineError>| #[trigger]
        op.previous().gives(input, mid) && match mid {
            Err(e) => r == Err::<Vec<Out>, DslineError>(e),
            Ok(all) => maps_to(op.function(), all@, Seq::<Out>::empty(), r),
        };
    law_mapping_keeps_order(op.function(), each, items, Seq::<Out>::empty(), r);
    assert(Seq::<Out>::empty() + items.map_values(each).flatten() =~= items.map_values(
        each,
    ).flatten());
}

/// An item passes through the first operator as it is.
pub proof fn law_identity_passes_items_on<T>(input: T, r: Result<Vec<T>, DslineError>)
    requires
        <Identity as Operator<T, T>>::gives(&Identity, input, r),
    ensures
        r is Ok,
        r->Ok_0@.len() == 1,
        r->Ok_0@[0] == input,
{
}

/// Where the operator answers an item only with an error, and every item before it with items, the
/// run is that error, and so is the first error of the iterator.
pub proof fn law_failing_item_ends_the_run<In, Out, O>(
    op: O,
    items: Seq<Result<In, DslineError>>,
    failing: int,
    error: DslineError,
    sink: CollectSink<Out>,
    r: Result<CollectSink<Out>, DslineError>,
) where O: Operator<In, Out>
    requires
        runs_over::<In, Out, O, CollectSink<Out>>(op, items, sink, r),
        0 <= failing < items.len(),
        forall|i: int| 0 <= i < failing ==> (#[trigger] items[i]) is Ok,
        forall|i: int, out: Result<Vec<Out>, DslineError>|
            0 <= i < failing && #[trigger] op.gives(items[i]->Ok_0, out) ==> out is Ok,
        items[failing] matches Err(e) ==> e == error,
        items[failing] matches Ok(item) ==> forall|out: Result<Vec<Out>, DslineError>| #[trigger]
            op.gives(item, out) ==> out == Err::<Vec<Out>, DslineError>(error),
    ensures
        r == Err::<CollectSink<Out>, DslineError>(error),
    decreases failing,
{
    if failing > 0 {
        assert(items[0] is Ok);
        let item = items[0]->Ok_0;
        let outs = choose|outs: Result<Vec<Out>, DslineError>| #[trigger]
            op.gives(item, outs) && match outs {
                Err(e) => r == Err::<CollectSink<Out>, DslineError>(e),
                Ok(outs) => exists|handed: Result<(), DslineError>, next: CollectSink<Out>|
                 #[trigger]
                    delivers(sink, outs@, handed, next) && match handed {
                        Err(e) => r == Err::<CollectSink<Out>, DslineError>(e),
                        Ok(()) => runs_over::<In, Out, O, CollectSink<Out>>(
                            op,
                            items.skip(1),
                            next,
                            r,
                        ),
                    },
            };
        let (handed, next) = choose|handed: Result<(), DslineError>, next: CollectSink<Out>|
         #[trigger]
            delivers(sink, outs->Ok_0@, handed, next) && match handed {
                Err(e) => r == Err::<CollectSink<Out>, DslineError>(e),
                Ok(()) => runs_over::<In, Out, O, CollectSink<Out>>(op, items.skip(1), next, r),
            };
        law_collecting_keeps_order(sink, outs->Ok_0@, handed, next);
        let rest = items.skip(1);
        assert forall|i: int| 0 <= i < failing - 1 implies (#[trigger] rest[i]) is Ok by {
            assert(items[i + 1] is Ok);
        }
        assert forall|i: int, out: Result<Vec<Out>, DslineError>|
            0 <= i < failing - 1 && #[trigger] op.gives(rest[i]->Ok_0, out) implies out is Ok by {
            assert(rest[i] == items[i + 1]);
        }
        law_failing_item_ends_the_run(op, rest, failing - 1, error, next, r);
    }
}

/// Where a sink takes every item before one and refuses that one only with an error, handing over
/// the list is that error; where it takes them all, handing over succeeds, and the sink is in the
/// state that it has after the last.
pub proof fn law_first_refusal_is_the_answer<K: Sink>(
    states: spec_fn(int) -> K,
    items: Seq<K::Item>,
    refusing: int,
    error: DslineError,
    r: Result<(), DslineError>,
    after: K,
)
    requires
        delivers(states(0), items, r, after),
        0 <= refusing <= items.len(),
        forall|i: int, one: Result<(), DslineError>, next: K|
            0 <= i < refusing && #[trigger] K::sent(states(i), items[i], one, next) ==> one == Ok::<
                (),
                DslineError,
            >(()) && next == states(i + 1),
        refusing < items.len() ==> forall|one: Result<(), DslineError>, next: K| #[trigger]
            K::sent(states(refusing), items[refusing], one, next) ==> one == Err::<
                (),
                DslineError,
            >(error),
    ensures
        refusing < items.len() ==> r == Err::<(), DslineError>(error),
        refusing == items.len() ==> r == Ok::<(), DslineError>(()) && after == states(refusing),
    decreases items.len(),
{
    if items.len() > 0 {
        let (one, next) = choose|one: Result<(), DslineError>, next: K| #[trigger]
            K::sent(states(0), items[0], one, next) && match one {
                Err(e) => r == Err::<(), DslineError>(e) && after == next,
                Ok(()) => delivers(next, items.skip(1), r, after),
            };
        if refusing > 0 {
            let later = |i: int| states(i + 1);
            let rest = items.skip(1);
            assert forall|i: int, one: Result<(), DslineError>, next: K|
                0 <= i < refusing - 1 && #[trigger] K::sent(
                    later(i),
                    rest[i],
                    one,
                    next,
                ) implies one == Ok::<(), DslineError>(()) && next == later(i + 1) by {
                assert(K::sent(states(i + 1), items[i + 1], one, next));
            }
            if refusing < items.len() {
                assert forall|one: Result<(), DslineError>, next: K| #[trigger]
                    K::sent(later(refusing - 1), rest[refusing - 1], one, next) implies one
                    == Err::<(), DslineError>(error) by {
                    assert(K::sent(states(refusing), items[refusing], one, next));
                }
            }
            law_first_refusal_is_the_answer(later, rest, refusing - 1, error, r, after);
        }
    }
}

/// At the end of an iterator the sink is closed, and the run is what closing it gives.
pub proof fn law_run_ends_with_closing<In, Out, O, K>(
    op: O,
    sink: K,
    closing: Result<(), DslineError>,
    after: K,
    r: Result<K, DslineError>,
) where O: Operator<In, Out>, K: Sink<Item = Out>
    requires
        runs_over::<In, Out, O, K>(op, seq![], sink, r),
        forall|c: Result<(), DslineError>, k: K| #[trigger]
            K::closed(sink, c, k) ==> c == closing && k == after,
    ensures
        r == match closing {
            Ok(()) => Ok::<K, DslineError>(after),
            Err(e) => Err(e),
        },
{
}

/// What the operator makes of an item goes to the sink before the next item is taken; an error of
/// the sink is the answer of the run.
pub proof fn law_run_hands_items_over_one_by_one<In, Out, O, K>(
    op: O,
    items: Seq<Result<In, DslineError>>,
    outs: Seq<Out>,
    sink: K,
    handed: Result<(), DslineError>,
    next: K,
    r: Result<K, DslineError>,
) where O: Operator<In, Out>, K: Sink<Item = Out>
    requires
        runs_over::<In, Out, O, K>(op, items, sink, r),
        items.len() > 0,
        items[0] is Ok,
        forall|out: Result<Vec<Out>, DslineError>| #[trigger]
            op.gives(items[0]->Ok_0, out) ==> out is Ok && out->Ok_0@ == outs,
        forall|h: Result<(), DslineError>, k: K| #[trigger]
            delivers(sink, outs, h, k) ==> h == handed && k == next,
    ensures
        handed matches Err(e) ==> r == Err::<K, DslineError>(e),
        handed is Ok ==> runs_over::<In, Out, O, K>(op, items.skip(1), next, r),
{
}

/// What an iterator hands out that gives some items, and then ends or fails.
pub open spec fn script<In>(items: Seq<In>, end: Option<DslineError>) -> Seq<
    Result<In, DslineError>,
> {
    Seq::new(
        items.len() + if end is Some {
            1nat
        } else {
            0nat
        },
        |i: int|
            if i < items.len() {
                Ok(items[i])
            } else {
                Err(end->0)
            },
    )
}

/// A run over a source that answers in one way only is a run over an iterator with the same items:
/// `count` items, and then its end or an error.
pub proof fn law_source_runs_like_an_iterator<In, Out, O, S, K>(
    op: O,
    states: spec_fn(int) -> S,
    items: Seq<In>,
    end: Option<DslineError>,
    sink: K,
    most: nat,
    r: Result<K, DslineError>,
) where O: Operator<In, Out>, S: Stream<Item = In>, K: Sink<Item = Out>
    requires
        runs::<In, Out, O, S, K>(op, states(0), sink, most, r),
        forall|i: int, poll: Result<Option<In>, DslineError>, rest: S|
            0 <= i < items.len() && #[trigger] S::polled(states(i), poll, rest) ==> poll == Ok::<
                Option<In>,
                DslineError,
            >(Some(items[i])) && rest == states(i + 1),
        forall|poll: Result<Option<In>, DslineError>, rest: S| #[trigger]
            S::polled(states(items.len() as int), poll, rest) ==> poll == match end {
                None => Ok::<Option<In>, DslineError>(None),
                Some(e) => Err(e),
            },
    ensures
        runs_over::<In, Out, O, K>(
            op,
            script(items, end),
            sink,
            r,
        ),
    decreases items.len(),
{
    let answers = script(items, end);
    let (poll, rest) = choose|poll: Result<Option<In>, DslineError>, rest: S| #[trigger]
        S::polled(states(0), poll, rest) && match poll {
            Err(e) => r == Err::<K, DslineError>(e),
            Ok(None) => finishes(sink, r),
            Ok(Some(item)) => most > 0 && exists|outs: Result<Vec<Out>, DslineError>| #[trigger]
                op.gives(item, outs) && match outs {
                    Err(e) => r == Err::<K, DslineError>(e),
                    Ok(outs) => exists|handed: Result<(), DslineError>, next: K| #[trigger]
                        delivers(sink, outs@, handed, next) && match handed {
                            Err(e) => r == Err::<K, DslineError>(e),
                            Ok(()) => runs::<In, Out, O, S, K>(
                                op,
                                rest,
                                next,
                                (most - 1) as nat,
                                r,
                            ),
                        },
                },
        };
    assert(S::polled(states(0), poll, rest));
    if items.len() == 0 {
        assert(items.len() as int == 0);
        match end {
            None => {
                assert(poll == Ok::<Option<In>, DslineError>(None));
                assert(answers.len() == 0);
                assert(finishes(sink, r));
            },
            Some(e) => {
                assert(answers[0] == Err::<In, DslineError>(e));
            },
        }
        assert(runs_over::<In, Out, O, K>(op, answers, sink, r));
    } else {
        let item = items[0];
        assert(poll == Ok::<Option<In>, DslineError>(Some(item)));
        let outs = choose|outs: Result<Vec<Out>, DslineError>| #[trigger]
            op.gives(item, outs) && match outs {
                Err(e) => r == Err::<K, DslineError>(e),
                Ok(outs) => exists|handed: Result<(), DslineError>, next: K| #[trigger]
                    delivers(sink, outs@, handed, next) && match handed {
                        Err(e) => r == Err::<K, DslineError>(e),
                        Ok(()) => runs::<In, Out, O, S, K>(op, rest, next, (most - 1) as nat, r),
                    },
            };
        assert(answers[0] == Ok::<In, DslineError>(item));
        assert(op.gives(answers[0]->Ok_0, outs));
        if outs is Err {
            assert(runs_over::<In, Out, O, K>(op, answers, sink, r));
        } else {
            let (handed, next) = choose|handed: Result<(), DslineError>, next: K| #[trigger]
                delivers(sink, outs->Ok_0@, handed, next) && match handed {
                    Err(e) => r == Err::<K, DslineError>(e),
                    Ok(()) => runs::<In, Out, O, S, K>(op, rest, next, (most - 1) as nat, r),
                };
            if handed is Ok {
                let later = |i: int| states(i + 1);
                let behind = items.skip(1);
                assert forall|i: int, poll: Result<Option<In>, DslineError>, rest: S|
                    0 <= i < behind.len() && #[trigger] S::polled(
                        later(i),
                        poll,
                        rest,
                    ) implies poll == Ok::<Option<In>, DslineError>(Some(behind[i])) && rest
                    == later(i + 1) by {
                    assert(S::polled(states(i + 1), poll, rest));
                }
                assert(later(0) == rest);
                law_source_runs_like_an_iterator(
                    op,
                    later,
                    behind,
                    end,
                    next,
                    (most - 1) as nat,
                    r,
                );
                assert(answers.skip(1) =~= script(behind, end));
                assert(runs_over::<In, Out, O, K>(op, answers.skip(1), next, r));
            }
            assert(delivers(sink, outs->Ok_0@, handed, next));
            assert(runs_over::<In, Out, O, K>(op, answers, sink, r));
        }
    }
}

} // verus!
