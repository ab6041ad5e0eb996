//! Mapping every item of a sequence to a sequence, lazily, and handing out
//! the items of the results one after the other.
use vstd::prelude::*;
use crate::flatten::{concat, lemma_concat_last};

verus! {

/// `outs[i]` is a result that `f` may give for `xs[i]`, for every `i`.
pub open spec fn produced<T, U, F: Fn(T) -> Vec<U>>(f: F, xs: Seq<T>, outs: Seq<Vec<U>>) -> bool {
    &&& outs.len() == xs.len()
    &&& forall|i: int| 0 <= i < xs.len() ==> call_ensures(f, (xs[i],), #[trigger] outs[i])
}

/// The items of `g` applied to each of `xs`, one after the other.
pub open spec fn concat_map<T, U>(g: spec_fn(T) -> Seq<U>, xs: Seq<T>) -> Seq<U>
    decreases xs.len(),
{
    if xs.len() == 0 {
        Seq::empty()
    } else {
        g(xs[0]) + concat_map(g, xs.drop_first())
    }
}

/// When `f` gives for each item the result that `g` describes, what `f`
/// produced for `xs`, joined up, is `concat_map(g, xs)`: the stream of a
/// `FlatMap_Ours` is then exactly its pending items followed by the results
/// of the mapper on the remaining items.
pub proof fn lemma_produced_by_function<T, U, F: Fn(T) -> Vec<U>>(
    f: F,
    g: spec_fn(T) -> Seq<U>,
    xs: Seq<T>,
    outs: Seq<Vec<U>>,
)
    requires
        produced(f, xs, outs),
        forall|x: T, r: Vec<U>| call_ensures(f, (x,), r) ==> r@ == g(x),
    ensures
        concat(outs) == concat_map(g, xs),
    decreases xs.len(),
{
    if xs.len() > 0 {
        assert(call_ensures(f, (xs[0],), outs[0]));
        lemma_produced_by_function(f, g, xs.drop_first(), outs.drop_first());
    }
}

/// A lazy stream over the items of `mapper` applied to each item of a
/// sequence.
#[allow(non_camel_case_types)]
pub struct FlatMap_Ours<T, F, U> {
    structure: Vec<T>,
    mapper: F,
    inner_s: Option<Vec<U>>,
    items: Ghost<Seq<T>>,
    consumed: Ghost<Seq<T>>,
    results: Ghost<Seq<Vec<U>>>,
    handed: Ghost<Seq<U>>,
}

impl<T, F: Fn(T) -> Vec<U>, U> FlatMap_Ours<T, F, U> {
    /// The items not yet given to the mapper.
    pub closed spec fn outer(&self) -> Seq<T> {
        self.structure@
    }

    /// The mapper.
    pub closed spec fn mapper(&self) -> F {
        self.mapper
    }

    /// The items of the current result of the mapper not yet handed out.
    pub closed spec fn pending(&self) -> Seq<U> {
        match self.inner_s {
            Some(v) => v@,
            None => Seq::empty(),
        }
    }

    /// All the items the stream was made from.
    pub closed spec fn items(&self) -> Seq<T> {
        self.items@
    }

    /// The items given to the mapper so far, in the order of the calls.
    pub closed spec fn consumed(&self) -> Seq<T> {
        self.consumed@
    }

    /// What the mapper returned for each of `consumed`, in order.
    pub closed spec fn results(&self) -> Seq<Vec<U>> {
        self.results@
    }

    /// The items handed out so far, in order.
    pub closed spec fn handed(&self) -> Seq<U> {
        self.handed@
    }

    /// The mapper may be called on every item, and the run so far is
    /// consistent: the mapper was called once on each of the first items, in
    /// order, and on no other; what it returned, joined up, is what was
    /// handed out followed by what is pending; and it was called on an item
    /// only once all that it returned before had been handed out.
    pub open spec fn wf(&self) -> bool {
        &&& forall|x: T| call_requires(self.mapper(), (x,))
        &&& self.items() == self.consumed() + self.outer()
        &&& produced(self.mapper(), self.consumed(), self.results())
        &&& self.handed() + self.pending() == concat(self.results())
        &&& self.results().len() > 0 ==> concat(self.results().drop_last()).len()
            <= self.handed().len()
    }

    /// A stream over the items of `mapper` applied to each of `iter`.
    pub fn new_t(iter: Vec<T>, mapper: F) -> (m: Self)
        requires
            forall|x: T| call_requires(mapper, (x,)),
        ensures
            m.wf(),
            m.outer() == iter@,
            m.mapper() == mapper,
            m.pending() == Seq::<U>::empty(),
            m.items() == iter@,
            m.consumed() == Seq::<T>::empty(),
            m.results() == Seq::<Vec<U>>::empty(),
            m.handed() == Seq::<U>::empty(),
    {
        let ghost all = iter@;
        let m = FlatMap_Ours {
            structure: iter,
            mapper,
            inner_s: None,
            items: Ghost(all),
            consumed: Ghost(Seq::empty()),
            results: Ghost(Seq::empty()),
            handed: Ghost(Seq::empty()),
        };
        assert(m.items() =~= m.consumed() + m.outer());
        assert(m.handed() + m.pending() =~= concat(m.results()));
        m
    }

    /// The next item: the first pending one, or else the first item of the
    /// results of the mapper on the next items, calling the mapper on no
    /// more items than needed; `None` when all are used up.
    pub fn next(&mut self) -> (r: Option<U>)
        requires
            old(self).wf(),
        ensures
            final(self).wf(),
            final(self).mapper() == old(self).mapper(),
            final(self).items() == old(self).items(),
            old(self).consumed().len() <= final(self).consumed().len(),
            final(self).consumed().take(old(self).consumed().len() as int) == old(self).consumed(),
            final(self).results().take(old(self).results().len() as int) == old(self).results(),
            old(self).pending().len() > 0 ==> final(self).consumed() == old(self).consumed(),
            r matches Some(u) ==> final(self).handed() == old(self).handed().push(u),
            r is None ==> final(self).handed() == old(self).handed() && final(self).consumed()
                == final(self).items(),
            match r {
                Some(u) => exists|k: int, outs: Seq<Vec<U>>|
                    #![trigger produced(old(self).mapper(), old(self).outer().take(k), outs)]
                    {
                        let items = old(self).pending() + concat(outs);
                        &&& 0 <= k <= old(self).outer().len()
                        &&& produced(old(self).mapper(), old(self).outer().take(k), outs)
                        &&& k > 0 ==> old(self).pending() + concat(outs.drop_last())
                            == Seq::<U>::empty()
                        &&& items.len() > 0
                        &&& u == items[0]
                        &&& final(self).pending() == items.drop_first()
                        &&& final(self).outer() == old(self).outer().skip(k)
                    },
                None => exists|outs: Seq<Vec<U>>|
                    #![trigger produced(old(self).mapper(), old(self).outer(), outs)]
                    {
                        &&& produced(old(self).mapper(), old(self).outer(), outs)
                        &&& old(self).pending() + concat(outs) == Seq::<U>::empty()
                        &&& final(self).pending() == Seq::<U>::empty()
                        &&& final(self).outer() == Seq::<T>::empty()
                    },
            },
    {
        let ghost orig_outer = self.structure@;
        let ghost orig_pending = self.pending();
        let ghost f = self.mapper;
        let ghost mut k: int = 0;
        let ghost mut outs: Seq<Vec<U>> = Seq::empty();
        assert(orig_outer.take(0) =~= Seq::<T>::empty());
        assert(concat(outs) =~= Seq::<U>::empty());
        assert(orig_pending + concat(outs) =~= orig_pending);
        assert(orig_outer.skip(0) =~= orig_outer);
        assert(self.consumed@ + orig_outer.take(0) =~= self.consumed@);
        assert(self.results@.take(self.results@.len() as int) =~= self.results@);
        loop
            invariant
                orig_outer == old(self).outer(),
                orig_pending == old(self).pending(),
                f == old(self).mapper(),
                self.mapper == f,
                forall|x: T| call_requires(f, (x,)),
                0 <= k <= orig_outer.len(),
                self.structure@ == orig_outer.skip(k),
                produced(f, orig_outer.take(k), outs),
                orig_pending + concat(outs) == self.pending(),
                k > 0 ==> orig_pending + concat(outs.drop_last()) == Seq::<U>::empty(),
                self.items@ == old(self).items(),
                self.consumed@ == old(self).consumed() + orig_outer.take(k),
                self.results@.take(old(self).results().len() as int) == old(self).results(),
                old(self).results().len() <= self.results@.len(),
                self.handed@ == old(self).handed(),
                self.items@ == self.consumed@ + self.structure@,
                produced(f, self.consumed@, self.results@),
                self.handed@ + self.pending() == concat(self.results@),
                self.results@.len() > 0 ==> concat(self.results@.drop_last()).len()
                    <= self.handed@.len(),
            decreases self.structure.len(),
        {
            if self.inner_s.is_some() {
                let mut inner = self.inner_s.take().unwrap();
                if inner.len() > 0 {
                    let inner_value = inner.remove(0);
                    self.inner_s = Some(inner);
                    self.handed = Ghost(self.handed@.push(inner_value));
                    assert(self.handed@ + self.pending() =~= concat(self.results@));
                    assert(self.consumed@.take(old(self).consumed().len() as int)
                        =~= old(self).consumed());
                    assert(self.pending() =~= (orig_pending + concat(outs)).drop_first());
                    assert(produced(f, orig_outer.take(k), outs));
                    return Some(inner_value);
                }
                assert(self.pending() =~= orig_pending + concat(outs));
            }
            if self.structure.len() == 0 {
                assert(orig_outer.take(k) =~= orig_outer);
                assert(produced(f, orig_outer, outs));
                assert(self.structure@ =~= Seq::<T>::empty());
                assert(self.items@ =~= self.consumed@);
                assert(self.consumed@.take(old(self).consumed().len() as int)
                    =~= old(self).consumed());
                return None;
            }
            let ghost before = self.structure@;
            let outer_iter_value = self.structure.remove(0);
            let out = (self.mapper)(outer_iter_value);
            proof {
                assert(before[0] == orig_outer[k]);
                let new_outs = outs.push(out);
                assert(orig_outer.take(k + 1) =~= orig_outer.take(k).push(orig_outer[k]));
                assert forall|i: int| 0 <= i < k + 1 implies call_ensures(
                    f,
                    (orig_outer.take(k + 1)[i],),
                    #[trigger] new_outs[i],
                ) by {
                    if i < k {
                        assert(orig_outer.take(k)[i] == orig_outer.take(k + 1)[i]);
                        assert(new_outs[i] == outs[i]);
                    }
                }
                lemma_concat_last(new_outs);
                assert(new_outs.drop_last() =~= outs);
                assert(self.structure@ =~= orig_outer.skip(k + 1));
                outs = new_outs;
                k = k + 1;
            }
            let ghost old_consumed = self.consumed@;
            let ghost old_results = self.results@;
            self.consumed = Ghost(self.consumed@.push(outer_iter_value));
            self.results = Ghost(self.results@.push(out));
            proof {
                assert(self.consumed@ =~= old(self).consumed() + orig_outer.take(k));
                assert(self.items@ =~= self.consumed@ + self.structure@);
                assert forall|i: int| 0 <= i < self.consumed@.len() implies call_ensures(
                    f,
                    (self.consumed@[i],),
                    #[trigger] self.results@[i],
                ) by {
                    if i < old_consumed.len() {
                        assert(call_ensures(f, (old_consumed[i],), old_results[i]));
                    }
                }
                lemma_concat_last(self.results@);
                assert(self.results@.drop_last() =~= old_results);
                assert(self.results@.take(old(self).results().len() as int) =~= old_results.take(
                    old(self).results().len() as int,
                ));
            }
            self.inner_s = Some(out);
            assert(orig_pending + concat(outs) =~= self.pending());
        }
    }
}

/// A lazy stream over the items of `mapper_fn` applied to each of `iter`.
pub fn flat_map_ours<T, F: Fn(T) -> Vec<U>, U>(iter: Vec<T>, mapper_fn: F) -> (m: FlatMap_Ours<
    T,
    F,
    U,
>)
    requires
        forall|x: T| call_requires(mapper_fn, (x,)),
    ensures
        m.wf(),
        m.outer() == iter@,
        m.mapper() == mapper_fn,
        m.pending() == Seq::<U>::empty(),
        m.items() == iter@,
        m.consumed() == Seq::<T>::empty(),
        m.results() == Seq::<Vec<U>>::empty(),
        m.handed() == Seq::<U>::empty(),
{
    FlatMap_Ours::new_t(iter, mapper_fn)
}

/// Over any run of a stream made by `flat_map_ours` or `new_t` and then
/// driven by `next`: the mapper has been called exactly once on each of the
/// first items, in order, and on no other (the rest are still to come);
/// the items handed out, followed by those pending, are exactly the
/// mapper's results joined up; the mapper was called on an item only once
/// everything it returned before was handed out; and once every item has
/// been given to the mapper none is left to map.
pub proof fn lemma_flat_map_run<T, F: Fn(T) -> Vec<U>, U>(m: &FlatMap_Ours<T, F, U>)
    requires
        m.wf(),
    ensures
        m.consumed() == m.items().take(m.consumed().len() as int),
        m.outer() == m.items().skip(m.consumed().len() as int),
        m.results().len() == m.consumed().len(),
        forall|i: int|
            0 <= i < m.consumed().len() ==> call_ensures(
                m.mapper(),
                (m.consumed()[i],),
                #[trigger] m.results()[i],
            ),
        m.handed() + m.pending() == concat(m.results()),
        m.results().len() > 0 ==> concat(m.results().drop_last()).len() <= m.handed().len(),
        m.consumed() == m.items() ==> m.outer() == Seq::<T>::empty(),
{
    assert(m.items().take(m.consumed().len() as int) =~= m.consumed());
    assert(m.items().skip(m.consumed().len() as int) =~= m.outer());
}

} // verus!
