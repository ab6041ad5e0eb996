//! Flattening a sequence of sequences into one stream that can be consumed
//! from both ends.
use vstd::prelude::*;

verus! {

/// All the items of the inner sequences, one after the other.
pub open spec fn concat<T>(s: Seq<Vec<T>>) -> Seq<T>
    decreases s.len(),
{
    if s.len() == 0 {
        Seq::empty()
    } else {
        s[0]@ + concat(s.drop_first())
    }
}

/// The last inner sequence can be split off the end of `concat`.
pub proof fn lemma_concat_last<T>(s: Seq<Vec<T>>)
    requires
        s.len() > 0,
    ensures
        concat(s) == concat(s.drop_last()) + s.last()@,
    decreases s.len(),
{
    if s.len() == 1 {
        assert(s.drop_last() =~= Seq::<Vec<T>>::empty());
        assert(concat(s.drop_first()) == Seq::<T>::empty()) by {
            assert(s.drop_first().len() == 0);
        }
        assert(concat(s) =~= s[0]@);
    } else {
        lemma_concat_last(s.drop_first());
        assert(s.drop_first().drop_last() =~= s.drop_last().drop_first());
        assert(s.drop_first().last() == s.last());
        assert(concat(s) =~= concat(s.drop_last()) + s.last()@);
    }
}

/// The items left in an inner sequence that may be absent.
pub open spec fn items_of<T>(inner: Option<Vec<T>>) -> Seq<T> {
    match inner {
        Some(v) => v@,
        None => Seq::empty(),
    }
}

/// A stream over the items of a sequence of sequences, consumed from the
/// front by `next` and from the back by `next_back`.
pub struct Flatten<T> {
    outer: Vec<Vec<T>>,
    current_front_inner: Option<Vec<T>>,
    current_rear_inner: Option<Vec<T>>,
    original: Ghost<Seq<T>>,
    front: Ghost<Seq<T>>,
    back: Ghost<Seq<T>>,
}

impl<T> View for Flatten<T> {
    type V = Seq<T>;

    /// The items not yet handed out, in order.
    closed spec fn view(&self) -> Seq<T> {
        items_of(self.current_front_inner) + concat(self.outer@) + items_of(
            self.current_rear_inner,
        )
    }
}

impl<T> Flatten<T> {
    /// All the items of the stream as it was made, in order.
    pub closed spec fn original(&self) -> Seq<T> {
        self.original@
    }

    /// The items handed out by `next`, in the order handed out.
    pub closed spec fn front_handed(&self) -> Seq<T> {
        self.front@
    }

    /// The items handed out by `next_back`, in the order handed out.
    pub closed spec fn back_handed(&self) -> Seq<T> {
        self.back@
    }

    /// The run so far is consistent: what `next` handed out, then what is
    /// left, then what `next_back` handed out (last handed out first) are
    /// all the items of the stream as it was made.
    pub open spec fn wf(&self) -> bool {
        self.front_handed() + self@ + self.back_handed().reverse() == self.original()
    }

    /// A stream over all the items of `iter`, in order.
    pub fn new(iter: Vec<Vec<T>>) -> (f: Self)
        ensures
            f@ == concat(iter@),
            f.wf(),
            f.original() == concat(iter@),
            f.front_handed() == Seq::<T>::empty(),
            f.back_handed() == Seq::<T>::empty(),
    {
        let ghost all = concat(iter@);
        let f = Flatten {
            outer: iter,
            current_front_inner: None,
            current_rear_inner: None,
            original: Ghost(all),
            front: Ghost(Seq::empty()),
            back: Ghost(Seq::empty()),
        };
        assert(f@ =~= concat(iter@));
        assert(f.back_handed().reverse() =~= Seq::<T>::empty());
        assert(f.front_handed() + f@ + f.back_handed().reverse() =~= f.original());
        f
    }

    /// The first item not yet handed out, or `None` when there is none.
    pub fn next(&mut self) -> (r: Option<T>)
        requires
            old(self).wf(),
        ensures
            final(self).wf(),
            final(self).original() == old(self).original(),
            final(self).back_handed() == old(self).back_handed(),
            old(self)@.len() > 0 ==> r == Some(old(self)@[0]) && final(self)@ == old(self)@.drop_first()
                && final(self).front_handed() == old(self).front_handed().push(old(self)@[0]),
            old(self)@.len() == 0 ==> r is None && final(self)@ == old(self)@
                && final(self).front_handed() == old(self).front_handed(),
    {
        let r = self.next_item();
        proof {
            if old(self)@.len() > 0 {
                let x = old(self)@[0];
                self.front@ = self.front@.push(x);
                assert(self.front_handed() + self@ =~= old(self).front_handed() + old(self)@);
            }
        }
        r
    }

    fn next_item(&mut self) -> (r: Option<T>)
        ensures
            final(self).original == old(self).original,
            final(self).front == old(self).front,
            final(self).back == old(self).back,
            old(self)@.len() > 0 ==> r == Some(old(self)@[0]) && final(self)@ == old(self)@.drop_first(),
            old(self)@.len() == 0 ==> r is None && final(self)@ == old(self)@,
    {
        let ghost orig = self@;
        loop
            invariant
                self@ == orig,
                orig == old(self)@,
                self.original == old(self).original,
                self.front == old(self).front,
                self.back == old(self).back,
            decreases self.outer.len(),
        {
            if self.current_front_inner.is_some() {
                let mut front = self.current_front_inner.take().unwrap();
                if front.len() > 0 {
                    let item = front.remove(0);
                    self.current_front_inner = Some(front);
                    assert(orig =~= seq![item] + self@);
                    return Some(item);
                }
                assert(self@ =~= orig);
            }
            if self.outer.len() == 0 {
                assert(concat(self.outer@) =~= Seq::<T>::empty());
                match self.current_rear_inner.take() {
                    None => {
                        assert(self@ =~= orig);
                        return None;
                    },
                    Some(mut rear) => {
                        if rear.len() > 0 {
                            let item = rear.remove(0);
                            self.current_rear_inner = Some(rear);
                            assert(orig =~= seq![item] + self@);
                            return Some(item);
                        } else {
                            self.current_rear_inner = Some(rear);
                            assert(orig =~= Seq::<T>::empty());
                            return None;
                        }
                    },
                }
            }
            let ghost outer_before = self.outer@;
            let inner = self.outer.remove(0);
            assert(self.outer@ =~= outer_before.drop_first());
            self.current_front_inner = Some(inner);
            assert(self@ =~= orig);
        }
    }

    /// The last item not yet handed out, or `None` when there is none.
    pub fn next_back(&mut self) -> (r: Option<T>)
        requires
            old(self).wf(),
        ensures
            final(self).wf(),
            final(self).original() == old(self).original(),
            final(self).front_handed() == old(self).front_handed(),
            old(self)@.len() > 0 ==> r == Some(old(self)@.last()) && final(self)@ == old(self)@.drop_last()
                && final(self).back_handed() == old(self).back_handed().push(old(self)@.last()),
            old(self)@.len() == 0 ==> r is None && final(self)@ == old(self)@
                && final(self).back_handed() == old(self).back_handed(),
    {
        let r = self.next_back_item();
        proof {
            if old(self)@.len() > 0 {
                let x = old(self)@.last();
                let b = old(self).back_handed();
                self.back@ = b.push(x);
                assert(b.push(x).reverse() =~= seq![x] + b.reverse());
                assert(self@ + (seq![x] + b.reverse()) =~= old(self)@ + b.reverse());
                assert(self.front_handed() + self@ + self.back_handed().reverse()
                    =~= old(self).front_handed() + old(self)@ + b.reverse());
            }
        }
        r
    }

    fn next_back_item(&mut self) -> (r: Option<T>)
        ensures
            final(self).original == old(self).original,
            final(self).front == old(self).front,
            final(self).back == old(self).back,
            old(self)@.len() > 0 ==> r == Some(old(self)@.last()) && final(self)@ == old(self)@.drop_last(),
            old(self)@.len() == 0 ==> r is None && final(self)@ == old(self)@,
    {
        let ghost orig = self@;
        loop
            invariant
                self@ == orig,
                orig == old(self)@,
                self.original == old(self).original,
                self.front == old(self).front,
                self.back == old(self).back,
            decreases self.outer.len(),
        {
            if self.current_rear_inner.is_some() {
                let mut rear = self.current_rear_inner.take().unwrap();
                if rear.len() > 0 {
                    let ghost rear_before = rear@;
                    let item = rear.pop().unwrap();
                    assert(rear_before =~= rear@.push(item));
                    self.current_rear_inner = Some(rear);
                    assert(orig =~= self@.push(item));
                    return Some(item);
                }
                assert(self@ =~= orig);
            }
            if self.outer.len() == 0 {
                assert(concat(self.outer@) =~= Seq::<T>::empty());
                match self.current_front_inner.take() {
                    None => {
                        assert(self@ =~= orig);
                        return None;
                    },
                    Some(mut front) => {
                        if front.len() > 0 {
                            let ghost front_before = front@;
                            let item = front.pop().unwrap();
                            assert(front_before =~= front@.push(item));
                            self.current_front_inner = Some(front);
                            assert(orig =~= self@.push(item));
                            return Some(item);
                        } else {
                            self.current_front_inner = Some(front);
                            assert(orig =~= Seq::<T>::empty());
                            return None;
                        }
                    },
                }
            }
            let ghost outer_before = self.outer@;
            proof {
                lemma_concat_last(outer_before);
            }
            let inner = self.outer.pop().unwrap();
            assert(self.outer@ =~= outer_before.drop_last());
            self.current_rear_inner = Some(inner);
            assert(self@ =~= orig);
        }
    }

    /// The number of items not yet handed out, counted by handing them all
    /// out.
    pub fn count(self) -> (n: usize)
        requires
            self.wf(),
            self@.len() <= usize::MAX,
        ensures
            n == self@.len(),
    {
        let ghost orig = self@;
        let mut it = self;
        let mut n: usize = 0;
        loop
            invariant
                n + it@.len() == orig.len(),
                orig == self@,
                it.wf(),
                orig.len() <= usize::MAX,
            decreases it@.len(),
        {
            match it.next() {
                Some(_) => {
                    n = n + 1;
                },
                None => {
                    return n;
                },
            }
        }
    }
}

/// A stream over all the items of the sequences in `iter`, in order.
pub fn flatten<T>(iter: Vec<Vec<T>>) -> (f: Flatten<T>)
    ensures
        f@ == concat(iter@),
        f.wf(),
        f.original() == concat(iter@),
        f.front_handed() == Seq::<T>::empty(),
        f.back_handed() == Seq::<T>::empty(),
{
    Flatten::new(iter)
}

/// Over any run of `next` and `next_back` calls on a stream made by
/// `flatten` or `new`, with `f` calls of `next` and `b` of `next_back` so far
/// that handed something out: `next` has handed out exactly the first `f`
/// items of the stream, in order, and `next_back` exactly the last `b`, last
/// first; what is left is the items between; so the next `next` gives item
/// `f`, the next `next_back` gives the item `b` places from the end, and
/// every item is handed out exactly once.
pub proof fn lemma_flatten_run<T>(it: &Flatten<T>)
    requires
        it.wf(),
    ensures
        ({
            let c = it.original();
            let f = it.front_handed().len();
            let b = it.back_handed().len();
            &&& f + b + it@.len() == c.len()
            &&& it.front_handed() == c.subrange(0, f as int)
            &&& it@ == c.subrange(f as int, c.len() - b)
            &&& forall|i: int| 0 <= i < b ==> #[trigger] it.back_handed()[i] == c[c.len() - 1 - i]
            &&& it@.len() > 0 ==> it@[0] == c[f as int] && it@.last() == c[c.len() - 1 - b]
        }),
{
    let c = it.original();
    let fr = it.front_handed();
    let bk = it.back_handed();
    let f = fr.len();
    let b = bk.len();
    assert(c.subrange(0, f as int) =~= fr);
    assert(c.subrange(f as int, c.len() - b) =~= it@);
    assert forall|i: int| 0 <= i < b implies #[trigger] bk[i] == c[c.len() - 1 - i] by {
        assert(bk.reverse()[b - 1 - i] == bk[i]);
        assert(c[c.len() - 1 - i] == (fr + it@ + bk.reverse())[c.len() - 1 - i]);
    }
}

} // verus!
