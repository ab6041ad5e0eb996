//! A copyable cell, the borrow-state machine of a `RefCell`, and the
//! reference count of an `Rc`.
//!
//! The state that the standard types change through a shared reference is
//! changed here through `&mut`, so that every change is tracked exactly.
use vstd::prelude::*;

verus! {

/// A cell holding a copyable value.
pub struct Cell<T> {
    value: T,
}

impl<T> View for Cell<T> {
    type V = T;

    /// The value currently held.
    closed spec fn view(&self) -> T {
        self.value
    }
}

impl<T: Copy> Cell<T> {
    /// A cell holding `value`.
    pub fn new(value: T) -> (cell: Self)
        ensures
            cell@ == value,
    {
        Cell { value }
    }

    /// A copy of the value held.
    pub fn get(&self) -> (v: T)
        ensures
            v == self@,
    {
        self.value
    }

    /// Replaces the value held by `value`.
    pub fn set(&mut self, value: T)
        ensures
            final(self)@ == value,
        no_unwind
    {
        self.value = value;
    }
}

/// How a `RefCellInner` is borrowed: not at all, by that many shared
/// borrows, or by one exclusive borrow.
#[derive(Clone, Copy, Debug)]
pub enum RefState {
    Open,
    Voyeur(usize),
    Access,
}

/// The state after a shared borrow is asked for in state `s`, and whether it
/// is granted.
pub open spec fn borrow_step(s: RefState) -> (RefState, bool) {
    match s {
        RefState::Open => (RefState::Voyeur(1), true),
        RefState::Voyeur(n) => (RefState::Voyeur((n + 1) as usize), true),
        RefState::Access => (s, false),
    }
}

/// The state after an exclusive borrow is asked for in state `s`, and
/// whether it is granted.
pub open spec fn borrow_mut_step(s: RefState) -> (RefState, bool) {
    match s {
        RefState::Open => (RefState::Access, true),
        _ => (s, false),
    }
}

/// The state after a shared borrow ends in state `s`.
pub open spec fn release_step(s: RefState) -> RefState {
    match s {
        RefState::Voyeur(n) => if n == 1 {
            RefState::Open
        } else {
            RefState::Voyeur((n - 1) as usize)
        },
        _ => s,
    }
}

/// The state after an exclusive borrow ends.
pub open spec fn release_mut_step(s: RefState) -> RefState {
    RefState::Open
}

/// A state that a `RefCellInner` can be in.
pub open spec fn reachable_state(s: RefState) -> bool {
    !(s matches RefState::Voyeur(n) && n == 0)
}

/// A shared borrow ended right after it was granted leaves the state as it
/// was.
pub proof fn lemma_borrow_then_release(s: RefState)
    requires
        reachable_state(s),
        !(s matches RefState::Voyeur(n) && n == usize::MAX),
        borrow_step(s).1,
    ensures
        release_step(borrow_step(s).0) == s,
        reachable_state(borrow_step(s).0),
{
}

/// An exclusive borrow ended right after it was granted leaves the state
/// open, as it was.
pub proof fn lemma_borrow_mut_then_release(s: RefState)
    requires
        borrow_mut_step(s).1,
    ensures
        s is Open,
        release_mut_step(borrow_mut_step(s).0) == s,
{
}

/// While an exclusive borrow is out nothing else is granted, and while a
/// shared borrow is out no exclusive one is.
pub proof fn lemma_borrows_exclude(s: RefState)
    ensures
        s is Access ==> !borrow_step(s).1 && !borrow_mut_step(s).1,
        s is Voyeur ==> !borrow_mut_step(s).1,
{
}

/// What each borrow operation does to the state, case by case: a shared
/// borrow is refused only while an exclusive one is out, and otherwise
/// counts one more shared borrow (`Open` becomes `Voyeur(1)`, `Voyeur(n)`
/// becomes `Voyeur(n + 1)`); an exclusive borrow is granted only when
/// nothing is out, and the state becomes `Access`; ending a shared borrow
/// counts one fewer, back to `Open` after the last; ending the exclusive
/// borrow opens the cell again.
pub proof fn lemma_borrow_rules(s: RefState)
    ensures
        borrow_step(s).1 <==> !(s is Access),
        s is Open ==> borrow_step(s).0 == RefState::Voyeur(1),
        s matches RefState::Voyeur(n) ==> (n < usize::MAX ==> borrow_step(s).0
            == RefState::Voyeur((n + 1) as usize)),
        s is Access ==> borrow_step(s).0 == s,
        borrow_mut_step(s).1 <==> s is Open,
        s is Open ==> borrow_mut_step(s).0 is Access,
        !(s is Open) ==> borrow_mut_step(s).0 == s,
        s == RefState::Voyeur(1) ==> release_step(s) is Open,
        s matches RefState::Voyeur(n) ==> (n > 1 ==> release_step(s) == RefState::Voyeur(
            (n - 1) as usize,
        )),
        release_mut_step(s) is Open,
{
}

/// The guard of a shared borrow.
pub struct Ref {
    granted: (),
}

/// The guard of an exclusive borrow.
pub struct RefMut {
    granted: (),
}

/// The borrow state `s` agrees with `shared` live shared guards and
/// `exclusive` live exclusive guards: open with none, `Voyeur(n)` with
/// exactly `n >= 1` shared and no exclusive one, `Access` with exactly one
/// exclusive and no shared one.
pub open spec fn guards_match(s: RefState, shared: nat, exclusive: nat) -> bool {
    match s {
        RefState::Open => shared == 0 && exclusive == 0,
        RefState::Voyeur(n) => n == shared && shared >= 1 && exclusive == 0,
        RefState::Access => exclusive == 1 && shared == 0,
    }
}

/// A value with a borrow state that hands out shared or exclusive borrows.
pub struct RefCellInner<T> {
    value: T,
    reference: Cell<RefState>,
    shared: Ghost<nat>,
    exclusive: Ghost<nat>,
}

impl<T> RefCellInner<T> {
    /// The borrow state.
    pub closed spec fn state(&self) -> RefState {
        self.reference@
    }

    /// The value held.
    pub closed spec fn value(&self) -> T {
        self.value
    }

    /// The number of shared guards handed out and not yet released.
    pub closed spec fn shared_guards(&self) -> nat {
        self.shared@
    }

    /// The number of exclusive guards handed out and not yet released.
    pub closed spec fn exclusive_guards(&self) -> nat {
        self.exclusive@
    }

    /// The borrow state agrees with the guards out.
    pub open spec fn wf(&self) -> bool {
        guards_match(self.state(), self.shared_guards(), self.exclusive_guards())
    }

    /// A cell holding `value`, not borrowed.
    pub fn new(value: T) -> (c: Self)
        ensures
            c.wf(),
            c.state() is Open,
            c.value() == value,
            c.shared_guards() == 0,
            c.exclusive_guards() == 0,
    {
        RefCellInner {
            value,
            reference: Cell::new(RefState::Open),
            shared: Ghost(0),
            exclusive: Ghost(0),
        }
    }

    /// The borrow state.
    pub fn reference_state(&self) -> (s: RefState)
        ensures
            s == self.state(),
    {
        self.reference.get()
    }

    /// A shared borrow, granted unless an exclusive one is out.
    pub fn borrow(&mut self) -> (r: Option<Ref>)
        requires
            old(self).wf(),
            !(old(self).state() matches RefState::Voyeur(n) && n == usize::MAX),
        ensures
            final(self).wf(),
            r is Some == borrow_step(old(self).state()).1,
            final(self).state() == borrow_step(old(self).state()).0,
            final(self).value() == old(self).value(),
            final(self).shared_guards() == old(self).shared_guards() + if r is Some {
                1nat
            } else {
                0nat
            },
            final(self).exclusive_guards() == old(self).exclusive_guards(),
            r is Some <==> old(self).exclusive_guards() == 0,
            r is Some <==> !(old(self).state() is Access),
            old(self).state() is Open ==> final(self).state() == RefState::Voyeur(1),
            old(self).state() matches RefState::Voyeur(n) ==> final(self).state()
                == RefState::Voyeur((n + 1) as usize),
            old(self).state() is Access ==> final(self).state() == old(self).state(),
    {
        match self.reference.get() {
            RefState::Open => {
                self.reference.set(RefState::Voyeur(1));
                self.shared = Ghost(self.shared@ + 1);
                Some(Ref { granted: () })
            },
            RefState::Voyeur(n) => {
                self.reference.set(RefState::Voyeur(n + 1));
                self.shared = Ghost(self.shared@ + 1);
                Some(Ref { granted: () })
            },
            RefState::Access => None,
        }
    }

    /// An exclusive borrow, granted only when no borrow is out.
    pub fn borrow_mut(&mut self) -> (r: Option<RefMut>)
        requires
            old(self).wf(),
        ensures
            final(self).wf(),
            r is Some == borrow_mut_step(old(self).state()).1,
            final(self).state() == borrow_mut_step(old(self).state()).0,
            final(self).value() == old(self).value(),
            final(self).exclusive_guards() == old(self).exclusive_guards() + if r is Some {
                1nat
            } else {
                0nat
            },
            final(self).shared_guards() == old(self).shared_guards(),
            r is Some <==> old(self).shared_guards() == 0 && old(self).exclusive_guards() == 0,
            r is Some <==> old(self).state() is Open,
            r is Some ==> final(self).state() is Access,
            r is None ==> final(self).state() == old(self).state(),
    {
        match self.reference.get() {
            RefState::Access | RefState::Voyeur(_) => None,
            RefState::Open => {
                self.reference.set(RefState::Access);
                self.exclusive = Ghost(self.exclusive@ + 1);
                Some(RefMut { granted: () })
            },
        }
    }

    /// Ends a shared borrow.
    pub fn release(&mut self, guard: Ref)
        requires
            old(self).wf(),
            old(self).shared_guards() > 0,
        ensures
            final(self).wf(),
            old(self).state() is Voyeur,
            final(self).state() == release_step(old(self).state()),
            final(self).value() == old(self).value(),
            final(self).shared_guards() == old(self).shared_guards() - 1,
            final(self).exclusive_guards() == old(self).exclusive_guards(),
            old(self).state() == RefState::Voyeur(1) ==> final(self).state() is Open,
            old(self).state() matches RefState::Voyeur(n) ==> (n > 1 ==> final(self).state()
                == RefState::Voyeur((n - 1) as usize)),
    {
        match self.reference.get() {
            RefState::Voyeur(n) => {
                if n == 1 {
                    self.reference.set(RefState::Open);
                } else {
                    self.reference.set(RefState::Voyeur(n - 1));
                }
                self.shared = Ghost((self.shared@ - 1) as nat);
            },
            _ => {},
        }
    }

    /// Ends an exclusive borrow.
    pub fn release_mut(&mut self, guard: RefMut)
        requires
            old(self).wf(),
            old(self).exclusive_guards() > 0,
        ensures
            final(self).wf(),
            old(self).state() is Access,
            final(self).state() == release_mut_step(old(self).state()),
            final(self).value() == old(self).value(),
            final(self).shared_guards() == old(self).shared_guards(),
            final(self).exclusive_guards() == old(self).exclusive_guards() - 1,
            final(self).state() is Open,
    {
        self.reference.set(RefState::Open);
        self.exclusive = Ghost((self.exclusive@ - 1) as nat);
    }

    /// The value, read through a shared borrow.
    pub fn deref(&self, guard: &Ref) -> (v: &T)
        requires
            self.wf(),
            self.shared_guards() > 0,
        ensures
            *v == self.value(),
    {
        &self.value
    }

    /// The value, written through an exclusive borrow.
    pub fn deref_mut(&mut self, guard: &RefMut) -> (v: &mut T)
        requires
            old(self).wf(),
            old(self).exclusive_guards() > 0,
        ensures
            *v == old(self).value(),
            final(self).value() == *final(v),
            final(self).state() == old(self).state(),
            final(self).shared_guards() == old(self).shared_guards(),
            final(self).exclusive_guards() == old(self).exclusive_guards(),
    {
        &mut self.value
    }
}

/// Whatever sequence of `new`, borrows and releases a cell went through, its
/// borrow state tells how many guards are out: `Open` exactly when none is,
/// `Voyeur(n)` exactly when `n >= 1` shared guards and no exclusive one are,
/// `Access` exactly when one exclusive guard and no shared one is. In
/// particular, ending a live shared guard always finds `Voyeur(n)` with
/// `n >= 1`, and ending a live exclusive guard always finds `Access`.
pub proof fn lemma_state_counts_guards<T>(c: &RefCellInner<T>)
    requires
        c.wf(),
    ensures
        c.state() is Open <==> c.shared_guards() == 0 && c.exclusive_guards() == 0,
        c.state() is Voyeur <==> c.shared_guards() >= 1 && c.exclusive_guards() == 0,
        c.state() matches RefState::Voyeur(n) ==> n == c.shared_guards(),
        c.state() is Access <==> c.exclusive_guards() == 1 && c.shared_guards() == 0,
        c.shared_guards() > 0 ==> (c.state() matches RefState::Voyeur(n) && n >= 1),
        c.exclusive_guards() > 0 ==> c.state() is Access,
{
}

/// What happens to the shared allocation of an `Rc` when a handle is
/// dropped.
#[derive(Clone, Copy, Debug, PartialEq, Eq, Structural)]
pub enum RcRelease {
    /// The count was 1: the allocation is freed.
    Freed,
    /// The count went down by one.
    Remaining,
}

/// The allocation shared by the handles of an `Rc`: the value and the count.
pub struct RcInner<T> {
    value: T,
    ref_count: Cell<isize>,
    freed: Ghost<bool>,
}

impl<T> RcInner<T> {
    #[verifier::type_invariant]
    spec fn inv(self) -> bool {
        self.ref_count@ >= 0
    }

    /// The reference count.
    pub closed spec fn count(&self) -> int {
        self.ref_count@ as int
    }

    /// The value shared.
    pub closed spec fn value(&self) -> T {
        self.value
    }

    /// The allocation has been freed: nothing may use it any more.
    pub closed spec fn freed(&self) -> bool {
        self.freed@
    }

    /// A new allocation of `value`, counted at 0.
    pub fn new(value: T) -> (rc: Self)
        ensures
            rc.count() == 0,
            rc.value() == value,
            !rc.freed(),
    {
        RcInner { value, ref_count: Cell::new(0), freed: Ghost(false) }
    }

    /// The reference count.
    pub fn ref_count(&self) -> (c: isize)
        ensures
            c == self.count(),
    {
        self.ref_count.get()
    }

    /// Counts one more handle.
    pub fn on_clone(&mut self)
        requires
            !old(self).freed(),
            old(self).count() < isize::MAX,
        ensures
            final(self).count() == old(self).count() + 1,
            final(self).value() == old(self).value(),
            !final(self).freed(),
    {
        proof {
            use_type_invariant(&*self);
        }
        let c: isize = self.ref_count.get();
        self.ref_count.set(c + 1);
    }

    /// Counts one handle less: at a count of 1 the allocation is freed,
    /// otherwise the count goes down by one.
    pub fn on_drop(&mut self) -> (r: RcRelease)
        requires
            !old(self).freed(),
            old(self).count() != 0,
        ensures
            final(self).freed() == (r == RcRelease::Freed),
            old(self).count() == 1 ==> r == RcRelease::Freed && final(self).count() == 1,
            old(self).count() != 1 ==> r == RcRelease::Remaining && final(self).count()
                == old(self).count() - 1,
            final(self).count() >= 0,
            final(self).value() == old(self).value(),
    {
        proof {
            use_type_invariant(&*self);
        }
        let c: isize = self.ref_count.get();
        if c == 1 {
            self.freed = Ghost(true);
            RcRelease::Freed
        } else {
            self.ref_count.set(c - 1);
            RcRelease::Remaining
        }
    }

    /// The value shared.
    pub fn deref(&self) -> (v: &T)
        requires
            !self.freed(),
        ensures
            *v == self.value(),
    {
        &self.value
    }
}

} // verus!
