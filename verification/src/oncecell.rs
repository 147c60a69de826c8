//! A cell that is written at most once, and a lazily initialized value
//! built on it. Writing needs exclusive access here, so the fallible
//! setters take the cell exclusively instead of sharing it.
use vstd::prelude::*;

verus! {

/// A cell holding at most one value, set at most once.
pub struct OnceCell<T> {
    inner: Option<T>,
}

impl<T> OnceCell<T> {
    /// What the cell holds, if it was set.
    pub closed spec fn value(&self) -> Option<T> {
        self.inner
    }

    /// An empty cell.
    pub fn new() -> (c: OnceCell<T>)
        ensures
            c.value() is None,
    {
        OnceCell { inner: None }
    }

    /// A look at the contents, if any.
    pub fn get(&self) -> (r: Option<&T>)
        ensures
            match r {
                Some(v) => self.value() == Some(*v),
                None => self.value() is None,
            },
    {
        self.inner.as_ref()
    }

    /// Store `value` in an empty cell; a full cell keeps what it has and
    /// hands `value` back.
    pub fn set(&mut self, value: T) -> (r: Result<(), T>)
        ensures
            old(self).value() is None ==> final(self).value() == Some(value) && r is Ok,
            old(self).value() is Some ==> *final(self) == *old(self) && r == Err::<(), T>(value),
    {
        if self.inner.is_some() {
            return Err(value);
        }
        self.inner = Some(value);
        Ok(())
    }

    /// The contents, initializing the cell with `f()` first if it is empty.
    pub fn get_or_init<F: FnOnce() -> T>(&mut self, f: F) -> (r: &T)
        requires
            old(self).value() is None ==> call_requires(f, ()),
        ensures
            final(self).value() == Some(*r),
            old(self).value() is Some ==> *final(self) == *old(self) && old(self).value() == Some(
                *r,
            ),
            old(self).value() is None ==> call_ensures(f, (), *r),
    {
        if self.inner.is_none() {
            let v = f();
            self.inner = Some(v);
        }
        self.inner.as_ref().unwrap()
    }

    /// The contents, initializing the cell with `f()` first if it is
    /// empty; `f`'s failure is handed through and leaves the cell empty.
    pub fn get_or_try_init<F: FnOnce() -> Result<T, E>, E>(&mut self, f: F) -> (r: Result<&T, E>)
        requires
            old(self).value() is None ==> call_requires(f, ()),
        ensures
            old(self).value() is Some ==> *final(self) == *old(self) && (match r {
                Ok(v) => old(self).value() == Some(*v),
                Err(_) => false,
            }),
            old(self).value() is None ==> (match r {
                Ok(v) => final(self).value() == Some(*v) && call_ensures(f, (), Ok(*v)),
                Err(e) => final(self).value() is None && call_ensures(f, (), Err::<T, E>(e)),
            }),
    {
        if self.inner.is_none() {
            match f() {
                Ok(v) => {
                    self.inner = Some(v);
                },
                Err(e) => {
                    return Err(e);
                },
            }
        }
        Ok(self.inner.as_ref().unwrap())
    }

    /// Empty the cell, handing out whatever it held.
    pub fn take(&mut self) -> (r: Option<T>)
        ensures
            r == old(self).value(),
            final(self).value() is None,
    {
        self.inner.take()
    }

    /// Consume the cell for its contents.
    pub fn into_inner(self) -> (r: Option<T>)
        ensures
            r == self.value(),
    {
        self.inner
    }
}

/// A value computed on first use from a stored initializer.
pub struct Lazy<T, F> {
    cell: Option<T>,
    init: Option<F>,
}

impl<T, F> Lazy<T, F> {
    /// The value, if it was forced already.
    pub closed spec fn value(&self) -> Option<T> {
        self.cell
    }

    /// The initializer, while it has not run.
    pub closed spec fn pending(&self) -> Option<F> {
        self.init
    }

    /// Either the value is there, or the initializer still is: a poisoned
    /// pair with neither cannot be used.
    pub open spec fn wf(&self) -> bool {
        self.value() is Some || self.pending() is Some
    }

    /// A lazy value that will run `init` when first forced.
    pub fn new(init: F) -> (l: Lazy<T, F>)
        ensures
            l.value() is None,
            l.pending() == Some(init),
            l.wf(),
    {
        Lazy { cell: None, init: Some(init) }
    }

    /// Take the pair apart: the value if it was forced, the initializer
    /// otherwise.
    pub fn into_value(this: Lazy<T, F>) -> (r: Result<T, F>)
        requires
            this.wf(),
        ensures
            match r {
                Ok(v) => this.value() == Some(v),
                Err(f) => this.value() is None && this.pending() == Some(f),
            },
    {
        match this.cell {
            Some(v) => Ok(v),
            None => Err(this.init.unwrap()),
        }
    }
}

impl<T, F: FnOnce() -> T> Lazy<T, F> {
    /// The value, running the stored initializer the first time.
    pub fn force(this: &mut Lazy<T, F>) -> (r: &T)
        requires
            old(this).wf(),
            old(this).value() is None ==> (forall|f: F|
                old(this).pending() == Some(f) ==> call_requires(f, ())),
        ensures
            final(this).value() == Some(*r),
            final(this).wf(),
            old(this).value() is Some ==> *final(this) == *old(this) && old(this).value() == Some(
                *r,
            ),
            old(this).value() is None ==> final(this).pending() is None && (forall|f: F|
                old(this).pending() == Some(f) ==> call_ensures(f, (), *r)),
    {
        if this.cell.is_none() {
            let f = this.init.take().unwrap();
            let v = f();
            this.cell = Some(v);
        }
        this.cell.as_ref().unwrap()
    }
}

} // verus!
