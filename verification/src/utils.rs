use vstd::prelude::*;

verus! {

/// Explicitly discard a value (typically a `Result` whose failure does not matter).
pub trait Ignore {
    fn ignore(&self) {
    }
}

impl<T> Ignore for T {
}

/// Run a side-effecting inspection on a borrowed value and hand the value back.
pub trait Apply: Sized {
    fn apply<F: FnOnce(&Self)>(&self, f: F) -> (r: &Self)
        requires
            f.requires((self,)),
        ensures
            r == self,
            f.ensures((self,), ()),
    {
        f(self);
        self
    }

    fn apply_mut<F: FnOnce(&mut Self)>(&mut self, f: F) -> (r: &mut Self)
        requires
            forall|s: &mut Self| *s == *old(self) ==> #[trigger] f.requires((s,)),
        ensures
            *final(r) == *final(self),
            exists|s: &mut Self| *s == *old(self) && #[trigger] f.ensures((s,), ()) && *final(s) == *r,
    {
        f(self);
        self
    }
}

impl<T> Apply for T {
}

/// Mutate an owned value in place with a closure and return it.
pub trait ApplyOwned: Sized {
    fn apply_owned<F: FnOnce(&mut Self)>(self, f: F) -> (r: Self)
        requires
            forall|s: &mut Self| *s == self ==> #[trigger] f.requires((s,)),
        ensures
            exists|s: &mut Self| *s == self && #[trigger] f.ensures((s,), ()) && r == *final(s),
    {
        let mut v = self;
        f(&mut v);
        v
    }
}

impl<T: Sized> ApplyOwned for T {
}

} // verus!
