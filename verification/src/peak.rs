//! The greatest of the numbers that something was raised to.

use vstd::prelude::*;
use vstd::rwlock::RwLockPredicate;

verus! {

/// A number that is only ever raised.
pub struct Peak {
    value: u64,
    // the numbers it was raised to, first to last
    raises: Ghost<Seq<u64>>,
}

/// What is kept behind a lock is sound.
pub struct Sound;

impl RwLockPredicate<Peak> for Sound {
    open spec fn inv(self, peak: Peak) -> bool {
        tops(peak.at(), peak.history())
    }
}

/// `n` is the greatest of `raises`, or 0 if there are none.
pub open spec fn tops(n: u64, raises: Seq<u64>) -> bool {
    &&& forall|i: int| 0 <= i < raises.len() ==> #[trigger] raises[i] <= n
    &&& n == 0 || raises.contains(n)
}

/// `n` is where a peak stands after the numbers that it was raised to. How a peak is
/// raised is this module's business, so elsewhere only a peak shows this of a
/// number.
pub closed spec fn reached(n: u64) -> bool {
    exists|raises: Seq<u64>| #[trigger] tops(n, raises)
}

impl Peak {
    pub closed spec fn at(self) -> u64 {
        self.value
    }

    pub closed spec fn history(self) -> Seq<u64> {
        self.raises@
    }

    pub fn new() -> (p: Self)
        ensures
            p.at() == 0,
            p.history() == Seq::<u64>::empty(),
            tops(p.at(), p.history()),
    {
        Peak { value: 0, raises: Ghost(Seq::empty()) }
    }

    pub fn value(&self) -> (n: u64)
        requires
            tops(self.at(), self.history()),
        ensures
            n == self.at(),
            reached(n),
    {
        self.value
    }

    /// Raise to at least `n`; returns where it then stands.
    pub fn raise(&mut self, n: u64) -> (now: u64)
        requires
            tops(old(self).at(), old(self).history()),
        ensures
            now == final(self).at(),
            now >= n,
            now >= old(self).at(),
            now == n || now == old(self).at(),
            final(self).history() == old(self).history().push(n),
            tops(final(self).at(), final(self).history()),
    {
        let ghost raises = self.raises@;
        if self.value < n {
            self.value = n;
        }
        self.raises = Ghost(raises.push(n));
        proof {
            let more = raises.push(n);
            assert(more[raises.len() as int] == n);
            if self.value != n && self.value != 0 {
                let i = choose|i: int| 0 <= i < raises.len() && raises[i] == self.value;
                assert(more[i] == self.value);
            }
        }
        self.value
    }
}

} // verus!
