//! Cooperative cancellation.
use vstd::prelude::*;

verus! {

/// Cooperative cancellation shared by adapters and operation execution. What
/// waits for it is known by a `W` that can be woken.
#[derive(Debug)]
pub struct CancellationToken<W> {
    cancelled: bool,
    wakers: Vec<W>,
}

/// Whether a token was cancelled, and what waits for it.
pub struct TokenView<W> {
    pub cancelled: bool,
    pub wakers: Seq<W>,
}

impl<W> View for CancellationToken<W> {
    type V = TokenView<W>;

    closed spec fn view(&self) -> TokenView<W> {
        TokenView { cancelled: self.cancelled, wakers: self.wakers@ }
    }
}

impl<W> Default for CancellationToken<W> {
    fn default() -> (token: Self)
        ensures
            !token@.cancelled,
            token@.wakers.len() == 0,
    {
        CancellationToken::new()
    }
}

impl<W> CancellationToken<W> {
    #[must_use]
    pub fn new() -> (token: Self)
        ensures
            !token@.cancelled,
            token@.wakers.len() == 0,
    {
        CancellationToken { cancelled: false, wakers: Vec::new() }
    }

    /// Marks the token cancelled, and gives out everything that waits for it to
    /// be woken.
    pub fn cancel(&mut self) -> (woken: Vec<W>)
        ensures
            final(self)@.cancelled,
            woken@ == if old(self)@.cancelled {
                Seq::<W>::empty()
            } else {
                old(self)@.wakers
            },
            final(self)@.wakers == if old(self)@.cancelled {
                old(self)@.wakers
            } else {
                Seq::<W>::empty()
            },
    {
        let mut woken: Vec<W> = Vec::new();
        if self.cancelled {
            assert(woken@ =~= Seq::<W>::empty());
            return woken;
        }
        self.cancelled = true;
        woken.append(&mut self.wakers);
        assert(woken@ =~= old(self)@.wakers);
        assert(self.wakers@ =~= Seq::<W>::empty());
        woken
    }

    #[must_use]
    pub fn is_cancelled(&self) -> (cancelled: bool)
        ensures
            cancelled == self@.cancelled,
    {
        self.cancelled
    }

    /// What waits for the token.
    #[must_use]
    pub fn waiting(&self) -> (wakers: &[W])
        ensures
            wakers@ == self@.wakers,
    {
        self.wakers.as_slice()
    }

    /// Asks whether the token was cancelled, and waits for it where it was not
    /// and nothing that wakes the same task waits already.
    pub fn cancelled(&mut self, waker: W, known: bool) -> (cancelled: bool)
        ensures
            cancelled == old(self)@.cancelled,
            final(self)@.cancelled == old(self)@.cancelled,
            final(self)@.wakers == if old(self)@.cancelled || known {
                old(self)@.wakers
            } else {
                old(self)@.wakers.push(waker)
            },
    {
        if self.cancelled {
            return true;
        }
        if !known {
            self.wakers.push(waker);
        }
        false
    }
}

} // verus!
