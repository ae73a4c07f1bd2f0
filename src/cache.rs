use std::sync::Arc;
use vstd::prelude::*;

verus! {

/// A piece of data cached from the simulator.
pub enum CachedData<T> {
    /// The cache is invalidated; the previously held data, if still useful, is kept.
    Uncached { prev: Option<Arc<T>> },
    /// The cache is invalidated and a request for new data has been made, but no
    /// answer has arrived yet. The previous data, if any, is still served.
    Waiting { prev: Option<Arc<T>> },
    /// The cache is up to date.
    Filled(Arc<T>),
}

/// Relies on `Arc::clone`: the new handle points at the same value.
#[verifier::external_body]
fn share<T>(a: &Arc<T>) -> (r: Arc<T>)
    ensures
        r == *a,
{
    Arc::clone(a)
}

impl<T> CachedData<T> {
    /// The best value available in this cell: the current one, or the last good one.
    pub open spec fn value(self) -> Option<Arc<T>> {
        match self {
            CachedData::Uncached { prev } => prev,
            CachedData::Waiting { prev } => prev,
            CachedData::Filled(v) => Some(v),
        }
    }

    /// The cell after an invalidation: absent, keeping the best value as fallback.
    pub open spec fn invalidated(self) -> CachedData<T> {
        CachedData::Uncached { prev: self.value() }
    }

    /// Whether a lookup on this cell must issue a request.
    pub open spec fn needs_request(self) -> bool {
        self is Uncached
    }

    /// The cell after a lookup: an absent cell starts refreshing, others stay as they are.
    pub open spec fn after_fetch(self) -> CachedData<T> {
        match self {
            CachedData::Uncached { prev } => CachedData::Waiting { prev },
            _ => self,
        }
    }

    pub fn empty() -> (r: Self)
        ensures
            r == (CachedData::<T>::Uncached { prev: None }),
    {
        CachedData::Uncached { prev: None }
    }

    pub fn make_uncached(&self) -> (r: Self)
        ensures
            r == self.invalidated(),
    {
        match self {
            CachedData::Uncached { prev } => CachedData::Uncached { prev: clone_prev(prev) },
            CachedData::Waiting { prev } => CachedData::Uncached { prev: clone_prev(prev) },
            CachedData::Filled(prev) => CachedData::Uncached { prev: Some(share(prev)) },
        }
    }

    pub fn filled(t: T) -> (r: Self)
        ensures
            r == CachedData::Filled(Arc::new(t)),
            r.value() == Some(Arc::new(t)),
    {
        CachedData::Filled(Arc::new(t))
    }

    /// Whether a lookup on this cell must issue a request.
    pub fn is_uncached(&self) -> (r: bool)
        ensures
            r == self.needs_request(),
    {
        match self {
            CachedData::Uncached { .. } => true,
            _ => false,
        }
    }

    /// Another handle on the same cell contents.
    pub fn share(&self) -> (r: Self)
        ensures
            r == *self,
    {
        match self {
            CachedData::Uncached { prev } => CachedData::Uncached { prev: clone_prev(prev) },
            CachedData::Waiting { prev } => CachedData::Waiting { prev: clone_prev(prev) },
            CachedData::Filled(v) => CachedData::Filled(share(v)),
        }
    }

    pub fn get(&self) -> (r: Option<Arc<T>>)
        ensures
            r == self.value(),
    {
        match self {
            CachedData::Uncached { prev } => clone_prev(prev),
            CachedData::Waiting { prev } => clone_prev(prev),
            CachedData::Filled(val) => Some(share(val)),
        }
    }

    /// Returns the best value in the cache. If the cache is absent, `f` is run to issue
    /// a request for new data (it must see to it that the cache is updated eventually)
    /// and the cell becomes `Waiting`. A waiting or filled cell runs nothing.
    pub fn fetch_if_needed<F: FnOnce()>(&mut self, f: F) -> (r: Option<Arc<T>>)
        requires
            old(self).needs_request() ==> f.requires(()),
        ensures
            r == old(self).value(),
            *final(self) == old(self).after_fetch(),
            final(self).value() == old(self).value(),
            old(self).needs_request() ==> f.ensures((), ()),
    {
        let issue = match self {
            CachedData::Uncached { .. } => true,
            _ => false,
        };
        if issue {
            f();
            let result = self.get();
            *self = CachedData::Waiting { prev: result };
            self.get()
        } else {
            self.get()
        }
    }
}

/// Two overlapping lookups on a cell issue exactly one request: an absent cell asks
/// once and becomes `Waiting`, and a second lookup on the waiting cell asks nothing and
/// leaves it as it is.
pub proof fn lemma_one_request_per_miss<T>(c: CachedData<T>)
    requires
        c is Uncached,
    ensures
        c.needs_request(),
        c.after_fetch() is Waiting,
        !c.after_fetch().needs_request(),
        c.after_fetch().after_fetch() == c.after_fetch(),
{
}

/// A waiting cell never issues another request, however often it is looked up.
pub proof fn lemma_waiting_issues_nothing<T>(c: CachedData<T>)
    requires
        c is Waiting,
    ensures
        !c.needs_request(),
        c.after_fetch() == c,
{
}

/// Invalidating a cell and then reading it gives exactly the value that was there right
/// before the invalidation, and so never a newer one; lookups without a fill keep it so.
pub proof fn lemma_invalidate_keeps_value<T>(c: CachedData<T>)
    ensures
        c.invalidated().value() == c.value(),
        c.invalidated().after_fetch().value() == c.value(),
        c.invalidated().invalidated().value() == c.value(),
{
}

/// A filled cell serves its value, and lookups leave it filled with that value, until it
/// is invalidated.
pub proof fn lemma_filled_is_stable<T>(v: T)
    ensures
        CachedData::Filled(Arc::new(v)).value() == Some(Arc::new(v)),
        CachedData::Filled(Arc::new(v)).after_fetch() == CachedData::Filled(Arc::new(v)),
        !CachedData::Filled(Arc::new(v)).needs_request(),
{
}

fn clone_prev<T>(prev: &Option<Arc<T>>) -> (r: Option<Arc<T>>)
    ensures
        r == *prev,
{
    match prev {
        Some(p) => Some(share(p)),
        None => None,
    }
}

} // verus!
