use vstd::prelude::*;

verus! {

/// The bounds one load holds its input to.
///
/// A load reads bytes a caller did not write and holds every one of them in
/// memory at once; [`max_source_bytes`](Self::max_source_bytes) is the
/// ceiling on that, spent once per load and shared by every source the load
/// touches. A caller starts from [`Limits::default`] and names the bounds it
/// wants changed.
#[derive(Debug, Clone, Copy, PartialEq, Eq)]
#[non_exhaustive]
pub struct Limits {
    /// How many bytes one load may read into memory, summed over every source
    /// it reads. A zip is weighed both ways: its index is parsed whole before
    /// any member is read, so the zip file itself has to fit this bound as
    /// well as what it expands to.
    pub max_source_bytes: u64,
}

impl Limits {
    /// The bound [`Limits::default`] carries: 500 MiB.
    pub const DEFAULT_MAX_SOURCE_BYTES: u64 = 524_288_000;

    /// The same bounds with [`max_source_bytes`](Self::max_source_bytes) set
    /// to `bytes`.
    #[must_use]
    pub fn with_max_source_bytes(self, bytes: u64) -> (limits: Self)
        ensures
            limits.max_source_bytes == bytes,
    {
        let mut limits = self;
        limits.max_source_bytes = bytes;
        limits
    }
}

impl Default for Limits {
    fn default() -> (limits: Self)
        ensures
            limits.max_source_bytes == Limits::DEFAULT_MAX_SOURCE_BYTES,
    {
        Limits { max_source_bytes: Limits::DEFAULT_MAX_SOURCE_BYTES }
    }
}

/// The error a read can fail with.
#[verifier::external_type_specification]
#[verifier::external_body]
pub struct ExIoError(std::io::Error);

/// What is left of one load's [`Limits::max_source_bytes`], and whether
/// something ran it out.
pub struct Budget {
    limit: u64,
    remaining: u64,
    exhausted: bool,
}

impl Budget {
    #[verifier::type_invariant]
    spec fn within_limit(self) -> bool {
        self.remaining <= self.limit
    }

    /// The bound this budget was opened at.
    pub closed spec fn spec_limit(&self) -> u64 {
        self.limit
    }

    /// The bytes not yet spent.
    pub closed spec fn spec_remaining(&self) -> u64 {
        self.remaining
    }

    /// Whether a spend has been refused.
    pub closed spec fn spec_exhausted(&self) -> bool {
        self.exhausted
    }

    /// A budget of `limits.max_source_bytes`, nothing spent.
    pub fn new(limits: Limits) -> (budget: Self)
        ensures
            budget.spec_limit() == limits.max_source_bytes,
            budget.spec_remaining() == limits.max_source_bytes,
            !budget.spec_exhausted(),
    {
        Budget {
            limit: limits.max_source_bytes,
            remaining: limits.max_source_bytes,
            exhausted: false,
        }
    }

    /// The bound this budget was opened at, which is what a diagnostic names.
    pub fn limit(&self) -> (limit: u64)
        ensures
            limit == self.spec_limit(),
    {
        self.limit
    }

    /// The bytes not yet spent; never more than the bound.
    pub fn remaining(&self) -> (remaining: u64)
        ensures
            remaining == self.spec_remaining(),
            remaining <= self.spec_limit(),
    {
        proof {
            use_type_invariant(self);
        }
        self.remaining
    }

    /// Whether a spend has been refused.
    pub fn exhausted(&self) -> (exhausted: bool)
        ensures
            exhausted == self.spec_exhausted(),
    {
        self.exhausted
    }

    /// Spends `bytes` when that many are left, and otherwise spends nothing
    /// and marks the budget exhausted.
    pub fn spend(&mut self, bytes: u64) -> (spent: bool)
        ensures
            spent == (bytes <= old(self).spec_remaining()),
            final(self).spec_limit() == old(self).spec_limit(),
            spent ==> final(self).spec_remaining() == old(self).spec_remaining() - bytes,
            spent ==> final(self).spec_exhausted() == old(self).spec_exhausted(),
            !spent ==> final(self).spec_remaining() == old(self).spec_remaining(),
            !spent ==> final(self).spec_exhausted(),
    {
        proof {
            use_type_invariant(&*self);
        }
        match self.remaining.checked_sub(bytes) {
            Some(left) => {
                self.remaining = left;
                true
            },
            None => {
                self.exhausted = true;
                false
            },
        }
    }

    /// Reads all of `reader` into a fresh buffer, taking at most one byte
    /// past what is left and spending what it read: `Some` of the bytes where
    /// the budget covered them, `None` where it ran out. What was taken is
    /// consumed from `reader` either way.
    pub fn read_to_end(&mut self, reader: &mut &[u8]) -> (read: Result<
        Option<Vec<u8>>,
        std::io::Error,
    >)
        ensures
            ({
                let whole = old(reader)@;
                let taken = if whole.len() <= old(self).spec_remaining() as int + 1 {
                    whole.len() as int
                } else {
                    old(self).spec_remaining() as int + 1
                };
                &&& final(reader)@ == whole.subrange(taken, whole.len() as int)
                &&& final(self).spec_limit() == old(self).spec_limit()
                &&& read matches Ok(contents)
                &&& taken <= old(self).spec_remaining() ==> {
                    &&& contents matches Some(bytes)
                    &&& bytes@ == whole.subrange(0, taken)
                    &&& final(self).spec_remaining() == old(self).spec_remaining() - taken
                    &&& final(self).spec_exhausted() == old(self).spec_exhausted()
                }
                &&& taken > old(self).spec_remaining() ==> {
                    &&& contents is None
                    &&& final(self).spec_remaining() == old(self).spec_remaining()
                    &&& final(self).spec_exhausted()
                }
            }),
    {
        proof {
            use_type_invariant(&*self);
        }
        let whole: &[u8] = *reader;
        let headroom = self.remaining.saturating_add(1);
        let take: usize = if (whole.len() as u64) <= headroom {
            whole.len()
        } else {
            headroom as usize
        };
        let (head, tail) = whole.split_at(take);
        *reader = tail;
        let contents = vstd::slice::slice_to_vec(head);
        if self.spend(take as u64) {
            Ok(Some(contents))
        } else {
            Ok(None)
        }
    }
}

} // verus!
