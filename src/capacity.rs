//! Chunk capacity: a target size and a hard ceiling.
use vstd::prelude::*;
use core::cmp::Ordering;
use core::ops::{Range, RangeInclusive};

verus! {

/// Target chunk size (`desired`) and hard limit (`max`), with
/// `desired <= max`.
#[derive(Debug, Clone, Copy, PartialEq, Eq)]
pub struct ChunkCapacity {
    desired: usize,
    max: usize,
}

/// Error when configuring a chunk capacity.
#[derive(Debug, Clone, PartialEq, Eq)]
pub enum ChunkCapacityError {
    /// Max size must be >= desired size.
    MaxLessThanDesired { desired: usize, max: usize },
}

/// How a size relates to a capacity: below `desired` is `Less`, above `max`
/// is `Greater`, anything in `[desired, max]` is `Equal`.
pub open spec fn classify(desired: int, max: int, size: int) -> Ordering {
    if size < desired {
        Ordering::Less
    } else if size > max {
        Ordering::Greater
    } else {
        Ordering::Equal
    }
}

/// The capacity with the given target and limit.
pub closed spec fn capacity_of(desired: usize, max: usize) -> ChunkCapacity {
    ChunkCapacity { desired, max }
}

/// What `capacity_of` holds.
pub broadcast proof fn lemma_capacity_of(desired: usize, max: usize)
    ensures
        #[trigger] capacity_of(desired, max).desired_spec() == desired,
        capacity_of(desired, max).max_spec() == max,
        capacity_of(desired, max).wf() == (desired <= max),
{
}

impl ChunkCapacity {
    /// The target size.
    pub closed spec fn desired_spec(&self) -> usize {
        self.desired
    }

    /// The hard limit.
    pub closed spec fn max_spec(&self) -> usize {
        self.max
    }

    /// `desired <= max`.
    pub closed spec fn wf(&self) -> bool {
        self.desired <= self.max
    }

    /// A capacity with the same desired and max size.
    pub fn new(size: usize) -> (r: Self)
        ensures
            r.desired_spec() == size,
            r.max_spec() == size,
            r.wf(),
    {
        ChunkCapacity { desired: size, max: size }
    }

    /// The target chunk size.
    pub fn desired(&self) -> (r: usize)
        ensures
            r == self.desired_spec(),
    {
        self.desired
    }

    /// The maximum allowed chunk size.
    pub fn max(&self) -> (r: usize)
        ensures
            r == self.max_spec(),
    {
        self.max
    }

    /// Set a maximum at least as large as the desired size; fails when
    /// `max < desired`.
    pub fn with_max(self, max: usize) -> (r: Result<Self, ChunkCapacityError>)
        ensures
            max < self.desired_spec() <==> r is Err,
            r matches Err(e) ==> e == (ChunkCapacityError::MaxLessThanDesired {
                desired: self.desired_spec(),
                max,
            }),
            r matches Ok(c) ==> c.desired_spec() == self.desired_spec() && c.max_spec() == max
                && c.wf(),
    {
        if max < self.desired {
            Err(ChunkCapacityError::MaxLessThanDesired { desired: self.desired, max })
        } else {
            Ok(ChunkCapacity { desired: self.desired, max })
        }
    }

    /// Classify a chunk size against this capacity.
    pub fn fits(&self, size: usize) -> (r: Ordering)
        ensures
            r == classify(self.desired_spec() as int, self.max_spec() as int, size as int),
    {
        if size < self.desired {
            Ordering::Less
        } else if size > self.max {
            Ordering::Greater
        } else {
            Ordering::Equal
        }
    }

    /// Whether adding `additional` bytes to `current` would exceed `max`; the
    /// sum saturates at `usize::MAX`.
    pub fn would_overflow(&self, current: usize, additional: usize) -> (r: bool)
        ensures
            r == ((if current + additional > usize::MAX {
                usize::MAX as int
            } else {
                current + additional
            }) > self.max_spec()),
    {
        current.saturating_add(additional) > self.max
    }
}

impl Default for ChunkCapacity {
    /// 2048 bytes, desired and max alike.
    fn default() -> (r: Self)
        ensures
            r.desired_spec() == 2048 && r.max_spec() == 2048,
    {
        Self::new(2048)
    }
}

impl From<usize> for ChunkCapacity {
    /// The same as [`ChunkCapacity::new`].
    fn from(size: usize) -> (r: Self) {
        Self::new(size)
    }
}

impl vstd::std_specs::convert::FromSpecImpl<usize> for ChunkCapacity {
    open spec fn obeys_from_spec() -> bool {
        true
    }

    open spec fn from_spec(v: usize) -> Self {
        capacity_of(v, v)
    }
}

impl From<Range<usize>> for ChunkCapacity {
    /// `desired` is the start; `max` is the last value of the range, and
    /// never less than the start.
    fn from(range: Range<usize>) -> (r: Self) {
        let last = if range.end > 0 { range.end - 1 } else { 0 };
        let max = if last > range.start { last } else { range.start };
        ChunkCapacity { desired: range.start, max }
    }
}

impl vstd::std_specs::convert::FromSpecImpl<Range<usize>> for ChunkCapacity {
    open spec fn obeys_from_spec() -> bool {
        true
    }

    open spec fn from_spec(v: Range<usize>) -> Self {
        let last = if v.end > 0 { (v.end - 1) as usize } else { 0usize };
        capacity_of(v.start, if last > v.start { last } else { v.start })
    }
}

/// The bounds of an inclusive range.
///
/// Relies on `RangeInclusive::into_inner`, which hands back the lower and the
/// (inclusive) upper bound.
#[verifier::external_body]
fn inclusive_bounds(range: RangeInclusive<usize>) -> (r: (usize, usize))
    ensures
        r.0 == range@.start,
        r.1 == range@.end,
{
    range.into_inner()
}

impl From<RangeInclusive<usize>> for ChunkCapacity {
    /// `desired` is the lower bound and `max` the upper one, raised to the
    /// lower bound if it is below it so that `desired <= max` holds.
    fn from(range: RangeInclusive<usize>) -> (r: Self) {
        let (lo, hi) = inclusive_bounds(range);
        ChunkCapacity { desired: lo, max: if hi > lo { hi } else { lo } }
    }
}

impl vstd::std_specs::convert::FromSpecImpl<RangeInclusive<usize>> for ChunkCapacity {
    open spec fn obeys_from_spec() -> bool {
        true
    }

    open spec fn from_spec(v: RangeInclusive<usize>) -> Self {
        capacity_of(v@.start, if v@.end > v@.start { v@.end } else { v@.start })
    }
}

/// Every way of building a capacity keeps `desired <= max`.
pub proof fn lemma_from_wf(n: usize, r: Range<usize>, ri: RangeInclusive<usize>)
    ensures
        <ChunkCapacity as vstd::std_specs::convert::FromSpec<usize>>::from_spec(n).wf(),
        <ChunkCapacity as vstd::std_specs::convert::FromSpec<Range<usize>>>::from_spec(r).wf(),
        <ChunkCapacity as vstd::std_specs::convert::FromSpec<RangeInclusive<usize>>>::from_spec(ri).wf(),
{
    broadcast use lemma_capacity_of;
}

} // verus!
