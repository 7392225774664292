//! Half-open byte ranges into a source buffer.
//!
//! A [`Span`] stores its start offset and a 16-bit length, so a single span
//! covers at most [`MAX_SPAN_LEN`] bytes. Every operation that could produce a
//! longer range reports [`SpanRangeError`] instead.

use vstd::prelude::*;

verus! {

/// Largest number of bytes one span can cover.
pub const MAX_SPAN_LEN: usize = 65535;

/// Mathematical model of a span: the half-open range `[start, end)`.
pub struct SpanView {
    pub start: int,
    pub end: int,
}

impl SpanView {
    /// Number of bytes in the range.
    pub open spec fn len(self) -> int {
        self.end - self.start
    }

    /// The range is well-ordered and short enough to be stored in a [`Span`].
    pub open spec fn fits(self) -> bool {
        0 <= self.start <= self.end <= usize::MAX && self.len() <= MAX_SPAN_LEN
    }

    /// Smallest range that covers both `self` and `other`.
    pub open spec fn merge(self, other: SpanView) -> SpanView {
        SpanView {
            start: if self.start <= other.start { self.start } else { other.start },
            end: if self.end >= other.end { self.end } else { other.end },
        }
    }

    /// Every offset of `other` lies inside `self`.
    pub open spec fn covers(self, other: SpanView) -> bool {
        self.start <= other.start && other.end <= self.end
    }

    /// The same range moved `by` bytes to the right.
    pub open spec fn shift(self, by: int) -> SpanView {
        SpanView { start: self.start + by, end: self.end + by }
    }
}

/// The requested range `[start, end)` cannot be stored in a [`Span`]: it is
/// reversed or longer than [`MAX_SPAN_LEN`] bytes.
#[derive(Debug, Clone, Copy, PartialEq, Eq, Hash, Structural)]
pub struct SpanRangeError {
    pub start: usize,
    pub end: usize,
}

/// What constructing a span over `[start, end)` yields.
pub open spec fn span_of(start: int, end: int) -> Result<SpanView, SpanRangeError> {
    let range = SpanView { start, end };
    if range.fits() {
        Ok(range)
    } else {
        Err(SpanRangeError { start: start as usize, end: end as usize })
    }
}

/// Half-open byte range `[start, end)` of at most [`MAX_SPAN_LEN`] bytes.
#[derive(Debug, Clone, Copy, PartialEq, Eq, Hash, Structural)]
pub struct Span {
    start: usize,
    len: u16,
}

impl View for Span {
    type V = SpanView;

    closed spec fn view(&self) -> SpanView {
        SpanView { start: self.start as int, end: self.start + self.len }
    }
}

impl Span {
    /// Every span ends at an addressable offset.
    #[verifier::type_invariant]
    pub open spec fn wf(self) -> bool {
        self@.fits()
    }

    /// The span whose model is `range`, for a range that fits.
    pub closed spec fn from_view(range: SpanView) -> Span {
        Span { start: range.start as usize, len: range.len() as u16 }
    }

    /// What [`Span::new`] returns.
    pub open spec fn spec_new(start: usize, end: usize) -> Result<Span, SpanRangeError> {
        match span_of(start as int, end as int) {
            Ok(range) => Ok(Span::from_view(range)),
            Err(e) => Err(e),
        }
    }

    /// What [`Span::merge`] and `+` return.
    pub open spec fn spec_merge(self, other: Span) -> Result<Span, SpanRangeError> {
        match span_of(self@.merge(other@).start, self@.merge(other@).end) {
            Ok(range) => Ok(Span::from_view(range)),
            Err(e) => Err(e),
        }
    }

    /// `from_view` inverts the model on every range that fits.
    pub proof fn lemma_from_view(range: SpanView)
        requires
            range.fits(),
        ensures
            Span::from_view(range)@ == range,
            Span::from_view(range).wf(),
    {
    }

    /// Two spans with the same model are the same span.
    pub proof fn lemma_view_injective(self, other: Span)
        requires
            self@ == other@,
        ensures
            self == other,
    {
    }

    /// Span over `[start, end)`.
    ///
    /// Fails when `end < start` or when the range is longer than
    /// [`MAX_SPAN_LEN`] bytes.
    pub fn new(start: usize, end: usize) -> (r: Result<Span, SpanRangeError>)
        ensures
            r == Span::spec_new(start, end),
            match span_of(start as int, end as int) {
                Ok(range) => r matches Ok(span) && span@ == range,
                Err(e) => r matches Err(err) && err == e,
            },
    {
        if start <= end && end - start <= MAX_SPAN_LEN {
            Ok(Span { start, len: (end - start) as u16 })
        } else {
            Err(SpanRangeError { start, end })
        }
    }

    /// Offset of the first byte.
    pub fn start(&self) -> (r: usize)
        ensures
            r == self@.start,
    {
        self.start
    }

    /// Offset one past the last byte.
    pub fn end(&self) -> (r: usize)
        ensures
            r == self@.end,
    {
        proof {
            use_type_invariant(self);
        }
        self.start + self.len as usize
    }

    /// Number of bytes covered.
    pub fn len(&self) -> (r: usize)
        ensures
            r == self@.len(),
            r <= MAX_SPAN_LEN,
    {
        self.len as usize
    }

    /// Smallest span covering both `self` and `other`.
    ///
    /// Fails when that range is longer than [`MAX_SPAN_LEN`] bytes.
    pub fn merge(&self, other: &Span) -> (r: Result<Span, SpanRangeError>)
        ensures
            r == self.spec_merge(*other),
            match span_of(self@.merge(other@).start, self@.merge(other@).end) {
                Ok(range) => r matches Ok(span) && span@ == range,
                Err(e) => r matches Err(err) && err == e,
            },
    {
        let start = if self.start() <= other.start() {
            self.start()
        } else {
            other.start()
        };
        let end = if self.end() >= other.end() {
            self.end()
        } else {
            other.end()
        };
        Span::new(start, end)
    }

    /// Merging is commutative: the order of the two spans does not matter,
    /// neither for the merged span nor for the error.
    pub proof fn lemma_merge_commutative(self, other: Span)
        ensures
            self.spec_merge(other) == other.spec_merge(self),
    {
    }

    /// Merging is idempotent: a span merged with itself is that span.
    pub proof fn lemma_merge_idempotent(self)
        requires
            self.wf(),
        ensures
            self.spec_merge(self) == Ok::<Span, SpanRangeError>(self),
    {
    }

    /// A merged span covers both of its operands, and is the smallest range
    /// that does.
    pub proof fn lemma_merge_covers(self, other: Span, merged: Span)
        requires
            self.spec_merge(other) == Ok::<Span, SpanRangeError>(merged),
        ensures
            merged@.covers(self@),
            merged@.covers(other@),
            forall|any: SpanView|
                any.covers(self@) && any.covers(other@) ==> #[trigger] any.covers(merged@),
    {
    }
}

/// `a + b` merges two spans; see [`Span::merge`].
impl core::ops::Add for Span {
    type Output = Result<Span, SpanRangeError>;

    fn add(self, other: Span) -> (r: Result<Span, SpanRangeError>) {
        self.merge(&other)
    }
}

impl vstd::std_specs::ops::AddSpecImpl for Span {
    open spec fn obeys_add_spec() -> bool {
        true
    }

    open spec fn add_req(self, other: Span) -> bool {
        true
    }

    open spec fn add_spec(self, other: Span) -> Result<Span, SpanRangeError> {
        self.spec_merge(other)
    }
}

/// A `start..end` range of offsets becomes the span over `[start, end)`,
/// under the conditions of [`Span::new`].
impl core::convert::TryFrom<core::ops::Range<usize>> for Span {
    type Error = SpanRangeError;

    fn try_from(range: core::ops::Range<usize>) -> (r: Result<Span, SpanRangeError>) {
        Span::new(range.start, range.end)
    }
}

impl vstd::std_specs::convert::TryFromSpecImpl<core::ops::Range<usize>> for Span {
    open spec fn obeys_try_from_spec() -> bool {
        true
    }

    open spec fn try_from_spec(range: core::ops::Range<usize>) -> Result<Span, SpanRangeError> {
        Span::spec_new(range.start, range.end)
    }
}

} // verus!
