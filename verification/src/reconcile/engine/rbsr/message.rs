//! The RBSR wire message: an ordered tiling of the keyspace.
use crate::reconcile::engine;
use crate::reconcile::engine::rbsr::fingerprint::Fingerprint;
use crate::reconcile::source;
use crate::reconcile::source::{Bound, BoundView, ItemId};
use vstd::prelude::*;

verus! {

/// What a [`Mode`] denotes.
#[verifier::ext_equal]
pub enum ModeView {
    /// Agreed.
    Skip,
    /// A fingerprint to compare.
    Fingerprint(Seq<u8>),
    /// The identities the sender holds.
    IdList(Seq<Seq<u8>>),
}

/// What a [`Range`] denotes.
#[verifier::ext_equal]
pub struct RangeView {
    /// Exclusive upper bound.
    pub upper: BoundView,
    /// How the range is handled.
    pub mode: ModeView,
}

/// How one [`Range`] is to be reconciled.
#[derive(Debug, PartialEq, Eq)]
pub enum Mode {
    /// Both peers agree on this range: nothing to do.
    Skip,
    /// A fingerprint to compare; a mismatch is split or listed.
    Fingerprint(Fingerprint),
    /// The explicit identities the sender holds in this range. An empty list
    /// means "I hold nothing here".
    IdList(Vec<ItemId>),
}

impl View for Mode {
    type V = ModeView;

    open spec fn view(&self) -> ModeView {
        match self {
            Mode::Skip => ModeView::Skip,
            Mode::Fingerprint(fingerprint) => ModeView::Fingerprint(fingerprint@),
            Mode::IdList(ids) => ModeView::IdList(engine::id_views(ids@)),
        }
    }
}

impl Clone for Mode {
    fn clone(&self) -> (copy: Self)
        ensures
            copy@ == self@,
    {
        match self {
            Mode::Skip => Mode::Skip,
            Mode::Fingerprint(fingerprint) => Mode::Fingerprint(*fingerprint),
            Mode::IdList(ids) => Mode::IdList(engine::copy_ids(ids.as_slice())),
        }
    }
}

/// One contiguous slice of the keyspace.
///
/// The lower bound is the previous range's [`Range::upper_bound`]; the first
/// range's lower bound is [`Bound::Min`]. The upper bound is exclusive, and the
/// final range's upper bound is [`Bound::Max`], so a message's ranges tile
/// `[Min, Max)` completely and in ascending order.
#[derive(Debug, PartialEq, Eq)]
pub struct Range {
    /// Exclusive upper bound of this range.
    pub upper_bound: Bound,
    /// How the range is handled.
    pub mode: Mode,
}

impl View for Range {
    type V = RangeView;

    open spec fn view(&self) -> RangeView {
        RangeView { upper: self.upper_bound@, mode: self.mode@ }
    }
}

impl Clone for Range {
    fn clone(&self) -> (copy: Self)
        ensures
            copy@ == self@,
    {
        Range { upper_bound: self.upper_bound.clone(), mode: self.mode.clone() }
    }
}

impl Range {
    /// A range both peers agree on.
    pub fn skip(upper_bound: Bound) -> (range: Self)
        ensures
            range@ == (RangeView { upper: upper_bound@, mode: ModeView::Skip }),
    {
        Range { upper_bound, mode: Mode::Skip }
    }

    /// A range summarized by a fingerprint.
    pub fn fingerprint(upper_bound: Bound, fingerprint: Fingerprint) -> (range: Self)
        ensures
            range@ == (RangeView {
                upper: upper_bound@,
                mode: ModeView::Fingerprint(fingerprint@),
            }),
    {
        Range { upper_bound, mode: Mode::Fingerprint(fingerprint) }
    }

    /// A range listed out identity by identity.
    pub fn id_list(upper_bound: Bound, ids: Vec<ItemId>) -> (range: Self)
        ensures
            range@ == (RangeView {
                upper: upper_bound@,
                mode: ModeView::IdList(engine::id_views(ids@)),
            }),
    {
        Range { upper_bound, mode: Mode::IdList(ids) }
    }
}

/// The ranges a run of [`Range`]s denotes.
pub open spec fn range_views(ranges: Seq<Range>) -> Seq<RangeView> {
    ranges.map_values(|r: Range| r@)
}

/// Ranges are viewed one for one, in their order, each as its bound and its mode.
pub proof fn lemma_ranges_one_for_one(ranges: Seq<Range>)
    ensures
        range_views(ranges).len() == ranges.len(),
        forall|i: int|
            0 <= i < ranges.len() ==> (#[trigger] range_views(ranges)[i]).upper
                == ranges[i].upper_bound@ && range_views(ranges)[i].mode == ranges[i].mode@,
{
}

/// Whether every range is agreed on.
pub open spec fn all_skip(ranges: Seq<RangeView>) -> bool {
    forall|i: int| 0 <= i < ranges.len() ==> (#[trigger] ranges[i]).mode is Skip
}

/// Whether ranges tile the keyspace from `lo` up: bounds strictly ascend, and
/// the last, and only the last, is the high end.
pub open spec fn tiles_from(lo: BoundView, ranges: Seq<RangeView>) -> bool
    decreases ranges.len(),
{
    if ranges.len() == 0 {
        false
    } else {
        &&& source::bound_lt(lo, ranges[0].upper)
        &&& if ranges.len() == 1 {
            ranges[0].upper == BoundView::Max
        } else {
            ranges[0].upper != BoundView::Max && tiles_from(ranges[0].upper, ranges.skip(1))
        }
    }
}

/// Whether ranges tile the whole keyspace.
pub open spec fn tiles(ranges: Seq<RangeView>) -> bool {
    tiles_from(BoundView::Min, ranges)
}

/// An ordered list of contiguous ranges tiling `[Min, Max)`.
#[derive(Debug, PartialEq, Eq)]
pub struct RbsrMessage {
    ranges: Vec<Range>,
}

impl View for RbsrMessage {
    type V = Seq<RangeView>;

    closed spec fn view(&self) -> Seq<RangeView> {
        range_views(self.ranges@)
    }
}

/// A message holds what its ranges do.
pub proof fn lemma_message_has_ranges(message: RbsrMessage)
    ensures
        exists|ranges: Seq<Range>| message@ == #[trigger] range_views(ranges),
{
    assert(message@ == range_views(message.ranges@));
}

impl Clone for RbsrMessage {
    fn clone(&self) -> (copy: Self)
        ensures
            copy@ == self@,
    {
        let mut ranges: Vec<Range> = Vec::with_capacity(self.ranges.len());
        let mut i: usize = 0;
        while i < self.ranges.len()
            invariant
                i <= self.ranges@.len(),
                ranges@.len() == i,
                forall|j: int| 0 <= j < i ==> (#[trigger] ranges@[j])@ == self.ranges@[j]@,
            decreases self.ranges.len() - i,
        {
            ranges.push(self.ranges[i].clone());
            i = i + 1;
        }
        assert(range_views(ranges@) =~= range_views(self.ranges@));
        RbsrMessage { ranges }
    }
}

impl Default for RbsrMessage {
    fn default() -> (message: Self)
        ensures
            message@ == Seq::<RangeView>::empty(),
    {
        let message = RbsrMessage { ranges: Vec::new() };
        assert(message@ =~= Seq::<RangeView>::empty());
        message
    }
}

impl RbsrMessage {
    /// Wraps an ascending, contiguous range tiling.
    pub fn new(ranges: Vec<Range>) -> (message: Self)
        ensures
            message@ == range_views(ranges@),
    {
        RbsrMessage { ranges }
    }

    /// Borrows the ranges in ascending order.
    pub fn ranges(&self) -> (ranges: &[Range])
        ensures
            range_views(ranges@) == self@,
    {
        self.ranges.as_slice()
    }

    /// Whether every range is [`Mode::Skip`], the convergence sentinel. An
    /// empty message is vacuously all-skip.
    pub fn is_all_skip(&self) -> (r: bool)
        ensures
            r == all_skip(self@),
    {
        let mut i: usize = 0;
        while i < self.ranges.len()
            invariant
                i <= self.ranges@.len(),
                forall|j: int| 0 <= j < i ==> (#[trigger] self@[j]).mode is Skip,
            decreases self.ranges.len() - i,
        {
            match &self.ranges[i].mode {
                Mode::Skip => {},
                _ => {
                    assert(!(self@[i as int].mode is Skip));
                    return false;
                },
            }
            i = i + 1;
        }
        true
    }
}

} // verus!
