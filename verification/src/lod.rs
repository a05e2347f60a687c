//! Levels of detail.
//!
//! A level of detail is a band of normalized camera distance together with the
//! objects to show while the camera is in that band. A group is an ordered
//! list of such levels. Bands of one group may overlap: the first level in
//! list order whose band holds the distance is the selected one.

use crate::handle::Handle;
use crate::units::{clamp_to_unit, clamp_unit, greater, is_normalized, lesser};
use vstd::prelude::*;

verus! {

/// One band of normalized distance and the objects shown in it.
#[derive(Debug, PartialEq, Eq)]
pub struct LevelOfDetail {
    begin: i64,
    end: i64,
    objects: Vec<Handle>,
}

/// What a level of detail holds.
pub struct LevelOfDetailView {
    pub begin: int,
    pub end: int,
    pub objects: Seq<Handle>,
}

impl View for LevelOfDetail {
    type V = LevelOfDetailView;

    closed spec fn view(&self) -> LevelOfDetailView {
        LevelOfDetailView { begin: self.begin as int, end: self.end as int, objects: self.objects@ }
    }
}

/// Whether `objects` can be the objects of a level: there is at least one, and
/// none of them is the none handle.
pub open spec fn objects_acceptable(objects: Seq<Handle>) -> bool {
    &&& objects.len() > 0
    &&& forall|i: int| 0 <= i < objects.len() ==> (#[trigger] objects[i]).spec_is_some()
}

/// Whether `objects` can be the objects of a level.
pub fn are_objects_acceptable(objects: &Vec<Handle>) -> (r: bool)
    ensures
        r == objects_acceptable(objects@),
{
    if objects.len() == 0 {
        return false;
    }
    let mut i: usize = 0;
    while i < objects.len()
        invariant
            i <= objects.len(),
            forall|j: int| 0 <= j < i ==> (#[trigger] objects@[j]).spec_is_some(),
        decreases objects.len() - i,
    {
        if objects[i].is_none() {
            return false;
        }
        i = i + 1;
    }
    true
}

impl LevelOfDetailView {
    /// The invariant of a level: both bounds are normalized, the band does not
    /// end before it begins, and the objects are acceptable.
    pub open spec fn wf(self) -> bool {
        &&& is_normalized(self.begin)
        &&& is_normalized(self.end)
        &&& self.begin <= self.end
        &&& objects_acceptable(self.objects)
    }
}

impl LevelOfDetail {
    /// The invariant of a level; see `LevelOfDetailView::wf`.
    pub open spec fn wf(&self) -> bool {
        self@.wf()
    }

    /// A level over the band between `begin` and `end`. Each bound is clamped
    /// into the normalized range, and the two are put in order.
    pub fn new(begin: i64, end: i64, objects: Vec<Handle>) -> (level: Self)
        requires
            objects_acceptable(objects@),
        ensures
            level.wf(),
            level@.begin == lesser(clamp_unit(begin as int), clamp_unit(end as int)),
            level@.end == greater(clamp_unit(begin as int), clamp_unit(end as int)),
            level@.objects == objects@,
    {
        let b: i64 = clamp_to_unit(begin);
        let e: i64 = clamp_to_unit(end);
        if b <= e {
            LevelOfDetail { begin: b, end: e, objects }
        } else {
            LevelOfDetail { begin: e, end: b, objects }
        }
    }

    /// As `new`, for objects not known to be acceptable: where they are not,
    /// nothing is built.
    pub fn try_new(begin: i64, end: i64, objects: Vec<Handle>) -> (r: Option<Self>)
        ensures
            r is Some <==> objects_acceptable(objects@),
            r matches Some(level) ==> {
                &&& level.wf()
                &&& level@.begin == lesser(clamp_unit(begin as int), clamp_unit(end as int))
                &&& level@.end == greater(clamp_unit(begin as int), clamp_unit(end as int))
                &&& level@.objects == objects@
            },
    {
        if are_objects_acceptable(&objects) {
            Some(LevelOfDetail::new(begin, end, objects))
        } else {
            None
        }
    }

    /// Moves the near bound to `percent`, clamped into the normalized range.
    /// Where that lies beyond the far bound, the two bounds change places.
    pub fn set_begin(&mut self, percent: i64)
        requires
            old(self).wf(),
        ensures
            final(self).wf(),
            final(self)@.begin == lesser(clamp_unit(percent as int), old(self)@.end),
            final(self)@.end == greater(clamp_unit(percent as int), old(self)@.end),
            final(self)@.objects == old(self)@.objects,
    {
        let p: i64 = clamp_to_unit(percent);
        if p > self.end {
            self.begin = self.end;
            self.end = p;
        } else {
            self.begin = p;
        }
    }

    /// The near bound of the band.
    pub fn begin(&self) -> (r: i64)
        ensures
            r as int == self@.begin,
    {
        self.begin
    }

    /// Moves the far bound to `percent`, clamped into the normalized range.
    /// Where that lies before the near bound, the two bounds change places.
    pub fn set_end(&mut self, percent: i64)
        requires
            old(self).wf(),
        ensures
            final(self).wf(),
            final(self)@.begin == lesser(old(self)@.begin, clamp_unit(percent as int)),
            final(self)@.end == greater(old(self)@.begin, clamp_unit(percent as int)),
            final(self)@.objects == old(self)@.objects,
    {
        let p: i64 = clamp_to_unit(percent);
        if p < self.begin {
            self.end = self.begin;
            self.begin = p;
        } else {
            self.end = p;
        }
    }

    /// The far bound of the band.
    pub fn end(&self) -> (r: i64)
        ensures
            r as int == self@.end,
    {
        self.end
    }

    /// The objects shown in the band.
    pub fn objects(&self) -> (r: &Vec<Handle>)
        ensures
            r@ == self@.objects,
    {
        &self.objects
    }

    /// The number of objects of a level is a machine-sized number.
    pub proof fn length_is_bounded(&self)
        ensures
            self@.objects.len() <= usize::MAX,
    {
        assert(self.objects@.len() == self.objects.len());
    }

}

/// Appends the entries of `more` to `list`, in their order.
pub(crate) fn append_all(list: &mut Vec<Handle>, more: &Vec<Handle>)
    ensures
        final(list)@ == old(list)@ + more@,
{
    let ghost start = list@;
    let mut i: usize = 0;
    while i < more.len()
        invariant
            i <= more.len(),
            list@ == start + more@.take(i as int),
        decreases more.len() - i,
    {
        list.push(more[i]);
        assert(more@.take(i as int).push(more@[i as int]) =~= more@.take(i + 1));
        assert(list@ =~= start + more@.take(i + 1));
        i = i + 1;
    }
    assert(more@.take(more@.len() as int) =~= more@);
}

/// What two lists hold when joined is what one or the other holds.
pub proof fn joined_members(a: Seq<Handle>, b: Seq<Handle>)
    ensures
        forall|x: Handle| (a + b).contains(x) <==> a.contains(x) || b.contains(x),
{
    assert forall|x: Handle| (a + b).contains(x) <==> a.contains(x) || b.contains(x) by {
        if (a + b).contains(x) {
            let i = choose|i: int| 0 <= i < (a + b).len() && (a + b)[i] == x;
            if i < a.len() {
                assert(a[i] == x);
            } else {
                assert(b[i - a.len()] == x);
            }
        }
        if a.contains(x) {
            let i = choose|i: int| 0 <= i < a.len() && a[i] == x;
            assert((a + b)[i] == x);
        }
        if b.contains(x) {
            let i = choose|i: int| 0 <= i < b.len() && b[i] == x;
            assert((a + b)[a.len() + i] == x);
        }
    }
}

/// Whether the band of `level`, standing at place `i` of `count` levels, holds
/// `distance`. A band holds its near bound and not its far bound, but the band
/// of the last level holds its far bound too.
pub open spec fn band_holds(level: LevelOfDetailView, i: int, count: int, distance: int) -> bool {
    &&& level.begin <= distance
    &&& (distance < level.end || (i == count - 1 && distance == level.end))
}

/// An ordered list of levels of detail.
#[derive(Debug, PartialEq, Eq)]
pub struct LodGroup {
    pub levels: Vec<LevelOfDetail>,
}

/// What a group holds.
pub struct LodGroupView {
    pub levels: Seq<LevelOfDetailView>,
}

impl View for LodGroup {
    type V = LodGroupView;

    open spec fn view(&self) -> LodGroupView {
        LodGroupView { levels: self.levels@.map_values(|level: LevelOfDetail| level@) }
    }
}

impl LodGroupView {
    /// The invariant of a group: each of its levels is well formed.
    pub open spec fn wf(self) -> bool {
        forall|i: int| 0 <= i < self.levels.len() ==> (#[trigger] self.levels[i]).wf()
    }

    /// Whether the level at place `i` holds `distance`.
    pub open spec fn holds_at(self, i: int, distance: int) -> bool {
        &&& 0 <= i < self.levels.len()
        &&& band_holds(self.levels[i], i, self.levels.len() as int, distance)
    }

    /// Whether no level before place `i` holds `distance`.
    pub open spec fn none_before(self, i: int, distance: int) -> bool {
        forall|j: int| 0 <= j < i ==> !self.holds_at(j, distance)
    }

    /// The place of the selected level: the first one that holds `distance`,
    /// if any does.
    pub open spec fn selected(self, distance: int) -> Option<int> {
        if exists|i: int| self.holds_at(i, distance) {
            Some(choose|i: int| self.holds_at(i, distance) && self.none_before(i, distance))
        } else {
            None
        }
    }

    /// Whether `x` is an object of a level at a place before `upto` other
    /// than `s`.
    pub open spec fn listed_elsewhere(self, s: int, upto: int, x: Handle) -> bool {
        exists|l: int|
            0 <= l < upto && l < self.levels.len() && l != s && (
            #[trigger] self.levels[l]).objects.contains(x)
    }

    /// The first level that holds a distance is the selected one, and no
    /// other is.
    pub proof fn first_holder_is_selected(self, i: int, distance: int)
        requires
            self.holds_at(i, distance),
            self.none_before(i, distance),
        ensures
            self.selected(distance) == Some(i),
    {
        let chosen = choose|k: int| self.holds_at(k, distance) && self.none_before(k, distance);
        assert(self.holds_at(chosen, distance) && self.none_before(chosen, distance));
        if chosen < i {
            assert(!self.holds_at(chosen, distance));
        }
        if i < chosen {
            assert(!self.holds_at(i, distance));
        }
    }

    /// The selected level, if there is one, holds the distance, and none
    /// before it does. There is none exactly when no level holds the distance.
    pub proof fn selected_is_first_holder(self, distance: int)
        ensures
            self.selected(distance) matches Some(i) ==> self.holds_at(i, distance)
                && self.none_before(i, distance),
            self.selected(distance) is None ==> self.none_before(
                self.levels.len() as int,
                distance,
            ),
    {
        if exists|i: int| self.holds_at(i, distance) {
            let w = choose|i: int| self.holds_at(i, distance);
            let first = self.first_holder(w, distance);
            self.first_holder_is_selected(first, distance);
        }
    }

    /// Where the level at place `upto` holds the distance, some level at or
    /// before that place is the first to hold it.
    pub proof fn first_holder(self, upto: int, distance: int) -> (first: int)
        requires
            self.holds_at(upto, distance),
        ensures
            0 <= first <= upto,
            self.holds_at(first, distance),
            self.none_before(first, distance),
        decreases upto,
    {
        if self.none_before(upto, distance) {
            upto
        } else {
            let j = choose|j: int| 0 <= j < upto && self.holds_at(j, distance);
            self.first_holder(j, distance)
        }
    }
}

impl LodGroup {
    /// The invariant of a group; see `LodGroupView::wf`.
    pub open spec fn wf(&self) -> bool {
        self@.wf()
    }

    /// A group of the given levels, in this order.
    pub fn new(levels: Vec<LevelOfDetail>) -> (group: Self)
        ensures
            group.levels == levels,
    {
        LodGroup { levels }
    }

    /// Selects the level for `distance`: the place of the first level in list
    /// order whose band holds it. There is none where no band holds it, as
    /// in an empty group or in a gap between bands.
    pub fn select(&self, distance: i64) -> (r: Option<usize>)
        ensures
            match r {
                Some(i) => self@.selected(distance as int) == Some(i as int),
                None => self@.selected(distance as int) is None,
            },
            r matches Some(i) ==> i < self.levels@.len(),
    {
        let count: usize = self.levels.len();
        let mut i: usize = 0;
        while i < count
            invariant
                i <= count,
                count == self.levels@.len(),
                self@.none_before(i as int, distance as int),
            decreases count - i,
        {
            let level = &self.levels[i];
            if level.begin() <= distance && (distance < level.end() || (i == count - 1 && distance
                == level.end())) {
                proof {
                    self@.first_holder_is_selected(i as int, distance as int);
                }
                return Some(i);
            }
            i = i + 1;
        }
        proof {
            assert forall|k: int| !self@.holds_at(k, distance as int) by {}
        }
        None
    }

    /// The objects of the level at place `s`, in their order.
    pub(crate) fn objects_at(&self, s: usize) -> (list: Vec<Handle>)
        requires
            s < self.levels@.len(),
        ensures
            list@ == self@.levels[s as int].objects,
    {
        let mut list: Vec<Handle> = Vec::new();
        append_all(&mut list, self.levels[s].objects());
        assert(Seq::<Handle>::empty() + self@.levels[s as int].objects
            =~= self@.levels[s as int].objects);
        list
    }

    /// The objects of all levels but the one at place `s`.
    pub(crate) fn objects_except(&self, s: usize) -> (list: Vec<Handle>)
        ensures
            forall|x: Handle|
                list@.contains(x) <==> self@.listed_elsewhere(
                    s as int,
                    self.levels@.len() as int,
                    x,
                ),
    {
        let mut list: Vec<Handle> = Vec::new();
        let mut l: usize = 0;
        while l < self.levels.len()
            invariant
                l <= self.levels.len(),
                forall|x: Handle| list@.contains(x) <==> self@.listed_elsewhere(s as int, l as int, x),
            decreases self.levels.len() - l,
        {
            let ghost listed = list@;
            let ghost objects = self@.levels[l as int].objects;
            if l != s {
                append_all(&mut list, self.levels[l].objects());
                proof {
                    joined_members(listed, objects);
                }
            }
            proof {
                assert forall|x: Handle| list@.contains(x) <==> self@.listed_elsewhere(
                    s as int,
                    l + 1,
                    x,
                ) by {
                    if self@.listed_elsewhere(s as int, l + 1, x) {
                        let w = choose|w: int|
                            0 <= w < l + 1 && w < self@.levels.len() && w != s && (
                            #[trigger] self@.levels[w]).objects.contains(x);
                        if w < l {
                            assert(self@.listed_elsewhere(s as int, l as int, x));
                        }
                    }
                    if self@.listed_elsewhere(s as int, l as int, x) {
                        let w = choose|w: int|
                            0 <= w < l && w < self@.levels.len() && w != s && (
                            #[trigger] self@.levels[w]).objects.contains(x);
                        assert(0 <= w < l + 1);
                    }
                    if l != s && objects.contains(x) {
                        assert(self@.levels[l as int].objects.contains(x));
                    }
                }
            }
            l = l + 1;
        }
        list
    }

    /// The number of levels of a group is a machine-sized number, and so is
    /// the number of objects of each level.
    pub proof fn lengths_are_bounded(&self)
        ensures
            self@.levels.len() <= usize::MAX,
            forall|i: int|
                0 <= i < self@.levels.len() ==> (#[trigger] self@.levels[i]).objects.len()
                    <= usize::MAX,
    {
        assert(self.levels@.len() == self.levels.len());
        assert forall|i: int| 0 <= i < self@.levels.len() implies (#[trigger] self@.levels[i]).objects.len()
            <= usize::MAX by {
            self.levels@[i].length_is_bounded();
        }
    }

}

impl Default for LodGroup {
    fn default() -> (group: Self)
        ensures
            group@.levels.len() == 0,
            group.wf(),
    {
        LodGroup { levels: Vec::new() }
    }
}

} // verus!
