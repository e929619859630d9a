use vstd::prelude::*;

use crate::time::{lemma_le_by_minutes, lemma_normalized_bound, lemma_shifted, Day, DayTime, TimeRange};

verus! {

/// Minutes needed to travel between campuses.
pub const TRAVEL_BUFFER: u32 = 30;

/// One offering of a course, with its weekly meetings. A section without
/// meetings is held online.
#[derive(Clone, Debug)]
pub struct Section {
    pub class: String,
    pub section: String,
    pub facility: String,
    pub meetings: Vec<DayTime>,
    pub professor: String,
}

/// Some meeting of `a` clashes with some meeting of `b`.
pub open spec fn meetings_overlap(a: Seq<DayTime>, b: Seq<DayTime>) -> bool {
    exists|i: int, j: int| 0 <= i < a.len() && 0 <= j < b.len() && #[trigger] a[i].overlaps(b[j])
}

/// The window around meeting `m` that a meeting on the other campus must keep
/// clear of.
pub open spec fn travel_window(m: DayTime) -> TimeRange {
    TimeRange {
        start: m.time.start.shifted(-(TRAVEL_BUFFER as int)),
        end: m.time.end.shifted(TRAVEL_BUFFER as int),
    }
}

/// Meeting `y` leaves no time to travel to or from meeting `x`.
pub open spec fn travel_conflict(x: DayTime, y: DayTime) -> bool {
    y.meet_day == x.meet_day && y.time.overlaps(travel_window(x)) && x.campus != y.campus
}

/// Some meeting of `b` leaves no time to travel to or from some meeting of `a`.
pub open spec fn needs_travel(a: Seq<DayTime>, b: Seq<DayTime>) -> bool {
    exists|i: int, j: int|
        0 <= i < a.len() && 0 <= j < b.len() && #[trigger] travel_conflict(a[i], b[j])
}

/// Two sections can stand in one schedule: no clash and no impossible travel.
pub open spec fn is_practical(a: Section, b: Section) -> bool {
    !meetings_overlap(a.meetings@, b.meetings@) && !needs_travel(a.meetings@, b.meetings@)
}

impl Section {
    /// Every start and end time of the meetings is normalised.
    pub open spec fn normalized_times(self) -> bool {
        forall|i: int|
            0 <= i < self.meetings@.len() ==> (#[trigger] self.meetings@[i]).time.start.normalized()
                && self.meetings@[i].time.end.normalized()
    }

    /// Some meeting of `self` clashes with some meeting of `other`.
    pub fn overlap(&self, other: &Section) -> (r: bool)
        ensures
            r == meetings_overlap(self.meetings@, other.meetings@),
    {
        meetings_clash(&self.meetings, &other.meetings)
    }
}

/// Some meeting of `a` clashes with some meeting of `b`.
fn meetings_clash(a: &Vec<DayTime>, b: &Vec<DayTime>) -> (r: bool)
    ensures
        r == meetings_overlap(a@, b@),
{
    let mut i: usize = 0;
    while i < a.len()
        invariant
            i <= a@.len(),
            forall|k: int, l: int|
                0 <= k < i && 0 <= l < b@.len() ==> !#[trigger] a@[k].overlaps(b@[l]),
        decreases a.len() - i,
    {
        let mut j: usize = 0;
        while j < b.len()
            invariant
                i < a@.len(),
                j <= b@.len(),
                forall|k: int, l: int|
                    0 <= k < i && 0 <= l < b@.len() ==> !#[trigger] a@[k].overlaps(b@[l]),
                forall|l: int| 0 <= l < j ==> !#[trigger] a@[i as int].overlaps(b@[l]),
            decreases b.len() - j,
        {
            if a[i].overlap(&b[j]) {
                assert(a@[i as int].overlaps(b@[j as int]));
                return true;
            }
            j += 1;
        }
        i += 1;
    }
    false
}

/// Some meeting of `other` leaves no time to travel to or from some meeting
/// of `this`.
fn campus_travel(this: &Vec<DayTime>, other: &Vec<DayTime>) -> (r: bool)
    ensures
        r == needs_travel(this@, other@),
{
    let mut i: usize = 0;
    while i < this.len()
        invariant
            i <= this@.len(),
            forall|k: int, l: int|
                0 <= k < i && 0 <= l < other@.len() ==> !#[trigger] travel_conflict(
                    this@[k],
                    other@[l],
                ),
        decreases this.len() - i,
    {
        let x = this[i];
        let expanded_range = TimeRange {
            start: x.time.start.sub_minutes(TRAVEL_BUFFER),
            end: x.time.end.add_minutes(TRAVEL_BUFFER),
        };
        assert(expanded_range == travel_window(x));
        let mut j: usize = 0;
        while j < other.len()
            invariant
                i < this@.len(),
                x == this@[i as int],
                expanded_range == travel_window(x),
                j <= other@.len(),
                forall|k: int, l: int|
                    0 <= k < i && 0 <= l < other@.len() ==> !#[trigger] travel_conflict(
                        this@[k],
                        other@[l],
                    ),
                forall|l: int| 0 <= l < j ==> !#[trigger] travel_conflict(x, other@[l]),
            decreases other.len() - j,
        {
            let y = &other[j];
            if y.meet_day == x.meet_day && y.time.overlap(&expanded_range) && x.campus != y.campus {
                assert(travel_conflict(this@[i as int], other@[j as int]));
                return true;
            }
            j += 1;
        }
        i += 1;
    }
    false
}

/// Whether `this` and `other` can stand together in one schedule.
pub fn practical(this: &Section, other: &Section) -> (r: bool)
    ensures
        r == is_practical(*this, *other),
{
    let overlap = this.overlap(other);
    let travel = campus_travel(&this.meetings, &other.meetings);
    !(overlap || travel)
}

proof fn lemma_travel_conflict_symmetric(x: DayTime, y: DayTime)
    requires
        x.time.start.normalized(),
        x.time.end.normalized(),
        y.time.start.normalized(),
        y.time.end.normalized(),
    ensures
        travel_conflict(x, y) == travel_conflict(y, x),
{
    let b = TRAVEL_BUFFER as int;
    lemma_shifted(x.time.start, -b);
    lemma_shifted(x.time.end, b);
    lemma_shifted(y.time.start, -b);
    lemma_shifted(y.time.end, b);
    lemma_normalized_bound(x.time.start);
    lemma_normalized_bound(x.time.end);
    lemma_normalized_bound(y.time.start);
    lemma_normalized_bound(y.time.end);
    lemma_le_by_minutes(y.time.start, travel_window(x).end);
    lemma_le_by_minutes(travel_window(x).start, y.time.end);
    lemma_le_by_minutes(x.time.start, travel_window(y).end);
    lemma_le_by_minutes(travel_window(y).start, x.time.end);
}

/// Compatibility of two sections does not depend on their order, for sections
/// whose meeting times are normalised.
pub proof fn lemma_practical_symmetric(a: Section, b: Section)
    requires
        a.normalized_times(),
        b.normalized_times(),
    ensures
        is_practical(a, b) == is_practical(b, a),
{
    let ma = a.meetings@;
    let mb = b.meetings@;
    if meetings_overlap(ma, mb) {
        let (i, j) = choose|i: int, j: int|
            0 <= i < ma.len() && 0 <= j < mb.len() && #[trigger] ma[i].overlaps(mb[j]);
        assert(mb[j].overlaps(ma[i]));
    }
    if meetings_overlap(mb, ma) {
        let (i, j) = choose|i: int, j: int|
            0 <= i < mb.len() && 0 <= j < ma.len() && #[trigger] mb[i].overlaps(ma[j]);
        assert(ma[j].overlaps(mb[i]));
    }
    if needs_travel(ma, mb) {
        let (i, j) = choose|i: int, j: int|
            0 <= i < ma.len() && 0 <= j < mb.len() && #[trigger] travel_conflict(ma[i], mb[j]);
        lemma_travel_conflict_symmetric(ma[i], mb[j]);
        assert(travel_conflict(mb[j], ma[i]));
    }
    if needs_travel(mb, ma) {
        let (i, j) = choose|i: int, j: int|
            0 <= i < mb.len() && 0 <= j < ma.len() && #[trigger] travel_conflict(mb[i], ma[j]);
        lemma_travel_conflict_symmetric(mb[i], ma[j]);
        assert(travel_conflict(ma[j], mb[i]));
    }
}

} // verus!

verus! {

/// The section meets in person, and never on a Friday.
pub open spec fn is_schedulable(s: Section) -> bool {
    s.meetings@.len() > 0 && forall|i: int|
        0 <= i < s.meetings@.len() ==> (#[trigger] s.meetings@[i]).meet_day != Day::Fri
}

/// Whether the section meets in person and never on a Friday.
pub fn schedulable(s: &Section) -> (r: bool)
    ensures
        r == is_schedulable(*s),
{
    if s.meetings.len() == 0 {
        return false;
    }
    let mut i: usize = 0;
    while i < s.meetings.len()
        invariant
            i <= s.meetings@.len(),
            forall|k: int| 0 <= k < i ==> (#[trigger] s.meetings@[k]).meet_day != Day::Fri,
        decreases s.meetings.len() - i,
    {
        if s.meetings[i].meet_day == Day::Fri {
            return false;
        }
        i += 1;
    }
    true
}

/// Keeps the sections that meet in person and never on a Friday, in order.
pub fn retain_schedulable(sections: &mut Vec<Section>)
    ensures
        final(sections)@ == old(sections)@.filter(|s: Section| is_schedulable(s)),
{
    let ghost orig = old(sections)@;
    let ghost p = |s: Section| is_schedulable(s);
    let ghost mut j: int = 0;
    let mut i: usize = 0;
    while i < sections.len()
        invariant
            0 <= j <= orig.len(),
            p == (|s: Section| is_schedulable(s)),
            sections@ == orig.subrange(0, j).filter(p) + orig.subrange(j, orig.len() as int),
            i == orig.subrange(0, j).filter(p).len(),
        decreases sections.len() - i,
    {
        let ghost kept = orig.subrange(0, j).filter(p);
        assert(sections@[i as int] == orig[j]);
        proof {
            assert(orig.subrange(0, j + 1) =~= orig.subrange(0, j).push(orig[j]));
            orig.subrange(0, j).lemma_filter_push(orig[j], p);
        }
        if schedulable(&sections[i]) {
            i += 1;
            proof {
                assert(sections@ =~= kept.push(orig[j]) + orig.subrange(j + 1, orig.len() as int));
            }
        } else {
            sections.remove(i);
            proof {
                assert(sections@ =~= kept + orig.subrange(j + 1, orig.len() as int));
            }
        }
        proof {
            j = j + 1;
        }
    }
    proof {
        assert(orig.subrange(j, orig.len() as int).len() == 0);
        assert(orig.subrange(0, j) =~= orig);
        assert(sections@ =~= orig.filter(p));
    }
}

} // verus!
