use vstd::prelude::*;

use crate::data::{Datum, SectionDetail};
use crate::section::Section;
use crate::time::{parse_time_text, Campus, Day, DayTime, Time, TimeRange};

verus! {

/// Why a catalog entry cannot become a section.
#[derive(Clone, Copy, Debug, PartialEq, Eq, Structural)]
pub enum RecordError {
    /// The entry lists no section details.
    NoSectionDetails,
    /// A section detail has no calendar information.
    MissingCalendar,
    /// A start or end time does not end in `HH:MM`.
    MalformedTime,
}

/// What `str::to_lowercase` makes of a string.
pub uninterp spec fn lower_of(s: Seq<char>) -> Seq<char>;

/// Relies on `str::to_lowercase`: the result depends on the characters alone.
#[verifier::external_body]
fn lowercase(s: &str) -> (r: String)
    ensures
        r@ == lower_of(s@),
{
    s.to_lowercase()
}

/// `p` occurs in `s` as a run of consecutive characters.
pub open spec fn has_substring(s: Seq<char>, p: Seq<char>) -> bool {
    exists|i: int| 0 <= i && i + p.len() <= s.len() && #[trigger] s.subrange(i, i + p.len()) == p
}

/// Relies on `str::contains` with a string pattern: true exactly when `p`
/// occurs in `s`.
#[verifier::external_body]
fn contains(s: &str, p: &str) -> (r: bool)
    ensures
        r == has_substring(s@, p@),
{
    s.contains(p)
}

/// `[d]` when `b` holds, else nothing.
pub open spec fn day_if(b: bool, d: Day) -> Seq<Day> {
    if b {
        seq![d]
    } else {
        Seq::empty()
    }
}

/// The weekdays whose three-letter lower-case names occur in `s`, in week
/// order.
pub open spec fn days_named(s: Seq<char>) -> Seq<Day> {
    day_if(has_substring(s, seq!['m', 'o', 'n']), Day::Mon) + day_if(
        has_substring(s, seq!['t', 'u', 'e']),
        Day::Tue,
    ) + day_if(has_substring(s, seq!['w', 'e', 'd']), Day::Wed) + day_if(
        has_substring(s, seq!['t', 'h', 'u']),
        Day::Thu,
    ) + day_if(has_substring(s, seq!['f', 'r', 'i']), Day::Fri)
}

/// The campus of a location: North when its text names it, else Centennial.
pub open spec fn campus_of(location: Seq<char>) -> Campus {
    if has_substring(location, seq!['N', 'o', 'r', 't', 'h']) {
        Campus::North
    } else {
        Campus::Centennial
    }
}

/// The weekdays named in an already lower-cased day list.
pub fn meet_days(lowered: &str) -> (r: Vec<Day>)
    ensures
        r@ == days_named(lowered@),
{
    proof {
        reveal_strlit("mon");
        assert("mon"@ =~= seq!['m', 'o', 'n']);
        reveal_strlit("tue");
        assert("tue"@ =~= seq!['t', 'u', 'e']);
        reveal_strlit("wed");
        assert("wed"@ =~= seq!['w', 'e', 'd']);
        reveal_strlit("thu");
        assert("thu"@ =~= seq!['t', 'h', 'u']);
        reveal_strlit("fri");
        assert("fri"@ =~= seq!['f', 'r', 'i']);
    }
    let mut days: Vec<Day> = Vec::new();
    if contains(lowered, "mon") {
        days.push(Day::Mon);
    }
    if contains(lowered, "tue") {
        days.push(Day::Tue);
    }
    if contains(lowered, "wed") {
        days.push(Day::Wed);
    }
    if contains(lowered, "thu") {
        days.push(Day::Thu);
    }
    if contains(lowered, "fri") {
        days.push(Day::Fri);
    }
    assert(days@ =~= days_named(lowered@));
    days
}

/// The campus that a location's text names.
pub fn campus_at(location: &str) -> (r: Campus)
    ensures
        r == campus_of(location@),
{
    proof {
        reveal_strlit("North");
        assert("North"@ =~= seq!['N', 'o', 'r', 't', 'h']);
    }
    if contains(location, "North") {
        Campus::North
    } else {
        Campus::Centennial
    }
}

/// The time range of a section detail: that of its first calendar entry.
pub open spec fn detail_range(det: SectionDetail) -> Result<TimeRange, RecordError> {
    if det.calendar_info@.len() == 0 {
        Err(RecordError::MissingCalendar)
    } else {
        let ci = det.calendar_info@[0];
        match (parse_time_text(ci.start_time@), parse_time_text(ci.end_time@)) {
            (Some(start), Some(end)) => Ok(TimeRange { start, end }),
            _ => Err(RecordError::MalformedTime),
        }
    }
}

/// The meetings of a section detail: one for each day it names, all at its
/// time range and campus.
pub open spec fn detail_meetings(det: SectionDetail) -> Result<Seq<DayTime>, RecordError> {
    match detail_range(det) {
        Ok(time) => Ok(
            days_named(lower_of(det.meet_days@)).map_values(
                |d: Day| DayTime { meet_day: d, time, campus: campus_of(det.location@) },
            ),
        ),
        Err(e) => Err(e),
    }
}

/// The meetings of all section details in order, or the first detail's
/// error.
pub open spec fn all_meetings(ds: Seq<SectionDetail>) -> Result<Seq<DayTime>, RecordError>
    decreases ds.len(),
{
    if ds.len() == 0 {
        Ok(Seq::empty())
    } else {
        match all_meetings(ds.drop_last()) {
            Ok(before) => match detail_meetings(ds.last()) {
                Ok(m) => Ok(before + m),
                Err(e) => Err(e),
            },
            Err(e) => Err(e),
        }
    }
}

/// The first instructor of the first section detail that names one.
pub open spec fn first_instructor(ds: Seq<SectionDetail>) -> Option<Seq<char>>
    decreases ds.len(),
{
    if ds.len() == 0 {
        None
    } else {
        match first_instructor(ds.drop_last()) {
            Some(p) => Some(p),
            None => if ds.last().instructors@.len() > 0 {
                Some(ds.last().instructors@[0]@)
            } else {
                None
            },
        }
    }
}

/// Why the catalog entry cannot become a section, if it cannot.
pub open spec fn datum_error(d: Datum) -> Option<RecordError> {
    if d.section_details@.len() == 0 {
        Some(RecordError::NoSectionDetails)
    } else {
        match all_meetings(d.section_details@) {
            Ok(_) => None,
            Err(e) => Some(e),
        }
    }
}

/// `s` is the section made of the catalog entry `d`: its class, the label
/// and facility of the first detail, the meetings of all details, and the
/// first instructor named, or an empty name.
pub open spec fn section_of(d: Datum, s: Section) -> bool {
    let ds = d.section_details@;
    &&& ds.len() > 0
    &&& all_meetings(ds) == Ok::<Seq<DayTime>, RecordError>(s.meetings@)
    &&& s.class@ == d.classs@
    &&& s.section@ == ds[0].section@
    &&& s.facility@ == ds[0].facility@
    &&& s.professor@ == match first_instructor(ds) {
        Some(p) => p,
        None => Seq::empty(),
    }
}

proof fn lemma_meetings_error_stays(ds: Seq<SectionDetail>, i: int, e: RecordError)
    requires
        0 <= i <= ds.len(),
        all_meetings(ds.subrange(0, i)) == Err::<Seq<DayTime>, RecordError>(e),
    ensures
        all_meetings(ds) == Err::<Seq<DayTime>, RecordError>(e),
    decreases ds.len() - i,
{
    if i < ds.len() {
        assert(ds.subrange(0, ds.len() - 1).subrange(0, i) =~= ds.subrange(0, i));
        lemma_meetings_error_stays(ds.subrange(0, ds.len() - 1), i, e);
        assert(ds.subrange(0, ds.len() - 1).subrange(0, i) =~= ds.subrange(0, i));
        assert(ds.drop_last() =~= ds.subrange(0, ds.len() - 1));
    } else {
        assert(ds.subrange(0, i) =~= ds);
    }
}

proof fn lemma_instructor_stays(ds: Seq<SectionDetail>, i: int, p: Seq<char>)
    requires
        0 <= i <= ds.len(),
        first_instructor(ds.subrange(0, i)) == Some(p),
    ensures
        first_instructor(ds) == Some(p),
    decreases ds.len() - i,
{
    if i < ds.len() {
        assert(ds.subrange(0, ds.len() - 1).subrange(0, i) =~= ds.subrange(0, i));
        lemma_instructor_stays(ds.subrange(0, ds.len() - 1), i, p);
        assert(ds.subrange(0, ds.len() - 1).subrange(0, i) =~= ds.subrange(0, i));
        assert(ds.drop_last() =~= ds.subrange(0, ds.len() - 1));
    } else {
        assert(ds.subrange(0, i) =~= ds);
    }
}

/// The time range of a section detail.
fn detail_time(det: &SectionDetail) -> (r: Result<TimeRange, RecordError>)
    ensures
        r == detail_range(*det),
{
    if det.calendar_info.len() == 0 {
        return Err(RecordError::MissingCalendar);
    }
    let ci = &det.calendar_info[0];
    match (Time::from_str(ci.start_time.as_str()), Time::from_str(ci.end_time.as_str())) {
        (Ok(start), Ok(end)) => Ok(TimeRange { start, end }),
        _ => Err(RecordError::MalformedTime),
    }
}

/// The meetings of all section details, in order.
fn meetings_of(ds: &Vec<SectionDetail>) -> (r: Result<Vec<DayTime>, RecordError>)
    ensures
        match r {
            Ok(m) => all_meetings(ds@) == Ok::<Seq<DayTime>, RecordError>(m@),
            Err(e) => all_meetings(ds@) == Err::<Seq<DayTime>, RecordError>(e),
        },
{
    let mut meetings: Vec<DayTime> = Vec::new();
    let mut i: usize = 0;
    while i < ds.len()
        invariant
            i <= ds@.len(),
            all_meetings(ds@.subrange(0, i as int)) == Ok::<Seq<DayTime>, RecordError>(
                meetings@,
            ),
        decreases ds.len() - i,
    {
        let det = &ds[i];
        let ghost prefix = ds@.subrange(0, i + 1);
        assert(prefix.drop_last() =~= ds@.subrange(0, i as int));
        assert(prefix.last() == *det);
        let time = match detail_time(det) {
            Ok(t) => t,
            Err(e) => {
                proof {
                    lemma_meetings_error_stays(ds@, i + 1, e);
                }
                return Err(e);
            },
        };
        let lowered = lowercase(det.meet_days.as_str());
        let days = meet_days(lowered.as_str());
        let campus = campus_at(det.location.as_str());
        let ghost before = meetings@;
        let ghost added = days@.map_values(
            |d: Day| DayTime { meet_day: d, time, campus: campus_of(det.location@) },
        );
        let mut k: usize = 0;
        while k < days.len()
            invariant
                k <= days@.len(),
                campus == campus_of(det.location@),
                added == days@.map_values(
                    |d: Day| DayTime { meet_day: d, time, campus: campus_of(det.location@) },
                ),
                meetings@ == before + added.subrange(0, k as int),
            decreases days.len() - k,
        {
            meetings.push(DayTime { meet_day: days[k], time, campus });
            assert(added.subrange(0, k + 1) =~= added.subrange(0, k as int).push(added[k as int]));
            k += 1;
        }
        assert(added.subrange(0, k as int) =~= added);
        assert(detail_meetings(*det) == Ok::<Seq<DayTime>, RecordError>(added));
        i += 1;
    }
    assert(ds@.subrange(0, i as int) =~= ds@);
    Ok(meetings)
}

/// The first instructor named by any section detail, or an empty name.
fn professor_of(ds: &Vec<SectionDetail>) -> (r: String)
    ensures
        r@ == match first_instructor(ds@) {
            Some(p) => p,
            None => Seq::empty(),
        },
{
    let mut i: usize = 0;
    while i < ds.len()
        invariant
            i <= ds@.len(),
            first_instructor(ds@.subrange(0, i as int)) is None,
        decreases ds.len() - i,
    {
        let ghost prefix = ds@.subrange(0, i + 1);
        assert(prefix.drop_last() =~= ds@.subrange(0, i as int));
        assert(prefix.last() == ds@[i as int]);
        if ds[i].instructors.len() > 0 {
            let p = ds[i].instructors[0].clone();
            proof {
                lemma_instructor_stays(ds@, i + 1, p@);
            }
            return p;
        }
        i += 1;
    }
    assert(ds@.subrange(0, i as int) =~= ds@);
    String::new()
}

/// Makes a section of a catalog entry.
pub fn section_from_datum(d: &Datum) -> (r: Result<Section, RecordError>)
    ensures
        match r {
            Ok(s) => datum_error(*d) is None && section_of(*d, s),
            Err(e) => datum_error(*d) == Some(e),
        },
{
    let ds = &d.section_details;
    if ds.len() == 0 {
        return Err(RecordError::NoSectionDetails);
    }
    let meetings = match meetings_of(ds) {
        Ok(m) => m,
        Err(e) => return Err(e),
    };
    let professor = professor_of(ds);
    Ok(
        Section {
            class: d.classs.clone(),
            section: ds[0].section.clone(),
            facility: ds[0].facility.clone(),
            meetings,
            professor,
        },
    )
}

/// Makes a section of each catalog entry, in order, or reports the first
/// entry that cannot become one.
pub fn sections_from_data(data: &Vec<Datum>) -> (r: Result<Vec<Section>, RecordError>)
    ensures
        match r {
            Ok(v) => {
                &&& v@.len() == data@.len()
                &&& forall|i: int|
                    0 <= i < data@.len() ==> datum_error(#[trigger] data@[i]) is None
                        && section_of(data@[i], v@[i])
            },
            Err(e) => exists|i: int|
                0 <= i < data@.len() && datum_error(#[trigger] data@[i]) == Some(e) && forall|
                    j: int,
                | 0 <= j < i ==> datum_error(#[trigger] data@[j]) is None,
        },
{
    let mut out: Vec<Section> = Vec::new();
    let mut i: usize = 0;
    while i < data.len()
        invariant
            i <= data@.len(),
            out@.len() == i,
            forall|k: int|
                0 <= k < i ==> datum_error(#[trigger] data@[k]) is None && section_of(
                    data@[k],
                    out@[k],
                ),
        decreases data.len() - i,
    {
        match section_from_datum(&data[i]) {
            Ok(s) => out.push(s),
            Err(e) => {
                assert(datum_error(data@[i as int]) == Some(e));
                return Err(e);
            },
        }
        i += 1;
    }
    Ok(out)
}

} // verus!
