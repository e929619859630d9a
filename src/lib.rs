//! Enumeration of every mutually compatible choice of one section per course.

pub mod time;
pub mod section;
pub mod search;
pub mod paths;
pub mod data;
pub mod grade;
pub mod record;

pub use time::{Campus, Day, DayTime, Time, TimeRange, MAX_MINUTES};
pub use section::{practical, retain_schedulable, schedulable, Section, TRAVEL_BUFFER};
pub use search::{possible_schedules, Tree};
pub use paths::AllPaths;
pub use data::{AddToCartDatum, CalendarInfo, Datum, SectionDetail, SectionRoot};
pub use grade::{Col, GoogleChart, GradeRoot, Grades, Individual, Nums, Row, C2};
pub use record::{campus_at, meet_days, section_from_datum, sections_from_data, RecordError};
