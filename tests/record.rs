use class_scheduler::{
    campus_at, meet_days, retain_schedulable, schedulable, section_from_datum,
    sections_from_data, CalendarInfo, Campus, Datum, Day, DayTime, RecordError, Section,
    SectionDetail, Time, TimeRange,
};

fn detail(section: &str, days: &str, location: &str, times: Option<(&str, &str)>, instructors: &[&str]) -> SectionDetail {
    SectionDetail {
        class_nbr: "1234".to_string(),
        section: section.to_string(),
        type_field: "Lecture".to_string(),
        meet_days: days.to_string(),
        time: String::new(),
        facility: "Engineering Hall 101".to_string(),
        instructors: instructors.iter().map(|s| s.to_string()).collect(),
        seat_availability: String::new(),
        reserved_seats: Vec::new(),
        instr_mode: String::new(),
        instructor_edit: String::new(),
        location: location.to_string(),
        building_address: String::new(),
        dates: String::new(),
        class_notes: Vec::new(),
        course_topic: String::new(),
        calendar_info: match times {
            Some((s, e)) => vec![CalendarInfo {
                start_time: s.to_string(),
                end_time: e.to_string(),
                all_day: Some(false),
            }],
            None => Vec::new(),
        },
    }
}

fn datum(class: &str, details: Vec<SectionDetail>) -> Datum {
    Datum {
        dt_row_id: String::new(),
        eventid: String::new(),
        career: String::new(),
        crse_id: String::new(),
        crse_offer_nbr: String::new(),
        classs: class.to_string(),
        crse_title: String::new(),
        grading_basis: String::new(),
        units: String::new(),
        enrl_status: String::new(),
        requisite_met: String::new(),
        requisite_descr: String::new(),
        add_to_cart_data: Vec::new(),
        description: String::new(),
        xlist_descr: String::new(),
        section_details: details,
    }
}

fn range(a: (u32, u32), b: (u32, u32)) -> TimeRange {
    TimeRange { start: Time { hour: a.0, minute: a.1 }, end: Time { hour: b.0, minute: b.1 } }
}

#[test]
fn day_names_in_week_order() {
    assert_eq!(meet_days("wed/mon"), vec![Day::Mon, Day::Wed]);
    assert_eq!(meet_days("tuesday thursday"), vec![Day::Tue, Day::Thu]);
    assert_eq!(meet_days("monday tuesday wednesday thursday friday"), vec![Day::Mon, Day::Tue, Day::Wed, Day::Thu, Day::Fri]);
    assert_eq!(meet_days("tba"), Vec::<Day>::new());
    assert_eq!(meet_days("MON"), Vec::<Day>::new());
}

#[test]
fn campus_from_location() {
    assert_eq!(campus_at("North Campus"), Campus::North);
    assert_eq!(campus_at("Centennial Campus"), Campus::Centennial);
    assert_eq!(campus_at("north"), Campus::Centennial);
}

#[test]
fn datum_becomes_section() {
    let d = datum(
        "CSC 316",
        vec![
            detail("001", "MON/WED", "North Campus", Some(("2024-01-08T10:15", "2024-01-08T11:30")), &[]),
            detail("001L", "Friday", "Centennial Campus", Some(("14:00", "15:50")), &["Grace Hopper", "Alan Turing"]),
        ],
    );
    let s = section_from_datum(&d).unwrap();
    assert_eq!(s.class, "CSC 316");
    assert_eq!(s.section, "001");
    assert_eq!(s.facility, "Engineering Hall 101");
    assert_eq!(s.professor, "Grace Hopper");
    assert_eq!(
        s.meetings,
        vec![
            DayTime { meet_day: Day::Mon, time: range((10, 15), (11, 30)), campus: Campus::North },
            DayTime { meet_day: Day::Wed, time: range((10, 15), (11, 30)), campus: Campus::North },
            DayTime { meet_day: Day::Fri, time: range((14, 0), (15, 50)), campus: Campus::Centennial },
        ]
    );
}

#[test]
fn datum_without_instructor_has_empty_professor() {
    let d = datum("MA 305", vec![detail("002", "tue", "Centennial", Some(("09:00", "09:50")), &[])]);
    let s = section_from_datum(&d).unwrap();
    assert_eq!(s.professor, "");
    assert_eq!(s.meetings.len(), 1);
}

#[test]
fn datum_without_days_is_online() {
    let d = datum("PY 208", vec![detail("601", "TBA", "Distance Education", Some(("00:00", "00:00")), &["Marie Curie"])]);
    let s = section_from_datum(&d).unwrap();
    assert!(s.meetings.is_empty());
    assert!(!schedulable(&s));
}

#[test]
fn datum_errors() {
    assert_eq!(section_from_datum(&datum("E 101", vec![])).unwrap_err(), RecordError::NoSectionDetails);
    let no_calendar = datum("E 101", vec![detail("001", "mon", "North", None, &[])]);
    assert_eq!(section_from_datum(&no_calendar).unwrap_err(), RecordError::MissingCalendar);
    let bad_time = datum("E 101", vec![detail("001", "mon", "North", Some(("9:00", "10:00")), &[])]);
    assert_eq!(section_from_datum(&bad_time).unwrap_err(), RecordError::MalformedTime);
    let second_bad = datum(
        "E 101",
        vec![
            detail("001", "mon", "North", Some(("09:00", "10:00")), &[]),
            detail("001L", "tue", "North", None, &[]),
        ],
    );
    assert_eq!(section_from_datum(&second_bad).unwrap_err(), RecordError::MissingCalendar);
}

#[test]
fn data_become_sections_in_order() {
    let data = vec![
        datum("CSC 246", vec![detail("001", "mon", "North", Some(("09:00", "10:00")), &["A B"])]),
        datum("CSC 326", vec![detail("002", "tue", "Centennial", Some(("11:00", "12:00")), &["C D"])]),
    ];
    let v = sections_from_data(&data).unwrap();
    assert_eq!(v.len(), 2);
    assert_eq!(v[0].class, "CSC 246");
    assert_eq!(v[1].class, "CSC 326");
    assert_eq!(v[1].meetings[0].campus, Campus::Centennial);
    let bad = vec![
        datum("CSC 246", vec![detail("001", "mon", "North", Some(("09:00", "10:00")), &[])]),
        datum("CSC 326", vec![]),
    ];
    assert_eq!(sections_from_data(&bad).unwrap_err(), RecordError::NoSectionDetails);
}

fn section(label: &str, meetings: Vec<DayTime>) -> Section {
    Section {
        class: "CSC 379".to_string(),
        section: label.to_string(),
        facility: String::new(),
        meetings,
        professor: String::new(),
    }
}

#[test]
fn filter_keeps_in_person_weekday_sections() {
    let mon = DayTime { meet_day: Day::Mon, time: range((9, 0), (10, 0)), campus: Campus::North };
    let fri = DayTime { meet_day: Day::Fri, time: range((9, 0), (10, 0)), campus: Campus::North };
    let mut v = vec![
        section("001", vec![mon]),
        section("601", vec![]),
        section("002", vec![mon, fri]),
        section("003", vec![mon, mon]),
    ];
    assert!(schedulable(&v[0]));
    assert!(!schedulable(&v[1]));
    assert!(!schedulable(&v[2]));
    retain_schedulable(&mut v);
    let labels: Vec<&str> = v.iter().map(|s| s.section.as_str()).collect();
    assert_eq!(labels, vec!["001", "003"]);
}
