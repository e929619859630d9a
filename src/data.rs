use vstd::prelude::*;

verus! {

/// A JSON value kept as it came, for fields that nothing here reads.
#[verifier::external_type_specification]
#[verifier::external_body]
pub struct ExValue(serde_json::Value);

/// A page of the course catalog: one entry per class.
#[derive(Debug)]
pub struct SectionRoot {
    pub data: Vec<Datum>,
}

/// One class of the catalog with its sections' details.
#[derive(Debug)]
pub struct Datum {
    pub dt_row_id: String,
    pub eventid: String,
    pub career: String,
    pub crse_id: String,
    pub crse_offer_nbr: String,
    pub classs: String,
    pub crse_title: String,
    pub grading_basis: String,
    pub units: String,
    pub enrl_status: String,
    pub requisite_met: String,
    pub requisite_descr: String,
    pub add_to_cart_data: Vec<AddToCartDatum>,
    pub description: String,
    pub xlist_descr: String,
    pub section_details: Vec<SectionDetail>,
}

/// Enrollment data of a class.
#[derive(Default, Debug, Clone, PartialEq)]
pub struct AddToCartDatum {
    pub course_career: String,
    pub session_code: String,
    pub crse_id: String,
    pub class_nbr: String,
    pub catalog_nbr: String,
    pub unt_taken: String,
    pub grading_basis: String,
    pub rqmnt_designtn: String,
    pub wait_list_okay: String,
}

/// One component of a class: where, when and by whom it meets.
#[derive(Debug)]
pub struct SectionDetail {
    pub class_nbr: String,
    pub section: String,
    pub type_field: String,
    pub meet_days: String,
    pub time: String,
    pub facility: String,
    pub instructors: Vec<String>,
    pub seat_availability: String,
    pub reserved_seats: Vec<serde_json::Value>,
    pub instr_mode: String,
    pub instructor_edit: String,
    pub location: String,
    pub building_address: String,
    pub dates: String,
    pub class_notes: Vec<String>,
    pub course_topic: String,
    pub calendar_info: Vec<CalendarInfo>,
}

/// Start and end of a meeting, as the catalog writes them.
#[derive(Default, Debug, Clone, PartialEq)]
pub struct CalendarInfo {
    pub start_time: String,
    pub end_time: String,
    pub all_day: Option<bool>,
}

} // verus!
