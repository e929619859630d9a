use vstd::prelude::*;

verus! {

/// A grade distribution report: one entry per course offering.
#[derive(Debug)]
pub struct GradeRoot {
    pub individual: Vec<Individual>,
}

/// The grades of one course offering.
#[derive(Debug)]
pub struct Individual {
    pub course_name: String,
    pub course_id: String,
    pub instructor_name: String,
    pub course_sem: String,
    pub grades: Grades,
    pub google_chart: GoogleChart,
}

/// Counts of each grade.
#[derive(Default, Debug, Clone, PartialEq)]
pub struct Grades {
    pub a: Nums,
    pub b: Nums,
    pub c: Nums,
    pub d: Nums,
    pub f: Nums,
    pub s: Nums,
    pub u: Nums,
    pub in_field: Nums,
    pub la: Nums,
    pub au: Nums,
    pub nr: Nums,
    pub w: Nums,
    pub total: Nums,
}

/// A count and the share that it is, as text.
#[derive(Default, Debug, Clone, PartialEq)]
pub struct Nums {
    pub raw: i64,
    pub percentage: String,
}

/// The report's chart table.
#[derive(Debug)]
pub struct GoogleChart {
    pub cols: Vec<Col>,
    pub rows: Vec<Row>,
}

/// A column of the chart table.
#[derive(Default, Debug, Clone, PartialEq)]
pub struct Col {
    pub id: String,
    pub label: String,
    pub type_field: String,
}

/// A row of the chart table.
#[derive(Debug)]
pub struct Row {
    pub c: Vec<C2>,
}

/// A cell of the chart table.
#[derive(Debug)]
pub struct C2 {
    pub v: serde_json::Value,
}

} // verus!
