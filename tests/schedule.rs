use class_scheduler::{
    possible_schedules, practical, AllPaths, Campus, Day, DayTime, Section, Time, TimeRange,
    Tree,
};

fn t(hour: u32, minute: u32) -> Time {
    Time { hour, minute }
}

fn range(a: (u32, u32), b: (u32, u32)) -> TimeRange {
    TimeRange { start: t(a.0, a.1), end: t(b.0, b.1) }
}

fn meeting(day: Day, a: (u32, u32), b: (u32, u32), campus: Campus) -> DayTime {
    DayTime { meet_day: day, time: range(a, b), campus }
}

fn section(label: &str, meetings: Vec<DayTime>) -> Section {
    Section {
        class: "CSC 101".to_string(),
        section: label.to_string(),
        facility: "Hall".to_string(),
        meetings,
        professor: "Ada Lovelace".to_string(),
    }
}

fn all(forest: &Vec<Tree>, height: usize) -> Vec<Vec<usize>> {
    let mut it = AllPaths::new(forest, height);
    let mut out = Vec::new();
    while let Some(p) = it.next() {
        out.push(p);
    }
    out
}

fn brute_force(courses: &Vec<Vec<Section>>) -> Vec<Vec<usize>> {
    let mut out = Vec::new();
    for a in 0..courses[0].len() {
        for b in 0..courses[1].len() {
            for c in 0..courses[2].len() {
                let pick = [&courses[0][a], &courses[1][b], &courses[2][c]];
                let mut ok = true;
                for i in 0..3 {
                    for j in 0..3 {
                        if i != j && !practical(pick[i], pick[j]) {
                            ok = false;
                        }
                    }
                }
                if ok {
                    out.push(vec![a, b, c]);
                }
            }
        }
    }
    out
}

#[test]
fn touching_ranges_overlap() {
    let a = range((9, 0), (10, 0));
    let b = range((10, 0), (11, 0));
    assert!(a.overlap(&b));
    assert!(b.overlap(&a));
}

#[test]
fn disjoint_ranges_do_not_overlap() {
    let a = range((9, 0), (9, 59));
    let b = range((10, 0), (11, 0));
    assert!(!a.overlap(&b));
    assert!(!b.overlap(&a));
}

#[test]
fn overlap_is_symmetric_and_reflexive() {
    let ranges = [
        range((8, 0), (9, 15)),
        range((9, 15), (10, 0)),
        range((12, 30), (13, 45)),
        range((13, 0), (13, 0)),
    ];
    for a in ranges.iter() {
        assert!(a.overlap(a));
        for b in ranges.iter() {
            assert_eq!(a.overlap(b), b.overlap(a));
        }
    }
}

#[test]
fn day_overlap_is_equality() {
    assert!(Day::Mon.overlap(&Day::Mon));
    assert!(!Day::Mon.overlap(&Day::Tue));
}

#[test]
fn meetings_clash_only_on_same_campus() {
    let a = meeting(Day::Mon, (9, 0), (10, 0), Campus::North);
    let b = meeting(Day::Mon, (9, 30), (10, 30), Campus::North);
    let c = meeting(Day::Mon, (9, 30), (10, 30), Campus::Centennial);
    let d = meeting(Day::Tue, (9, 30), (10, 30), Campus::North);
    assert!(a.overlap(&b));
    assert!(!a.overlap(&c));
    assert!(!a.overlap(&d));
}

#[test]
fn travel_buffer_boundary() {
    let a = section("001", vec![meeting(Day::Mon, (9, 0), (10, 0), Campus::North)]);
    let far = section("002", vec![meeting(Day::Mon, (10, 31), (11, 30), Campus::Centennial)]);
    let near = section("003", vec![meeting(Day::Mon, (10, 29), (11, 30), Campus::Centennial)]);
    let same = section("004", vec![meeting(Day::Mon, (10, 31), (11, 30), Campus::North)]);
    let same_near = section("005", vec![meeting(Day::Mon, (10, 1), (11, 30), Campus::North)]);
    assert!(practical(&a, &far));
    assert!(!practical(&a, &near));
    assert!(practical(&a, &same));
    assert!(practical(&a, &same_near));
}

#[test]
fn travel_buffer_edge_is_inclusive() {
    let a = section("001", vec![meeting(Day::Mon, (9, 0), (10, 0), Campus::North)]);
    let b = section("002", vec![meeting(Day::Mon, (10, 30), (11, 30), Campus::Centennial)]);
    assert!(!practical(&a, &b));
    assert!(!practical(&b, &a));
}

#[test]
fn travel_needs_same_day() {
    let a = section("001", vec![meeting(Day::Mon, (9, 0), (10, 0), Campus::North)]);
    let b = section("002", vec![meeting(Day::Tue, (10, 0), (11, 0), Campus::Centennial)]);
    assert!(practical(&a, &b));
}

#[test]
fn direct_overlap_is_impractical() {
    let a = section("001", vec![meeting(Day::Wed, (9, 0), (10, 0), Campus::North)]);
    let b = section("002", vec![meeting(Day::Wed, (9, 30), (10, 30), Campus::North)]);
    assert!(a.overlap(&b));
    assert!(!practical(&a, &b));
}

#[test]
fn practical_is_symmetric() {
    let sections = vec![
        section("001", vec![meeting(Day::Mon, (9, 0), (10, 0), Campus::North)]),
        section("002", vec![meeting(Day::Mon, (10, 15), (11, 0), Campus::Centennial)]),
        section("003", vec![meeting(Day::Mon, (11, 45), (12, 30), Campus::Centennial)]),
        section(
            "004",
            vec![
                meeting(Day::Tue, (8, 0), (9, 0), Campus::North),
                meeting(Day::Mon, (12, 0), (13, 0), Campus::North),
            ],
        ),
        section("005", vec![]),
    ];
    for a in sections.iter() {
        for b in sections.iter() {
            assert_eq!(practical(a, b), practical(b, a));
        }
    }
}

#[test]
fn online_section_is_always_practical() {
    let a = section("601", vec![]);
    let b = section("001", vec![meeting(Day::Mon, (9, 0), (10, 0), Campus::North)]);
    assert!(practical(&a, &b));
    assert!(practical(&b, &a));
}

#[test]
fn pairwise_conflict_is_not_transitive() {
    // A and C clash; B fits with both.
    let a = section("A", vec![meeting(Day::Mon, (9, 0), (10, 0), Campus::North)]);
    let b = section("B", vec![meeting(Day::Tue, (9, 0), (10, 0), Campus::North)]);
    let c = section("C", vec![meeting(Day::Mon, (9, 30), (10, 30), Campus::North)]);
    assert!(practical(&a, &b));
    assert!(practical(&b, &c));
    assert!(!practical(&a, &c));
    let courses = vec![vec![a], vec![b], vec![c]];
    let forest = possible_schedules(&courses);
    assert!(forest.is_empty());
    assert!(all(&forest, 3).is_empty());
}

#[test]
fn no_solution_yields_nothing() {
    let a = section("001", vec![meeting(Day::Thu, (13, 0), (14, 0), Campus::Centennial)]);
    let b = section("002", vec![meeting(Day::Thu, (13, 30), (14, 30), Campus::Centennial)]);
    let courses = vec![vec![a], vec![b]];
    let forest = possible_schedules(&courses);
    assert!(forest.is_empty());
    assert_eq!(all(&forest, 2), Vec::<Vec<usize>>::new());
}

#[test]
fn single_course_yields_each_candidate() {
    let candidates = vec![
        section("001", vec![meeting(Day::Mon, (9, 0), (10, 0), Campus::North)]),
        section("002", vec![meeting(Day::Mon, (9, 0), (10, 0), Campus::North)]),
        section("003", vec![meeting(Day::Tue, (9, 0), (10, 0), Campus::Centennial)]),
        section("004", vec![]),
    ];
    let courses = vec![candidates];
    let forest = possible_schedules(&courses);
    assert_eq!(forest.len(), 4);
    assert_eq!(all(&forest, 1), vec![vec![0], vec![1], vec![2], vec![3]]);
}

#[test]
fn zero_courses_yield_one_empty_schedule() {
    let courses: Vec<Vec<Section>> = Vec::new();
    let forest = possible_schedules(&courses);
    assert!(forest.is_empty());
    assert_eq!(all(&forest, 0), vec![Vec::<usize>::new()]);
}

#[test]
fn empty_candidate_list_yields_nothing() {
    let a = section("001", vec![meeting(Day::Mon, (9, 0), (10, 0), Campus::North)]);
    let courses = vec![vec![a], vec![]];
    let forest = possible_schedules(&courses);
    assert!(forest.is_empty());
    assert!(all(&forest, 2).is_empty());
}

fn fixture() -> Vec<Vec<Section>> {
    vec![
        vec![
            section("1A", vec![meeting(Day::Mon, (9, 0), (10, 0), Campus::North)]),
            section("1B", vec![meeting(Day::Tue, (9, 0), (10, 0), Campus::Centennial)]),
            section("1C", vec![meeting(Day::Mon, (13, 0), (14, 0), Campus::North)]),
        ],
        vec![
            section("2A", vec![meeting(Day::Mon, (9, 30), (10, 30), Campus::North)]),
            section("2B", vec![meeting(Day::Tue, (10, 15), (11, 0), Campus::North)]),
            section("2C", vec![meeting(Day::Wed, (9, 0), (10, 0), Campus::Centennial)]),
        ],
        vec![
            section("3A", vec![meeting(Day::Mon, (10, 20), (11, 0), Campus::Centennial)]),
            section("3B", vec![meeting(Day::Tue, (11, 0), (12, 0), Campus::North)]),
        ],
    ]
}

#[test]
fn enumerator_matches_brute_force() {
    let courses = fixture();
    let forest = possible_schedules(&courses);
    let found = all(&forest, 3);
    let expected = brute_force(&courses);
    assert_eq!(found, expected);
    assert_eq!(
        found,
        vec![
            vec![0, 2, 1],
            vec![1, 0, 1],
            vec![1, 2, 0],
            vec![1, 2, 1],
            vec![2, 0, 1],
            vec![2, 1, 0],
            vec![2, 2, 0],
            vec![2, 2, 1],
        ]
    );
}

#[test]
fn search_is_repeatable() {
    let courses = fixture();
    let first = all(&possible_schedules(&courses), 3);
    let second = all(&possible_schedules(&courses), 3);
    assert_eq!(first, second);
}

#[test]
fn tree_paths_and_depth() {
    let courses = fixture();
    let forest = possible_schedules(&courses);
    assert_eq!(forest.len(), 3);
    assert_eq!(forest[0].value, 0);
    assert_eq!(forest[0].children.len(), 1);
    assert_eq!(forest[2].value, 2);
    assert_eq!(forest[2].children.len(), 3);
    let mut joined = Vec::new();
    for tree in forest.iter() {
        assert_eq!(tree.depth(), 2);
        let mut it = tree.all_paths();
        while let Some(p) = it.next() {
            joined.push(p);
        }
    }
    assert_eq!(joined, all(&forest, 3));
}

#[test]
fn single_leaf_tree_has_one_path() {
    let leaf = Tree { value: 7, children: Vec::new() };
    assert_eq!(leaf.depth(), 0);
    let mut it = leaf.all_paths();
    assert_eq!(it.next(), Some(vec![7]));
    assert_eq!(it.next(), None);
    assert_eq!(it.next(), None);
}

#[test]
fn enumerator_stays_exhausted() {
    let courses = fixture();
    let forest = possible_schedules(&courses);
    let mut it = AllPaths::new(&forest, 3);
    let mut n = 0;
    while it.next().is_some() {
        n += 1;
    }
    assert_eq!(n, 8);
    assert_eq!(it.next(), None);
}

#[test]
fn minutes_past_sixty_compare_by_hour_first() {
    // 1:70 is read as earlier than 2:00, although it lies 130 minutes past
    // midnight; the travel window around it is normalised to 2:40.
    let a = section("001", vec![meeting(Day::Mon, (1, 0), (1, 70), Campus::North)]);
    let b = section("002", vec![meeting(Day::Mon, (2, 30), (3, 0), Campus::Centennial)]);
    assert!(!practical(&a, &b));
    assert!(practical(&b, &a));
}

fn siblings_increase(forest: &Vec<Tree>) -> bool {
    forest.windows(2).all(|w| w[0].value < w[1].value)
        && forest.iter().all(|t| siblings_increase(&t.children))
}

#[test]
fn sibling_values_increase_at_every_level() {
    let courses = fixture();
    let forest = possible_schedules(&courses);
    assert!(siblings_increase(&forest));
    let values: Vec<usize> = forest[2].children.iter().map(|t| t.value).collect();
    assert_eq!(values, vec![0, 1, 2]);
}
