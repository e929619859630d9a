use vstd::prelude::*;

use crate::section::{is_practical, lemma_practical_symmetric, practical, Section};

verus! {

/// A node of the solution tree: a section index of the course at the node's
/// depth, and the compatible choices for the next course below it.
#[derive(Debug)]
pub struct Tree {
    pub value: usize,
    pub children: Vec<Tree>,
}

/// Each schedule of `ps` with `j` put in front.
pub open spec fn prepend(j: usize, ps: Seq<Seq<usize>>) -> Seq<Seq<usize>> {
    ps.map_values(|p: Seq<usize>| seq![j] + p)
}

/// Section `j` of the course at depth `h.len()` is compatible with every
/// section already chosen in `h`.
pub open spec fn compatible(cs: Seq<Vec<Section>>, h: Seq<usize>, j: int) -> bool {
    forall|i: int|
        0 <= i < h.len() ==> #[trigger] is_practical(
            cs[h.len() as int]@[j],
            cs[i]@[h[i] as int],
        )
}

/// Number of candidates of the course at depth `d`, or 0 past the last course.
pub open spec fn width(cs: Seq<Vec<Section>>, d: int) -> int {
    if 0 <= d < cs.len() {
        cs[d]@.len() as int
    } else {
        0
    }
}

/// The completions of the partial choice `h` whose next choice is below `k`,
/// in order of the choices.
pub open spec fn extensions(cs: Seq<Vec<Section>>, h: Seq<usize>, k: int) -> Seq<Seq<usize>>
    decreases cs.len() - h.len(), k,
{
    if h.len() >= cs.len() {
        seq![Seq::empty()]
    } else if k <= 0 {
        Seq::empty()
    } else {
        let j = (k - 1) as usize;
        let before = extensions(cs, h, k - 1);
        if compatible(cs, h, k - 1) {
            before + prepend(j, extensions(cs, h.push(j), width(cs, (h.len() + 1) as int)))
        } else {
            before
        }
    }
}

/// All completions of the partial choice `h`, in order of the choices.
pub open spec fn completions(cs: Seq<Vec<Section>>, h: Seq<usize>) -> Seq<Seq<usize>> {
    extensions(cs, h, width(cs, h.len() as int))
}

/// The root-to-leaf paths of a forest whose leaves lie `height` levels down,
/// in depth-first order.
pub open spec fn forest_paths(f: Seq<Tree>, height: nat) -> Seq<Seq<usize>>
    decreases height, f.len(),
{
    if height == 0 {
        seq![Seq::empty()]
    } else if f.len() == 0 {
        Seq::empty()
    } else {
        let t = f.last();
        forest_paths(f.drop_last(), height) + prepend(
            t.value,
            forest_paths(t.children@, (height - 1) as nat),
        )
    }
}

/// Every leaf of the forest lies `height` levels down, and every node above
/// the leaves has a child.
pub open spec fn well_formed(f: Seq<Tree>, height: nat) -> bool
    decreases height,
{
    if height == 0 {
        f.len() == 0
    } else {
        &&& f.len() <= usize::MAX
        &&& forall|i: int|
            0 <= i < f.len() ==> {
                &&& height > 1 ==> (#[trigger] f[i]).children@.len() > 0
                &&& well_formed(f[i].children@, (height - 1) as nat)
            }
    }
}

/// Sibling values increase strictly, at every level of the forest.
pub open spec fn ordered(f: Seq<Tree>, height: nat) -> bool
    decreases height,
{
    if height == 0 {
        true
    } else {
        &&& forall|i: int, j: int| 0 <= i < j < f.len() ==> f[i].value < f[j].value
        &&& forall|i: int| 0 <= i < f.len() ==> ordered((#[trigger] f[i]).children@, (height - 1) as nat)
    }
}

/// Each course in `h` has a chosen section, and it is one of its candidates.
pub open spec fn in_range(cs: Seq<Vec<Section>>, h: Seq<usize>) -> bool {
    &&& h.len() <= cs.len()
    &&& forall|d: int| 0 <= d < h.len() ==> #[trigger] h[d] < cs[d]@.len()
}

/// The chosen sections in `h` are in range and pairwise compatible.
pub open spec fn valid_prefix(cs: Seq<Vec<Section>>, h: Seq<usize>) -> bool {
    &&& in_range(cs, h)
    &&& forall|d: int, i: int|
        0 <= i < d < h.len() ==> #[trigger] is_practical(cs[d]@[h[d] as int], cs[i]@[h[i] as int])
}

/// Section `v` of the course at depth `history.len()` is compatible with
/// every section in `history`.
fn fits_history(courses: &Vec<Vec<Section>>, history: &Vec<usize>, v: &Section) -> (r: bool)
    requires
        history@.len() < courses@.len(),
        forall|d: int| 0 <= d < history@.len() ==> #[trigger] history@[d] < courses@[d]@.len(),
    ensures
        r == forall|i: int|
            0 <= i < history@.len() ==> #[trigger] is_practical(
                *v,
                courses@[i]@[history@[i] as int],
            ),
{
    let mut i: usize = 0;
    while i < history.len()
        invariant
            i <= history@.len(),
            history@.len() < courses@.len(),
            forall|d: int| 0 <= d < history@.len() ==> #[trigger] history@[d] < courses@[d]@.len(),
            forall|k: int|
                0 <= k < i ==> #[trigger] is_practical(*v, courses@[k]@[history@[k] as int]),
        decreases history.len() - i,
    {
        if !practical(v, &courses[i][history[i]]) {
            return false;
        }
        i += 1;
    }
    true
}

} // verus!

verus! {

/// The subtrees of every completion of the partial choice in `history`, or
/// `None` when it has none. `history` is given back unchanged.
fn possible_schedules_recursive(courses: &Vec<Vec<Section>>, history: &mut Vec<usize>) -> (r:
    Option<Vec<Tree>>)
    requires
        in_range(courses@, old(history)@),
    ensures
        final(history)@ == old(history)@,
        match r {
            Some(f) => {
                let height = (courses@.len() - old(history)@.len()) as nat;
                &&& forest_paths(f@, height) == completions(courses@, old(history)@)
                &&& completions(courses@, old(history)@).len() > 0
                &&& well_formed(f@, height)
                &&& ordered(f@, height)
                &&& (height > 0 ==> f@.len() > 0)
            },
            None => completions(courses@, old(history)@).len() == 0,
        },
    decreases courses@.len() - history@.len(),
{
    let ghost cs = courses@;
    let ghost h0 = history@;
    let index = history.len();
    if index == courses.len() {
        // every course has a section: the path ends here
        return Some(Vec::new());
    }
    let ghost height = (cs.len() - h0.len()) as nat;
    let mut res: Vec<Tree> = Vec::new();
    let mut j: usize = 0;
    while j < courses[index].len()
        invariant
            cs == courses@,
            index == h0.len(),
            index < cs.len(),
            height == cs.len() - h0.len(),
            history@ == h0,
            h0 == old(history)@,
            in_range(cs, h0),
            j <= cs[index as int]@.len(),
            forest_paths(res@, height) == extensions(cs, h0, j as int),
            well_formed(res@, height),
            ordered(res@, height),
            forall|k: int| 0 <= k < res@.len() ==> (#[trigger] res@[k]).value < j,
            res@.len() <= j,
            res@.len() > 0 ==> forest_paths(res@, height).len() > 0,
        decreases courses@[index as int]@.len() - j,
    {
        let v = &courses[index][j];
        if fits_history(courses, history, v) {
            assert(compatible(cs, h0, j as int));
            history.push(j);
            assert(in_range(cs, history@));
            let sub = possible_schedules_recursive(courses, history);
            history.pop();
            assert(history@ =~= h0);
            match sub {
                Some(children) => {
                    let ghost before = res@;
                    let t = Tree { value: j, children };
                    res.push(t);
                    assert(res@.drop_last() =~= before);
                    assert(ordered(res@, height)) by {
                        assert forall|i: int| 0 <= i < res@.len() implies ordered(
                            (#[trigger] res@[i]).children@,
                            (height - 1) as nat,
                        ) by {
                            if i < before.len() {
                                assert(res@[i] == before[i]);
                            }
                        }
                        assert forall|a: int, b: int| 0 <= a < b < res@.len() implies res@[a].value
                            < res@[b].value by {
                            if b < before.len() {
                                assert(res@[a] == before[a] && res@[b] == before[b]);
                            } else {
                                assert(res@[a] == before[a]);
                            }
                        }
                    }
                    assert(well_formed(res@, height)) by {
                        assert forall|i: int| 0 <= i < res@.len() implies {
                            &&& height > 1 ==> (#[trigger] res@[i]).children@.len() > 0
                            &&& well_formed(res@[i].children@, (height - 1) as nat)
                        } by {
                            if i < before.len() {
                                assert(res@[i] == before[i]);
                            }
                        }
                    }
                },
                None => {},
            }
        } else {
            assert(!compatible(cs, h0, j as int));
        }
        j += 1;
    }
    if res.len() == 0 {
        None
    } else {
        Some(res)
    }
}

/// The solution tree: one tree per compatible section of the first course,
/// whose root-to-leaf paths are exactly the valid schedules.
pub fn possible_schedules(courses: &Vec<Vec<Section>>) -> (r: Vec<Tree>)
    ensures
        forest_paths(r@, courses@.len()) == completions(courses@, Seq::empty()),
        well_formed(r@, courses@.len()),
        ordered(r@, courses@.len()),
{
    let mut history: Vec<usize> = Vec::new();
    match possible_schedules_recursive(courses, &mut history) {
        Some(f) => f,
        None => Vec::new(),
    }
}

} // verus!

verus! {

/// Every candidate list has a length that a `usize` can count, as that of
/// a `Vec` does.
pub open spec fn lengths_fit(cs: Seq<Vec<Section>>) -> bool {
    forall|d: int| 0 <= d < cs.len() ==> #[trigger] cs[d]@.len() <= usize::MAX
}

/// `s` chooses one section per course, and each chosen section is compatible
/// with every section chosen for an earlier course.
pub open spec fn valid_schedule(cs: Seq<Vec<Section>>, s: Seq<usize>) -> bool {
    s.len() == cs.len() && valid_prefix(cs, s)
}

proof fn lemma_concat_contains(a: Seq<Seq<usize>>, b: Seq<Seq<usize>>, x: Seq<usize>)
    ensures
        (a + b).contains(x) <==> a.contains(x) || b.contains(x),
{
    if (a + b).contains(x) {
        let i = choose|i: int| 0 <= i < (a + b).len() && (a + b)[i] == x;
        if i >= a.len() {
            assert(b[i - a.len()] == x);
        }
    }
    if a.contains(x) {
        let i = choose|i: int| 0 <= i < a.len() && a[i] == x;
        assert((a + b)[i] == x);
    }
    if b.contains(x) {
        let i = choose|i: int| 0 <= i < b.len() && b[i] == x;
        assert((a + b)[i + a.len()] == x);
    }
}

proof fn lemma_prepend_contains(j: usize, ps: Seq<Seq<usize>>, s: Seq<usize>)
    ensures
        prepend(j, ps).contains(s) <==> (s.len() > 0 && s[0] == j && ps.contains(s.drop_first())),
{
    if prepend(j, ps).contains(s) {
        let i = choose|i: int| 0 <= i < prepend(j, ps).len() && prepend(j, ps)[i] == s;
        assert(s.drop_first() =~= ps[i]);
    }
    if s.len() > 0 && s[0] == j && ps.contains(s.drop_first()) {
        let i = choose|i: int| 0 <= i < ps.len() && ps[i] == s.drop_first();
        assert(prepend(j, ps)[i] =~= s);
    }
}

proof fn lemma_extensions_contain(cs: Seq<Vec<Section>>, h: Seq<usize>, k: int, s: Seq<usize>)
    requires
        valid_prefix(cs, h),
        h.len() < cs.len(),
        lengths_fit(cs),
        0 <= k <= cs[h.len() as int]@.len(),
    ensures
        extensions(cs, h, k).contains(s) <==> (s.len() > 0 && s[0] < k && valid_schedule(
            cs,
            h + s,
        )),
    decreases cs.len() - h.len(), k,
{
    if k > 0 {
        lemma_extensions_contain(cs, h, k - 1, s);
        let j = (k - 1) as usize;
        let before = extensions(cs, h, k - 1);
        if s.len() > 0 && s[0] == j {
            let hj = h.push(j);
            assert(hj + s.drop_first() =~= h + s);
            assert(valid_schedule(cs, h + s) ==> compatible(cs, h, k - 1)) by {
                if valid_schedule(cs, h + s) {
                    assert forall|i: int| 0 <= i < h.len() implies #[trigger] is_practical(
                        cs[h.len() as int]@[k - 1],
                        cs[i]@[h[i] as int],
                    ) by {
                        assert((h + s)[h.len() as int] == j);
                        assert((h + s)[i] == h[i]);
                        assert(is_practical(
                            cs[h.len() as int]@[(h + s)[h.len() as int] as int],
                            cs[i]@[(h + s)[i] as int],
                        ));
                    }
                }
            }
            if compatible(cs, h, k - 1) {
                assert(valid_prefix(cs, hj)) by {
                    assert forall|d: int, i: int| 0 <= i < d < hj.len() implies #[trigger] is_practical(
                        cs[d]@[hj[d] as int],
                        cs[i]@[hj[i] as int],
                    ) by {
                        if d < h.len() {
                            assert(hj[d] == h[d] && hj[i] == h[i]);
                        } else {
                            assert(hj[i] == h[i]);
                        }
                    }
                    assert forall|d: int| 0 <= d < hj.len() implies #[trigger] hj[d] < cs[d]@.len() by {
                        if d < h.len() {
                            assert(hj[d] == h[d]);
                        }
                    }
                }
                lemma_completions_contain(cs, hj, s.drop_first());
                lemma_prepend_contains(j, completions(cs, hj), s);
                lemma_concat_contains(before, prepend(j, completions(cs, hj)), s);
            }
        } else if compatible(cs, h, k - 1) {
            let hj = h.push(j);
            lemma_prepend_contains(j, completions(cs, hj), s);
            lemma_concat_contains(before, prepend(j, completions(cs, hj)), s);
        }
    }
}

proof fn lemma_completions_contain(cs: Seq<Vec<Section>>, h: Seq<usize>, s: Seq<usize>)
    requires
        valid_prefix(cs, h),
        lengths_fit(cs),
    ensures
        completions(cs, h).contains(s) <==> valid_schedule(cs, h + s),
    decreases cs.len() - h.len(), width(cs, h.len() as int) + 1,
{
    if h.len() >= cs.len() {
        if completions(cs, h).contains(s) {
            assert(completions(cs, h)[0] == Seq::<usize>::empty());
            assert(h + s =~= h);
        }
        if valid_schedule(cs, h + s) {
            assert(s =~= Seq::<usize>::empty());
            assert(completions(cs, h)[0] == s);
        }
    } else {
        lemma_extensions_contain(cs, h, width(cs, h.len() as int), s);
        if valid_schedule(cs, h + s) {
            assert((h + s)[h.len() as int] == s[0]);
        }
    }
}

/// Enumerator completeness: a choice of sections is a path of the solution
/// forest exactly when it is a valid schedule, that is, when it picks one
/// candidate per course and every pair of picks is compatible.
pub proof fn lemma_paths_are_valid_schedules(cs: Seq<Vec<Section>>, f: Seq<Tree>, s: Seq<usize>)
    requires
        lengths_fit(cs),
        forest_paths(f, cs.len()) == completions(cs, Seq::empty()),
    ensures
        forest_paths(f, cs.len()).contains(s) <==> valid_schedule(cs, s),
{
    assert(Seq::<usize>::empty() + s =~= s);
    lemma_completions_contain(cs, Seq::empty(), s);
}

/// `s` picks one candidate per course, and every ordered pair of picks is
/// compatible.
pub open spec fn all_pairs_practical(cs: Seq<Vec<Section>>, s: Seq<usize>) -> bool {
    &&& in_range(cs, s)
    &&& s.len() == cs.len()
    &&& forall|i: int, j: int|
        0 <= i < s.len() && 0 <= j < s.len() && i != j ==> #[trigger] is_practical(
            cs[i]@[s[i] as int],
            cs[j]@[s[j] as int],
        )
}

/// Every candidate section has normalised meeting times.
pub open spec fn all_normalized(cs: Seq<Vec<Section>>) -> bool {
    forall|d: int, j: int|
        0 <= d < cs.len() && 0 <= j < cs[d]@.len() ==> (#[trigger] cs[d]@[j]).normalized_times()
}

/// The paths of a forest are those of its trees, taken one tree at a time.
proof fn lemma_paths_by_tree(f: Seq<Tree>, height: nat, s: Seq<usize>)
    requires
        height > 0,
    ensures
        forest_paths(f, height).contains(s) <==> exists|i: int|
            0 <= i < f.len() && (#[trigger] forest_paths(seq![f[i]], height)).contains(s),
    decreases f.len(),
{
    if f.len() > 0 {
        let d = f.drop_last();
        let t = f.last();
        lemma_paths_by_tree(d, height, s);
        let one = seq![t];
        assert(one.drop_last() =~= Seq::<Tree>::empty());
        assert(one.last() == t);
        assert(forest_paths(one.drop_last(), height) == Seq::<Seq<usize>>::empty());
        let p = prepend(t.value, forest_paths(t.children@, (height - 1) as nat));
        assert(forest_paths(one, height) =~= p);
        lemma_concat_contains(forest_paths(d, height), p, s);
        assert(f[f.len() - 1] == t);
        if exists|i: int| 0 <= i < f.len() && (#[trigger] forest_paths(seq![f[i]], height)).contains(s) {
            let i = choose|i: int|
                0 <= i < f.len() && (#[trigger] forest_paths(seq![f[i]], height)).contains(s);
            if i < d.len() {
                assert(d[i] == f[i]);
            }
        }
        if exists|i: int| 0 <= i < d.len() && (#[trigger] forest_paths(seq![d[i]], height)).contains(s) {
            let i = choose|i: int|
                0 <= i < d.len() && (#[trigger] forest_paths(seq![d[i]], height)).contains(s);
            assert(d[i] == f[i]);
        }
    }
}

/// Enumerator completeness: a choice of sections comes out of the path
/// enumeration of some tree of the solution forest exactly when it picks
/// one candidate per course and every pair of picks, in either order, is
/// compatible. This holds when all meeting times are normalised.
pub proof fn lemma_enumerator_complete(cs: Seq<Vec<Section>>, f: Seq<Tree>, s: Seq<usize>)
    requires
        cs.len() > 0,
        lengths_fit(cs),
        all_normalized(cs),
        forest_paths(f, cs.len()) == completions(cs, Seq::empty()),
    ensures
        (exists|i: int| 0 <= i < f.len() && (#[trigger] forest_paths(seq![f[i]], cs.len())).contains(s))
            <==> all_pairs_practical(cs, s),
{
    lemma_paths_by_tree(f, cs.len(), s);
    lemma_paths_are_valid_schedules(cs, f, s);
    if valid_schedule(cs, s) {
        assert forall|i: int, j: int|
            0 <= i < s.len() && 0 <= j < s.len() && i != j implies #[trigger] is_practical(
            cs[i]@[s[i] as int],
            cs[j]@[s[j] as int],
        ) by {
            if i < j {
                assert(is_practical(cs[j]@[s[j] as int], cs[i]@[s[i] as int]));
                lemma_practical_symmetric(cs[j]@[s[j] as int], cs[i]@[s[i] as int]);
            } else {
                assert(is_practical(cs[i]@[s[i] as int], cs[j]@[s[j] as int]));
            }
        }
    }
    if all_pairs_practical(cs, s) {
        assert forall|d: int, i: int| 0 <= i < d < s.len() implies #[trigger] is_practical(
            cs[d]@[s[d] as int],
            cs[i]@[s[i] as int],
        ) by {
            assert(is_practical(cs[d]@[s[d] as int], cs[i]@[s[i] as int]));
        }
    }
}

/// With a single course every candidate is a schedule of its own, in
/// candidate order.
pub proof fn lemma_single_course(cs: Seq<Vec<Section>>, f: Seq<Tree>)
    requires
        cs.len() == 1,
        lengths_fit(cs),
        forest_paths(f, cs.len()) == completions(cs, Seq::empty()),
    ensures
        forest_paths(f, 1) =~= Seq::new(cs[0]@.len(), |j: int| seq![j as usize]),
{
    lemma_single_course_prefix(cs, cs[0]@.len() as int);
}

proof fn lemma_single_course_prefix(cs: Seq<Vec<Section>>, k: int)
    requires
        cs.len() == 1,
        0 <= k <= usize::MAX + 1,
    ensures
        extensions(cs, Seq::empty(), k) =~= Seq::new(k as nat, |j: int| seq![j as usize]),
    decreases k,
{
    if k > 0 {
        lemma_single_course_prefix(cs, k - 1);
        let j = (k - 1) as usize;
        let e: Seq<usize> = Seq::empty();
        assert(compatible(cs, e, k - 1));
        let inner = extensions(cs, e.push(j), width(cs, 1));
        assert(inner =~= seq![Seq::<usize>::empty()]);
        assert(prepend(j, inner)[0] =~= seq![j]);
    }
}

/// The two forests hold the same values, with the same child lists, node
/// for node.
pub open spec fn same_forest(a: Seq<Tree>, b: Seq<Tree>, height: nat) -> bool
    decreases height,
{
    &&& a.len() == b.len()
    &&& height > 0 ==> forall|i: int|
        0 <= i < a.len() ==> (#[trigger] a[i]).value == b[i].value && same_forest(
            a[i].children@,
            b[i].children@,
            (height - 1) as nat,
        )
}

/// A well-formed forest with a tree in it has a path.
proof fn lemma_paths_nonempty(f: Seq<Tree>, height: nat)
    requires
        well_formed(f, height),
        f.len() > 0 || height == 0,
    ensures
        forest_paths(f, height).len() > 0,
    decreases height,
{
    if height > 0 {
        let t = f.last();
        assert(f[f.len() - 1] == t);
        lemma_paths_nonempty(t.children@, (height - 1) as nat);
    }
}

/// Every path of a forest whose values lie below `bound` starts below it.
proof fn lemma_paths_start_below(f: Seq<Tree>, height: nat, bound: usize)
    requires
        height > 0,
        forall|i: int| 0 <= i < f.len() ==> (#[trigger] f[i]).value < bound,
    ensures
        forall|k: int|
            0 <= k < forest_paths(f, height).len() ==> (#[trigger] forest_paths(f, height)[k]).len()
                > 0 && forest_paths(f, height)[k][0] < bound,
    decreases f.len(),
{
    if f.len() > 0 {
        let d = f.drop_last();
        assert forall|i: int| 0 <= i < d.len() implies (#[trigger] d[i]).value < bound by {
            assert(d[i] == f[i]);
        }
        lemma_paths_start_below(d, height, bound);
        assert(f[f.len() - 1] == f.last());
        let t = f.last();
        let p = prepend(t.value, forest_paths(t.children@, (height - 1) as nat));
        let all = forest_paths(f, height);
        assert forall|k: int| 0 <= k < all.len() implies (#[trigger] all[k]).len() > 0
            && all[k][0] < bound by {
            if k >= forest_paths(d, height).len() {
                let m = k - forest_paths(d, height).len();
                assert(all[k] == p[m]);
                assert(p[m][0] == t.value);
            } else {
                assert(all[k] == forest_paths(d, height)[k]);
            }
        }
    }
}

proof fn lemma_drop_last_shape(f: Seq<Tree>, height: nat)
    requires
        height > 0,
        f.len() > 0,
        well_formed(f, height),
        ordered(f, height),
    ensures
        well_formed(f.drop_last(), height),
        ordered(f.drop_last(), height),
        forall|i: int| 0 <= i < f.len() - 1 ==> (#[trigger] f.drop_last()[i]).value < f.last().value,
        well_formed(f.last().children@, (height - 1) as nat),
        ordered(f.last().children@, (height - 1) as nat),
        height > 1 ==> f.last().children@.len() > 0,
{
    let d = f.drop_last();
    assert(f[f.len() - 1] == f.last());
    assert forall|i: int| 0 <= i < d.len() implies #[trigger] d[i] == f[i] by {}
    assert(well_formed(d, height)) by {
        assert forall|i: int| 0 <= i < d.len() implies {
            &&& height > 1 ==> (#[trigger] d[i]).children@.len() > 0
            &&& well_formed(d[i].children@, (height - 1) as nat)
        } by {
            assert(d[i] == f[i]);
        }
    }
    assert(ordered(d, height)) by {
        assert forall|i: int| 0 <= i < d.len() implies ordered(
            (#[trigger] d[i]).children@,
            (height - 1) as nat,
        ) by {
            assert(d[i] == f[i]);
        }
        assert forall|i: int, j: int| 0 <= i < j < d.len() implies d[i].value < d[j].value by {
            assert(d[i] == f[i] && d[j] == f[j]);
        }
    }
}

/// A well-formed forest whose sibling values increase is fixed by its
/// paths.
proof fn lemma_paths_fix_forest(a: Seq<Tree>, b: Seq<Tree>, height: nat)
    requires
        well_formed(a, height),
        well_formed(b, height),
        ordered(a, height),
        ordered(b, height),
        forest_paths(a, height) == forest_paths(b, height),
    ensures
        same_forest(a, b, height),
    decreases height, a.len() + b.len(),
{
    if height > 0 {
        if a.len() == 0 || b.len() == 0 {
            if a.len() > 0 {
                lemma_paths_nonempty(a, height);
            }
            if b.len() > 0 {
                lemma_paths_nonempty(b, height);
            }
        } else {
            let (ta, tb) = (a.last(), b.last());
            let (da, db) = (a.drop_last(), b.drop_last());
            lemma_drop_last_shape(a, height);
            lemma_drop_last_shape(b, height);
            let h1 = (height - 1) as nat;
            let (pa, pb) = (forest_paths(ta.children@, h1), forest_paths(tb.children@, h1));
            lemma_paths_nonempty(ta.children@, h1);
            lemma_paths_nonempty(tb.children@, h1);
            let (xa, xb) = (forest_paths(da, height), forest_paths(db, height));
            let (ya, yb) = (prepend(ta.value, pa), prepend(tb.value, pb));
            let all = forest_paths(a, height);
            assert(all == xa + ya && all == xb + yb);
            assert(all.last() == ya.last() && ya.last()[0] == ta.value);
            assert(all.last() == yb.last() && yb.last()[0] == tb.value);
            let v = ta.value;
            lemma_paths_start_below(da, height, v);
            lemma_paths_start_below(db, height, v);
            // the paths that start with `v` are exactly the last tree's
            if ya.len() < yb.len() {
                let k = all.len() - yb.len();
                assert(all[k] == yb[0] && yb[0][0] == v);
                assert(all[k] == xa[k]);
            }
            if yb.len() < ya.len() {
                let k = all.len() - ya.len();
                assert(all[k] == ya[0] && ya[0][0] == v);
                assert(all[k] == xb[k]);
            }
            assert(xa =~= all.subrange(0, xa.len() as int));
            assert(xb =~= all.subrange(0, xb.len() as int));
            assert(xa == xb);
            assert(pa =~= pb) by {
                assert forall|k: int| 0 <= k < pa.len() implies pa[k] == pb[k] by {
                    assert(all[xa.len() + k] == ya[k] && all[xa.len() + k] == yb[k]);
                    assert(ya[k].drop_first() =~= pa[k]);
                    assert(yb[k].drop_first() =~= pb[k]);
                }
            }
            lemma_paths_fix_forest(da, db, height);
            lemma_paths_fix_forest(ta.children@, tb.children@, h1);
            assert forall|i: int| 0 <= i < a.len() implies (#[trigger] a[i]).value == b[i].value
                && same_forest(a[i].children@, b[i].children@, h1) by {
                if i < a.len() - 1 {
                    assert(a[i] == da[i] && b[i] == db[i]);
                } else {
                    assert(a[i] == ta && b[i] == tb);
                }
            }
        }
    }
}

/// The search is a function of its input: two solution forests for the
/// same courses are identical, node for node.
pub proof fn lemma_search_deterministic(courses: Seq<Vec<Section>>, a: Seq<Tree>, b: Seq<Tree>)
    requires
        forest_paths(a, courses.len()) == completions(courses, Seq::empty()),
        well_formed(a, courses.len()),
        ordered(a, courses.len()),
        forest_paths(b, courses.len()) == completions(courses, Seq::empty()),
        well_formed(b, courses.len()),
        ordered(b, courses.len()),
    ensures
        same_forest(a, b, courses.len()),
{
    lemma_paths_fix_forest(a, b, courses.len());
}

} // verus!
