use vstd::prelude::*;

use crate::search::{forest_paths, prepend, well_formed, Tree};

verus! {

/// A cursor of all zeros, of length `n`.
pub open spec fn zeros(n: nat) -> Seq<usize> {
    Seq::new(n, |i: int| 0usize)
}

/// The cursor `c` picks a node at each level: `c[0]` among the trees of
/// `f`, `c[1]` among the children of that tree, and so on.
pub open spec fn valid_cursor(f: Seq<Tree>, c: Seq<usize>) -> bool
    decreases c.len(),
{
    if c.len() == 0 {
        true
    } else {
        c[0] < f.len() && valid_cursor(f[c[0] as int].children@, c.drop_first())
    }
}

/// The values on the path that the cursor `c` picks.
pub open spec fn path_at(f: Seq<Tree>, c: Seq<usize>) -> Seq<usize>
    decreases c.len(),
{
    if c.len() == 0 {
        Seq::empty()
    } else {
        seq![f[c[0] as int].value] + path_at(f[c[0] as int].children@, c.drop_first())
    }
}

/// The paths of `f`, in depth-first order, from the one that `c` picks on.
pub open spec fn paths_from(f: Seq<Tree>, c: Seq<usize>) -> Seq<Seq<usize>>
    decreases c.len(),
{
    if c.len() == 0 {
        seq![Seq::empty()]
    } else if c[0] >= f.len() {
        Seq::empty()
    } else {
        let t = f[c[0] as int];
        prepend(t.value, paths_from(t.children@, c.drop_first())) + forest_paths(
            f.subrange(c[0] + 1, f.len() as int),
            c.len(),
        )
    }
}

/// The cursor after `c`: the last position moves on, and a position that
/// runs past its siblings goes back to zero and carries into the one above.
/// A first position equal to `f.len()` means that the paths are exhausted.
pub open spec fn next_cursor(f: Seq<Tree>, c: Seq<usize>) -> Seq<usize>
    decreases c.len(),
{
    if c.len() <= 1 {
        seq![(c[0] + 1) as usize]
    } else {
        let ch = f[c[0] as int].children@;
        let t = next_cursor(ch, c.drop_first());
        if t[0] < ch.len() {
            seq![c[0]] + t
        } else {
            seq![(c[0] + 1) as usize] + zeros((c.len() - 1) as nat)
        }
    }
}

proof fn lemma_paths_concat(a: Seq<Tree>, b: Seq<Tree>, height: nat)
    ensures
        forest_paths(a + b, height) == forest_paths(a, height) + forest_paths(b, height)
            || height == 0,
    decreases b.len(),
{
    if height > 0 {
        if b.len() == 0 {
            assert(a + b =~= a);
            assert(forest_paths(a, height) + forest_paths(b, height) =~= forest_paths(a, height));
        } else {
            lemma_paths_concat(a, b.drop_last(), height);
            assert((a + b).drop_last() =~= a + b.drop_last());
            assert((a + b).last() == b.last());
            let t = b.last();
            let tail = prepend(t.value, forest_paths(t.children@, (height - 1) as nat));
            assert(forest_paths(a, height) + forest_paths(b.drop_last(), height) + tail
                =~= forest_paths(a, height) + (forest_paths(b.drop_last(), height) + tail));
        }
    }
}

/// The paths of the trees from `j` on: those below tree `j`, then the rest.
proof fn lemma_paths_split(f: Seq<Tree>, j: int, height: nat)
    requires
        0 <= j < f.len(),
        height > 0,
    ensures
        forest_paths(f.subrange(j, f.len() as int), height) == prepend(
            f[j].value,
            forest_paths(f[j].children@, (height - 1) as nat),
        ) + forest_paths(f.subrange(j + 1, f.len() as int), height),
{
    let one = seq![f[j]];
    assert(f.subrange(j, f.len() as int) =~= one + f.subrange(j + 1, f.len() as int));
    lemma_paths_concat(one, f.subrange(j + 1, f.len() as int), height);
    assert(one.drop_last() =~= Seq::<Tree>::empty());
    let p = prepend(f[j].value, forest_paths(f[j].children@, (height - 1) as nat));
    assert(one.last() == f[j]);
    assert(forest_paths(one.drop_last(), height) == Seq::<Seq<usize>>::empty());
    assert(forest_paths(one, height) =~= Seq::<Seq<usize>>::empty() + p);
}

/// From the all-zero cursor the paths are all the paths of the forest.
proof fn lemma_paths_from_start(f: Seq<Tree>, height: nat)
    requires
        well_formed(f, height),
        f.len() > 0 || height == 0,
    ensures
        valid_cursor(f, zeros(height)),
        paths_from(f, zeros(height)) == forest_paths(f, height),
    decreases height,
{
    if height > 0 {
        let c = zeros(height);
        assert(c.drop_first() =~= zeros((height - 1) as nat));
        lemma_paths_from_start(f[0].children@, (height - 1) as nat);
        lemma_paths_split(f, 0, height);
        assert(f.subrange(0, f.len() as int) =~= f);
    }
}

/// The first path from a valid cursor is the one that it picks.
proof fn lemma_paths_from_first(f: Seq<Tree>, c: Seq<usize>)
    requires
        valid_cursor(f, c),
    ensures
        paths_from(f, c).len() > 0,
        paths_from(f, c)[0] == path_at(f, c),
    decreases c.len(),
{
    if c.len() > 0 {
        let t = f[c[0] as int];
        lemma_paths_from_first(t.children@, c.drop_first());
    }
}

/// Once the first position runs past its siblings, the rest is zeros.
proof fn lemma_next_cursor_carry(f: Seq<Tree>, c: Seq<usize>)
    requires
        c.len() > 0,
        valid_cursor(f, c),
        next_cursor(f, c)[0] >= f.len(),
    ensures
        next_cursor(f, c).drop_first() == zeros((c.len() - 1) as nat),
{
    if c.len() <= 1 {
        assert(next_cursor(f, c).drop_first() =~= zeros((c.len() - 1) as nat));
    } else {
        let ch = f[c[0] as int].children@;
        let t = next_cursor(ch, c.drop_first());
        if t[0] < ch.len() {
        } else {
            assert(next_cursor(f, c).drop_first() =~= zeros((c.len() - 1) as nat));
        }
    }
}

/// Moving the cursor on drops exactly the first of the remaining paths.
proof fn lemma_next_cursor(f: Seq<Tree>, c: Seq<usize>)
    requires
        c.len() > 0,
        well_formed(f, c.len()),
        valid_cursor(f, c),
    ensures
        next_cursor(f, c).len() == c.len(),
        paths_from(f, next_cursor(f, c)) == paths_from(f, c).drop_first(),
        next_cursor(f, c)[0] < f.len() ==> valid_cursor(f, next_cursor(f, c)),
    decreases c.len(),
{
    let c0 = c[0] as int;
    let t = f[c0];
    let ch = t.children@;
    let h = c.len();
    let rest = forest_paths(f.subrange(c0 + 1, f.len() as int), h);
    if h == 1 {
        let n = next_cursor(f, c);
        assert(paths_from(ch, c.drop_first()) == seq![Seq::<usize>::empty()]);
        assert(prepend(t.value, seq![Seq::<usize>::empty()]) =~= seq![seq![t.value]]);
        assert(paths_from(f, c) =~= seq![seq![t.value]] + rest);
        assert(paths_from(f, c).drop_first() =~= rest);
        if c0 + 1 < f.len() {
            let u = f[c0 + 1];
            lemma_paths_split(f, c0 + 1, h);
            assert(n.drop_first() =~= Seq::<usize>::empty());
            assert(paths_from(u.children@, n.drop_first()) == seq![Seq::<usize>::empty()]);
            assert(forest_paths(u.children@, 0) == seq![Seq::<usize>::empty()]);
            assert(n[0] == c0 + 1);
            assert(valid_cursor(u.children@, n.drop_first()));
            assert(valid_cursor(f, n));
        } else {
            assert(f.subrange(c0 + 1, f.len() as int) =~= Seq::<Tree>::empty());
        }
    } else {
        let cd = c.drop_first();
        let tn = next_cursor(ch, cd);
        lemma_next_cursor(ch, cd);
        lemma_paths_from_first(ch, cd);
        let inner = paths_from(ch, cd);
        if tn[0] < ch.len() {
            let n = next_cursor(f, c);
            assert(n.drop_first() =~= tn);
            assert(prepend(t.value, inner).drop_first() =~= prepend(t.value, inner.drop_first()));
            assert((prepend(t.value, inner) + rest).drop_first() =~= prepend(
                t.value,
                inner.drop_first(),
            ) + rest);
        } else {
            let n = next_cursor(f, c);
            assert(paths_from(ch, tn) =~= Seq::<Seq<usize>>::empty());
            assert(inner.len() == 1);
            assert((prepend(t.value, inner) + rest).drop_first() =~= rest);
            if c0 + 1 < f.len() {
                let u = f[c0 + 1];
                assert(n.drop_first() =~= zeros((h - 1) as nat));
                lemma_paths_from_start(u.children@, (h - 1) as nat);
                lemma_paths_split(f, c0 + 1, h);
                assert(f.subrange(c0 + 2, f.len() as int) == f.subrange(
                    (n[0] + 1) as int,
                    f.len() as int,
                ));
            } else {
                assert(f.subrange(c0 + 1, f.len() as int) =~= Seq::<Tree>::empty());
            }
        }
    }
}

} // verus!

verus! {

/// Appends to `out` the values on the path that `cur[i..]` picks in `level`.
fn push_path(level: &Vec<Tree>, cur: &Vec<usize>, i: usize, out: &mut Vec<usize>)
    requires
        i <= cur@.len(),
        valid_cursor(level@, cur@.subrange(i as int, cur@.len() as int)),
    ensures
        final(out)@ == old(out)@ + path_at(level@, cur@.subrange(i as int, cur@.len() as int)),
    decreases cur@.len() - i,
{
    let ghost c = cur@.subrange(i as int, cur@.len() as int);
    if i < cur.len() {
        assert(c.drop_first() =~= cur@.subrange(i + 1, cur@.len() as int));
        let node = &level[cur[i]];
        let ghost before = out@;
        out.push(node.value);
        push_path(&node.children, cur, i + 1, out);
        assert(out@ =~= before + path_at(level@, c));
    } else {
        assert(out@ =~= old(out)@ + path_at(level@, c));
    }
}

/// Moves `cur[i..]` on to the next cursor in `level`.
fn advance(level: &Vec<Tree>, cur: &mut Vec<usize>, i: usize)
    requires
        i < old(cur)@.len(),
        well_formed(level@, (old(cur)@.len() - i) as nat),
        valid_cursor(level@, old(cur)@.subrange(i as int, old(cur)@.len() as int)),
    ensures
        final(cur)@.len() == old(cur)@.len(),
        final(cur)@.subrange(0, i as int) == old(cur)@.subrange(0, i as int),
        final(cur)@.subrange(i as int, final(cur)@.len() as int) == next_cursor(
            level@,
            old(cur)@.subrange(i as int, old(cur)@.len() as int),
        ),
    decreases old(cur)@.len() - i,
{
    let ghost c = cur@.subrange(i as int, cur@.len() as int);
    let ghost start = cur@;
    let n = cur.len();
    let c0 = cur[i];
    let width = level.len();
    if i + 1 == n {
        cur[i] = c0 + 1;
        assert(cur@.subrange(0, i as int) =~= start.subrange(0, i as int));
        assert(cur@.subrange(i as int, n as int) =~= next_cursor(level@, c));
    } else {
        let children = &level[c0].children;
        assert(c.drop_first() =~= cur@.subrange(i + 1, n as int));
        advance(children, cur, i + 1);
        let ghost inner = cur@;
        assert(inner.subrange(0, i as int) =~= start.subrange(0, i as int)) by {
            assert(inner.subrange(0, i as int) =~= inner.subrange(0, i + 1).subrange(0, i as int));
            assert(start.subrange(0, i as int) =~= start.subrange(0, i + 1).subrange(0, i as int));
        }
        assert(inner[i as int] == c0) by {
            assert(inner.subrange(0, i + 1)[i as int] == inner[i as int]);
            assert(start.subrange(0, i + 1)[i as int] == start[i as int]);
        }
        if cur[i + 1] >= children.len() {
            proof {
                lemma_next_cursor_carry(children@, c.drop_first());
            }
            cur[i + 1] = 0;
            cur[i] = c0 + 1;
            assert(cur@.subrange(0, i as int) =~= start.subrange(0, i as int));
            assert(cur@.subrange(i as int, n as int) =~= next_cursor(level@, c)) by {
                let t = next_cursor(children@, c.drop_first());
                assert(inner.subrange(i + 1, n as int) == t);
                assert(inner.subrange(i + 1, n as int)[0] == inner[i + 1]);
                assert(t.drop_first() =~= inner.subrange(i + 2, n as int));
                assert(t.drop_first() == zeros((n - i - 2) as nat));
                assert(c[0] == c0);
                assert(c.len() > 1);
                assert(next_cursor(level@, c) == seq![(c0 + 1) as usize] + zeros(
                    (n - i - 1) as nat,
                ));
                assert forall|k: int| i + 2 <= k < n implies cur@[k] == 0usize by {
                    assert(inner[k] == inner.subrange(i + 2, n as int)[k - i - 2]);
                }
            }
        } else {
            assert(cur@.subrange(i as int, n as int) =~= next_cursor(level@, c)) by {
                let t = next_cursor(children@, c.drop_first());
                assert(inner.subrange(i + 1, n as int) == t);
                assert(inner.subrange(i + 1, n as int)[0] == inner[i + 1]);
                assert(t[0] < children@.len());
                assert(c[0] == c0);
                assert(c.len() > 1);
                assert(next_cursor(level@, c) == seq![c0] + t);
                assert(cur@.subrange(i as int, n as int) =~= seq![c0] + cur@.subrange(
                    i + 1,
                    n as int,
                ));
            }
        }
    }
}

/// A lazy enumeration of the root-to-leaf paths of a forest, in depth-first
/// order. Each path lists one section index per course.
pub struct AllPaths<'a> {
    root: Option<usize>,
    forest: &'a Vec<Tree>,
    current: Vec<usize>,
    done: bool,
}

impl<'a> AllPaths<'a> {
    /// The cursor picks a path of the forest, unless the enumeration is over.
    pub closed spec fn wf(&self) -> bool {
        &&& well_formed(self.forest@, self.current@.len())
        &&& !self.done ==> valid_cursor(self.forest@, self.current@)
    }

    /// The paths still to come, in order.
    pub closed spec fn remaining(&self) -> Seq<Seq<usize>> {
        if self.done {
            Seq::empty()
        } else {
            match self.root {
                Some(v) => prepend(v, paths_from(self.forest@, self.current@)),
                None => paths_from(self.forest@, self.current@),
            }
        }
    }

    fn start(root: Option<usize>, forest: &'a Vec<Tree>, height: usize) -> (r: AllPaths<'a>)
        requires
            well_formed(forest@, height as nat),
        ensures
            r.wf(),
            r.remaining() == match root {
                Some(v) => prepend(v, forest_paths(forest@, height as nat)),
                None => forest_paths(forest@, height as nat),
            },
    {
        let current: Vec<usize> = vec![0usize; height];
        assert(current@ =~= zeros(height as nat));
        if height > 0 && forest.len() == 0 {
            AllPaths { root, forest, current, done: true }
        } else {
            proof {
                lemma_paths_from_start(forest@, height as nat);
            }
            AllPaths { root, forest, current, done: false }
        }
    }

    /// All paths of a forest whose leaves lie `height` levels down.
    pub fn new(forest: &'a Vec<Tree>, height: usize) -> (r: AllPaths<'a>)
        requires
            well_formed(forest@, height as nat),
        ensures
            r.wf(),
            r.remaining() == forest_paths(forest@, height as nat),
    {
        AllPaths::start(None, forest, height)
    }

    /// The next path, or `None` once every path has been given.
    pub fn next(&mut self) -> (r: Option<Vec<usize>>)
        requires
            old(self).wf(),
        ensures
            final(self).wf(),
            match r {
                Some(p) => {
                    &&& old(self).remaining().len() > 0
                    &&& p@ == old(self).remaining()[0]
                    &&& final(self).remaining() == old(self).remaining().drop_first()
                },
                None => {
                    &&& old(self).remaining().len() == 0
                    &&& final(self).remaining() == old(self).remaining()
                },
            },
    {
        if self.done {
            return None;
        }
        let ghost f = self.forest@;
        let ghost c = self.current@;
        let ghost before = self.remaining();
        let mut res: Vec<usize> = Vec::new();
        match self.root {
            Some(v) => res.push(v),
            None => {},
        }
        assert(self.current@.subrange(0, self.current@.len() as int) =~= c);
        push_path(self.forest, &self.current, 0, &mut res);
        proof {
            lemma_paths_from_first(f, c);
        }
        let n = self.current.len();
        if n == 0 {
            self.done = true;
        } else {
            proof {
                lemma_next_cursor(f, c);
            }
            advance(self.forest, &mut self.current, 0);
            assert(self.current@ =~= next_cursor(f, c)) by {
                assert(self.current@.subrange(0, n as int) =~= self.current@);
            }
            if self.current[0] >= self.forest.len() {
                self.done = true;
                assert(paths_from(f, self.current@) =~= Seq::<Seq<usize>>::empty());
            }
        }
        match self.root {
            Some(v) => {
                assert(res@ =~= seq![v] + path_at(f, c));
                assert(prepend(v, paths_from(f, c)).drop_first() =~= prepend(
                    v,
                    paths_from(f, c).drop_first(),
                ));
            },
            None => {
                assert(res@ =~= path_at(f, c));
            },
        }
        assert(self.remaining() =~= before.drop_first());
        Some(res)
    }
}

/// A forest of the single tree `t` is well formed at `height` when `t`'s
/// children are well formed one level lower and, above the leaves, not empty.
proof fn lemma_single_tree(t: Tree, height: nat)
    requires
        height > 0,
    ensures
        well_formed(seq![t], height) == ((height > 1 ==> t.children@.len() > 0) && well_formed(
            t.children@,
            (height - 1) as nat,
        )),
{
    assert(seq![t][0] == t);
}

impl Tree {
    /// The number of levels below this node, following first children.
    pub fn depth(&self) -> (r: usize)
        requires
            exists|h: nat| 0 < h <= usize::MAX && well_formed(seq![*self], h),
        ensures
            well_formed(seq![*self], (r + 1) as nat),
            forall|h: nat| h > 0 && well_formed(seq![*self], h) ==> h == r + 1,
    {
        let ghost h0 = choose|h: nat| 0 < h <= usize::MAX && well_formed(seq![*self], h);
        let mut count: usize = 0;
        let mut curr = self;
        while curr.children.len() > 0
            invariant
                0 < h0 <= usize::MAX,
                well_formed(seq![*self], h0),
                forall|h: nat|
                    h > 0 && #[trigger] well_formed(seq![*self], h) ==> h > count && well_formed(
                        seq![*curr],
                        (h - count) as nat,
                    ),
            decreases h0 - count,
        {
            let next = &curr.children[0];
            assert forall|h: nat| h > 0 && #[trigger] well_formed(seq![*self], h) implies h > count
                + 1 && well_formed(seq![*next], (h - count - 1) as nat) by {
                lemma_single_tree(*curr, (h - count) as nat);
                if h - count == 1 {
                    assert(well_formed(curr.children@, 0));
                }
                lemma_single_tree(*next, (h - count - 1) as nat);
                assert(curr.children@[0] == *next);
            }
            count += 1;
            curr = next;
        }
        assert forall|h: nat| h > 0 && #[trigger] well_formed(seq![*self], h) implies h == count
            + 1 by {
            lemma_single_tree(*curr, (h - count) as nat);
        }
        count
    }

    /// All root-to-leaf paths of this tree, in depth-first order.
    pub fn all_paths(&self) -> (r: AllPaths<'_>)
        requires
            exists|h: nat| 0 < h <= usize::MAX && well_formed(seq![*self], h),
        ensures
            r.wf(),
            forall|h: nat|
                0 < h && well_formed(seq![*self], h) ==> r.remaining() == forest_paths(
                    seq![*self],
                    h,
                ),
    {
        let d = self.depth();
        proof {
            lemma_single_tree(*self, (d + 1) as nat);
            let one = seq![*self];
            assert(one.drop_last() =~= Seq::<Tree>::empty());
            assert(one.last() == *self);
            assert(forest_paths(one.drop_last(), (d + 1) as nat) == Seq::<Seq<usize>>::empty());
            assert(forest_paths(one, (d + 1) as nat) =~= prepend(
                self.value,
                forest_paths(self.children@, d as nat),
            ));
        }
        AllPaths::start(Some(self.value), &self.children, d)
    }
}

} // verus!
