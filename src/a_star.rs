//! A* search over the forward-star graph, single and multi target.

use vstd::prelude::*;
use vstd::multiset::Multiset;
use crate::error::ResolverError;
use crate::graph::{
    Field, Point, unset_field, on_board, graph_wf, children, is_walk, is_route, target_reachable,
    coordinates_of, neighbour_slice, owner_slice, flat_index, step, copy_fields, neutralised,
    remove_end_point_from_aps, is_on_board, contains_field, valid_board, is_graph_of, cell,
    is_board_cell, neighbours,
};

verus! {

/// A node of the A* search tree: a cell, the node it was reached from (none for
/// the root) and its score.
#[derive(Debug, PartialEq)]
pub struct AStarField {
    pub wrapped_field: Field,
    pub parent_field: Option<Box<AStarField>>,
    pub move_cost: Option<u64>,
}

/// The cells along the parent chain, from the root to `node`.
pub open spec fn chain(node: AStarField) -> Seq<Field>
    decreases node,
{
    match node.parent_field {
        Some(p) => chain(*p).push(node.wrapped_field),
        None => seq![node.wrapped_field],
    }
}

impl AStarField {
    pub fn new() -> (r: Self)
        ensures
            r.wrapped_field == unset_field(),
            r.parent_field is None,
            r.move_cost is None,
    {
        AStarField { wrapped_field: Field::new(), parent_field: None, move_cost: None }
    }

    /// A copy of the node and of its whole parent chain.
    fn duplicate(&self) -> (r: Self)
        ensures
            r == *self,
        decreases self,
    {
        let parent = match &self.parent_field {
            Some(p) => Some(Box::new(p.duplicate())),
            None => None,
        };
        AStarField { wrapped_field: self.wrapped_field, parent_field: parent, move_cost: self.move_cost }
    }
}

/// Manhattan distance between two declared points.
pub open spec fn manhattan(p: Point, q: Point) -> int {
    let dx = p.x->0 - q.x->0;
    let dy = p.y->0 - q.y->0;
    (if dx >= 0 { dx } else { -dx }) + (if dy >= 0 { dy } else { -dy })
}

/// The Manhattan distance `|x1 - x2| + |y1 - y2|` between two declared points.
pub fn get_manhattan_distance_heuristic(start_coordinates: Point, end_coordinates: Point) -> (r: u8)
    requires
        start_coordinates.x is Some && start_coordinates.y is Some,
        end_coordinates.x is Some && end_coordinates.y is Some,
        manhattan(start_coordinates, end_coordinates) <= u8::MAX,
    ensures
        r == manhattan(start_coordinates, end_coordinates),
{
    let (a, b) = (start_coordinates.x.unwrap(), start_coordinates.y.unwrap());
    let (c, d) = (end_coordinates.x.unwrap(), end_coordinates.y.unwrap());
    let dx = if a >= c { a - c } else { c - a };
    let dy = if b >= d { b - d } else { d - b };
    (dx + dy) as u8
}

fn collect_road(node: &AStarField) -> (r: Vec<Point>)
    ensures
        r@ == coordinates_of(chain(*node)),
    decreases node,
{
    match &node.parent_field {
        Some(p) => {
            let mut r = collect_road(p);
            r.push(node.wrapped_field.coordinates);
            assert(r@ =~= coordinates_of(chain(*node)));
            r
        },
        None => {
            let r = vec![node.wrapped_field.coordinates];
            assert(r@ =~= coordinates_of(chain(*node)));
            r
        },
    }
}

/// The coordinates from the root of the search tree down to `final_a_star_field`;
/// `None` for a root.
pub fn get_index_road_from_parents(final_a_star_field: AStarField) -> (r: Option<Vec<Point>>)
    ensures
        final_a_star_field.parent_field is None <==> r is None,
        r is Some ==> r->0@ == coordinates_of(chain(final_a_star_field)),
{
    if final_a_star_field.parent_field.is_none() {
        return None;
    }
    Some(collect_road(&final_a_star_field))
}

/// The score of a node.
pub open spec fn cost(e: AStarField) -> int {
    e.move_cost->0 as int
}

/// Every node of `s` has a score.
pub open spec fn all_scored(s: Seq<AStarField>) -> bool {
    forall|i: int| 0 <= i < s.len() ==> (#[trigger] s[i]).move_cost is Some
}

/// The nodes of `s[lo..hi]` are in ascending order of score.
pub open spec fn sorted_by_cost(s: Seq<AStarField>, lo: int, hi: int) -> bool {
    forall|i: int, j: int| lo <= i < j < hi ==> cost(#[trigger] s[i]) <= cost(#[trigger] s[j])
}

/// `t` holds `s` with `s[lo..hi]` rearranged.
pub open spec fn rearranged(s: Seq<AStarField>, t: Seq<AStarField>, lo: int, hi: int) -> bool {
    &&& t.len() == s.len()
    &&& t.to_multiset() == s.to_multiset()
    &&& forall|k: int| 0 <= k < s.len() && !(lo <= k < hi) ==> #[trigger] t[k] == s[k]
    &&& forall|k: int| lo <= k < hi ==> exists|j: int| lo <= j < hi && #[trigger] t[k] == s[j]
}

proof fn lemma_swap_multiset(s: Seq<AStarField>, i: int, j: int)
    requires
        0 <= i < s.len(),
        0 <= j < s.len(),
    ensures
        s.update(i, s[j]).update(j, s[i]).to_multiset() == s.to_multiset(),
{
    broadcast use vstd::seq_lib::to_multiset_update, vstd::multiset::group_multiset_axioms;

    broadcast use vstd::seq_lib::to_multiset_contains;

    assert(s.contains(s[i]));
    assert(s.contains(s[j]));
    let s1 = s.update(i, s[j]);
    assert(s1.to_multiset() == s.to_multiset().insert(s[j]).remove(s[i]));
    assert(s1.update(j, s[i]).to_multiset() == s1.to_multiset().insert(s[i]).remove(s1[j]));
    assert(s1.update(j, s[i]).to_multiset() =~= s.to_multiset());
}

fn swap_nodes(v: &mut Vec<AStarField>, i: usize, j: usize)
    requires
        i < old(v)@.len(),
        j < old(v)@.len(),
    ensures
        final(v)@ == old(v)@.update(i as int, old(v)@[j as int]).update(j as int, old(v)@[i as int]),
        final(v)@.to_multiset() == old(v)@.to_multiset(),
{
    proof {
        lemma_swap_multiset(v@, i as int, j as int);
    }
    let ghost orig = v@;
    if i != j {
        let mut t = AStarField::new();
        v.set_and_swap(i, &mut t);
        v.set_and_swap(j, &mut t);
        v.set_and_swap(i, &mut t);
        assert(v@ =~= orig.update(i as int, orig[j as int]).update(j as int, orig[i as int]));
    } else {
        assert(v@ =~= v@.update(i as int, v@[j as int]).update(j as int, v@[i as int]));
    }
}

/// Lomuto partition of `v[lo..hi]` around the score of its last node; returns the
/// pivot's final position.
fn quicksort_partition(v: &mut Vec<AStarField>, lo: usize, hi: usize) -> (p: usize)
    requires
        lo < hi <= old(v)@.len(),
        all_scored(old(v)@),
    ensures
        lo <= p < hi,
        rearranged(old(v)@, final(v)@, lo as int, hi as int),
        all_scored(final(v)@),
        forall|k: int| lo <= k < p ==> cost(#[trigger] final(v)@[k]) <= cost(final(v)@[p as int]),
        forall|k: int| p < k < hi ==> cost(#[trigger] final(v)@[k]) > cost(final(v)@[p as int]),
{
    let ghost orig = v@;
    let last = hi - 1;
    let pivot = v[last].move_cost.unwrap();
    let mut x = lo;
    let mut i = lo;
    while i < last
        invariant
            lo <= x <= i <= last < hi <= v@.len(),
            rearranged(orig, v@, lo as int, hi as int),
            all_scored(v@),
            v@[last as int] == orig[last as int],
            pivot == cost(orig[last as int]),
            forall|k: int| lo <= k < x ==> cost(#[trigger] v@[k]) <= pivot,
            forall|k: int| x <= k < i ==> cost(#[trigger] v@[k]) > pivot,
        decreases last - i,
    {
        if v[i].move_cost.unwrap() <= pivot {
            let ghost before = v@;
            swap_nodes(v, x, i);
            assert forall|k: int| lo <= k < hi implies exists|j: int| lo <= j < hi && #[trigger] v@[k] == orig[j] by {
                if k == x as int {
                    assert(v@[k] == before[i as int]);
                } else if k == i as int {
                    assert(v@[k] == before[x as int]);
                } else {
                    assert(v@[k] == before[k]);
                }
            }
            x += 1;
        }
        i += 1;
    }
    let ghost before = v@;
    swap_nodes(v, x, last);
    assert forall|k: int| lo <= k < hi implies exists|j: int| lo <= j < hi && #[trigger] v@[k] == orig[j] by {
        if k == x as int {
            assert(v@[k] == before[last as int]);
        } else if k == last as int {
            assert(v@[k] == before[x as int]);
        } else {
            assert(v@[k] == before[k]);
        }
    }
    x
}

fn quicksort_range(v: &mut Vec<AStarField>, lo: usize, hi: usize)
    requires
        lo <= hi <= old(v)@.len(),
        all_scored(old(v)@),
    ensures
        rearranged(old(v)@, final(v)@, lo as int, hi as int),
        all_scored(final(v)@),
        sorted_by_cost(final(v)@, lo as int, hi as int),
    decreases hi - lo,
{
    if lo < hi {
        let ghost orig = v@;
        let p = quicksort_partition(v, lo, hi);
        let ghost mid = v@;
        quicksort_range(v, lo, p);
        let ghost left = v@;
        quicksort_range(v, p + 1, hi);
        assert forall|k: int| lo <= k < p implies cost(#[trigger] v@[k]) <= cost(mid[p as int]) by {
            assert(v@[k] == left[k]);
            let j = choose|j: int| lo <= j < p && #[trigger] left[k] == mid[j];
        }
        assert forall|k: int| p < k < hi implies cost(#[trigger] v@[k]) > cost(mid[p as int]) by {
            let j = choose|j: int| p + 1 <= j < hi && #[trigger] v@[k] == left[j];
            assert(left[j] == mid[j]);
        }
        assert forall|k: int| lo <= k < hi implies exists|j: int| lo <= j < hi && #[trigger] v@[k] == orig[j] by {
            if k < p {
                assert(v@[k] == left[k]);
                let j = choose|j: int| lo <= j < p && #[trigger] left[k] == mid[j];
                let j2 = choose|j2: int| lo <= j2 < hi && #[trigger] mid[j] == orig[j2];
            } else if k == p {
                assert(v@[k] == mid[k]);
                let j2 = choose|j2: int| lo <= j2 < hi && #[trigger] mid[k] == orig[j2];
            } else {
                let j = choose|j: int| p + 1 <= j < hi && #[trigger] v@[k] == left[j];
                assert(left[j] == mid[j]);
                let j2 = choose|j2: int| lo <= j2 < hi && #[trigger] mid[j] == orig[j2];
            }
        }
    }
}

/// Sorts the nodes in ascending order of score (an in-place quicksort with
/// Lomuto partitioning).
pub fn quicksort(to_sort: &mut Vec<AStarField>)
    requires
        all_scored(old(to_sort)@),
    ensures
        final(to_sort)@.to_multiset() == old(to_sort)@.to_multiset(),
        final(to_sort)@.len() == old(to_sort)@.len(),
        all_scored(final(to_sort)@),
        sorted_by_cost(final(to_sort)@, 0, final(to_sort)@.len() as int),
{
    let len = to_sort.len();
    quicksort_range(to_sort, 0, len);
}

fn reverse_nodes(v: &mut Vec<AStarField>)
    ensures
        final(v)@ == old(v)@.reverse(),
        final(v)@.to_multiset() == old(v)@.to_multiset(),
{
    let ghost orig = v@;
    let len = v.len();
    let mut i: usize = 0;
    while i < len / 2
        invariant
            len == orig.len() == v@.len(),
            i <= len / 2,
            forall|k: int| 0 <= k < i ==> #[trigger] v@[k] == orig[len - 1 - k],
            forall|k: int| 0 <= k < i ==> #[trigger] v@[len - 1 - k] == orig[k],
            forall|k: int| i <= k < len - i ==> #[trigger] v@[k] == orig[k],
        decreases len / 2 - i,
    {
        swap_nodes(v, i, len - 1 - i);
        i += 1;
    }
    assert forall|k: int| 0 <= k < len implies #[trigger] v@[k] == orig[len - 1 - k] by {
        if k >= len - i {
            let k2 = len - 1 - k;
            assert(v@[len - 1 - k2] == orig[k2]);
        }
    }
    assert(v@ =~= orig.reverse());
    proof {
        orig.lemma_reverse_to_multiset();
    }
}


/// Sorts the open list, reverses it and removes its last node: the lowest score,
/// and among equal scores the first in sorted order.
fn take_best(open: &mut Vec<AStarField>) -> (r: AStarField)
    requires
        old(open)@.len() > 0,
        all_scored(old(open)@),
    ensures
        old(open)@.to_multiset() == final(open)@.to_multiset().insert(r),
        final(open)@.len() == old(open)@.len() - 1,
        all_scored(final(open)@),
{
    quicksort(open);
    reverse_nodes(open);
    let ghost before = open@;
    let last = open.len() - 1;
    let r = open.remove(last);
    proof {
        broadcast use vstd::seq_lib::to_multiset_build;

        assert(before =~= open@.push(r));
    }
    r
}

proof fn lemma_taken(old_s: Seq<AStarField>, new_s: Seq<AStarField>, r: AStarField)
    requires
        old_s.to_multiset() == new_s.to_multiset().insert(r),
    ensures
        old_s.contains(r),
        forall|e: AStarField| new_s.contains(e) ==> old_s.contains(e),
        forall|e: AStarField| old_s.contains(e) ==> e == r || new_s.contains(e),
{
    broadcast use vstd::seq_lib::to_multiset_contains, vstd::multiset::group_multiset_axioms;

    assert(old_s.to_multiset().count(r) > 0);
    assert forall|e: AStarField| new_s.contains(e) implies old_s.contains(e) by {
        assert(new_s.to_multiset().count(e) > 0);
        assert(old_s.to_multiset().count(e) > 0);
    }
    assert forall|e: AStarField| old_s.contains(e) implies e == r || new_s.contains(e) by {
        assert(old_s.to_multiset().count(e) > 0);
        if e != r {
            assert(new_s.to_multiset().count(e) > 0);
        }
    }
}

/// Number of nodes of `m` whose cell is in `closed`.
spec fn stale_in(m: Multiset<AStarField>, closed: Set<Field>) -> nat {
    m.filter(|e: AStarField| closed.contains(e.wrapped_field)).len()
}

proof fn lemma_stale_insert(m: Multiset<AStarField>, closed: Set<Field>, e: AStarField)
    ensures
        stale_in(m.insert(e), closed) == stale_in(m, closed) + if closed.contains(e.wrapped_field) {
            1nat
        } else {
            0nat
        },
{
    broadcast use vstd::multiset::group_multiset_axioms;

    let f = |x: AStarField| closed.contains(x.wrapped_field);
    if closed.contains(e.wrapped_field) {
        assert(m.insert(e).filter(f) =~= m.filter(f).insert(e));
    } else {
        assert(m.insert(e).filter(f) =~= m.filter(f));
    }
}

proof fn lemma_push_to_set(s: Seq<Field>, f: Field)
    ensures
        s.push(f).to_set() == s.to_set().insert(f),
{
    s.lemma_push_to_set_commute(f);
}

proof fn lemma_chain_last(e: AStarField)
    ensures
        chain(e).len() >= 1,
        chain(e).last() == e.wrapped_field,
{
    match e.parent_field {
        Some(_) => {},
        None => {},
    }
}

/// Some node of the open list holds cell `g`.
spec fn in_open(open: Seq<AStarField>, g: Field) -> bool {
    exists|i: int| 0 <= i < open.len() && (#[trigger] open[i]).wrapped_field == g
}

/// A node whose parent chain is a walk without repeated cells from `start`, all
/// of whose cells but its own are closed.
spec fn node_ok(
    fs: Seq<Field>,
    aps: Seq<u32>,
    n: int,
    start: Field,
    all: Set<Field>,
    closed: Set<Field>,
    e: AStarField,
) -> bool {
    let c = chain(e);
    &&& all.contains(e.wrapped_field)
    &&& on_board(e.wrapped_field.coordinates, n)
    &&& e.move_cost is Some
    &&& c[0] == start
    &&& is_walk(fs, aps, n, c)
    &&& c.no_duplicates()
    &&& forall|k: int| 0 <= k < c.len() - 1 ==> closed.contains(#[trigger] c[k])
}

/// A closed cell is no target, and each of its non-obstacle neighbours is closed or open.
spec fn expanded(
    fs: Seq<Field>,
    aps: Seq<u32>,
    n: int,
    closed: Set<Field>,
    open: Seq<AStarField>,
    f: Field,
) -> bool {
    let kids = children(fs, aps, n, f);
    &&& f.value != Some(2i8)
    &&& forall|j: int|
        0 <= j < kids.len() ==> (#[trigger] kids[j]).value == Some(-1i8) || closed.contains(kids[j])
            || in_open(open, kids[j])
}

proof fn lemma_walk_stays_closed(
    fs: Seq<Field>,
    aps: Seq<u32>,
    n: int,
    closed: Seq<Field>,
    w: Seq<Field>,
    k: int,
)
    requires
        is_walk(fs, aps, n, w),
        closed.contains(w[0]),
        forall|i: int| 0 <= i < closed.len() ==> expanded(fs, aps, n, closed.to_set(), seq![], #[trigger] closed[i]),
        0 <= k < w.len(),
    ensures
        closed.contains(w[k]),
    decreases k,
{
    if k > 0 {
        lemma_walk_stays_closed(fs, aps, n, closed, w, k - 1);
        let i = choose|i: int| 0 <= i < closed.len() && closed[i] == w[k - 1];
        assert(expanded(fs, aps, n, closed.to_set(), seq![], closed[i]));
        assert(step(fs, aps, n, w[k - 1], w[k]));
        let kids = children(fs, aps, n, w[k - 1]);
        let j = choose|j: int| 0 <= j < kids.len() && kids[j] == w[k];
        assert(kids[j] == w[k]);
        assert(!in_open(seq![], kids[j]));
    }
}

proof fn lemma_in_open_taken(old_s: Seq<AStarField>, new_s: Seq<AStarField>, r: AStarField)
    requires
        forall|e: AStarField| old_s.contains(e) ==> e == r || new_s.contains(e),
    ensures
        forall|g: Field| in_open(old_s, g) ==> r.wrapped_field == g || in_open(new_s, g),
{
    assert forall|g: Field| in_open(old_s, g) implies r.wrapped_field == g || in_open(new_s, g) by {
        let i = choose|i: int| 0 <= i < old_s.len() && (#[trigger] old_s[i]).wrapped_field == g;
        assert(old_s.contains(old_s[i]));
        if old_s[i] != r {
            let j = choose|j: int| 0 <= j < new_s.len() && new_s[j] == old_s[i];
            assert(new_s[j].wrapped_field == g);
        }
    }
}

proof fn lemma_in_open_push(open: Seq<AStarField>, x: AStarField)
    ensures
        forall|g: Field| in_open(open, g) ==> in_open(open.push(x), g),
{
    assert forall|g: Field| in_open(open, g) implies in_open(open.push(x), g) by {
        let i = choose|i: int| 0 <= i < open.len() && (#[trigger] open[i]).wrapped_field == g;
        assert(open.push(x)[i] == open[i]);
    }
}

proof fn lemma_expanded_transfer(
    fs: Seq<Field>,
    aps: Seq<u32>,
    n: int,
    cs1: Set<Field>,
    cs2: Set<Field>,
    o1: Seq<AStarField>,
    o2: Seq<AStarField>,
    f: Field,
)
    requires
        expanded(fs, aps, n, cs1, o1, f),
        cs1.subset_of(cs2),
        forall|g: Field| in_open(o1, g) ==> cs2.contains(g) || in_open(o2, g),
    ensures
        expanded(fs, aps, n, cs2, o2, f),
{
}

/// Whether an open node holds `f` with a score above `score`.
fn has_costlier_entry(open: &Vec<AStarField>, f: Field, score: u64) -> (r: bool)
    requires
        all_scored(open@),
    ensures
        r == exists|i: int|
            0 <= i < open@.len() && (#[trigger] open@[i]).wrapped_field == f && score < cost(open@[i]),
{
    let mut i: usize = 0;
    while i < open.len()
        invariant
            i <= open@.len(),
            all_scored(open@),
            forall|k: int| 0 <= k < i ==> !((#[trigger] open@[k]).wrapped_field == f && score < cost(open@[k])),
        decreases open@.len() - i,
    {
        let e = &open[i];
        if e.wrapped_field == f && score < e.move_cost.unwrap() {
            return true;
        }
        i += 1;
    }
    false
}

/// The inputs for which the resolver fails with `EmptyInput`: an empty `fs` or
/// `aps`, or an endpoint that is not a cell of the board.
pub open spec fn inputs_missing(fs: Seq<Field>, aps: Seq<u32>, n: int, start: Field, end: Field) -> bool {
    fs.len() == 0 || aps.len() == 0 || !on_board(start.coordinates, n) || !on_board(end.coordinates, n)
}

/// Expands `current`: pushes onto the open list a child node for each neighbour
/// that is no obstacle, not closed, and not held by an open node with a higher score.
fn push_children(
    open: &mut Vec<AStarField>,
    closed: &Vec<Field>,
    current: &AStarField,
    kids: &Vec<Field>,
    idx: usize,
    end: Point,
    weight: u64,
    Ghost(fs): Ghost<Seq<Field>>,
    Ghost(aps): Ghost<Seq<u32>>,
    Ghost(n): Ghost<int>,
    Ghost(start): Ghost<Field>,
    Ghost(all): Ghost<Set<Field>>,
)
    requires
        graph_wf(fs, aps, n),
        on_board(end, n),
        all == fs.to_set().insert(start),
        all_scored(old(open)@),
        0 <= idx < n * n,
        idx == flat_index(current.wrapped_field.coordinates, n),
        kids@ == children(fs, aps, n, current.wrapped_field),
        kids@ == owner_slice(fs, aps, idx as int),
        aps[idx as int] <= aps[idx + 1] <= fs.len(),
        chain(*current)[0] == start,
        chain(*current).last() == current.wrapped_field,
        chain(*current).len() >= 1,
        is_walk(fs, aps, n, chain(*current)),
        chain(*current).no_duplicates(),
        forall|k: int| 0 <= k < chain(*current).len() ==> closed@.to_set().contains(#[trigger] chain(*current)[k]),
        forall|i: int|
            0 <= i < old(open)@.len() ==> node_ok(fs, aps, n, start, all, closed@.to_set(), #[trigger] old(open)@[i]),
    ensures
        all_scored(final(open)@),
        forall|i: int|
            0 <= i < final(open)@.len() ==> node_ok(fs, aps, n, start, all, closed@.to_set(), #[trigger] final(open)@[i]),
        forall|g: Field| in_open(old(open)@, g) ==> in_open(final(open)@, g),
        forall|j: int|
            0 <= j < kids@.len() ==> (#[trigger] kids@[j]).value == Some(-1i8) || closed@.to_set().contains(kids@[j])
                || in_open(final(open)@, kids@[j]),
        stale_in(final(open)@.to_multiset(), closed@.to_set()) == stale_in(old(open)@.to_multiset(), closed@.to_set()),
{
    let ghost cs = closed@.to_set();
    let ghost orig = open@;
    let mut t: usize = 0;
    while t < kids.len()
        invariant
            graph_wf(fs, aps, n),
            on_board(end, n),
            all == fs.to_set().insert(start),
            cs == closed@.to_set(),
            all_scored(open@),
            kids@ == children(fs, aps, n, current.wrapped_field),
            kids@ == owner_slice(fs, aps, idx as int),
            aps[idx as int] <= aps[idx + 1] <= fs.len(),
            t <= kids@.len(),
            chain(*current)[0] == start,
            chain(*current).last() == current.wrapped_field,
            chain(*current).len() >= 1,
            is_walk(fs, aps, n, chain(*current)),
            chain(*current).no_duplicates(),
            forall|k: int| 0 <= k < chain(*current).len() ==> cs.contains(#[trigger] chain(*current)[k]),
            forall|i: int| 0 <= i < open@.len() ==> node_ok(fs, aps, n, start, all, cs, #[trigger] open@[i]),
            forall|g: Field| in_open(orig, g) ==> in_open(open@, g),
            forall|j: int|
                0 <= j < t ==> (#[trigger] kids@[j]).value == Some(-1i8) || cs.contains(kids@[j])
                    || in_open(open@, kids@[j]),
            stale_in(open@.to_multiset(), cs) == stale_in(orig.to_multiset(), cs),
        decreases kids@.len() - t,
    {
        let child = kids[t];
        proof {
            assert(child == fs[aps[idx as int] + t]);
            assert(on_board(fs[aps[idx as int] + t].coordinates, n));
        }
        let h = get_manhattan_distance_heuristic(child.coordinates, end);
        let score = weight.saturating_add(h as u64);
        let rejected = child.value == Some(-1i8) || contains_field(closed, child) || has_costlier_entry(
            open,
            child,
            score,
        );
        if !rejected {
            let node = AStarField {
                wrapped_field: child,
                parent_field: Some(Box::new(current.duplicate())),
                move_cost: Some(score),
            };
            proof {
                let c = chain(*current);
                let w = chain(node);
                assert(w == c.push(child));
                assert(fs.contains(child));
                assert(!cs.contains(child));
                assert(kids@.contains(child)) by {
                    assert(kids@[t as int] == child);
                }
                assert forall|k: int| 0 <= k < w.len() - 1 implies step(fs, aps, n, #[trigger] w[k], w[k + 1]) by {
                    if k < w.len() - 2 {
                        assert(step(fs, aps, n, c[k], c[k + 1]));
                    }
                }
                assert forall|a: int, b: int| 0 <= a < w.len() && 0 <= b < w.len() && a != b implies w[a] != w[b] by {
                    if a < c.len() && b < c.len() {
                    } else if a < c.len() {
                        assert(cs.contains(c[a]));
                    } else {
                        assert(cs.contains(c[b]));
                    }
                }
                assert(node_ok(fs, aps, n, start, all, cs, node));
                lemma_stale_insert(open@.to_multiset(), cs, node);
                vstd::seq_lib::to_multiset_build(open@, node);
                lemma_in_open_push(open@, node);
            }
            open.push(node);
            proof {
                assert(in_open(open@, child)) by {
                    assert(open@[open@.len() - 1].wrapped_field == child);
                }
            }
        }
        t += 1;
    }
}

/// A resolver result with the route as a sequence.
pub open spec fn road_view(r: Result<Vec<Point>, ResolverError>) -> Result<Seq<Point>, ResolverError> {
    match r {
        Ok(v) => Ok(v@),
        Err(e) => Err(e),
    }
}

/// `r` is a result that the single-target resolver gives on these inputs:
/// `EmptyInput` on missing inputs, else a route without repeated cells when a
/// target can be reached, else `NoPath`.
pub open spec fn resolver_outcome(
    fs: Seq<Field>,
    aps: Seq<u32>,
    n: int,
    start: Field,
    end: Field,
    r: Result<Seq<Point>, ResolverError>,
) -> bool {
    if inputs_missing(fs, aps, n, start, end) {
        r == Err::<Seq<Point>, _>(ResolverError::EmptyInput)
    } else if target_reachable(fs, aps, n, start) {
        r is Ok && exists|w: Seq<Field>|
            #[trigger] is_route(fs, aps, n, start, w) && w.no_duplicates() && r->Ok_0 == coordinates_of(w)
    } else {
        r == Err::<Seq<Point>, _>(ResolverError::NoPath)
    }
}

#[verifier::rlimit(100)]
/// A* search from the start cell to a target cell (value 2) over the forward-star
/// graph of a side-`matrix_size` board. Scores are the step counter plus the
/// Manhattan distance to `end`; the lowest score is expanded first. Returns the
/// coordinates along the route found: `EmptyInput` on missing inputs, a route
/// without repeated cells whenever a target can be reached, `NoPath` otherwise.
/// The step counter saturates at `u64::MAX`, far beyond any board of this size.
pub fn a_star_resolver(fs: Vec<Field>, aps: Vec<u32>, matrix_size: usize, start_end_point: (Field, Field)) -> (r: Result<Vec<Point>, ResolverError>)
    requires
        fs@.len() == 0 || aps@.len() == 0 || graph_wf(fs@, aps@, matrix_size as int),
    ensures
        inputs_missing(fs@, aps@, matrix_size as int, start_end_point.0, start_end_point.1)
            <==> r == Err::<Vec<Point>, _>(ResolverError::EmptyInput),
        resolver_outcome(fs@, aps@, matrix_size as int, start_end_point.0, start_end_point.1, road_view(r)),
{
    let (start_point, end_point) = start_end_point;
    let n = matrix_size;
    if fs.len() == 0 || aps.len() == 0 || !is_on_board(start_point.coordinates, n) || !is_on_board(
        end_point.coordinates,
        n,
    ) {
        return Err(ResolverError::EmptyInput);
    }
    let ghost g_fs = fs@;
    let ghost g_aps = aps@;
    let ghost ni = n as int;
    let h0 = get_manhattan_distance_heuristic(start_point.coordinates, end_point.coordinates);
    let start_node = AStarField { wrapped_field: start_point, parent_field: None, move_cost: Some(h0 as u64) };
    let mut open: Vec<AStarField> = Vec::new();
    open.push(start_node);
    let mut closed: Vec<Field> = Vec::new();
    let mut weight: u64 = 1;
    let ghost all = fs@.to_set().insert(start_point);
    let ghost mut cs: Set<Field> = Set::empty();
    proof {
        broadcast use vstd::seq_lib::seq_to_set_is_finite;

        assert(closed@.to_set() =~= cs);
        assert(chain(open@[0]) == seq![start_point]);
        assert(open@[0].wrapped_field == start_point);
    }
    while open.len() > 0
        invariant
            n as int == ni,
            fs@ == g_fs,
            aps@ == g_aps,
            g_fs.len() > 0,
            g_aps.len() > 0,
            start_point == start_end_point.0,
            end_point == start_end_point.1,
            n == matrix_size,
            graph_wf(g_fs, g_aps, ni),
            on_board(start_point.coordinates, ni),
            on_board(end_point.coordinates, ni),
            all == g_fs.to_set().insert(start_point),
            all.finite(),
            cs == closed@.to_set(),
            cs.subset_of(all),
            all_scored(open@),
            forall|i: int| 0 <= i < open@.len() ==> node_ok(g_fs, g_aps, ni, start_point, all, cs, #[trigger] open@[i]),
            forall|i: int| 0 <= i < closed@.len() ==> expanded(g_fs, g_aps, ni, cs, open@, #[trigger] closed@[i]),
            cs.contains(start_point) || in_open(open@, start_point),
        decreases all.len() - cs.len(), stale_in(open@.to_multiset(), cs),
    {
        proof {
            vstd::set_lib::lemma_len_subset(cs, all);
        }
        let ghost old_open = open@;
        let ghost old_cs = cs;
        let current = take_best(&mut open);
        proof {
            lemma_taken(old_open, open@, current);
            lemma_push_to_set(closed@, current.wrapped_field);
            lemma_stale_insert(open@.to_multiset(), old_cs, current);
        }
        closed.push(current.wrapped_field);
        proof {
            cs = cs.insert(current.wrapped_field);
            let j = choose|j: int| 0 <= j < old_open.len() && old_open[j] == current;
            assert(node_ok(g_fs, g_aps, ni, start_point, all, old_cs, old_open[j]));
            lemma_chain_last(current);
        }
        let ghost stale_now = stale_in(open@.to_multiset(), cs);
        if current.wrapped_field.value == Some(2i8) {
            let road = collect_road(&current);
            assert(is_route(g_fs, g_aps, ni, start_point, chain(current)));
            assert(!inputs_missing(fs@, aps@, matrix_size as int, start_end_point.0, start_end_point.1));
            assert(target_reachable(fs@, aps@, matrix_size as int, start_end_point.0));
            return Ok(road);
        }
        proof {
            lemma_in_open_taken(old_open, open@, current);
            assert forall|i: int| 0 <= i < closed@.len() - 1 implies expanded(g_fs, g_aps, ni, cs, open@, #[trigger] closed@[i]) by {
                assert(closed@[i] == closed@.drop_last()[i]);
                lemma_expanded_transfer(g_fs, g_aps, ni, old_cs, cs, old_open, open@, closed@[i]);
            }
            assert forall|i: int| 0 <= i < open@.len() implies node_ok(g_fs, g_aps, ni, start_point, all, cs, #[trigger] open@[i]) by {
                assert(open@.contains(open@[i]));
                let j = choose|j: int| 0 <= j < old_open.len() && old_open[j] == open@[i];
                assert(node_ok(g_fs, g_aps, ni, start_point, all, old_cs, old_open[j]));
            }
            if in_open(old_open, start_point) {
                assert(current.wrapped_field == start_point || in_open(open@, start_point));
            }
        }
        let x = current.wrapped_field.coordinates.x.unwrap();
        let y = current.wrapped_field.coordinates.y.unwrap();
        proof {
            crate::graph::lemma_flat_index_before(ni, x as int, y as int, ni, 0);
            assert(ni * ni <= 400) by (nonlinear_arith)
                requires
                    0 <= ni <= 20,
            ;
        }
        let idx = x * n + y;
        let kids = neighbour_slice(&fs, &aps, idx);
        proof {
            assert(g_aps[idx as int] <= g_aps[idx + 1] <= g_aps[ni * ni]);
            assert(kids@ == children(g_fs, g_aps, ni, current.wrapped_field));
        }
        let ghost before_children = open@;
        push_children(
            &mut open,
            &closed,
            &current,
            &kids,
            idx,
            end_point.coordinates,
            weight,
            Ghost(g_fs),
            Ghost(g_aps),
            Ghost(ni),
            Ghost(start_point),
            Ghost(all),
        );
        proof {
            assert forall|i: int| 0 <= i < closed@.len() - 1 implies expanded(g_fs, g_aps, ni, cs, open@, #[trigger] closed@[i]) by {
                lemma_expanded_transfer(g_fs, g_aps, ni, cs, cs, before_children, open@, closed@[i]);
            }
            if in_open(before_children, start_point) {
                assert(in_open(open@, start_point));
            }
            assert(expanded(g_fs, g_aps, ni, cs, open@, current.wrapped_field));
            if old_cs.contains(current.wrapped_field) {
                assert(cs =~= old_cs);
            } else {
                assert(cs.len() == old_cs.len() + 1);
            }
            vstd::set_lib::lemma_len_subset(cs, all);
        }
        weight = weight.saturating_add(1);
    }
    proof {
        assert(open@ =~= Seq::<AStarField>::empty());
        assert(!in_open(open@, start_point));
        assert(closed@.contains(start_point));
        assert forall|w: Seq<Field>| !#[trigger] is_route(g_fs, g_aps, ni, start_point, w) by {
            if is_route(g_fs, g_aps, ni, start_point, w) {
                assert forall|i: int| 0 <= i < closed@.len() implies expanded(g_fs, g_aps, ni, closed@.to_set(), seq![], #[trigger] closed@[i]) by {
                    assert(expanded(g_fs, g_aps, ni, cs, open@, closed@[i]));
                }
                lemma_walk_stays_closed(g_fs, g_aps, ni, closed@, w, w.len() - 1);
                let i = choose|i: int| 0 <= i < closed@.len() && closed@[i] == w[w.len() - 1];
                assert(expanded(g_fs, g_aps, ni, cs, open@, closed@[i]));
            }
        }
    }
    Err(ResolverError::NoPath)
}

/// `fs` after the targets `ends[0..k]` have been consumed in turn.
pub open spec fn neutralised_upto(fs: Seq<Field>, ends: Seq<Field>, k: int) -> Seq<Field>
    decreases k,
{
    if k <= 0 {
        fs
    } else {
        neutralised(neutralised_upto(fs, ends, k - 1), ends[k - 1].coordinates)
    }
}

/// The inputs for which the multi-target resolver fails with `EmptyInput` before any search.
pub open spec fn multi_inputs_missing(fs: Seq<Field>, aps: Seq<u32>, n: int, start: Field, ends: Seq<Field>) -> bool {
    fs.len() == 0 || aps.len() == 0 || n == 0 || (start == unset_field() && ends.len() == 0)
}

/// The single-target resolver succeeds on these inputs.
pub open spec fn resolves(fs: Seq<Field>, aps: Seq<u32>, n: int, start: Field, end: Field) -> bool {
    !inputs_missing(fs, aps, n, start, end) && target_reachable(fs, aps, n, start)
}

proof fn lemma_neutralised_keeps_graph(fs: Seq<Field>, aps: Seq<u32>, n: int, ends: Seq<Field>, k: int)
    requires
        graph_wf(fs, aps, n),
        0 <= k,
    ensures
        graph_wf(neutralised_upto(fs, ends, k), aps, n),
        neutralised_upto(fs, ends, k).len() == fs.len(),
    decreases k,
{
    if k > 0 {
        lemma_neutralised_keeps_graph(fs, aps, n, ends, k - 1);
        let prev = neutralised_upto(fs, ends, k - 1);
        let cur = neutralised_upto(fs, ends, k);
        assert forall|i: int| 0 <= i < cur.len() implies on_board(#[trigger] cur[i].coordinates, n) by {
            assert(cur[i].coordinates == prev[i].coordinates);
        }
    }
}

/// Every entry at the coordinate of a consumed target holds 0.
proof fn lemma_consumed_cleared(fs: Seq<Field>, ends: Seq<Field>, m: int, k: int, i: int)
    requires
        0 <= k < m,
        0 <= i < fs.len(),
        neutralised_upto(fs, ends, m)[i].coordinates == ends[k].coordinates,
    ensures
        neutralised_upto(fs, ends, m)[i].value == Some(0i8),
        neutralised_upto(fs, ends, m).len() == fs.len(),
    decreases m,
{
    if m > 0 {
        let prev = neutralised_upto(fs, ends, m - 1);
        lemma_neutralised_len(fs, ends, m - 1);
        if k < m - 1 {
            if prev[i].coordinates == ends[m - 1].coordinates {
            } else {
                lemma_consumed_cleared(fs, ends, m - 1, k, i);
            }
        }
    }
}

proof fn lemma_neutralised_len(fs: Seq<Field>, ends: Seq<Field>, k: int)
    ensures
        neutralised_upto(fs, ends, k).len() == fs.len(),
    decreases k,
{
    if k > 0 {
        lemma_neutralised_len(fs, ends, k - 1);
    }
}

fn copy_offsets(v: &Vec<u32>) -> (r: Vec<u32>)
    ensures
        r@ == v@,
{
    let mut r: Vec<u32> = Vec::new();
    let mut k: usize = 0;
    while k < v.len()
        invariant
            k <= v@.len(),
            r@ == v@.subrange(0, k as int),
        decreases v@.len() - k,
    {
        r.push(v[k]);
        k += 1;
        assert(r@ =~= v@.subrange(0, k as int));
    }
    assert(r@ =~= v@);
    r
}

/// Runs the single-target resolver from the start to each end in turn, each time
/// on a copy of the current `fs`, and after each success sets the consumed end's
/// entries of `fs` to 0. Returns the routes in the order of the ends; the first
/// failure is returned unchanged.
pub fn a_star_multi_roads_resolver(
    fs: &mut Vec<Field>,
    aps: Vec<u32>,
    matrix_size: usize,
    start_end_point: (Field, Vec<Field>),
) -> (r: Result<Vec<Vec<Point>>, ResolverError>)
    requires
        old(fs)@.len() == 0 || aps@.len() == 0 || graph_wf(old(fs)@, aps@, matrix_size as int),
    ensures
        multi_inputs_missing(old(fs)@, aps@, matrix_size as int, start_end_point.0, start_end_point.1@) ==> r
            == Err::<Vec<Vec<Point>>, _>(ResolverError::EmptyInput) && final(fs)@ == old(fs)@,
        !multi_inputs_missing(old(fs)@, aps@, matrix_size as int, start_end_point.0, start_end_point.1@) ==> (r is Ok
            <==> forall|k: int|
            0 <= k < start_end_point.1@.len() ==> resolves(
                #[trigger] neutralised_upto(old(fs)@, start_end_point.1@, k),
                aps@,
                matrix_size as int,
                start_end_point.0,
                start_end_point.1@[k],
            )),
        r is Ok ==> r->Ok_0@.len() == start_end_point.1@.len() && final(fs)@ == neutralised_upto(
            old(fs)@,
            start_end_point.1@,
            start_end_point.1@.len() as int,
        ) && forall|k: int|
            0 <= k < start_end_point.1@.len() ==> resolver_outcome(
                neutralised_upto(old(fs)@, start_end_point.1@, k),
                aps@,
                matrix_size as int,
                start_end_point.0,
                start_end_point.1@[k],
                Ok(#[trigger] r->Ok_0@[k]@),
            ),
        r is Err && !multi_inputs_missing(old(fs)@, aps@, matrix_size as int, start_end_point.0, start_end_point.1@)
            ==> exists|j: int|
            0 <= j < start_end_point.1@.len() && final(fs)@ == #[trigger] neutralised_upto(old(fs)@, start_end_point.1@, j)
                && resolver_outcome(
                neutralised_upto(old(fs)@, start_end_point.1@, j),
                aps@,
                matrix_size as int,
                start_end_point.0,
                start_end_point.1@[j],
                Err(r->Err_0),
            ) && !resolves(
                neutralised_upto(old(fs)@, start_end_point.1@, j),
                aps@,
                matrix_size as int,
                start_end_point.0,
                start_end_point.1@[j],
            ),
        r is Ok ==> forall|k: int, i: int|
            0 <= k < start_end_point.1@.len() && 0 <= i < final(fs)@.len() && (#[trigger] final(fs)@[i]).coordinates
                == (#[trigger] start_end_point.1@[k]).coordinates ==> final(fs)@[i].value == Some(0i8),
{
    let (start_point, end_points) = start_end_point;
    if fs.len() == 0 || aps.len() == 0 || matrix_size == 0 || (start_point == Field::new() && end_points.len() == 0) {
        return Err(ResolverError::EmptyInput);
    }
    let ghost orig = fs@;
    let ghost ends = end_points@;
    let ghost ni = matrix_size as int;
    let mut roads: Vec<Vec<Point>> = Vec::new();
    let mut k: usize = 0;
    while k < end_points.len()
        invariant
            k <= ends.len(),
            ends == end_points@,
            ni == matrix_size as int,
            start_point == start_end_point.0,
            end_points == start_end_point.1,
            graph_wf(orig, aps@, ni),
            orig == old(fs)@,
            orig.len() > 0,
            aps@.len() > 0,
            fs@ == neutralised_upto(orig, ends, k as int),
            roads@.len() == k,
            forall|j: int| 0 <= j < k ==> resolves(#[trigger] neutralised_upto(orig, ends, j), aps@, ni, start_point, ends[j]),
            forall|j: int|
                0 <= j < k ==> resolver_outcome(neutralised_upto(orig, ends, j), aps@, ni, start_point, ends[j], Ok(#[trigger] roads@[j]@)),
        decreases ends.len() - k,
    {
        let end = end_points[k];
        proof {
            lemma_neutralised_keeps_graph(orig, aps@, ni, ends, k as int);
        }
        let fs_copy = copy_fields(fs);
        let aps_copy = copy_offsets(&aps);
        let outcome = a_star_resolver(fs_copy, aps_copy, matrix_size, (start_point, end));
        match outcome {
            Ok(road) => {
                let ghost before = roads@;
                roads.push(road);
                assert(roads@[k as int] == road);
                assert(forall|j: int| 0 <= j < k ==> before[j] == #[trigger] roads@[j]);
            },
            Err(e) => {
                assert(!resolves(neutralised_upto(orig, ends, k as int), aps@, ni, start_point, ends[k as int]));
                assert(fs@ == neutralised_upto(orig, ends, k as int));
                return Err(e);
            },
        }
        remove_end_point_from_aps(fs, end.coordinates);
        k += 1;
    }
    proof {
        assert forall|j: int, i: int|
            0 <= j < ends.len() && 0 <= i < fs@.len() && (#[trigger] fs@[i]).coordinates == (#[trigger] ends[j]).coordinates
            implies fs@[i].value == Some(0i8) by {
            lemma_neutralised_len(orig, ends, ends.len() as int);
            lemma_consumed_cleared(orig, ends, ends.len() as int, j, i);
        }
    }
    Ok(roads)
}


/// On the graph of a board, a step moves to an adjacent cell of the board.
proof fn lemma_step_is_adjacent(b: Seq<Vec<i8>>, fs: Seq<Field>, aps: Seq<u32>, f: Field, g: Field)
    requires
        valid_board(b),
        is_graph_of(b, fs, aps),
        is_board_cell(b, f),
        step(fs, aps, b.len() as int, f, g),
    ensures
        is_board_cell(b, g),
        manhattan(f.coordinates, g.coordinates) == 1,
{
    let n = b.len() as int;
    let (x, y) = choose|x: int, y: int| 0 <= x < n && 0 <= y < n && f == cell(b, x, y);
    assert(flat_index(f.coordinates, n) == x * n + y);
    let nb = neighbours(b, x, y);
    assert(children(fs, aps, n, f) == nb);
    let j = choose|j: int| 0 <= j < nb.len() && nb[j] == g;
    let l = if y > 0 { seq![cell(b, x, y - 1)] } else { seq![] };
    let r = if y + 1 < n { seq![cell(b, x, y + 1)] } else { seq![] };
    let u = if x > 0 { seq![cell(b, x - 1, y)] } else { seq![] };
    let d = if x + 1 < n { seq![cell(b, x + 1, y)] } else { seq![] };
    assert(nb == l + r + u + d);
    if j < l.len() {
        assert(g == cell(b, x, y - 1));
    } else if j < l.len() + r.len() {
        assert(g == cell(b, x, y + 1));
    } else if j < l.len() + r.len() + u.len() {
        assert(g == cell(b, x - 1, y));
    } else {
        assert(g == cell(b, x + 1, y));
    }
}

proof fn lemma_walk_span(b: Seq<Vec<i8>>, fs: Seq<Field>, aps: Seq<u32>, w: Seq<Field>, k: int)
    requires
        valid_board(b),
        is_graph_of(b, fs, aps),
        is_walk(fs, aps, b.len() as int, w),
        is_board_cell(b, w[0]),
        0 <= k < w.len(),
    ensures
        is_board_cell(b, w[k]),
        manhattan(w[0].coordinates, w[k].coordinates) <= k,
    decreases k,
{
    if k > 0 {
        lemma_walk_span(b, fs, aps, w, k - 1);
        assert(step(fs, aps, b.len() as int, w[k - 1], w[k]));
        lemma_step_is_adjacent(b, fs, aps, w[k - 1], w[k]);
    }
}

/// A route over the graph of a board, from a cell of the board, takes at least
/// as many steps as the Manhattan distance between its ends; so the path that
/// the resolver returns is never shorter than that distance.
pub proof fn lemma_route_no_shorter_than_manhattan(b: Seq<Vec<i8>>, fs: Seq<Field>, aps: Seq<u32>, w: Seq<Field>)
    requires
        valid_board(b),
        is_graph_of(b, fs, aps),
        is_walk(fs, aps, b.len() as int, w),
        is_board_cell(b, w[0]),
    ensures
        manhattan(w[0].coordinates, w.last().coordinates) <= w.len() - 1,
{
    lemma_walk_span(b, fs, aps, w, w.len() - 1);
}

} // verus!
