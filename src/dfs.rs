//! Depth-first enumeration of all simple paths between two cells.

use vstd::prelude::*;
use crate::graph::{
    Field, on_board, graph_wf, clipped_slice, flat_index, neighbour_slice, copy_fields, contains_field,
    coordinates_of, valid_board, is_graph_of, cell, is_board_cell, lemma_graph_entries_are_cells,
};

verus! {

/// Number of cells of `fs` that `disc` does not hold.
pub open spec fn undiscovered(fs: Seq<Field>, disc: Seq<Field>) -> nat {
    fs.to_set().difference(disc.to_set()).len()
}

/// Discovering a cell of `fs` not yet discovered lowers the count of undiscovered cells.
pub proof fn lemma_undiscovered_decreases(fs: Seq<Field>, disc: Seq<Field>, kid: Field)
    requires
        fs.contains(kid),
        !disc.contains(kid),
    ensures
        undiscovered(fs, disc.push(kid)) < undiscovered(fs, disc),
{
    broadcast use vstd::seq_lib::seq_to_set_is_finite;

    disc.lemma_push_to_set_commute(kid);
    let d = fs.to_set().difference(disc.to_set());
    assert(fs.to_set().difference(disc.push(kid).to_set()) =~= d.remove(kid));
    assert(d.contains(kid));
}

/// The neighbours that the graph lists for the cell of `c`, clipped to `fs`.
pub open spec fn listed_neighbours(fs: Seq<Field>, aps: Seq<u32>, n: int, c: Field) -> Seq<Field> {
    let k = flat_index(c.coordinates, n);
    if 0 <= k && k + 1 < aps.len() {
        clipped_slice(fs, aps, k)
    } else {
        seq![]
    }
}

/// The paths recorded by a depth-first search at cell `c`, with `disc` the cells
/// discovered before it and `path` the path that led to it: the path itself when
/// `c` is the end, else the paths through each neighbour in turn.
pub open spec fn dfs_paths(
    fs: Seq<Field>,
    aps: Seq<u32>,
    n: int,
    c: Field,
    end: Field,
    disc: Seq<Field>,
    path: Seq<Field>,
) -> Seq<Seq<Field>>
    decreases undiscovered(fs, disc.push(c)), 1nat, 0nat,
{
    if c == end {
        seq![path]
    } else {
        dfs_children(fs, aps, n, c, end, disc.push(c), path, listed_neighbours(fs, aps, n, c).len() as int)
    }
}

/// The paths recorded through the first `k` neighbours of `c`, skipping obstacles
/// and discovered cells.
pub open spec fn dfs_children(
    fs: Seq<Field>,
    aps: Seq<u32>,
    n: int,
    c: Field,
    end: Field,
    disc: Seq<Field>,
    path: Seq<Field>,
    k: int,
) -> Seq<Seq<Field>>
    decreases undiscovered(fs, disc), 0nat, k,
{
    let kids = listed_neighbours(fs, aps, n, c);
    if k <= 0 || k > kids.len() {
        seq![]
    } else {
        let prev = dfs_children(fs, aps, n, c, end, disc, path, k - 1);
        let kid = kids[k - 1];
        if kid.value == Some(-1i8) || disc.contains(kid) {
            prev
        } else {
            proof {
                let f = flat_index(c.coordinates, n);
                assert(fs.contains(kid)) by {
                    let s = if aps[f] <= fs.len() { aps[f] as int } else { fs.len() as int };
                    assert(kids[k - 1] == fs[s + k - 1]);
                }
                lemma_undiscovered_decreases(fs, disc, kid);
            }
            prev + dfs_paths(fs, aps, n, kid, end, disc, path.push(kid))
        }
    }
}

/// The list of paths as sequences.
pub open spec fn paths_view(v: Seq<Vec<Field>>) -> Seq<Seq<Field>> {
    v.map_values(|p: Vec<Field>| p@)
}

proof fn lemma_paths_view_push(v: Seq<Vec<Field>>, p: Vec<Field>)
    ensures
        paths_view(v.push(p)) == paths_view(v) + seq![p@],
{
    assert(paths_view(v.push(p)) =~= paths_view(v) + seq![p@]);
}

fn dfs_walk(
    fs: &Vec<Field>,
    aps: &Vec<u32>,
    c: Field,
    end: Field,
    n: usize,
    discovered: &mut Vec<Field>,
    current_path: &mut Vec<Field>,
    all_path: &mut Vec<Vec<Field>>,
)
    requires
        graph_wf(fs@, aps@, n as int),
        on_board(c.coordinates, n as int),
    ensures
        paths_view(final(all_path)@) == paths_view(old(all_path)@) + dfs_paths(
            fs@,
            aps@,
            n as int,
            c,
            end,
            old(discovered)@,
            old(current_path)@,
        ),
        final(discovered)@ == if c == end {
            old(discovered)@.push(c)
        } else {
            old(discovered)@
        },
        final(current_path)@ == old(current_path)@,
    decreases undiscovered(fs@, old(discovered)@.push(c)),
{
    let ghost disc0 = discovered@;
    let ghost path0 = current_path@;
    let ghost ni = n as int;
    discovered.push(c);
    let di = discovered.len() - 1;
    if c == end {
        let snapshot = copy_fields(current_path);
        proof {
            lemma_paths_view_push(all_path@, snapshot);
        }
        all_path.push(snapshot);
        return;
    }
    let x = c.coordinates.x.unwrap();
    let y = c.coordinates.y.unwrap();
    proof {
        crate::graph::lemma_flat_index_before(ni, x as int, y as int, ni, 0);
        assert(ni * ni <= 400) by (nonlinear_arith)
            requires
                0 <= ni <= 20,
        ;
    }
    let idx = x * n + y;
    let kids = neighbour_slice(fs, aps, idx);
    let ghost disc1 = discovered@;
    let ghost all0 = paths_view(all_path@);
    assert(kids@ == listed_neighbours(fs@, aps@, ni, c));
    let mut t: usize = 0;
    while t < kids.len()
        invariant
            graph_wf(fs@, aps@, ni),
            ni == n as int,
            c != end,
            kids@ == listed_neighbours(fs@, aps@, ni, c),
            t <= kids@.len(),
            disc1 == disc0.push(c),
            disc0 == old(discovered)@,
            discovered@ == disc1,
            di == disc0.len(),
            current_path@ == path0,
            paths_view(all_path@) == all0 + dfs_children(fs@, aps@, ni, c, end, disc1, path0, t as int),
            forall|i: int| 0 <= i < fs@.len() ==> on_board(#[trigger] fs@[i].coordinates, ni),
        decreases kids@.len() - t,
    {
        let child = kids[t];
        proof {
            let f = flat_index(c.coordinates, ni);
            let s = if aps@[f] <= fs@.len() { aps@[f] as int } else { fs@.len() as int };
            assert(kids@[t as int] == fs@[s + t]);
        }
        if child.value == Some(-1i8) || contains_field(discovered, child) {
            t += 1;
            continue;
        }
        proof {
            assert(fs@.contains(child)) by {
                let f = flat_index(c.coordinates, ni);
                let s = if aps@[f] <= fs@.len() { aps@[f] as int } else { fs@.len() as int };
                assert(kids@[t as int] == fs@[s + t]);
            }
            lemma_undiscovered_decreases(fs@, disc1, child);
        }
        current_path.push(child);
        let mut branch_discovered = copy_fields(discovered);
        let mut branch_path = copy_fields(current_path);
        assert(undiscovered(fs@, branch_discovered@.push(child)) < undiscovered(fs@, disc0.push(c)));
        dfs_walk(fs, aps, child, end, n, &mut branch_discovered, &mut branch_path, all_path);
        current_path.pop();
        proof {
            assert(current_path@ =~= path0);
        }
        t += 1;
    }
    discovered.remove(di);
    assert(discovered@ =~= disc0);
}

/// Depth-first search for every simple path from `start_end.0` to `start_end.1`:
/// records in `all_path` a copy of `current_path` each time the end is reached,
/// skipping obstacles and cells already on the way.
pub fn dfs_fs_aps_recursive(
    fs: Vec<Field>,
    aps: Vec<u32>,
    start_end: (Field, Field),
    matrix_size: usize,
    discovered: &mut Vec<Field>,
    current_path: &mut Vec<Field>,
    all_path: &mut Vec<Vec<Field>>,
)
    requires
        graph_wf(fs@, aps@, matrix_size as int),
        on_board(start_end.0.coordinates, matrix_size as int),
    ensures
        paths_view(final(all_path)@) == paths_view(old(all_path)@) + dfs_paths(
            fs@,
            aps@,
            matrix_size as int,
            start_end.0,
            start_end.1,
            old(discovered)@,
            old(current_path)@,
        ),
        final(discovered)@ == if start_end.0 == start_end.1 {
            old(discovered)@.push(start_end.0)
        } else {
            old(discovered)@
        },
        final(current_path)@ == old(current_path)@,
{
    let (start, end) = start_end;
    dfs_walk(&fs, &aps, start, end, matrix_size, discovered, current_path, all_path);
}


/// `q` repeats no cell, and each of its cells is on `path` or in `fs`.
pub open spec fn simple_from(fs: Seq<Field>, path: Seq<Field>, q: Seq<Field>) -> bool {
    &&& q.no_duplicates()
    &&& forall|j: int| 0 <= j < q.len() ==> path.contains(#[trigger] q[j]) || fs.contains(q[j])
}

/// From a path without repeated cells, all of whose cells are discovered or
/// current, every recorded path repeats no cell.
pub proof fn lemma_dfs_paths_simple(
    fs: Seq<Field>,
    aps: Seq<u32>,
    n: int,
    c: Field,
    end: Field,
    disc: Seq<Field>,
    path: Seq<Field>,
)
    requires
        path.no_duplicates(),
        forall|i: int| 0 <= i < path.len() ==> disc.push(c).contains(#[trigger] path[i]),
    ensures
        forall|i: int|
            0 <= i < dfs_paths(fs, aps, n, c, end, disc, path).len() ==> simple_from(
                fs,
                path,
                #[trigger] dfs_paths(fs, aps, n, c, end, disc, path)[i],
            ),
    decreases undiscovered(fs, disc.push(c)), 1nat, 0nat,
{
    if c != end {
        let k = listed_neighbours(fs, aps, n, c).len() as int;
        lemma_dfs_children_simple(fs, aps, n, c, end, disc.push(c), path, k);
        assert(dfs_paths(fs, aps, n, c, end, disc, path) == dfs_children(fs, aps, n, c, end, disc.push(c), path, k));
    } else {
        assert(dfs_paths(fs, aps, n, c, end, disc, path) == seq![path]);
        assert forall|j: int| 0 <= j < path.len() implies path.contains(#[trigger] path[j]) by {
            assert(path[j] == path[j]);
        }
        assert(simple_from(fs, path, path));
    }
}

/// The recorded paths through the first `k` neighbours repeat no cell.
pub proof fn lemma_dfs_children_simple(
    fs: Seq<Field>,
    aps: Seq<u32>,
    n: int,
    c: Field,
    end: Field,
    disc: Seq<Field>,
    path: Seq<Field>,
    k: int,
)
    requires
        path.no_duplicates(),
        forall|i: int| 0 <= i < path.len() ==> disc.contains(#[trigger] path[i]),
    ensures
        forall|i: int|
            0 <= i < dfs_children(fs, aps, n, c, end, disc, path, k).len() ==> simple_from(
                fs,
                path,
                #[trigger] dfs_children(fs, aps, n, c, end, disc, path, k)[i],
            ),
    decreases undiscovered(fs, disc), 0nat, k,
{
    let kids = listed_neighbours(fs, aps, n, c);
    if k > 0 && k <= kids.len() {
        lemma_dfs_children_simple(fs, aps, n, c, end, disc, path, k - 1);
        let kid = kids[k - 1];
        if kid.value == Some(-1i8) || disc.contains(kid) {
            assert(dfs_children(fs, aps, n, c, end, disc, path, k) == dfs_children(fs, aps, n, c, end, disc, path, k - 1));
        } else {
            let f = flat_index(c.coordinates, n);
            assert(fs.contains(kid)) by {
                let s = if aps[f] <= fs.len() { aps[f] as int } else { fs.len() as int };
                assert(kids[k - 1] == fs[s + k - 1]);
            }
            lemma_undiscovered_decreases(fs, disc, kid);
            let longer = path.push(kid);
            assert forall|a: int, b: int| 0 <= a < longer.len() && 0 <= b < longer.len() && a != b implies longer[a] != longer[b] by {
                if a == path.len() {
                    assert(disc.contains(longer[b]));
                } else if b == path.len() {
                    assert(disc.contains(longer[a]));
                }
            }
            assert forall|i: int| 0 <= i < longer.len() implies disc.push(kid).contains(#[trigger] longer[i]) by {
                if i < path.len() {
                    assert(disc.contains(path[i]));
                    let w = choose|w: int| 0 <= w < disc.len() && disc[w] == path[i];
                    assert(disc.push(kid)[w] == longer[i]);
                } else {
                    assert(disc.push(kid)[disc.len() as int] == longer[i]);
                }
            }
            lemma_dfs_paths_simple(fs, aps, n, kid, end, disc, longer);
            let prev = dfs_children(fs, aps, n, c, end, disc, path, k - 1);
            let rest = dfs_paths(fs, aps, n, kid, end, disc, longer);
            assert(dfs_children(fs, aps, n, c, end, disc, path, k) == prev + rest);
            assert forall|i: int| 0 <= i < prev.len() + rest.len() implies simple_from(fs, path, #[trigger] (prev + rest)[i]) by {
                if i >= prev.len() {
                    let q = rest[i - prev.len()];
                    assert(simple_from(fs, longer, q));
                    assert forall|j: int| 0 <= j < q.len() implies path.contains(#[trigger] q[j]) || fs.contains(q[j]) by {
                        if longer.contains(q[j]) {
                            let w = choose|w: int| 0 <= w < longer.len() && longer[w] == q[j];
                            if w < path.len() {
                                assert(path[w] == q[j]);
                            }
                        }
                    }
                }
            }
        }
    }
}

/// Depth-first enumeration from a cell of a board, over the board's graph and
/// with nothing discovered before, records only paths that never revisit a coordinate.
pub proof fn lemma_dfs_no_repeated_coordinate(
    b: Seq<Vec<i8>>,
    fs: Seq<Field>,
    aps: Seq<u32>,
    sx: int,
    sy: int,
    end: Field,
)
    requires
        valid_board(b),
        is_graph_of(b, fs, aps),
        0 <= sx < b.len(),
        0 <= sy < b.len(),
    ensures
        forall|i: int|
            0 <= i < dfs_paths(fs, aps, b.len() as int, cell(b, sx, sy), end, seq![], seq![cell(b, sx, sy)]).len()
                ==> coordinates_of(
                #[trigger] dfs_paths(fs, aps, b.len() as int, cell(b, sx, sy), end, seq![], seq![cell(b, sx, sy)])[i],
            ).no_duplicates(),
{
    let n = b.len() as int;
    let start = cell(b, sx, sy);
    let path = seq![start];
    let found = dfs_paths(fs, aps, n, start, end, seq![], path);
    assert(seq![].push(start)[0] == start);
    lemma_dfs_paths_simple(fs, aps, n, start, end, seq![], path);
    assert forall|i: int| 0 <= i < found.len() implies coordinates_of(#[trigger] found[i]).no_duplicates() by {
        let q = found[i];
        assert(simple_from(fs, path, q));
        assert forall|j: int| 0 <= j < q.len() implies is_board_cell(b, #[trigger] q[j]) by {
            if path.contains(q[j]) {
                assert(q[j] == start);
                assert(start == cell(b, sx, sy));
            } else {
                let p = choose|p: int| 0 <= p < fs.len() && fs[p] == q[j];
                lemma_graph_entries_are_cells(b, fs, aps, p);
            }
        }
        assert forall|a: int, c: int| 0 <= a < q.len() && 0 <= c < q.len() && a != c implies coordinates_of(q)[a]
            != coordinates_of(q)[c] by {
            assert(is_board_cell(b, q[a]));
            assert(is_board_cell(b, q[c]));
            let (x1, y1) = choose|x1: int, y1: int| 0 <= x1 < n && 0 <= y1 < n && q[a] == cell(b, x1, y1);
            let (x2, y2) = choose|x2: int, y2: int| 0 <= x2 < n && 0 <= y2 < n && q[c] == cell(b, x2, y2);
            assert(q[a] != q[c]);
        }
    }
}

} // verus!
