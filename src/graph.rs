//! Boards, cell records and the forward-star graph (FS, APS) built from a board:
//! validation, scanning for start and end cells, neighbour lookup and target neutralisation.

use vstd::prelude::*;
use crate::error::ResolverError;

verus! {

/// A cell coordinate: row `x` and column `y`; `None` marks an unset coordinate.
#[derive(Debug, Clone, Copy, PartialEq, Eq, Structural)]
pub struct Point {
    pub x: Option<usize>,
    pub y: Option<usize>,
}

/// A cell record: a coordinate and the cell value; `None` marks an unset value.
#[derive(Debug, Clone, Copy, PartialEq, Eq, Structural)]
pub struct Field {
    pub coordinates: Point,
    pub value: Option<i8>,
}

/// The unset coordinate.
pub open spec fn unset_point() -> Point {
    Point { x: None, y: None }
}

/// The unset cell record.
pub open spec fn unset_field() -> Field {
    Field { coordinates: unset_point(), value: None }
}

impl Point {
    pub fn new() -> (r: Self)
        ensures
            r == unset_point(),
    {
        Point { x: None, y: None }
    }

    /// The row-major flat index `x * matrix_size + y`.
    pub fn get_index(&self, matrix_size: usize) -> (r: Result<usize, ResolverError>)
        requires
            self.x is Some && self.y is Some ==> self.x->0 * matrix_size + self.y->0 <= usize::MAX,
        ensures
            r is Err <==> (self.x is None || self.y is None || matrix_size == 0),
            r is Err ==> r == Err::<usize, _>(ResolverError::UndeclaredPoint),
            r is Ok ==> r->Ok_0 == self.x->0 * matrix_size + self.y->0,
    {
        match (self.x, self.y) {
            (Some(x), Some(y)) => {
                if matrix_size == 0 {
                    Err(ResolverError::UndeclaredPoint)
                } else {
                    Ok(x * matrix_size + y)
                }
            },
            _ => Err(ResolverError::UndeclaredPoint),
        }
    }
}

impl Field {
    pub fn new() -> (r: Self)
        ensures
            r == unset_field(),
    {
        Field { coordinates: Point::new(), value: None }
    }
}


/// Largest side accepted for a board.
pub const MAX_SIDE: usize = 20;

/// The first failure that the board validator reports for a board, if any.
pub open spec fn board_error(b: Seq<Vec<i8>>) -> Option<ResolverError> {
    if b.len() == 0 {
        Some(ResolverError::EmptyBoard)
    } else if b.len() < 2 {
        Some(ResolverError::TooShort)
    } else if b.len() > 20 {
        Some(ResolverError::TooLarge)
    } else if exists|i: int| 0 <= i < b.len() && #[trigger] b[i]@.len() != b.len() {
        Some(ResolverError::NotSquare)
    } else {
        None
    }
}

/// A square board whose side lies between 2 and 20.
pub open spec fn valid_board(b: Seq<Vec<i8>>) -> bool {
    board_error(b) is None
}

/// The coordinate `(x, y)`.
pub open spec fn point_at(x: int, y: int) -> Point {
    Point { x: Some(x as usize), y: Some(y as usize) }
}

/// The cell record of the board at `(x, y)`.
pub open spec fn cell(b: Seq<Vec<i8>>, x: int, y: int) -> Field {
    Field { coordinates: point_at(x, y), value: Some(b[x]@[y]) }
}

/// The neighbours of `(x, y)` that lie on the board, in the order left, right, up, down.
pub open spec fn neighbours(b: Seq<Vec<i8>>, x: int, y: int) -> Seq<Field> {
    let n = b.len();
    (if y > 0 { seq![cell(b, x, y - 1)] } else { seq![] }) + (if y + 1 < n {
        seq![cell(b, x, y + 1)]
    } else {
        seq![]
    }) + (if x > 0 { seq![cell(b, x - 1, y)] } else { seq![] }) + (if x + 1 < n {
        seq![cell(b, x + 1, y)]
    } else {
        seq![]
    })
}

/// The slice of `fs` that `aps` gives to the owner with flat index `k`.
pub open spec fn owner_slice(fs: Seq<Field>, aps: Seq<u32>, k: int) -> Seq<Field> {
    fs.subrange(aps[k] as int, aps[k + 1] as int)
}

/// Offsets for `owners` owners: `owners + 1` non-decreasing entries from 0 to `|fs|`.
pub open spec fn aps_well_formed(fs: Seq<Field>, aps: Seq<u32>, owners: int) -> bool {
    &&& aps.len() == owners + 1
    &&& aps[0] == 0
    &&& aps[owners] == fs.len()
    &&& forall|i: int, j: int| 0 <= i <= j <= owners ==> aps[i] <= aps[j]
}

/// `(fs, aps)` is the forward-star graph of board `b`: each cell's slice holds
/// exactly its on-board neighbours in the fixed direction order.
pub open spec fn is_graph_of(b: Seq<Vec<i8>>, fs: Seq<Field>, aps: Seq<u32>) -> bool {
    let n = b.len() as int;
    &&& aps_well_formed(fs, aps, n * n)
    &&& forall|x: int, y: int|
        0 <= x < n && 0 <= y < n ==> owner_slice(fs, aps, x * n + y) == #[trigger] neighbours(b, x, y)
}

/// Checks the shape of a board: not empty, side between 2 and 20, every row as long as the board.
pub fn bord_is_well_form(matrix_bord: &[Vec<i8>]) -> (r: Option<ResolverError>)
    ensures
        r == board_error(matrix_bord@),
{
    let n = matrix_bord.len();
    if n == 0 {
        return Some(ResolverError::EmptyBoard);
    }
    if n < 2 {
        return Some(ResolverError::TooShort);
    }
    if n > MAX_SIDE {
        return Some(ResolverError::TooLarge);
    }
    let mut i: usize = 0;
    while i < n
        invariant
            n == matrix_bord@.len(),
            2 <= n <= 20,
            i <= n,
            forall|k: int| 0 <= k < i ==> #[trigger] matrix_bord@[k]@.len() == n,
        decreases n - i,
    {
        if matrix_bord[i].len() != n {
            assert(matrix_bord@[i as int]@.len() != matrix_bord@.len());
            return Some(ResolverError::NotSquare);
        }
        i += 1;
    }
    None
}

/// The on-board neighbours of `(x, y)`, in the order left, right, up, down.
fn cell_neighbours(matrix: &Vec<Vec<i8>>, x: usize, y: usize) -> (r: Vec<Field>)
    requires
        valid_board(matrix@),
        x < matrix@.len(),
        y < matrix@.len(),
    ensures
        r@ == neighbours(matrix@, x as int, y as int),
        r@.len() <= 4,
        forall|k: int| 0 <= k < r@.len() ==> on_board(#[trigger] r@[k].coordinates, matrix@.len() as int),
{
    let n = matrix.len();
    assert(matrix@[x as int]@.len() == n);
    let mut r: Vec<Field> = Vec::new();
    if y > 0 {
        r.push(Field { coordinates: Point { x: Some(x), y: Some(y - 1) }, value: Some(matrix[x][y - 1]) });
    }
    if y + 1 < n {
        r.push(Field { coordinates: Point { x: Some(x), y: Some(y + 1) }, value: Some(matrix[x][y + 1]) });
    }
    if x > 0 {
        assert(matrix@[x - 1]@.len() == n);
        r.push(Field { coordinates: Point { x: Some(x - 1), y: Some(y) }, value: Some(matrix[x - 1][y]) });
    }
    if x + 1 < n {
        assert(matrix@[x + 1]@.len() == n);
        r.push(Field { coordinates: Point { x: Some(x + 1), y: Some(y) }, value: Some(matrix[x + 1][y]) });
    }
    assert(r@ =~= neighbours(matrix@, x as int, y as int));
    r
}

pub(crate) proof fn lemma_flat_index_before(n: int, x: int, y: int, i: int, j: int)
    requires
        0 <= x,
        0 <= y < n,
        0 <= j,
        x < i || (x == i && y < j),
    ensures
        x * n + y < i * n + j,
{
    if x < i {
        assert((x + 1) * n <= i * n) by (nonlinear_arith)
            requires
                x + 1 <= i,
                n >= 0,
        ;
        assert((x + 1) * n == x * n + n) by (nonlinear_arith);
    }
}

/// Builds the forward-star graph of a board: owners in row-major order, each
/// followed by its on-board neighbours left, right, up, down; `aps[k]..aps[k + 1]`
/// is the slice of owner `k`.
pub fn fs_aps_from_matrix(matrix: Vec<Vec<i8>>) -> (r: Result<(Vec<Field>, Vec<u32>), ResolverError>)
    ensures
        board_error(matrix@) is Some <==> r is Err,
        board_error(matrix@) is Some ==> r == Err::<(Vec<Field>, Vec<u32>), _>(board_error(matrix@)->0),
        r is Ok ==> is_graph_of(matrix@, r->Ok_0.0@, r->Ok_0.1@),
        r is Ok ==> graph_wf(r->Ok_0.0@, r->Ok_0.1@, matrix@.len() as int),
{
    if let Some(e) = bord_is_well_form(matrix.as_slice()) {
        return Err(e);
    }
    let n = matrix.len();
    let ghost b = matrix@;
    let mut fs: Vec<Field> = Vec::new();
    let mut aps: Vec<u32> = vec![0];
    assert(n * n <= 400) by (nonlinear_arith)
        requires
            n <= 20,
    ;
    let mut line_index: usize = 0;
    while line_index < n
        invariant
            b == matrix@,
            valid_board(b),
            n == b.len(),
            line_index <= n,
            aps@.len() == line_index * n + 1,
            aps@.len() <= n * n + 1,
            n * n <= 400,
            fs@.len() <= 4 * (aps@.len() - 1),
            aps@[0] == 0,
            aps@[aps@.len() - 1] == fs@.len(),
            forall|p: int, q: int| 0 <= p <= q < aps@.len() ==> aps@[p] <= aps@[q],
            forall|k: int| 0 <= k < fs@.len() ==> on_board(#[trigger] fs@[k].coordinates, n as int),
            forall|x: int, y: int|
                0 <= x < line_index && 0 <= y < n ==> owner_slice(fs@, aps@, x * n + y)
                    == #[trigger] neighbours(b, x, y),
        decreases n - line_index,
    {
        let mut index: usize = 0;
        while index < n
            invariant
                b == matrix@,
                valid_board(b),
                n == b.len(),
                line_index < n,
                index <= n,
                aps@.len() == line_index * n + index + 1,
                n * n <= 400,
                fs@.len() <= 4 * (aps@.len() - 1),
                aps@[0] == 0,
                aps@[aps@.len() - 1] == fs@.len(),
                forall|p: int, q: int| 0 <= p <= q < aps@.len() ==> aps@[p] <= aps@[q],
                forall|k: int| 0 <= k < fs@.len() ==> on_board(#[trigger] fs@[k].coordinates, n as int),
                forall|x: int, y: int|
                    0 <= x < n && 0 <= y < n && (x < line_index || (x == line_index && y < index))
                        ==> owner_slice(fs@, aps@, x * n + y) == #[trigger] neighbours(b, x, y),
            decreases n - index,
        {
            assert(line_index * n + index < n * n) by {
                lemma_flat_index_before(n as int, line_index as int, index as int, n as int, 0);
            }
            let ghost old_fs = fs@;
            let ghost old_aps = aps@;
            let mut owned = cell_neighbours(&matrix, line_index, index);
            let ghost owned_view = owned@;
            let count = owned.len();
            let last = aps[aps.len() - 1];
            fs.append(&mut owned);
            aps.push(last + count as u32);
            assert forall|k: int| 0 <= k < fs@.len() implies on_board(#[trigger] fs@[k].coordinates, n as int) by {
                if k >= old_fs.len() {
                    assert(fs@[k] == owned_view[k - old_fs.len()]);
                }
            }
            assert(owner_slice(fs@, aps@, line_index * n + index) =~= neighbours(b, line_index as int, index as int));
            assert forall|x: int, y: int|
                0 <= x < n && 0 <= y < n && (x < line_index || (x == line_index && y < index + 1))
                    implies owner_slice(fs@, aps@, x * n + y) == #[trigger] neighbours(b, x, y) by {
                if x < line_index || (x == line_index && y < index) {
                    lemma_flat_index_before(n as int, x, y, line_index as int, index as int);
                    let k = x * n + y;
                    assert(old_aps[k] <= old_aps[k + 1] <= old_fs.len());
                    assert(owner_slice(fs@, aps@, k) =~= owner_slice(old_fs, old_aps, k));
                }
            }
            index += 1;
        }
        assert((line_index + 1) * n == line_index * n + n) by (nonlinear_arith);
        assert((line_index + 1) * n <= n * n) by (nonlinear_arith)
            requires
                line_index + 1 <= n,
        ;
        line_index += 1;
    }
    assert(line_index * n == n * n);
    Ok((fs, aps))
}


/// Number of entries equal to `v` among the first `j` of `row`.
pub open spec fn count_in_row(row: Seq<i8>, j: int, v: i8) -> nat
    decreases j,
{
    if j <= 0 {
        0
    } else {
        count_in_row(row, j - 1, v) + if row[j - 1] == v { 1nat } else { 0nat }
    }
}

/// Number of cells equal to `v` in the first `i` rows of the board.
pub open spec fn count_in_rows(b: Seq<Vec<i8>>, i: int, v: i8) -> nat
    decreases i,
{
    if i <= 0 {
        0
    } else {
        count_in_rows(b, i - 1, v) + count_in_row(b[i - 1]@, b[i - 1]@.len() as int, v)
    }
}

/// Number of cells equal to `v` that come before `(x, y)` in row-major order.
pub open spec fn count_before(b: Seq<Vec<i8>>, x: int, y: int, v: i8) -> nat {
    count_in_rows(b, x, v) + count_in_row(b[x]@, y, v)
}

/// Number of cells of the board equal to `v`.
pub open spec fn count_all(b: Seq<Vec<i8>>, v: i8) -> nat {
    count_in_rows(b, b.len() as int, v)
}

/// `(x, y)` holds the second `v` of the board in row-major order, and at most one `w` precedes it.
pub open spec fn second_before(b: Seq<Vec<i8>>, v: i8, w: i8, x: int, y: int) -> bool {
    &&& 0 <= x < b.len()
    &&& 0 <= y < b.len()
    &&& b[x]@[y] == v
    &&& count_before(b, x, y, v) == 1
    &&& count_before(b, x, y, w) <= 1
}

/// `p` is the cell of the board at rank `k` among those equal to `v`, in row-major order.
pub open spec fn ranked_cell(b: Seq<Vec<i8>>, v: i8, k: int, p: Point) -> bool {
    exists|x: int, y: int|
        0 <= x < b.len() && 0 <= y < b.len() && b[x]@[y] == v && count_before(b, x, y, v) == k
            && p == #[trigger] point_at(x, y)
}

/// The failure of the single-target scan, if any: the validator's first, then a
/// second start or a second end (whichever comes first in row-major order), then a
/// missing start or end.
pub open spec fn scan_error(b: Seq<Vec<i8>>) -> Option<ResolverError> {
    if board_error(b) is Some {
        board_error(b)
    } else if exists|x: int, y: int| #[trigger] second_before(b, 1, 2, x, y) {
        Some(ResolverError::ManyStart)
    } else if exists|x: int, y: int| #[trigger] second_before(b, 2, 1, x, y) {
        Some(ResolverError::ManyEnd)
    } else if count_all(b, 1) == 0 || count_all(b, 2) == 0 {
        Some(ResolverError::MissingEndpoint)
    } else {
        None
    }
}

/// The failure of the multi-target scan, if any.
pub open spec fn multi_scan_error(b: Seq<Vec<i8>>) -> Option<ResolverError> {
    if board_error(b) is Some {
        board_error(b)
    } else if count_all(b, 1) >= 2 {
        Some(ResolverError::ManyStart)
    } else if count_all(b, 1) == 0 || count_all(b, 2) == 0 {
        Some(ResolverError::MissingEndpoint)
    } else {
        None
    }
}

proof fn lemma_row_mono(row: Seq<i8>, j1: int, j2: int, v: i8)
    requires
        j1 <= j2,
    ensures
        count_in_row(row, j1, v) <= count_in_row(row, j2, v),
    decreases j2 - j1,
{
    if j1 < j2 {
        lemma_row_mono(row, j1, j2 - 1, v);
    }
}

proof fn lemma_rows_mono(b: Seq<Vec<i8>>, i1: int, i2: int, v: i8)
    requires
        0 <= i1 <= i2,
    ensures
        count_in_rows(b, i1, v) <= count_in_rows(b, i2, v),
    decreases i2 - i1,
{
    if i1 < i2 {
        lemma_rows_mono(b, i1, i2 - 1, v);
    }
}

/// Counting before a later cell counts at least everything up to and including `(i, j)`.
proof fn lemma_before_mono(b: Seq<Vec<i8>>, i: int, j: int, x: int, y: int, v: i8)
    requires
        valid_board(b),
        0 <= i < b.len(),
        0 <= j < b.len(),
        0 <= x <= b.len(),
        0 <= y <= b.len(),
        x == b.len() ==> y == 0,
        i < x || (i == x && j < y),
    ensures
        count_before(b, x, y, v) >= count_before(b, i, j + 1, v),
{
    let n = b.len() as int;
    assert(b[i]@.len() == n);
    if i < x {
        lemma_rows_mono(b, i + 1, x, v);
        lemma_row_mono(b[i]@, j + 1, n, v);
    } else {
        lemma_row_mono(b[i]@, j + 1, y, v);
    }
}

/// Returns the start cell (value 1) and the end cell (value 2) of a board.
pub fn get_start_to_end_points(matrix_bord: Vec<Vec<i8>>) -> (r: Result<(Point, Point), ResolverError>)
    ensures
        scan_error(matrix_bord@) is Some <==> r is Err,
        r is Err ==> r == Err::<(Point, Point), _>(scan_error(matrix_bord@)->0),
        r is Ok ==> count_all(matrix_bord@, 1) == 1 && count_all(matrix_bord@, 2) == 1
            && ranked_cell(matrix_bord@, 1, 0, r->Ok_0.0) && ranked_cell(matrix_bord@, 2, 0, r->Ok_0.1),
{
    if let Some(e) = bord_is_well_form(matrix_bord.as_slice()) {
        return Err(e);
    }
    let ghost b = matrix_bord@;
    let n = matrix_bord.len();
    let mut start: Option<Point> = None;
    let mut end: Option<Point> = None;
    let mut i: usize = 0;
    while i < n
        invariant
            b == matrix_bord@,
            valid_board(b),
            n == b.len(),
            i <= n,
            count_before(b, i as int, 0, 1) <= 1,
            count_before(b, i as int, 0, 2) <= 1,
            start is Some <==> count_before(b, i as int, 0, 1) == 1,
            end is Some <==> count_before(b, i as int, 0, 2) == 1,
            start is Some ==> ranked_cell(b, 1, 0, start->0),
            end is Some ==> ranked_cell(b, 2, 0, end->0),
            forall|x: int, y: int| 0 <= x < i && 0 <= y < n ==> !#[trigger] second_before(b, 1, 2, x, y),
            forall|x: int, y: int| 0 <= x < i && 0 <= y < n ==> !#[trigger] second_before(b, 2, 1, x, y),
        decreases n - i,
    {
        assert(b[i as int]@.len() == n);
        let mut j: usize = 0;
        while j < n
            invariant
                b == matrix_bord@,
                valid_board(b),
                n == b.len(),
                i < n,
                j <= n,
                b[i as int]@.len() == n,
                count_before(b, i as int, j as int, 1) <= 1,
                count_before(b, i as int, j as int, 2) <= 1,
                start is Some <==> count_before(b, i as int, j as int, 1) == 1,
                end is Some <==> count_before(b, i as int, j as int, 2) == 1,
                start is Some ==> ranked_cell(b, 1, 0, start->0),
                end is Some ==> ranked_cell(b, 2, 0, end->0),
                forall|x: int, y: int|
                    0 <= x < n && 0 <= y < n && (x < i || (x == i && y < j)) ==> !#[trigger] second_before(b, 1, 2, x, y),
                forall|x: int, y: int|
                    0 <= x < n && 0 <= y < n && (x < i || (x == i && y < j)) ==> !#[trigger] second_before(b, 2, 1, x, y),
            decreases n - j,
        {
            let v = matrix_bord[i][j];
            if v == 1 {
                if start.is_some() {
                    assert(second_before(b, 1, 2, i as int, j as int));
                    return Err(ResolverError::ManyStart);
                }
                start = Some(Point { x: Some(i), y: Some(j) });
                assert(start->0 == point_at(i as int, j as int));
            } else if v == 2 {
                if end.is_some() {
                    assert(second_before(b, 2, 1, i as int, j as int));
                    assert forall|x: int, y: int| !#[trigger] second_before(b, 1, 2, x, y) by {
                        if 0 <= x < n && 0 <= y < n && !(x < i || (x == i && y < j)) && !(x == i && y == j) {
                            lemma_before_mono(b, i as int, j as int, x, y, 2);
                        }
                    }
                    return Err(ResolverError::ManyEnd);
                }
                end = Some(Point { x: Some(i), y: Some(j) });
                assert(end->0 == point_at(i as int, j as int));
            }
            assert(!second_before(b, 1, 2, i as int, j as int) && !second_before(b, 2, 1, i as int, j as int));
            j += 1;
        }
        i += 1;
    }
    assert(count_before(b, n as int, 0, 1) == count_all(b, 1));
    assert(count_before(b, n as int, 0, 2) == count_all(b, 2));
    assert(!exists|x: int, y: int| #[trigger] second_before(b, 1, 2, x, y));
    assert(!exists|x: int, y: int| #[trigger] second_before(b, 2, 1, x, y));
    match (start, end) {
        (Some(s), Some(e)) => Ok((s, e)),
        _ => Err(ResolverError::MissingEndpoint),
    }
}

/// Returns the start cell (value 1) and every end cell (value 2) of a board, the
/// ends in row-major order.
pub fn get_start_to_end_points_multi_roads(matrix_bord: Vec<Vec<i8>>) -> (r: Result<(Point, Vec<Point>), ResolverError>)
    ensures
        multi_scan_error(matrix_bord@) is Some <==> r is Err,
        r is Err ==> r == Err::<(Point, Vec<Point>), _>(multi_scan_error(matrix_bord@)->0),
        r is Ok ==> count_all(matrix_bord@, 1) == 1 && ranked_cell(matrix_bord@, 1, 0, r->Ok_0.0)
            && r->Ok_0.1@.len() == count_all(matrix_bord@, 2)
            && forall|k: int| 0 <= k < r->Ok_0.1@.len() ==> ranked_cell(matrix_bord@, 2, k, #[trigger] r->Ok_0.1@[k]),
{
    if let Some(e) = bord_is_well_form(matrix_bord.as_slice()) {
        return Err(e);
    }
    let ghost b = matrix_bord@;
    let n = matrix_bord.len();
    let mut start: Option<Point> = None;
    let mut ends: Vec<Point> = Vec::new();
    let mut i: usize = 0;
    while i < n
        invariant
            b == matrix_bord@,
            valid_board(b),
            n == b.len(),
            i <= n,
            count_before(b, i as int, 0, 1) <= 1,
            start is Some <==> count_before(b, i as int, 0, 1) == 1,
            start is Some ==> ranked_cell(b, 1, 0, start->0),
            ends@.len() == count_before(b, i as int, 0, 2),
            forall|k: int| 0 <= k < ends@.len() ==> ranked_cell(b, 2, k, #[trigger] ends@[k]),
        decreases n - i,
    {
        assert(b[i as int]@.len() == n);
        let mut j: usize = 0;
        while j < n
            invariant
                b == matrix_bord@,
                valid_board(b),
                n == b.len(),
                i < n,
                j <= n,
                b[i as int]@.len() == n,
                count_before(b, i as int, j as int, 1) <= 1,
                start is Some <==> count_before(b, i as int, j as int, 1) == 1,
                start is Some ==> ranked_cell(b, 1, 0, start->0),
                ends@.len() == count_before(b, i as int, j as int, 2),
                forall|k: int| 0 <= k < ends@.len() ==> ranked_cell(b, 2, k, #[trigger] ends@[k]),
            decreases n - j,
        {
            let v = matrix_bord[i][j];
            if v == 1 {
                if start.is_some() {
                    proof { lemma_before_mono(b, i as int, j as int, n as int, 0, 1); }
                    return Err(ResolverError::ManyStart);
                }
                start = Some(Point { x: Some(i), y: Some(j) });
                assert(start->0 == point_at(i as int, j as int));
            } else if v == 2 {
                let ghost k = ends@.len() as int;
                ends.push(Point { x: Some(i), y: Some(j) });
                assert(ends@[k] == point_at(i as int, j as int));
                assert(ranked_cell(b, 2, k, ends@[k]));
            }
            j += 1;
        }
        i += 1;
    }
    assert(count_before(b, n as int, 0, 1) == count_all(b, 1));
    match start {
        Some(s) => {
            if ends.len() == 0 {
                Err(ResolverError::MissingEndpoint)
            } else {
                Ok((s, ends))
            }
        },
        None => Err(ResolverError::MissingEndpoint),
    }
}


/// `p` is a declared cell of a side-`n` board.
pub open spec fn on_board(p: Point, n: int) -> bool {
    p.x is Some && p.y is Some && p.x->0 < n && p.y->0 < n
}

/// The row-major flat index of a declared point on a side-`n` board.
pub open spec fn flat_index(p: Point, n: int) -> int {
    p.x->0 * n + p.y->0
}

/// A forward-star graph over a side-`n` board (`1 <= n <= 20`): well-formed offsets
/// for the `n * n` owners, and every entry a cell of the board.
pub open spec fn graph_wf(fs: Seq<Field>, aps: Seq<u32>, n: int) -> bool {
    &&& 1 <= n <= 20
    &&& aps_well_formed(fs, aps, n * n)
    &&& forall|i: int| 0 <= i < fs.len() ==> on_board(#[trigger] fs[i].coordinates, n)
}

/// The slice of `fs` for owner `k`, clipped to `fs`; the neighbour lookup returns it.
pub open spec fn clipped_slice(fs: Seq<Field>, aps: Seq<u32>, k: int) -> Seq<Field> {
    let s = if aps[k] <= fs.len() { aps[k] as int } else { fs.len() as int };
    let e = if aps[k + 1] <= fs.len() { aps[k + 1] as int } else { fs.len() as int };
    fs.subrange(s, if e < s { s } else { e })
}

/// The neighbours that the graph lists for the cell of `f`.
pub open spec fn children(fs: Seq<Field>, aps: Seq<u32>, n: int, f: Field) -> Seq<Field> {
    owner_slice(fs, aps, flat_index(f.coordinates, n))
}

/// `g` can follow `f` on a path: the graph lists it as a neighbour of `f` and it is no obstacle.
pub open spec fn step(fs: Seq<Field>, aps: Seq<u32>, n: int, f: Field, g: Field) -> bool {
    children(fs, aps, n, f).contains(g) && g.value != Some(-1i8)
}

/// A non-empty sequence of cells, each a step from the one before.
pub open spec fn is_walk(fs: Seq<Field>, aps: Seq<u32>, n: int, w: Seq<Field>) -> bool {
    &&& w.len() >= 1
    &&& forall|k: int| 0 <= k < w.len() - 1 ==> step(fs, aps, n, #[trigger] w[k], w[k + 1])
}

/// A walk from `start` that ends on a target cell (value 2).
pub open spec fn is_route(fs: Seq<Field>, aps: Seq<u32>, n: int, start: Field, w: Seq<Field>) -> bool {
    &&& is_walk(fs, aps, n, w)
    &&& w[0] == start
    &&& w.last().value == Some(2i8)
}

/// Some target cell can be reached from `start`.
pub open spec fn target_reachable(fs: Seq<Field>, aps: Seq<u32>, n: int, start: Field) -> bool {
    exists|w: Seq<Field>| #[trigger] is_route(fs, aps, n, start, w)
}

/// The coordinates along a sequence of cells.
pub open spec fn coordinates_of(w: Seq<Field>) -> Seq<Point> {
    w.map_values(|f: Field| f.coordinates)
}

/// Whether `p` is a declared cell of a side-`n` board.
pub(crate) fn is_on_board(p: Point, n: usize) -> (r: bool)
    ensures
        r == on_board(p, n as int),
{
    match (p.x, p.y) {
        (Some(x), Some(y)) => x < n && y < n,
        _ => false,
    }
}

/// Copies the clipped slice of owner `index`.
pub(crate) fn neighbour_slice(fs: &Vec<Field>, aps: &Vec<u32>, index: usize) -> (r: Vec<Field>)
    requires
        index + 1 < aps@.len(),
    ensures
        r@ == clipped_slice(fs@, aps@, index as int),
{
    let len = fs.len();
    let aps_len = aps.len();
    assert(index + 1 < aps_len);
    let a = aps[index] as usize;
    let b = aps[index + 1] as usize;
    let s = if a <= len { a } else { len };
    let e0 = if b <= len { b } else { len };
    let e = if e0 < s { s } else { e0 };
    let mut r: Vec<Field> = Vec::new();
    let mut k = s;
    while k < e
        invariant
            s <= k <= e <= len == fs@.len(),
            r@ == fs@.subrange(s as int, k as int),
        decreases e - k,
    {
        r.push(fs[k]);
        k += 1;
        assert(r@ =~= fs@.subrange(s as int, k as int));
    }
    r
}

/// The neighbours of owner `index`: `fs[aps[index]..aps[index + 1]]`.
pub fn get_element_childs_from_fs_aps(fs: Vec<Field>, aps: Vec<u32>, index: usize) -> (r: Result<Vec<Field>, ResolverError>)
    ensures
        r is Err <==> index + 1 >= aps@.len(),
        r is Err ==> r == Err::<Vec<Field>, _>(ResolverError::IndexOutOfRange),
        r is Ok ==> r->Ok_0@ == clipped_slice(fs@, aps@, index as int),
        r is Ok && aps[index as int] <= aps[index + 1] <= fs@.len() ==> r->Ok_0@ == owner_slice(fs@, aps@, index as int),
{
    if index >= aps.len() || index + 1 >= aps.len() {
        return Err(ResolverError::IndexOutOfRange);
    }
    Ok(neighbour_slice(&fs, &aps, index))
}

/// `fs` with the value of every entry at coordinate `p` set to 0.
pub open spec fn neutralised(fs: Seq<Field>, p: Point) -> Seq<Field> {
    Seq::new(
        fs.len(),
        |k: int|
            if fs[k].coordinates == p {
                Field { coordinates: fs[k].coordinates, value: Some(0i8) }
            } else {
                fs[k]
            },
    )
}

/// Whether `list` holds `f`.
pub(crate) fn contains_field(list: &Vec<Field>, f: Field) -> (r: bool)
    ensures
        r == list@.contains(f),
{
    let mut i: usize = 0;
    while i < list.len()
        invariant
            i <= list@.len(),
            forall|k: int| 0 <= k < i ==> list@[k] != f,
        decreases list@.len() - i,
    {
        if list[i] == f {
            assert(list@[i as int] == f);
            return true;
        }
        i += 1;
    }
    false
}

/// Copies a list of cell records.
pub(crate) fn copy_fields(v: &Vec<Field>) -> (r: Vec<Field>)
    ensures
        r@ == v@,
{
    let mut r: Vec<Field> = Vec::new();
    let mut k: usize = 0;
    while k < v.len()
        invariant
            k <= v@.len(),
            r@ == v@.subrange(0, k as int),
        decreases v@.len() - k,
    {
        r.push(v[k]);
        k += 1;
        assert(r@ =~= v@.subrange(0, k as int));
    }
    assert(r@ =~= v@);
    r
}

/// Sets to 0 the value of every entry of `fs` at coordinate `end_point`, so that a
/// consumed target is no longer one; returns a copy of the updated list.
pub fn remove_end_point_from_aps(fs: &mut Vec<Field>, end_point: Point) -> (r: Vec<Field>)
    ensures
        final(fs)@ == neutralised(old(fs)@, end_point),
        r@ == final(fs)@,
{
    let ghost orig = fs@;
    let mut i: usize = 0;
    while i < fs.len()
        invariant
            fs@.len() == orig.len(),
            i <= fs@.len(),
            forall|k: int| 0 <= k < i ==> #[trigger] fs@[k] == neutralised(orig, end_point)[k],
            forall|k: int| i <= k < fs@.len() ==> #[trigger] fs@[k] == orig[k],
        decreases orig.len() - i,
    {
        let current = fs[i];
        if current.coordinates == end_point {
            fs.set(i, Field { coordinates: current.coordinates, value: Some(0) });
        }
        i += 1;
    }
    assert(fs@ =~= neutralised(orig, end_point));
    copy_fields(fs)
}

/// The cell record of the board at `index`.
pub fn get_field_by_index(matrix_bord: Vec<Vec<i8>>, index: Point) -> (r: Result<Field, ResolverError>)
    ensures
        board_error(matrix_bord@) is Some ==> r == Err::<Field, _>(board_error(matrix_bord@)->0),
        board_error(matrix_bord@) is None && !on_board(index, matrix_bord@.len() as int)
            ==> r == Err::<Field, _>(ResolverError::PointNotFound),
        board_error(matrix_bord@) is None && on_board(index, matrix_bord@.len() as int)
            ==> r == Ok::<Field, ResolverError>(cell(matrix_bord@, index.x->0 as int, index.y->0 as int)),
{
    if let Some(e) = bord_is_well_form(matrix_bord.as_slice()) {
        return Err(e);
    }
    let n = matrix_bord.len();
    match (index.x, index.y) {
        (Some(x), Some(y)) => {
            if x < n && y < n {
                assert(matrix_bord@[x as int]@.len() == n);
                Ok(Field { coordinates: index, value: Some(matrix_bord[x][y]) })
            } else {
                Err(ResolverError::PointNotFound)
            }
        },
        _ => Err(ResolverError::PointNotFound),
    }
}


/// The cell `(x, y)` that owns flat index `k` of a side-`n` board.
proof fn lemma_owner_of_index(k: int, n: int) -> (r: (int, int))
    requires
        0 < n,
        0 <= k < n * n,
    ensures
        0 <= r.0 < n,
        0 <= r.1 < n,
        r.0 * n + r.1 == k,
{
    vstd::arithmetic::div_mod::lemma_fundamental_div_mod(k, n);
    vstd::arithmetic::div_mod::lemma_div_pos_is_pos(k, n);
    vstd::arithmetic::div_mod::lemma_mod_bound(k, n);
    let x = k / n;
    let y = k % n;
    assert(x * n == n * x) by (nonlinear_arith);
    if x >= n {
        assert(x * n >= n * n) by (nonlinear_arith)
            requires
                x >= n,
                n > 0,
        ;
    }
    (x, y)
}

/// The owner whose slice holds position `p`.
proof fn lemma_owner_of_position(aps: Seq<u32>, owners: int, p: int) -> (k: int)
    requires
        0 <= owners < aps.len(),
        aps[0] <= p < aps[owners],
        forall|i: int, j: int| 0 <= i <= j <= owners ==> aps[i] <= aps[j],
    ensures
        0 <= k < owners,
        aps[k] <= p < aps[k + 1],
    decreases owners,
{
    if p >= aps[owners - 1] {
        owners - 1
    } else {
        lemma_owner_of_position(aps, owners - 1, p)
    }
}

/// The graph builder is deterministic: a board has exactly one forward-star graph,
/// so two builds of the same board give identical `(FS, APS)`.
pub proof fn lemma_graph_of_board_unique(b: Seq<Vec<i8>>, fs1: Seq<Field>, aps1: Seq<u32>, fs2: Seq<Field>, aps2: Seq<u32>)
    requires
        valid_board(b),
        is_graph_of(b, fs1, aps1),
        is_graph_of(b, fs2, aps2),
    ensures
        fs1 == fs2,
        aps1 == aps2,
{
    let n = b.len() as int;
    assert(n * n > 0) by (nonlinear_arith)
        requires
            n >= 2,
    ;
    assert forall|k: int| 0 <= k <= n * n implies aps1[k] == aps2[k] by {
        lemma_offsets_agree(b, fs1, aps1, fs2, aps2, k);
    }
    assert(aps1 =~= aps2);
    assert forall|p: int| 0 <= p < fs1.len() implies fs1[p] == fs2[p] by {
        let k = lemma_owner_of_position(aps1, n * n, p);
        let (x, y) = lemma_owner_of_index(k, n);
        assert(owner_slice(fs1, aps1, x * n + y) == neighbours(b, x, y));
        assert(owner_slice(fs2, aps2, x * n + y) == neighbours(b, x, y));
        assert(fs1[p] == owner_slice(fs1, aps1, k)[p - aps1[k]]);
        assert(fs2[p] == owner_slice(fs2, aps2, k)[p - aps2[k]]);
    }
    assert(fs1 =~= fs2);
}

proof fn lemma_offsets_agree(b: Seq<Vec<i8>>, fs1: Seq<Field>, aps1: Seq<u32>, fs2: Seq<Field>, aps2: Seq<u32>, k: int)
    requires
        valid_board(b),
        is_graph_of(b, fs1, aps1),
        is_graph_of(b, fs2, aps2),
        0 <= k <= b.len() * b.len(),
    ensures
        aps1[k] == aps2[k],
    decreases k,
{
    if k > 0 {
        let n = b.len() as int;
        lemma_offsets_agree(b, fs1, aps1, fs2, aps2, k - 1);
        let (x, y) = lemma_owner_of_index(k - 1, n);
        assert(owner_slice(fs1, aps1, x * n + y) == neighbours(b, x, y));
        assert(owner_slice(fs2, aps2, x * n + y) == neighbours(b, x, y));
        assert(owner_slice(fs1, aps1, k - 1).len() == aps1[k] - aps1[k - 1]);
        assert(owner_slice(fs2, aps2, k - 1).len() == aps2[k] - aps2[k - 1]);
    }
}


/// `f` is the record of some cell of the board.
pub open spec fn is_board_cell(b: Seq<Vec<i8>>, f: Field) -> bool {
    exists|x: int, y: int| 0 <= x < b.len() && 0 <= y < b.len() && f == #[trigger] cell(b, x, y)
}

/// Every entry of the graph of a board is the record of a board cell.
pub proof fn lemma_graph_entries_are_cells(b: Seq<Vec<i8>>, fs: Seq<Field>, aps: Seq<u32>, p: int)
    requires
        valid_board(b),
        is_graph_of(b, fs, aps),
        0 <= p < fs.len(),
    ensures
        is_board_cell(b, fs[p]),
{
    let n = b.len() as int;
    let k = lemma_owner_of_position(aps, n * n, p);
    let (x, y) = lemma_owner_of_index(k, n);
    let nb = neighbours(b, x, y);
    assert(owner_slice(fs, aps, x * n + y) == nb);
    assert(fs[p] == nb[p - aps[k]]);
    let j = p - aps[k];
    let l = if y > 0 { seq![cell(b, x, y - 1)] } else { seq![] };
    let r = if y + 1 < n { seq![cell(b, x, y + 1)] } else { seq![] };
    let u = if x > 0 { seq![cell(b, x - 1, y)] } else { seq![] };
    let d = if x + 1 < n { seq![cell(b, x + 1, y)] } else { seq![] };
    assert(nb == l + r + u + d);
    if j < l.len() {
        assert(fs[p] == cell(b, x, y - 1));
    } else if j < l.len() + r.len() {
        assert(fs[p] == cell(b, x, y + 1));
    } else if j < l.len() + r.len() + u.len() {
        assert(fs[p] == cell(b, x - 1, y));
    } else {
        assert(fs[p] == cell(b, x + 1, y));
    }
}

} // verus!
