//! The triangle index lists of the primitive meshes. The vertex positions,
//! uvs and normals of these meshes are floats and are built by the
//! application; the indices are built here, and every index they hold names
//! one of the mesh's vertices.
use vstd::prelude::*;

verus! {

/// The two triangles of cell `(r, c)` of a grid whose rows have `cols + 1`
/// vertices: `a`, `b` (the vertex below `a`), `a + 1`, then `b`, `b + 1`,
/// `a + 1`.
pub open spec fn grid_cell(cols: nat, r: nat, c: nat) -> Seq<u32> {
    let a = r * (cols + 1) + c;
    let b = a + cols + 1;
    seq![a as u32, b as u32, (a + 1) as u32, b as u32, (b + 1) as u32, (a + 1) as u32]
}

/// The triangles of the first `k` cells of a grid with `cols` cells per row,
/// row by row.
pub open spec fn grid_cells(cols: nat, k: nat) -> Seq<u32>
    decreases k,
{
    if k == 0 || cols == 0 {
        Seq::empty()
    } else {
        grid_cells(cols, (k - 1) as nat) + grid_cell(cols, ((k - 1) / (cols as int)) as nat, ((k - 1) % (cols as int)) as nat)
    }
}

/// The two triangles of cell `(row, col)` of a plane whose rows have `cols`
/// vertices: top-left, top-right, bottom-left, then top-right, bottom-right,
/// bottom-left.
pub open spec fn plane_cell(cols: nat, row: nat, col: nat) -> Seq<u32> {
    let tl = row * cols + col;
    let bl = tl + cols;
    seq![tl as u32, (tl + 1) as u32, bl as u32, (tl + 1) as u32, (bl + 1) as u32, bl as u32]
}

/// The triangles of the first `k` cells of a plane with `n` cells per side.
pub open spec fn plane_cells(n: nat, k: nat) -> Seq<u32>
    decreases k,
{
    if k == 0 || n == 0 {
        Seq::empty()
    } else {
        plane_cells(n, (k - 1) as nat) + plane_cell(n + 1, ((k - 1) / (n as int)) as nat, ((k - 1) % (n as int)) as nat)
    }
}

/// Whether every index of `s` names one of `count` vertices.
pub open spec fn indices_below(s: Seq<u32>, count: int) -> bool {
    forall|j: int| 0 <= j < s.len() ==> #[trigger] s[j] < count
}

/// Cells numbered row by row: cell `r * cols + c` is in row `r`, column `c`.
proof fn lemma_cell_position(cols: nat, r: nat, c: nat)
    requires
        c < cols,
    ensures
        ((r * cols + c) as int) / (cols as int) == r,
        ((r * cols + c) as int) % (cols as int) == c,
{
    vstd::arithmetic::div_mod::lemma_fundamental_div_mod_converse((r * cols + c) as int, cols as int, r as int, c as int);
}

/// The indices that `grid_cells` holds for cell `q` are those of
/// `grid_cell` for its row and column.
proof fn lemma_grid_cells_entry(cols: nat, k: nat, q: nat, i: int)
    requires
        cols > 0,
        q < k,
        0 <= i < 6,
    ensures
        grid_cells(cols, k).len() == 6 * k,
        grid_cells(cols, k)[6 * q + i] == grid_cell(cols, q / cols, q % cols)[i],
    decreases k,
{
    lemma_grid_cells_len(cols, (k - 1) as nat);
    if q < k - 1 {
        lemma_grid_cells_entry(cols, (k - 1) as nat, q, i);
    }
}

proof fn lemma_grid_cells_len(cols: nat, k: nat)
    requires
        cols > 0,
    ensures
        grid_cells(cols, k).len() == 6 * k,
    decreases k,
{
    if k > 0 {
        lemma_grid_cells_len(cols, (k - 1) as nat);
    }
}

/// The six indices of cell `(r, c)` in a grid index list: cell `r * cols + c`.
pub open spec fn grid_cell_indices(s: Seq<u32>, cols: nat, r: nat, c: nat) -> Seq<u32> {
    s.subrange(6 * (r * cols + c) as int, 6 * (r * cols + c) as int + 6)
}

/// The layout of a grid whose rows (rings) hold `cols + 1` vertices: cell
/// `(r, c)` starts at vertex `a = r * (cols + 1) + c` and is the triangles
/// `a, a + cols + 1, a + 1` and `a + cols + 1, a + cols + 2, a + 1`, so each
/// triangle joins ring `r` to ring `r + 1`.
pub proof fn lemma_grid_layout(rows: nat, cols: nat, r: nat, c: nat)
    requires
        r < rows,
        c < cols,
        (rows + 1) * (cols + 1) <= 0x1_0000_0000,
    ensures
        ({
            let a = r * (cols + 1) + c;
            let cell = grid_cell_indices(grid_cells(cols, rows * cols), cols, r, c);
            &&& cell.len() == 6
            &&& cell[0] == a
            &&& cell[1] == a + cols + 1
            &&& cell[2] == a + 1
            &&& cell[3] == a + cols + 1
            &&& cell[4] == a + cols + 2
            &&& cell[5] == a + 1
            &&& a + cols + 2 < (rows + 1) * (cols + 1)
        }),
{
    let q = r * cols + c;
    assert(q < rows * cols) by (nonlinear_arith)
        requires r < rows, c < cols, q == r * cols + c;
    assert(r * (cols + 1) + c + cols + 2 < (rows + 1) * (cols + 1)) by (nonlinear_arith)
        requires r + 1 <= rows, c + 1 <= cols;
    lemma_cell_position(cols, r, c);
    let s = grid_cells(cols, rows * cols);
    lemma_grid_cells_len(cols, rows * cols);
    assert forall|i: int| 0 <= i < 6 implies #[trigger] s[6 * q as int + i] == grid_cell(cols, r, c)[i] by {
        lemma_grid_cells_entry(cols, rows * cols, q, i);
    }
    let cell = grid_cell_indices(s, cols, r, c);
    assert(cell[0] == s[6 * q as int + 0]);
    assert(cell[1] == s[6 * q as int + 1]);
    assert(cell[2] == s[6 * q as int + 2]);
    assert(cell[3] == s[6 * q as int + 3]);
    assert(cell[4] == s[6 * q as int + 4]);
    assert(cell[5] == s[6 * q as int + 5]);
}

/// The triangle indices of a grid of `rows` by `cols` cells whose rows have
/// `cols + 1` vertices, as the sphere, the torus and the capsule use.
pub fn grid_indices(rows: u32, cols: u32) -> (v: Vec<u32>)
    requires
        rows == 0 || cols == 0 || (rows + 1) * (cols + 1) <= 0x1_0000_0000,
    ensures
        v@ == grid_cells(cols as nat, (rows * cols) as nat),
        v@.len() == 6 * (rows * cols),
        indices_below(v@, (rows + 1) * (cols + 1)),
        forall|r: nat, c: nat|
            r < rows && c < cols ==> #[trigger] grid_cell_indices(v@, cols as nat, r, c) == seq![
                (r * (cols + 1) + c) as u32,
                (r * (cols + 1) + c + cols + 1) as u32,
                (r * (cols + 1) + c + 1) as u32,
                (r * (cols + 1) + c + cols + 1) as u32,
                (r * (cols + 1) + c + cols + 2) as u32,
                (r * (cols + 1) + c + 1) as u32,
            ],
{
    let mut v: Vec<u32> = Vec::new();
    if cols == 0 {
        return v;
    }
    let mut r: u32 = 0;
    while r < rows
        invariant
            cols > 0,
            r <= rows,
            rows == 0 || (rows + 1) * (cols + 1) <= 0x1_0000_0000,
            v@ == grid_cells(cols as nat, (r * cols) as nat),
            v@.len() == 6 * (r * cols),
            indices_below(v@, (rows + 1) * (cols + 1)),
        decreases rows - r,
    {
        let mut c: u32 = 0;
        while c < cols
            invariant
                cols > 0,
                r < rows,
                c <= cols,
                (rows + 1) * (cols + 1) <= 0x1_0000_0000,
                v@ == grid_cells(cols as nat, (r * cols + c) as nat),
                v@.len() == 6 * (r * cols + c),
                indices_below(v@, (rows + 1) * (cols + 1)),
            decreases cols - c,
        {
            assert(r * (cols + 1) + c + cols + 2 < (rows + 1) * (cols + 1)) by (nonlinear_arith)
                requires r + 1 <= rows, c + 1 <= cols;
            let ghost before = v@;
            let a = r * (cols + 1) + c;
            let b = a + cols + 1;
            v.push(a);
            v.push(b);
            v.push(a + 1);
            v.push(b);
            v.push(b + 1);
            v.push(a + 1);
            proof {
                let bound = (rows + 1) * (cols + 1);
                assert forall|j: int| 0 <= j < v@.len() implies #[trigger] v@[j] < bound by {
                    if j < before.len() {
                        assert(v@[j] == before[j]);
                    }
                }
                lemma_cell_position(cols as nat, r as nat, c as nat);
                let k = (r * cols + c) as nat;
                assert(grid_cells(cols as nat, k + 1) == grid_cells(cols as nat, k) + grid_cell(cols as nat, r as nat, c as nat));
                assert(v@ =~= grid_cells(cols as nat, k + 1));
            }
            c = c + 1;
        }
        assert((r + 1) * cols == r * cols + cols) by (nonlinear_arith);
        r = r + 1;
    }
    proof {
        assert forall|r: nat, c: nat| r < rows && c < cols implies #[trigger] grid_cell_indices(
            v@,
            cols as nat,
            r,
            c,
        ) == seq![
            (r * (cols + 1) + c) as u32,
            (r * (cols + 1) + c + cols + 1) as u32,
            (r * (cols + 1) + c + 1) as u32,
            (r * (cols + 1) + c + cols + 1) as u32,
            (r * (cols + 1) + c + cols + 2) as u32,
            (r * (cols + 1) + c + 1) as u32,
        ] by {
            lemma_grid_layout(rows as nat, cols as nat, r, c);
            assert(grid_cell_indices(v@, cols as nat, r, c) =~= seq![
                (r * (cols + 1) + c) as u32,
                (r * (cols + 1) + c + cols + 1) as u32,
                (r * (cols + 1) + c + 1) as u32,
                (r * (cols + 1) + c + cols + 1) as u32,
                (r * (cols + 1) + c + cols + 2) as u32,
                (r * (cols + 1) + c + 1) as u32,
            ]);
        }
    }
    v
}

proof fn lemma_plane_cells_len(n: nat, k: nat)
    requires
        n > 0,
    ensures
        plane_cells(n, k).len() == 6 * k,
    decreases k,
{
    if k > 0 {
        lemma_plane_cells_len(n, (k - 1) as nat);
    }
}

proof fn lemma_plane_cells_entry(n: nat, k: nat, q: nat, i: int)
    requires
        n > 0,
        q < k,
        0 <= i < 6,
    ensures
        plane_cells(n, k)[6 * q as int + i] == plane_cell(n + 1, q / n, q % n)[i],
    decreases k,
{
    lemma_plane_cells_len(n, (k - 1) as nat);
    if q < k - 1 {
        lemma_plane_cells_entry(n, (k - 1) as nat, q, i);
    }
}

/// The layout of a plane with `n` cells per side, whose rows hold `n + 1`
/// vertices: cell `(r, c)` starts at its top-left vertex `a = r * (n + 1) + c`
/// and is the triangles `a, a + 1, a + n + 1` and `a + 1, a + n + 2, a + n + 1`.
pub proof fn lemma_plane_layout(n: nat, r: nat, c: nat)
    requires
        r < n,
        c < n,
        (n + 1) * (n + 1) <= 0x1_0000_0000,
    ensures
        ({
            let m = n + 1;
            let a = r * m + c;
            grid_cell_indices(plane_cells(n, n * n), n, r, c) == seq![
                (a) as u32,
                (a + 1) as u32,
                (a + m) as u32,
                (a + 1) as u32,
                (a + m + 1) as u32,
                (a + m) as u32
            ]
        }),
{
    let q = r * n + c;
    assert(q < n * n) by (nonlinear_arith)
        requires r < n, c < n, q == r * n + c;
    assert(r * (n + 1) + c + n + 2 < (n + 1) * (n + 1)) by (nonlinear_arith)
        requires r + 1 <= n, c + 1 <= n;
    lemma_cell_position(n, r, c);
    let s = plane_cells(n, n * n);
    lemma_plane_cells_len(n, n * n);
    assert forall|i: int| 0 <= i < 6 implies #[trigger] s[6 * q as int + i] == plane_cell(n + 1, r, c)[i] by {
        lemma_plane_cells_entry(n, n * n, q, i);
    }
    let m = n + 1;
    let a = r * m + c;
    assert(grid_cell_indices(s, n, r, c) =~= seq![
                (a) as u32,
                (a + 1) as u32,
                (a + m) as u32,
                (a + 1) as u32,
                (a + m + 1) as u32,
                (a + m) as u32
    ]) by {
        assert(grid_cell_indices(s, n, r, c)[0] == s[6 * q as int + 0]);
        assert(grid_cell_indices(s, n, r, c)[1] == s[6 * q as int + 1]);
        assert(grid_cell_indices(s, n, r, c)[2] == s[6 * q as int + 2]);
        assert(grid_cell_indices(s, n, r, c)[3] == s[6 * q as int + 3]);
        assert(grid_cell_indices(s, n, r, c)[4] == s[6 * q as int + 4]);
        assert(grid_cell_indices(s, n, r, c)[5] == s[6 * q as int + 5]);
        assert((r + 1) * m + c == a + m) by (nonlinear_arith)
            requires a == r * m + c;
    }
}

proof fn lemma_terrain_cells_len(n: nat, k: nat)
    requires
        n > 0,
    ensures
        terrain_cells(n, k).len() == 6 * k,
    decreases k,
{
    if k > 0 {
        lemma_terrain_cells_len(n, (k - 1) as nat);
    }
}

proof fn lemma_terrain_cells_entry(n: nat, k: nat, q: nat, i: int)
    requires
        n > 0,
        q < k,
        0 <= i < 6,
    ensures
        terrain_cells(n, k)[6 * q as int + i] == terrain_cell(n + 1, q / n, q % n)[i],
    decreases k,
{
    lemma_terrain_cells_len(n, (k - 1) as nat);
    if q < k - 1 {
        lemma_terrain_cells_entry(n, (k - 1) as nat, q, i);
    }
}

/// The layout of a terrain grid of `n` by `n` cells, whose rows hold `n + 1`
/// vertices: cell `(i, j)` starts at `a = i * (n + 1) + j` and is the
/// triangles `a, a + 1, a + n + 2` and `a, a + n + 2, a + n + 1`.
pub proof fn lemma_terrain_layout(n: nat, r: nat, c: nat)
    requires
        r < n,
        c < n,
        (n + 1) * (n + 1) <= 0x1_0000_0000,
    ensures
        ({
            let m = n + 1;
            let a = r * m + c;
            grid_cell_indices(terrain_cells(n, n * n), n, r, c) == seq![
                (a) as u32,
                (a + 1) as u32,
                (a + m + 1) as u32,
                (a) as u32,
                (a + m + 1) as u32,
                (a + m) as u32
            ]
        }),
{
    let q = r * n + c;
    assert(q < n * n) by (nonlinear_arith)
        requires r < n, c < n, q == r * n + c;
    assert(r * (n + 1) + c + n + 2 < (n + 1) * (n + 1)) by (nonlinear_arith)
        requires r + 1 <= n, c + 1 <= n;
    lemma_cell_position(n, r, c);
    let s = terrain_cells(n, n * n);
    lemma_terrain_cells_len(n, n * n);
    assert forall|i: int| 0 <= i < 6 implies #[trigger] s[6 * q as int + i] == terrain_cell(n + 1, r, c)[i] by {
        lemma_terrain_cells_entry(n, n * n, q, i);
    }
    let m = n + 1;
    let a = r * m + c;
    assert(grid_cell_indices(s, n, r, c) =~= seq![
                (a) as u32,
                (a + 1) as u32,
                (a + m + 1) as u32,
                (a) as u32,
                (a + m + 1) as u32,
                (a + m) as u32
    ]) by {
        assert(grid_cell_indices(s, n, r, c)[0] == s[6 * q as int + 0]);
        assert(grid_cell_indices(s, n, r, c)[1] == s[6 * q as int + 1]);
        assert(grid_cell_indices(s, n, r, c)[2] == s[6 * q as int + 2]);
        assert(grid_cell_indices(s, n, r, c)[3] == s[6 * q as int + 3]);
        assert(grid_cell_indices(s, n, r, c)[4] == s[6 * q as int + 4]);
        assert(grid_cell_indices(s, n, r, c)[5] == s[6 * q as int + 5]);
        assert((r + 1) * m + c == a + m) by (nonlinear_arith)
            requires a == r * m + c;
    }
}

/// The number of vertices of a plane with `subdivisions`: `(n + 1)^2` for
/// `n = subdivisions + 1` cells per side.
pub open spec fn plane_vertex_count(subdivisions: u8) -> int {
    (subdivisions + 2) * (subdivisions + 2)
}

/// The triangle indices of a plane with `subdivisions + 1` cells per side.
pub fn plane_indices(subdivisions: u8) -> (v: Vec<u32>)
    ensures
        v@ == plane_cells((subdivisions + 1) as nat, ((subdivisions + 1) * (subdivisions + 1)) as nat),
        v@.len() == 6 * ((subdivisions + 1) * (subdivisions + 1)),
        indices_below(v@, plane_vertex_count(subdivisions)),
        forall|r: nat, c: nat|
            r < subdivisions + 1 && c < subdivisions + 1 ==> #[trigger] grid_cell_indices(v@, (subdivisions + 1) as nat, r, c) == seq![
                ((r * ((subdivisions + 1) + 1) + c)) as u32,
                ((r * ((subdivisions + 1) + 1) + c) + 1) as u32,
                ((r * ((subdivisions + 1) + 1) + c) + ((subdivisions + 1) + 1)) as u32,
                ((r * ((subdivisions + 1) + 1) + c) + 1) as u32,
                ((r * ((subdivisions + 1) + 1) + c) + ((subdivisions + 1) + 1) + 1) as u32,
                ((r * ((subdivisions + 1) + 1) + c) + ((subdivisions + 1) + 1)) as u32,
            ],
{
    let n: u32 = subdivisions as u32 + 1;
    let cols = n + 1;
    let mut v: Vec<u32> = Vec::new();
    let mut row: u32 = 0;
    while row < n
        invariant
            n == subdivisions + 1,
            cols == n + 1,
            row <= n,
            v@ == plane_cells(n as nat, (row * n) as nat),
            v@.len() == 6 * (row * n),
            indices_below(v@, plane_vertex_count(subdivisions)),
        decreases n - row,
    {
        let mut col: u32 = 0;
        while col < n
            invariant
                n == subdivisions + 1,
                cols == n + 1,
                row < n,
                col <= n,
                v@ == plane_cells(n as nat, (row * n + col) as nat),
                v@.len() == 6 * (row * n + col),
                indices_below(v@, plane_vertex_count(subdivisions)),
            decreases n - col,
        {
            assert(row * cols + col + cols + 1 < cols * cols) by (nonlinear_arith)
                requires row + 1 <= n, col + 1 <= n, cols == n + 1;
            assert(cols * cols <= 258 * 258) by (nonlinear_arith)
                requires cols <= 258;
            let ghost before = v@;
            let tl = row * cols + col;
            let tr = tl + 1;
            let bl = tl + cols;
            let br = bl + 1;
            v.push(tl);
            v.push(tr);
            v.push(bl);
            v.push(tr);
            v.push(br);
            v.push(bl);
            proof {
                assert forall|j: int| 0 <= j < v@.len() implies #[trigger] v@[j] < plane_vertex_count(subdivisions) by {
                    if j < before.len() {
                        assert(v@[j] == before[j]);
                    }
                }
                lemma_cell_position(n as nat, row as nat, col as nat);
                let k = (row * n + col) as nat;
                assert(plane_cells(n as nat, k + 1) == plane_cells(n as nat, k) + plane_cell(cols as nat, row as nat, col as nat));
                assert(v@ =~= plane_cells(n as nat, k + 1));
            }
            col = col + 1;
        }
        assert((row + 1) * n == row * n + n) by (nonlinear_arith);
        row = row + 1;
    }
    proof {
        assert forall|r: nat, c: nat| r < subdivisions + 1 && c < subdivisions + 1 implies #[trigger] grid_cell_indices(
            v@,
            (subdivisions + 1) as nat,
            r,
            c,
        ) == seq![
                ((r * ((subdivisions + 1) + 1) + c)) as u32,
                ((r * ((subdivisions + 1) + 1) + c) + 1) as u32,
                ((r * ((subdivisions + 1) + 1) + c) + ((subdivisions + 1) + 1)) as u32,
                ((r * ((subdivisions + 1) + 1) + c) + 1) as u32,
                ((r * ((subdivisions + 1) + 1) + c) + ((subdivisions + 1) + 1) + 1) as u32,
                ((r * ((subdivisions + 1) + 1) + c) + ((subdivisions + 1) + 1)) as u32,
            ] by {
            assert(((subdivisions + 1) as nat + 1) * ((subdivisions + 1) as nat + 1) <= 0x1_0000_0000) by (nonlinear_arith)
                requires subdivisions <= 255;
            lemma_plane_layout((subdivisions + 1) as nat, r, c);
        }
    }
    v
}

/// The number of rings of vertices of a capsule: two hemispheres of
/// `rings / 2 + 1` rings and the two rings of the cylinder between them.
pub open spec fn capsule_ring_count(rings: u32) -> int {
    2 * (rings / 2 + 1) + 2
}

/// The triangle indices of a capsule with `segments` cells around and
/// `rings` rings: a grid of `capsule_ring_count(rings) - 1` rows.
pub fn capsule_indices(segments: u32, rings: u32) -> (v: Vec<u32>)
    requires
        capsule_ring_count(rings) <= u32::MAX,
        segments == 0 || capsule_ring_count(rings) * (segments + 1) <= 0x1_0000_0000,
    ensures
        v@ == grid_cells(segments as nat, ((capsule_ring_count(rings) - 1) * segments) as nat),
        indices_below(v@, capsule_ring_count(rings) * (segments + 1)),
{
    let half_rings = rings / 2;
    let total_rings = (half_rings + 1) + 2 + (half_rings + 1);
    grid_indices(total_rings - 1, segments)
}

/// The number of vertices of a cylinder with `segments` cells around: two
/// rings of `segments + 1` for the side, and a centre and a ring for each cap.
pub open spec fn cylinder_vertex_count(segments: u32) -> int {
    4 * segments + 6
}

/// The side of a cylinder: cell `i` joins bottom vertex `2i`, top vertex
/// `2i + 1` and the next pair.
pub open spec fn cylinder_side(k: nat) -> Seq<u32> {
    Seq::new(
        6 * k,
        |j: int|
            {
                let b = 2 * (j / 6);
                let n = b + 2;
                let t = j % 6;
                (if t == 0 { b } else if t == 1 { n } else if t == 2 { b + 1 } else if t == 3 { n } else if t == 4 {
                    n + 1
                } else {
                    b + 1
                }) as u32
            },
    )
}

/// A fan of `k` triangles around `center` over the ring that follows it;
/// `flip` reverses their winding.
pub open spec fn cap_fan(center: int, k: nat, flip: bool) -> Seq<u32> {
    Seq::new(
        3 * k,
        |j: int|
            {
                let i = j / 3;
                let t = j % 3;
                (if t == 0 { center } else if (t == 1) != flip { center + 1 + i } else { center + 2 + i }) as u32
            },
    )
}

/// Appends a fan of `k` triangles around `center`.
fn push_fan(v: &mut Vec<u32>, center: u32, k: u32, flip: bool)
    requires
        center + k + 1 <= u32::MAX,
    ensures
        final(v)@ == old(v)@ + cap_fan(center as int, k as nat, flip),
{
    let ghost start = v@;
    let mut i: u32 = 0;
    while i < k
        invariant
            i <= k,
            center + k + 1 <= u32::MAX,
            v@ == start + cap_fan(center as int, i as nat, flip),
        decreases k - i,
    {
        v.push(center);
        if flip {
            v.push(center + 2 + i);
            v.push(center + 1 + i);
        } else {
            v.push(center + 1 + i);
            v.push(center + 2 + i);
        }
        i = i + 1;
        assert(v@ =~= start + cap_fan(center as int, i as nat, flip));
    }
}

/// Triangle `k` of an index list: its indices `3k`, `3k + 1`, `3k + 2`.
pub open spec fn triangle_at(s: Seq<u32>, k: int) -> Seq<u32> {
    s.subrange(3 * k, 3 * k + 3)
}

/// The triangle indices of a cylinder with `segments` cells around: the
/// side, the bottom cap around vertex `2 * segments + 2`, and the top cap,
/// wound the other way, around vertex `3 * segments + 4`.
pub fn cylinder_indices(segments: u32) -> (v: Vec<u32>)
    requires
        cylinder_vertex_count(segments) <= u32::MAX,
    ensures
        v@ == cylinder_side(segments as nat) + cap_fan(2 * segments + 2, segments as nat, false) + cap_fan(
            3 * segments + 4,
            segments as nat,
            true,
        ),
        indices_below(v@, cylinder_vertex_count(segments)),
        v@.len() == 12 * segments,
        forall|i: int|
            0 <= i < segments ==> #[trigger] triangle_at(v@, 2 * i) == seq![(2 * i) as u32, (2 * i + 2) as u32, (2 * i + 1) as u32]
                && triangle_at(v@, 2 * i + 1) == seq![(2 * i + 2) as u32, (2 * i + 3) as u32, (2 * i + 1) as u32],
        forall|i: int|
            0 <= i < segments ==> #[trigger] triangle_at(v@, 2 * segments + i) == seq![
                (2 * segments + 2) as u32,
                (2 * segments + 3 + i) as u32,
                (2 * segments + 4 + i) as u32,
            ],
        forall|i: int|
            0 <= i < segments ==> #[trigger] triangle_at(v@, 3 * segments + i) == seq![
                (3 * segments + 4) as u32,
                (3 * segments + 6 + i) as u32,
                (3 * segments + 5 + i) as u32,
            ],
{
    let mut v: Vec<u32> = Vec::new();
    let mut i: u32 = 0;
    while i < segments
        invariant
            i <= segments,
            cylinder_vertex_count(segments) <= u32::MAX,
            v@ == cylinder_side(i as nat),
        decreases segments - i,
    {
        let b = i * 2;
        let n = b + 2;
        v.push(b);
        v.push(n);
        v.push(b + 1);
        v.push(n);
        v.push(n + 1);
        v.push(b + 1);
        i = i + 1;
        assert(v@ =~= cylinder_side(i as nat));
    }
    let bottom_center = 2 * segments + 2;
    push_fan(&mut v, bottom_center, segments, false);
    let top_center = bottom_center + 1 + (segments + 1);
    push_fan(&mut v, top_center, segments, true);
    proof {
        let bound = cylinder_vertex_count(segments);
        assert forall|j: int| 0 <= j < v@.len() implies #[trigger] v@[j] < bound by {
            let side = cylinder_side(segments as nat);
            let bottom = cap_fan(2 * segments + 2, segments as nat, false);
            if j < side.len() {
                assert(v@[j] == side[j]);
            } else if j < side.len() + bottom.len() {
                assert(v@[j] == bottom[j - side.len()]);
            } else {
                assert(v@[j] == cap_fan(3 * segments + 4, segments as nat, true)[j - side.len() - bottom.len()]);
            }
        }
        let side = cylinder_side(segments as nat);
        let bottom = cap_fan(2 * segments + 2, segments as nat, false);
        let top = cap_fan(3 * segments + 4, segments as nat, true);
        assert forall|i: int| 0 <= i < segments implies #[trigger] triangle_at(v@, 2 * i) == seq![
            (2 * i) as u32,
            (2 * i + 2) as u32,
            (2 * i + 1) as u32,
        ] && triangle_at(v@, 2 * i + 1) == seq![(2 * i + 2) as u32, (2 * i + 3) as u32, (2 * i + 1) as u32] by {
            assert(v@[6 * i + 0] == side[6 * i + 0]);
            assert(v@[6 * i + 1] == side[6 * i + 1]);
            assert(v@[6 * i + 2] == side[6 * i + 2]);
            assert(v@[6 * i + 3] == side[6 * i + 3]);
            assert(v@[6 * i + 4] == side[6 * i + 4]);
            assert(v@[6 * i + 5] == side[6 * i + 5]);
            assert((6 * i + 0) / 6 == i && (6 * i + 1) / 6 == i && (6 * i + 2) / 6 == i && (6 * i + 3) / 6 == i
                && (6 * i + 4) / 6 == i && (6 * i + 5) / 6 == i);
            assert((6 * i + 0) % 6 == 0 && (6 * i + 1) % 6 == 1 && (6 * i + 2) % 6 == 2 && (6 * i + 3) % 6 == 3
                && (6 * i + 4) % 6 == 4 && (6 * i + 5) % 6 == 5);
            assert(triangle_at(v@, 2 * i) =~= seq![(2 * i) as u32, (2 * i + 2) as u32, (2 * i + 1) as u32]);
            assert(triangle_at(v@, 2 * i + 1) =~= seq![(2 * i + 2) as u32, (2 * i + 3) as u32, (2 * i + 1) as u32]);
        }
        assert forall|i: int| 0 <= i < segments implies #[trigger] triangle_at(v@, 2 * segments + i) == seq![
            (2 * segments + 2) as u32,
            (2 * segments + 3 + i) as u32,
            (2 * segments + 4 + i) as u32,
        ] by {
            let o = 6 * segments;
            assert(v@[o + 3 * i + 0] == bottom[3 * i + 0]);
            assert(v@[o + 3 * i + 1] == bottom[3 * i + 1]);
            assert(v@[o + 3 * i + 2] == bottom[3 * i + 2]);
            assert((3 * i + 0) / 3 == i && (3 * i + 1) / 3 == i && (3 * i + 2) / 3 == i);
            assert((3 * i + 0) % 3 == 0 && (3 * i + 1) % 3 == 1 && (3 * i + 2) % 3 == 2);
            assert(triangle_at(v@, 2 * segments + i) =~= seq![
                (2 * segments + 2) as u32,
                (2 * segments + 3 + i) as u32,
                (2 * segments + 4 + i) as u32,
            ]);
        }
        assert forall|i: int| 0 <= i < segments implies #[trigger] triangle_at(v@, 3 * segments + i) == seq![
            (3 * segments + 4) as u32,
            (3 * segments + 6 + i) as u32,
            (3 * segments + 5 + i) as u32,
        ] by {
            let o = 9 * segments;
            assert(v@[o + 3 * i + 0] == top[3 * i + 0]);
            assert(v@[o + 3 * i + 1] == top[3 * i + 1]);
            assert(v@[o + 3 * i + 2] == top[3 * i + 2]);
            assert((3 * i + 0) / 3 == i && (3 * i + 1) / 3 == i && (3 * i + 2) / 3 == i);
            assert((3 * i + 0) % 3 == 0 && (3 * i + 1) % 3 == 1 && (3 * i + 2) % 3 == 2);
            assert(triangle_at(v@, 3 * segments + i) =~= seq![
                (3 * segments + 4) as u32,
                (3 * segments + 6 + i) as u32,
                (3 * segments + 5 + i) as u32,
            ]);
        }
    }
    v
}

/// The number of vertices of a cone with `segments` cells around: the apex,
/// a ring of `segments + 1`, the centre of the base and its ring.
pub open spec fn cone_vertex_count(segments: u32) -> int {
    2 * segments + 4
}

/// The triangle indices of a cone: a fan around the apex (vertex 0) and the
/// base, wound the other way, around vertex `segments + 2`.
pub fn cone_indices(segments: u32) -> (v: Vec<u32>)
    requires
        cone_vertex_count(segments) <= u32::MAX,
    ensures
        v@ == cap_fan(0, segments as nat, false) + cap_fan(segments + 2, segments as nat, true),
        indices_below(v@, cone_vertex_count(segments)),
        v@.len() == 6 * segments,
        forall|i: int|
            0 <= i < segments ==> #[trigger] triangle_at(v@, i) == seq![0u32, (1 + i) as u32, (2 + i) as u32],
        forall|i: int|
            0 <= i < segments ==> #[trigger] triangle_at(v@, segments + i) == seq![
                (segments + 2) as u32,
                (segments + 4 + i) as u32,
                (segments + 3 + i) as u32,
            ],
{
    let mut v: Vec<u32> = Vec::new();
    let apex: u32 = 0;
    push_fan(&mut v, apex, segments, false);
    assert(v@ =~= cap_fan(0, segments as nat, false));
    let cap_center = 1 + (segments + 1);
    push_fan(&mut v, cap_center, segments, true);
    proof {
        let bound = cone_vertex_count(segments);
        assert forall|j: int| 0 <= j < v@.len() implies #[trigger] v@[j] < bound by {
            let first = cap_fan(0, segments as nat, false);
            if j < first.len() {
                assert(v@[j] == first[j]);
            } else {
                assert(v@[j] == cap_fan(segments + 2, segments as nat, true)[j - first.len()]);
            }
        }
        let first = cap_fan(0, segments as nat, false);
        let cap = cap_fan(segments + 2, segments as nat, true);
        assert forall|i: int| 0 <= i < segments implies #[trigger] triangle_at(v@, i) == seq![
            0u32,
            (1 + i) as u32,
            (2 + i) as u32,
        ] by {
            assert(v@[3 * i + 0] == first[3 * i + 0]);
            assert(v@[3 * i + 1] == first[3 * i + 1]);
            assert(v@[3 * i + 2] == first[3 * i + 2]);
            assert((3 * i + 0) / 3 == i && (3 * i + 1) / 3 == i && (3 * i + 2) / 3 == i);
            assert((3 * i + 0) % 3 == 0 && (3 * i + 1) % 3 == 1 && (3 * i + 2) % 3 == 2);
            assert(triangle_at(v@, i) =~= seq![0u32, (1 + i) as u32, (2 + i) as u32]);
        }
        assert forall|i: int| 0 <= i < segments implies #[trigger] triangle_at(v@, segments + i) == seq![
            (segments + 2) as u32,
            (segments + 4 + i) as u32,
            (segments + 3 + i) as u32,
        ] by {
            let o = 3 * segments;
            assert(v@[o + 3 * i + 0] == cap[3 * i + 0]);
            assert(v@[o + 3 * i + 1] == cap[3 * i + 1]);
            assert(v@[o + 3 * i + 2] == cap[3 * i + 2]);
            assert((3 * i + 0) / 3 == i && (3 * i + 1) / 3 == i && (3 * i + 2) / 3 == i);
            assert((3 * i + 0) % 3 == 0 && (3 * i + 1) % 3 == 1 && (3 * i + 2) % 3 == 2);
            assert(triangle_at(v@, segments + i) =~= seq![
                (segments + 2) as u32,
                (segments + 4 + i) as u32,
                (segments + 3 + i) as u32,
            ]);
        }
    }
    v
}

/// The two triangles of cell `(i, j)` of a heightmap whose rows have `cols`
/// vertices: top-left, bottom-left, bottom-right, then top-left,
/// bottom-right, top-right, where "bottom" is the next vertex of row `i`
/// and "right" the same vertex of row `i + 1`.
pub open spec fn terrain_cell(cols: nat, i: nat, j: nat) -> Seq<u32> {
    let tl = i * cols + j;
    let tr = (i + 1) * cols + j;
    let bl = tl + 1;
    let br = tr + 1;
    seq![tl as u32, bl as u32, br as u32, tl as u32, br as u32, tr as u32]
}

/// The triangles of the first `k` cells of a heightmap of `n` by `n` cells.
pub open spec fn terrain_cells(n: nat, k: nat) -> Seq<u32>
    decreases k,
{
    if k == 0 || n == 0 {
        Seq::empty()
    } else {
        terrain_cells(n, (k - 1) as nat) + terrain_cell(n + 1, ((k - 1) / (n as int)) as nat, ((k - 1) % (n as int)) as nat)
    }
}

/// The triangle indices of the terrain heightmap: `grid_size` by
/// `grid_size` cells over `(grid_size + 1)^2` vertices.
pub fn terrain_indices(grid_size: u32) -> (v: Vec<u32>)
    requires
        (grid_size + 1) * (grid_size + 1) <= 0x1_0000_0000,
    ensures
        v@ == terrain_cells(grid_size as nat, (grid_size * grid_size) as nat),
        v@.len() == 6 * (grid_size * grid_size),
        indices_below(v@, (grid_size + 1) * (grid_size + 1)),
        forall|r: nat, c: nat|
            r < grid_size && c < grid_size ==> #[trigger] grid_cell_indices(v@, grid_size as nat, r, c) == seq![
                ((r * (grid_size + 1) + c)) as u32,
                ((r * (grid_size + 1) + c) + 1) as u32,
                ((r * (grid_size + 1) + c) + (grid_size + 1) + 1) as u32,
                ((r * (grid_size + 1) + c)) as u32,
                ((r * (grid_size + 1) + c) + (grid_size + 1) + 1) as u32,
                ((r * (grid_size + 1) + c) + (grid_size + 1)) as u32,
            ],
{
    let n = grid_size;
    let mut v: Vec<u32> = Vec::new();
    if n == 0 {
        return v;
    }
    assert(n + 1 <= 0x1_0000) by (nonlinear_arith)
        requires (n + 1) * (n + 1) <= 0x1_0000_0000;
    let cols = n + 1;
    let mut i: u32 = 0;
    while i < n
        invariant
            n > 0,
            cols == n + 1,
            cols * cols <= 0x1_0000_0000,
            i <= n,
            v@ == terrain_cells(n as nat, (i * n) as nat),
            v@.len() == 6 * (i * n),
            indices_below(v@, cols * cols),
        decreases n - i,
    {
        let mut j: u32 = 0;
        while j < n
            invariant
                n > 0,
                cols == n + 1,
                cols * cols <= 0x1_0000_0000,
                i < n,
                j <= n,
                v@ == terrain_cells(n as nat, (i * n + j) as nat),
                v@.len() == 6 * (i * n + j),
                indices_below(v@, cols * cols),
            decreases n - j,
        {
            assert((i + 1) * cols + j + 1 < cols * cols) by (nonlinear_arith)
                requires i + 1 <= n, j + 1 <= n, cols == n + 1;
            assert(i * cols + j + 1 <= (i + 1) * cols + j) by (nonlinear_arith)
                requires j + 1 <= n, cols == n + 1;
            let ghost before = v@;
            let tl = i * cols + j;
            let tr = (i + 1) * cols + j;
            let bl = i * cols + (j + 1);
            let br = (i + 1) * cols + (j + 1);
            v.push(tl);
            v.push(bl);
            v.push(br);
            v.push(tl);
            v.push(br);
            v.push(tr);
            proof {
                assert forall|k: int| 0 <= k < v@.len() implies #[trigger] v@[k] < cols * cols by {
                    if k < before.len() {
                        assert(v@[k] == before[k]);
                    }
                }
                lemma_cell_position(n as nat, i as nat, j as nat);
                let c = (i * n + j) as nat;
                assert(terrain_cells(n as nat, c + 1) == terrain_cells(n as nat, c) + terrain_cell(cols as nat, i as nat, j as nat));
                assert(v@ =~= terrain_cells(n as nat, c + 1));
            }
            j = j + 1;
        }
        assert((i + 1) * n == i * n + n) by (nonlinear_arith);
        i = i + 1;
    }
    proof {
        assert forall|r: nat, c: nat| r < grid_size && c < grid_size implies #[trigger] grid_cell_indices(
            v@,
            grid_size as nat,
            r,
            c,
        ) == seq![
            ((r * (grid_size + 1) + c)) as u32,
            ((r * (grid_size + 1) + c) + 1) as u32,
            ((r * (grid_size + 1) + c) + (grid_size + 1) + 1) as u32,
            ((r * (grid_size + 1) + c)) as u32,
            ((r * (grid_size + 1) + c) + (grid_size + 1) + 1) as u32,
            ((r * (grid_size + 1) + c) + (grid_size + 1)) as u32,
        ] by {
            lemma_terrain_layout(grid_size as nat, r, c);
        }
    }
    v
}

/// One vertex per index: entry `k` is the vertex that index `k` names, so
/// that a mesh can be drawn without an index buffer.
pub fn flatten<T: Copy>(vertices: &Vec<T>, indices: &Vec<u32>) -> (flat: Vec<T>)
    requires
        indices_below(indices@, vertices@.len() as int),
    ensures
        flat@.len() == indices@.len(),
        forall|k: int| 0 <= k < indices@.len() ==> flat@[k] == vertices@[indices@[k] as int],
{
    let mut flat: Vec<T> = Vec::new();
    let mut k: usize = 0;
    while k < indices.len()
        invariant
            k <= indices@.len(),
            indices_below(indices@, vertices@.len() as int),
            flat@.len() == k,
            forall|j: int| 0 <= j < k ==> flat@[j] == vertices@[indices@[j] as int],
        decreases indices@.len() - k,
    {
        let idx = indices[k];
        assert(indices@[k as int] < vertices@.len());
        flat.push(vertices[idx as usize]);
        k = k + 1;
    }
    flat
}

} // verus!
