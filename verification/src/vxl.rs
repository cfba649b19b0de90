//! Decoding of `.vxl` voxel maps.
//!
//! A map file is a sequence of 512 x 512 column records, stored column by
//! column with `x` as the outer and `y` as the inner index. A column record is
//! a chain of spans. Each span starts with a four byte header
//! `[chunk_length, top_start, top_end, _]`, followed by the colours of the
//! voxels `top_start..=top_end`, four bytes each (`b, g, r, _`). A span with
//! `chunk_length == 0` is the last one of its column. Otherwise the next span
//! starts `4 * chunk_length` bytes after the current one, and the colours that
//! follow the top run belong to the voxels just above the next span's fourth
//! header byte (the bottom run).

use vstd::prelude::*;
use crate::map::{Color, VoxelGrid, grid_view};

verus! {

/// Number of columns along each horizontal axis of a map file.
pub const MAP_SIDE: usize = 512;

/// The largest value of the 32-bit offsets that the decoder computes with.
pub const OFFSET_LIMIT: u64 = 4294967295;

/// The colour stored in the four byte record at `pos` (blue, green, red, unused).
pub open spec fn color_at(m: Seq<u8>, pos: int) -> Color {
    Color { r: m[pos + 2], g: m[pos + 1], b: m[pos] }
}

/// The voxels `lo..hi` of a column can be coloured from the records starting at
/// `pos`: the run is empty, or the column may be written, every voxel index is
/// below `depth`, every record lies inside `m`, and every offset stays a 32-bit value.
pub open spec fn run_fits(m: Seq<u8>, pos: int, lo: int, hi: int, depth: int, writable: bool) -> bool {
    hi <= lo || (writable && hi <= depth && pos + 4 * (hi - lo) <= OFFSET_LIMIT && pos + 4 * (hi - lo)
        - 2 < m.len())
}

/// `col` with the voxels `lo..hi` coloured from consecutive records starting at `pos`.
pub open spec fn paint(col: Seq<Option<Color>>, m: Seq<u8>, pos: int, lo: int, hi: int) -> Seq<
    Option<Color>,
> {
    Seq::new(
        col.len(),
        |z: int|
            if lo <= z && z < hi {
                Some(color_at(m, pos + 4 * (z - lo)))
            } else {
                col[z]
            },
    )
}

/// Decodes the spans of one column, starting at offset `p`, on top of `col`.
/// Gives the coloured column and the offset of the next column record, or `None`
/// where the record is cut short, a count does not fit its byte, an offset leaves
/// 32 bits, or a voxel falls outside the column (or the column outside the map).
pub open spec fn decode_column(
    m: Seq<u8>,
    p: int,
    depth: int,
    writable: bool,
    col: Seq<Option<Color>>,
) -> Option<(Seq<Option<Color>>, int)>
    decreases m.len() - p,
{
    if !(0 <= p && p + 2 < m.len() && p + 4 <= OFFSET_LIMIT) {
        None
    } else {
        let n = m[p] as int;
        let s = m[p + 1] as int;
        let e = m[p + 2] as int;
        if e + 1 > 255 || s > e + 1 {
            None
        } else {
            let bottom_len = e + 1 - s;
            let cp = p + 4;
            if !run_fits(m, cp, s, e + 1, depth, writable) {
                None
            } else {
                let col1 = paint(col, m, cp, s, e + 1);
                let cp1 = cp + 4 * bottom_len;
                if n == 0 {
                    let np = p + 4 * (bottom_len + 1);
                    if np > OFFSET_LIMIT {
                        None
                    } else {
                        Some((col1, np))
                    }
                } else {
                    let p2 = p + 4 * n;
                    if p2 + 3 > OFFSET_LIMIT || p2 + 3 >= m.len() || n - 1 < bottom_len {
                        None
                    } else {
                        let top_len = n - 1 - bottom_len;
                        let end = m[p2 + 3] as int;
                        if end < top_len {
                            None
                        } else if !run_fits(m, cp1, end - top_len, end, depth, writable) {
                            None
                        } else {
                            decode_column(
                                m,
                                p2,
                                depth,
                                writable,
                                paint(col1, m, cp1, end - top_len, end),
                            )
                        }
                    }
                }
            }
        }
    }
}

/// A column of `depth` empty voxels.
pub open spec fn empty_column(depth: int) -> Seq<Option<Color>> {
    Seq::new(depth as nat, |z: int| None)
}

/// The column `(x, y)` lies inside a map of the given size `(depth, height, width)`.
pub open spec fn in_map(size: (u16, u16, u16), x: int, y: int) -> bool {
    x < size.2 && y < size.1
}

/// Decodes the first `k` column records of the file, in file order: the decoded
/// columns and the offset after them.
pub open spec fn decode_columns(m: Seq<u8>, size: (u16, u16, u16), k: nat) -> Option<
    (Seq<Seq<Option<Color>>>, int),
>
    decreases k,
{
    if k == 0 {
        Some((Seq::empty(), 0))
    } else {
        match decode_columns(m, size, (k - 1) as nat) {
            None => None,
            Some((cols, p)) => {
                let c = k - 1;
                let x = c / (MAP_SIDE as int);
                let y = c % (MAP_SIDE as int);
                match decode_column(m, p, size.0 as int, in_map(size, x, y), empty_column(size.0 as int)) {
                    None => None,
                    Some((col, np)) => Some((cols.push(col), np)),
                }
            },
        }
    }
}

/// The voxel map that a file decodes to, of `size.2 x size.1 x size.0` voxels:
/// the column `(x, y)` is the `(512 * x + y)`-th record where both are below 512,
/// and empty elsewhere; `None` where a record cannot be decoded.
pub open spec fn decode_map(m: Seq<u8>, size: (u16, u16, u16)) -> Option<Seq<Seq<Seq<Option<Color>>>>> {
    match decode_columns(m, size, (MAP_SIDE * MAP_SIDE) as nat) {
        None => None,
        Some((cols, _)) => Some(
            Seq::new(
                size.2 as nat,
                |x: int|
                    Seq::new(
                        size.1 as nat,
                        |y: int|
                            if x < MAP_SIDE && y < MAP_SIDE {
                                cols[x * (MAP_SIDE as int) + y]
                            } else {
                                empty_column(size.0 as int)
                            },
                    ),
            ),
        ),
    }
}

/// Colours the voxels `lo..hi` of `col` from the records starting at `pos`;
/// returns whether the run fits (and leaves `col` unusable where it does not).
fn paint_run(
    col: &mut Vec<Option<Color>>,
    m: &[u8],
    pos: u64,
    lo: usize,
    hi: usize,
    depth: usize,
    writable: bool,
) -> (ok: bool)
    requires
        old(col)@.len() == depth,
        pos <= OFFSET_LIMIT,
        lo <= 256,
        hi <= 256,
    ensures
        ok == run_fits(m@, pos as int, lo as int, hi as int, depth as int, writable),
        ok ==> final(col)@ == paint(old(col)@, m@, pos as int, lo as int, hi as int),
{
    if hi <= lo {
        assert(paint(col@, m@, pos as int, lo as int, hi as int) =~= col@);
        return true;
    }
    if !writable || hi > depth {
        return false;
    }
    let end: u64 = pos + 4 * ((hi - lo) as u64);
    if end > OFFSET_LIMIT || end - 2 >= m.len() as u64 {
        return false;
    }
    let ghost start = col@;
    let mut z: usize = lo;
    let mut cp: u64 = pos;
    assert(paint(start, m@, pos as int, lo as int, lo as int) =~= start);
    while z < hi
        invariant
            lo <= z <= hi,
            hi <= depth,
            start.len() == depth,
            cp == pos + 4 * (z - lo),
            end == pos + 4 * (hi - lo),
            end <= OFFSET_LIMIT,
            end - 2 < m@.len(),
            col@ == paint(start, m@, pos as int, lo as int, z as int),
        decreases hi - z,
    {
        let c = Color { r: m[(cp + 2) as usize], g: m[(cp + 1) as usize], b: m[cp as usize] };
        col[z] = Some(c);
        assert(col@ =~= paint(start, m@, pos as int, lo as int, z + 1));
        z = z + 1;
        cp = cp + 4;
    }
    true
}

/// Decodes one column record starting at offset `start` on top of `col`, which
/// holds the column's `depth` voxels; `writable` says whether the column lies
/// inside the map. Gives the column and the offset of the next record.
pub fn decode_column_at(
    m: &[u8],
    start: u64,
    depth: usize,
    writable: bool,
    column: Vec<Option<Color>>,
) -> (res: Option<(Vec<Option<Color>>, u64)>)
    requires
        start <= OFFSET_LIMIT,
        column@.len() == depth,
    ensures
        res is None ==> decode_column(m@, start as int, depth as int, writable, column@) is None,
        res matches Some((c, np)) ==> decode_column(m@, start as int, depth as int, writable, column@)
            == Some((c@, np as int)) && np <= OFFSET_LIMIT,
{
    let ghost target = decode_column(m@, start as int, depth as int, writable, column@);
    let mut col = column;
    let mut p: u64 = start;
    loop
        invariant
            p <= OFFSET_LIMIT,
            col@.len() == depth,
            decode_column(m@, p as int, depth as int, writable, col@) == target,
            target == decode_column(m@, start as int, depth as int, writable, column@),
        decreases m@.len() - p,
    {
        if p + 4 > OFFSET_LIMIT || p + 2 >= m.len() as u64 {
            return None;
        }
        let n: u8 = m[p as usize];
        let s: u8 = m[(p + 1) as usize];
        let e: u8 = m[(p + 2) as usize];
        if e == 255 || s > e + 1 {
            return None;
        }
        let bottom_len: u8 = e + 1 - s;
        let cp: u64 = p + 4;
        let ghost col0 = col@;
        if !paint_run(&mut col, m, cp, s as usize, (e + 1) as usize, depth, writable) {
            return None;
        }
        let cp1: u64 = cp + 4 * (bottom_len as u64);
        if n == 0 {
            let np: u64 = p + 4 * (bottom_len as u64 + 1);
            if np > OFFSET_LIMIT {
                return None;
            }
            return Some((col, np));
        }
        let p2: u64 = p + 4 * (n as u64);
        if p2 + 3 > OFFSET_LIMIT || p2 + 3 >= m.len() as u64 || n - 1 < bottom_len {
            return None;
        }
        let top_len: u8 = n - 1 - bottom_len;
        let end: u8 = m[(p2 + 3) as usize];
        if end < top_len {
            return None;
        }
        if !paint_run(&mut col, m, cp1, (end - top_len) as usize, end as usize, depth, writable) {
            return None;
        }
        p = p2;
    }
}

/// A column of `depth` empty voxels.
fn new_empty_column(depth: usize) -> (col: Vec<Option<Color>>)
    ensures
        col@ == empty_column(depth as int),
{
    let mut col: Vec<Option<Color>> = Vec::new();
    let mut i: usize = 0;
    while i < depth
        invariant
            i <= depth,
            col@ =~= empty_column(i as int),
        decreases depth - i,
    {
        col.push(None);
        i = i + 1;
    }
    col
}

proof fn lemma_column_index(x: int, y: int)
    requires
        0 <= x,
        0 <= y < MAP_SIDE,
    ensures
        (x * (MAP_SIDE as int) + y) / (MAP_SIDE as int) == x,
        (x * (MAP_SIDE as int) + y) % (MAP_SIDE as int) == y,
{
    vstd::arithmetic::div_mod::lemma_fundamental_div_mod_converse(
        x * (MAP_SIDE as int) + y,
        MAP_SIDE as int,
        x,
        y,
    );
}

proof fn lemma_decode_column_len(m: Seq<u8>, p: int, depth: int, writable: bool, col: Seq<Option<Color>>)
    ensures
        decode_column(m, p, depth, writable, col) matches Some((c, _)) ==> c.len() == col.len(),
    decreases m.len() - p,
{
    if 0 <= p && p + 2 < m.len() && p + 4 <= OFFSET_LIMIT {
        let n = m[p] as int;
        let s = m[p + 1] as int;
        let e = m[p + 2] as int;
        let col1 = paint(col, m, p + 4, s, e + 1);
        if n != 0 && p + 4 * n + 3 < m.len() {
            let p2 = p + 4 * n;
            let end = m[p2 + 3] as int;
            let top_len = n - 1 - (e + 1 - s);
            lemma_decode_column_len(m, p2, depth, writable, paint(col1, m, p + 4 + 4 * (e + 1 - s), end - top_len, end));
        }
    }
}

proof fn lemma_decoded_column_depth(m: Seq<u8>, size: (u16, u16, u16), k: nat, i: int)
    requires
        decode_columns(m, size, k) is Some,
        0 <= i < decode_columns(m, size, k).unwrap().0.len(),
    ensures
        decode_columns(m, size, k).unwrap().0[i].len() == size.0,
    decreases k,
{
    if k > 0 {
        let (cols, p) = decode_columns(m, size, (k - 1) as nat).unwrap();
        lemma_decode_columns_len(m, size, (k - 1) as nat);
        let c = k - 1;
        lemma_decode_column_len(m, p, size.0 as int, in_map(size, c / (MAP_SIDE as int), c % (MAP_SIDE as int)), empty_column(size.0 as int));
        if i < cols.len() {
            lemma_decoded_column_depth(m, size, (k - 1) as nat, i);
        }
    }
}

proof fn lemma_decode_columns_len(m: Seq<u8>, size: (u16, u16, u16), k: nat)
    requires
        decode_columns(m, size, k) is Some,
    ensures
        decode_columns(m, size, k).unwrap().0.len() == k,
    decreases k,
{
    if k > 0 {
        lemma_decode_columns_len(m, size, (k - 1) as nat);
    }
}

/// The columns of a plane as sequences.
spec fn column_views(plane: Seq<Vec<Option<Color>>>) -> Seq<Seq<Option<Color>>> {
    Seq::new(plane.len(), |j: int| plane[j]@)
}

/// The plane `x` of the decoded map, given the decoded column records.
spec fn expected_plane(cols: Seq<Seq<Option<Color>>>, x: int, height: int, depth: int) -> Seq<
    Seq<Option<Color>>,
> {
    Seq::new(
        height as nat,
        |y: int|
            if x < MAP_SIDE && y < MAP_SIDE {
                cols[x * (MAP_SIDE as int) + y]
            } else {
                empty_column(depth)
            },
    )
}

/// Decodes the bytes of a `.vxl` map file into a grid of `size.2 x size.1 x size.0`
/// voxels, indexed `[x][y][z]`. `None` where the file cannot be decoded into a map
/// of that size (a record cut short, a count out of range, a voxel outside the map).
pub fn parse_map(m: &[u8], size: (u16, u16, u16)) -> (res: Option<VoxelGrid>)
    ensures
        match res {
            Some(grid) => decode_map(m@, size) == Some(grid_view(&grid)),
            None => decode_map(m@, size) is None,
        },
{
    let depth: usize = size.0 as usize;
    let height: usize = size.1 as usize;
    let width: usize = size.2 as usize;
    let mut grid: VoxelGrid = Vec::new();
    let mut p: u64 = 0;
    let ghost mut cols: Seq<Seq<Option<Color>>> = Seq::empty();
    let mut x: usize = 0;
    while x < MAP_SIDE
        invariant
            x <= MAP_SIDE,
            depth == size.0,
            height == size.1,
            width == size.2,
            p <= OFFSET_LIMIT,
            decode_columns(m@, size, (x * MAP_SIDE) as nat) == Some((cols, p as int)),
            cols.len() == x * MAP_SIDE,
            grid@.len() == if x < width { x } else { width },
            forall|i: int|
                0 <= i < grid@.len() ==> column_views(#[trigger] grid@[i]@) == expected_plane(
                    cols,
                    i,
                    height as int,
                    depth as int,
                ),
        decreases MAP_SIDE - x,
    {
        let mut plane: Vec<Vec<Option<Color>>> = Vec::new();
        let mut y: usize = 0;
        let ghost cols_x = cols;
        while y < MAP_SIDE
            invariant
                x < MAP_SIDE,
                y <= MAP_SIDE,
                depth == size.0,
                height == size.1,
                width == size.2,
                p <= OFFSET_LIMIT,
                decode_columns(m@, size, (x * MAP_SIDE + y) as nat) == Some((cols, p as int)),
                cols.len() == x * MAP_SIDE + y,
                cols_x.len() == x * MAP_SIDE,
                forall|i: int| 0 <= i < x * MAP_SIDE ==> #[trigger] cols[i] == cols_x[i],
                x < width ==> plane@.len() == if y < height { y } else { height },
                x < width ==> forall|j: int|
                    0 <= j < plane@.len() ==> #[trigger] plane@[j]@ == cols[x * (MAP_SIDE as int) + j],
            decreases MAP_SIDE - y,
        {
            let writable = x < width && y < height;
            let fresh = new_empty_column(depth);
            proof {
                lemma_column_index(x as int, y as int);
                assert((x * MAP_SIDE + y + 1 - 1) as nat == (x * MAP_SIDE + y) as nat);
            }
            match decode_column_at(m, p, depth, writable, fresh) {
                None => {
                    proof {
                        assert(decode_columns(m@, size, (x * MAP_SIDE + y + 1) as nat) is None);
                        decode_columns_none_propagates(m@, size, (x * MAP_SIDE + y + 1) as nat);
                        assert(decode_columns(m@, size, (MAP_SIDE * MAP_SIDE) as nat) is None);
                    }
                    return None;
                },
                Some((col, np)) => {
                    proof {
                        cols = cols.push(col@);
                    }
                    p = np;
                    if writable {
                        plane.push(col);
                    }
                },
            }
            y = y + 1;
        }
        proof {
            assert forall|i: int| 0 <= i < grid@.len() implies column_views(#[trigger] grid@[i]@)
                == expected_plane(cols, i, height as int, depth as int) by {
                assert forall|j: int| 0 <= j < height implies #[trigger] expected_plane(
                    cols,
                    i,
                    height as int,
                    depth as int,
                )[j] == expected_plane(cols_x, i, height as int, depth as int)[j] by {
                    if j < MAP_SIDE {
                        assert(cols[i * (MAP_SIDE as int) + j] == cols_x[i * (MAP_SIDE as int) + j]);
                    }
                }
                assert(expected_plane(cols, i, height as int, depth as int) =~= expected_plane(
                    cols_x,
                    i,
                    height as int,
                    depth as int,
                ));
            }
        }
        if x < width {
            while plane.len() < height
                invariant
                    x < width,
                    depth == size.0,
                    height == size.1,
                    cols.len() == x * MAP_SIDE + MAP_SIDE,
                    MAP_SIDE <= plane@.len() <= height || plane@.len() == height,
                    forall|j: int|
                        0 <= j < plane@.len() ==> #[trigger] plane@[j]@ == if j < MAP_SIDE {
                            cols[x * (MAP_SIDE as int) + j]
                        } else {
                            empty_column(depth as int)
                        },
                decreases height - plane@.len(),
            {
                plane.push(new_empty_column(depth));
            }
            assert(column_views(plane@) =~= expected_plane(cols, x as int, height as int, depth as int));
            grid.push(plane);
        }
        x = x + 1;
    }
    while grid.len() < width
        invariant
            depth == size.0,
            height == size.1,
            width == size.2,
            cols.len() == MAP_SIDE * MAP_SIDE,
            MAP_SIDE <= grid@.len() <= width || grid@.len() == width,
            forall|i: int|
                0 <= i < grid@.len() ==> column_views(#[trigger] grid@[i]@) == expected_plane(
                    cols,
                    i,
                    height as int,
                    depth as int,
                ),
        decreases width - grid@.len(),
    {
        let mut plane: Vec<Vec<Option<Color>>> = Vec::new();
        while plane.len() < height
            invariant
                depth == size.0,
                plane@.len() <= height,
                forall|j: int| 0 <= j < plane@.len() ==> #[trigger] plane@[j]@ == empty_column(depth as int),
            decreases height - plane@.len(),
        {
            plane.push(new_empty_column(depth));
        }
        assert(column_views(plane@) =~= expected_plane(cols, grid@.len() as int, height as int, depth as int));
        grid.push(plane);
    }
    let ghost result = decode_map(m@, size).unwrap();
    assert forall|i: int| 0 <= i < width implies #[trigger] grid_view(&grid)[i] =~= result[i] by {
        assert(column_views(grid@[i]@) == expected_plane(cols, i, height as int, depth as int));
    }
    assert(grid_view(&grid) =~= result);
    Some(grid)
}

proof fn lemma_paint_ignores_trailing(col: Seq<Option<Color>>, m: Seq<u8>, extra: Seq<u8>, pos: int, lo: int, hi: int, depth: int, writable: bool)
    requires
        run_fits(m, pos, lo, hi, depth, writable),
        0 <= pos,
        0 <= lo,
    ensures
        run_fits(m + extra, pos, lo, hi, depth, writable),
        paint(col, m + extra, pos, lo, hi) == paint(col, m, pos, lo, hi),
{
    assert forall|z: int| 0 <= z < col.len() implies #[trigger] paint(col, m + extra, pos, lo, hi)[z]
        == paint(col, m, pos, lo, hi)[z] by {
        if lo <= z && z < hi {
            let q = pos + 4 * (z - lo);
            assert((m + extra)[q] == m[q]);
            assert((m + extra)[q + 1] == m[q + 1]);
            assert((m + extra)[q + 2] == m[q + 2]);
        }
    }
    assert(paint(col, m + extra, pos, lo, hi) =~= paint(col, m, pos, lo, hi));
}

proof fn lemma_column_ignores_trailing(m: Seq<u8>, extra: Seq<u8>, p: int, depth: int, writable: bool, col: Seq<Option<Color>>)
    requires
        decode_column(m, p, depth, writable, col) is Some,
    ensures
        decode_column(m + extra, p, depth, writable, col) == decode_column(m, p, depth, writable, col),
    decreases m.len() - p,
{
    let me = m + extra;
    assert(me[p] == m[p] && me[p + 1] == m[p + 1] && me[p + 2] == m[p + 2]);
    let n = m[p] as int;
    let s = m[p + 1] as int;
    let e = m[p + 2] as int;
    let cp = p + 4;
    lemma_paint_ignores_trailing(col, m, extra, cp, s, e + 1, depth, writable);
    let col1 = paint(col, m, cp, s, e + 1);
    if n != 0 {
        let p2 = p + 4 * n;
        let bottom_len = e + 1 - s;
        let top_len = n - 1 - bottom_len;
        assert(me[p2 + 3] == m[p2 + 3]);
        let end = m[p2 + 3] as int;
        lemma_paint_ignores_trailing(col1, m, extra, cp + 4 * bottom_len, end - top_len, end, depth, writable);
        lemma_column_ignores_trailing(m, extra, p2, depth, writable, paint(col1, m, cp + 4 * bottom_len, end - top_len, end));
    }
}

proof fn lemma_columns_ignore_trailing(m: Seq<u8>, extra: Seq<u8>, size: (u16, u16, u16), k: nat)
    requires
        decode_columns(m, size, k) is Some,
    ensures
        decode_columns(m + extra, size, k) == decode_columns(m, size, k),
    decreases k,
{
    if k > 0 {
        lemma_columns_ignore_trailing(m, extra, size, (k - 1) as nat);
        let (cols, p) = decode_columns(m, size, (k - 1) as nat).unwrap();
        let c = k - 1;
        lemma_column_ignores_trailing(m, extra, p, size.0 as int, in_map(size, c / (MAP_SIDE as int), c % (MAP_SIDE as int)), empty_column(size.0 as int));
    }
}

/// Bytes after the last column record do not change the map: the decoder reads
/// no further than the records it needs.
pub proof fn lemma_map_ignores_trailing_bytes(m: Seq<u8>, extra: Seq<u8>, size: (u16, u16, u16))
    requires
        decode_map(m, size) is Some,
    ensures
        decode_map(m + extra, size) == decode_map(m, size),
{
    lemma_columns_ignore_trailing(m, extra, size, (MAP_SIDE * MAP_SIDE) as nat);
}

/// A decoded map has the requested size, and the columns beyond the 512 x 512
/// columns of the file are empty.
pub proof fn lemma_decoded_map_shape(m: Seq<u8>, size: (u16, u16, u16))
    requires
        decode_map(m, size) is Some,
    ensures
        ({
            let g = decode_map(m, size).unwrap();
            &&& g.len() == size.2
            &&& forall|x: int| 0 <= x < g.len() ==> #[trigger] g[x].len() == size.1
            &&& forall|x: int, y: int|
                0 <= x < g.len() && 0 <= y < size.1 ==> #[trigger] g[x][y].len() == size.0
            &&& forall|x: int, y: int, z: int|
                0 <= x < g.len() && 0 <= y < size.1 && 0 <= z < size.0 && (x >= MAP_SIDE || y
                    >= MAP_SIDE) ==> #[trigger] g[x][y][z] is None
        }),
{
    let (cols, p) = decode_columns(m, size, (MAP_SIDE * MAP_SIDE) as nat).unwrap();
    lemma_decode_columns_len(m, size, (MAP_SIDE * MAP_SIDE) as nat);
    assert forall|k: int| 0 <= k < cols.len() implies #[trigger] cols[k].len() == size.0 by {
        lemma_decoded_column_depth(m, size, (MAP_SIDE * MAP_SIDE) as nat, k);
    }
    let g = decode_map(m, size).unwrap();
    assert forall|x: int, y: int| 0 <= x < g.len() && 0 <= y < size.1 implies #[trigger] g[x][y].len() == size.0 by {
        if x < MAP_SIDE && y < MAP_SIDE {
            assert(0 <= x * (MAP_SIDE as int) + y < cols.len()) by (nonlinear_arith)
                requires 0 <= x < 512, 0 <= y < 512, cols.len() == 512 * 512;
        }
    }
}

/// How one span of a column record colours the column. Its top run, the voxels
/// `s..=e` (header bytes 1 and 2), takes the four byte colour records that follow
/// the header, one per voxel, upward from `s` (blue, green, red, unused). A span with
/// chunk length `n == 0` ends the record, and the next record starts after its
/// colours. A span with `n > 0` also colours its bottom run: with `end` the fourth
/// header byte of the next span, `4 * n` bytes on, the `n - 1 - (e + 1 - s)` voxels
/// just below `end` take the colour records that follow the top run's, upward in
/// file order; decoding goes on at the next span.
pub proof fn lemma_span_colours(m: Seq<u8>, p: int, depth: int, writable: bool, col: Seq<Option<Color>>)
    requires
        decode_column(m, p, depth, writable, col) is Some,
    ensures
        ({
            let n = m[p] as int;
            let s = m[p + 1] as int;
            let e = m[p + 2] as int;
            let cp = p + 4;
            let bottom_len = e + 1 - s;
            let top = Seq::new(
                col.len(),
                |z: int|
                    if s <= z && z <= e {
                        Some(
                            Color {
                                r: m[cp + 4 * (z - s) + 2],
                                g: m[cp + 4 * (z - s) + 1],
                                b: m[cp + 4 * (z - s)],
                            },
                        )
                    } else {
                        col[z]
                    },
            );
            &&& n == 0 ==> decode_column(m, p, depth, writable, col) == Some(
                (top, p + 4 * (bottom_len + 1)),
            )
            &&& n != 0 ==> {
                let p2 = p + 4 * n;
                let end = m[p2 + 3] as int;
                let lo = end - (n - 1 - bottom_len);
                let cb = cp + 4 * bottom_len;
                decode_column(m, p, depth, writable, col) == decode_column(
                    m,
                    p2,
                    depth,
                    writable,
                    Seq::new(
                        col.len(),
                        |z: int|
                            if lo <= z && z < end {
                                Some(
                                    Color {
                                        r: m[cb + 4 * (z - lo) + 2],
                                        g: m[cb + 4 * (z - lo) + 1],
                                        b: m[cb + 4 * (z - lo)],
                                    },
                                )
                            } else {
                                top[z]
                            },
                    ),
                )
            }
        }),
{
    let n = m[p] as int;
    let s = m[p + 1] as int;
    let e = m[p + 2] as int;
    let cp = p + 4;
    let bottom_len = e + 1 - s;
    let top = Seq::new(
        col.len(),
        |z: int|
            if s <= z && z <= e {
                Some(Color { r: m[cp + 4 * (z - s) + 2], g: m[cp + 4 * (z - s) + 1], b: m[cp + 4 * (z - s)] })
            } else {
                col[z]
            },
    );
    let col1 = paint(col, m, cp, s, e + 1);
    assert(col1 =~= top);
    if n != 0 {
        let p2 = p + 4 * n;
        let end = m[p2 + 3] as int;
        let lo = end - (n - 1 - bottom_len);
        let cb = cp + 4 * bottom_len;
        let bottom = Seq::new(
            col.len(),
            |z: int|
                if lo <= z && z < end {
                    Some(Color { r: m[cb + 4 * (z - lo) + 2], g: m[cb + 4 * (z - lo) + 1], b: m[cb + 4 * (z - lo)] })
                } else {
                    top[z]
                },
        );
        assert(paint(col1, m, cb, lo, end) =~= bottom);
    }
}

/// Once a prefix of the records fails to decode, every longer prefix fails too.
proof fn decode_columns_none_propagates(m: Seq<u8>, size: (u16, u16, u16), k: nat)
    requires
        decode_columns(m, size, k) is None,
    ensures
        forall|j: nat| j >= k ==> #[trigger] decode_columns(m, size, j) is None,
{
    assert forall|j: nat| j >= k implies #[trigger] decode_columns(m, size, j) is None by {
        decode_columns_none_from(m, size, k, j);
    }
}

proof fn decode_columns_none_from(m: Seq<u8>, size: (u16, u16, u16), k: nat, j: nat)
    requires
        decode_columns(m, size, k) is None,
        j >= k,
    ensures
        decode_columns(m, size, j) is None,
    decreases j - k,
{
    if j > k {
        decode_columns_none_from(m, size, k, (j - 1) as nat);
    }
}

} // verus!
