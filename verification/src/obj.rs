//! Meshes in the Wavefront OBJ format, gathered line by line.

use crate::geometry::{Triangle, Vector};
use crate::grid::{Grid, ONE};
use vstd::prelude::*;
use vstd::string::*;

verus! {

/// The decimal digits of `n`, as ASCII.
pub open spec fn digits(n: nat) -> Seq<u8>
    decreases n,
{
    if n < 10 {
        seq![(48 + n) as u8]
    } else {
        digits(n / 10).push((48 + n % 10) as u8)
    }
}

/// The whole number `v` in decimal notation, as ASCII, with a minus sign where it is negative.
pub open spec fn decimal(v: int) -> Seq<u8> {
    if v < 0 {
        seq![45u8] + digits((-v) as nat)
    } else {
        digits(v as nat)
    }
}

/// The line that records the vertex `v`: its three coordinates as whole numbers.
pub open spec fn vertex_text(v: Vector) -> Seq<u8> {
    "v ".spec_bytes() + decimal(v.x as int) + " ".spec_bytes() + decimal(v.y as int)
        + " ".spec_bytes() + decimal(v.z as int) + "\n".spec_bytes()
}

/// The line that records the face between the three vertices written after `base` others.
pub open spec fn face_text(base: nat) -> Seq<u8> {
    "f ".spec_bytes() + decimal(base + 1 as int) + " ".spec_bytes() + decimal(base + 2 as int)
        + " ".spec_bytes() + decimal(base + 3 as int) + "\n".spec_bytes()
}

/// The four lines that record the triangle between `a`, `b` and `c`: its
/// corners and its face.
pub open spec fn corners_text(a: Vector, b: Vector, c: Vector, base: nat) -> Seq<u8> {
    vertex_text(a) + vertex_text(b) + vertex_text(c) + face_text(base)
}

/// The four lines that record `triangle`: its corners and its face.
pub open spec fn triangle_text(triangle: Triangle, base: nat) -> Seq<u8> {
    corners_text(triangle.0@[0], triangle.0@[1], triangle.0@[2], base)
}

/// The point above the corner `(x, y)` of a grid at the height `z`; columns and
/// rows are one unit wide, which is `ONE` in the whole numbers of a vertex.
pub open spec fn corner(x: int, y: int, z: int) -> Vector {
    Vector { x: (x * 65536) as i64, y: (y * 65536) as i64, z: z as i64 }
}

/// The point below `v` on the floor of a cube mesh, a hundred units under zero.
pub open spec fn low(v: Vector) -> Vector {
    Vector { x: v.x, y: v.y, z: -6553600i64 }
}

/// The lines that record the two triangles of the wall below the edge from `a` to `b`.
pub open spec fn side_text(a: Vector, b: Vector, base: nat) -> Seq<u8> {
    corners_text(low(a), low(b), b, base) + corners_text(low(a), b, a, base + 3)
}

/// The lines that record the surface between the cell `(x, y)` and the cells
/// to the right of it and below it: two triangles between their heights.
pub open spec fn mesh_cell_text(map: Grid, x: int, y: int, base: nat) -> Seq<u8> {
    let a = corner(x, y, map.at(x, y) as int);
    let b = corner(x + 1, y, map.at(x + 1, y) as int);
    let c = corner(x, y + 1, map.at(x, y + 1) as int);
    let d = corner(x + 1, y + 1, map.at(x + 1, y + 1) as int);
    corners_text(a, b, c, base) + corners_text(b, d, c, base + 3)
}

/// The lines that record the cell `(x, y)` as a block: a flat top at the height
/// of the cell and four walls down to the floor.
pub open spec fn cube_cell_text(map: Grid, x: int, y: int, base: nat) -> Seq<u8> {
    let h = map.at(x, y) as int;
    let a = corner(x, y, h);
    let b = corner(x + 1, y, h);
    let c = corner(x + 1, y + 1, h);
    let d = corner(x, y + 1, h);
    corners_text(a, b, c, base) + corners_text(a, c, d, base + 3) + side_text(a, b, base + 6)
        + side_text(b, c, base + 12) + side_text(c, d, base + 18) + side_text(d, a, base + 24)
}

/// The lines that record the first `n` of `triangles`.
pub open spec fn triangles_text(triangles: Seq<Triangle>, base: nat, n: nat) -> Seq<u8>
    decreases n,
{
    if n == 0 {
        Seq::empty()
    } else {
        triangles_text(triangles, base, (n - 1) as nat) + triangle_text(
            triangles[n - 1],
            (base + 3 * (n - 1)) as nat,
        )
    }
}

/// The lines that record the first `n` of `vertices`.
pub open spec fn vertices_text(vertices: Seq<Vector>, n: nat) -> Seq<u8>
    decreases n,
{
    if n == 0 {
        Seq::empty()
    } else {
        vertices_text(vertices, (n - 1) as nat) + vertex_text(vertices[n - 1])
    }
}

/// The numbers of the `n` vertices written after `base` others, each behind a blank.
pub open spec fn numbers_text(base: nat, n: nat) -> Seq<u8>
    decreases n,
{
    if n == 0 {
        Seq::empty()
    } else {
        numbers_text(base, (n - 1) as nat) + " ".spec_bytes() + decimal(base + n as int)
    }
}

/// The header that every export starts with.
pub open spec fn header_text() -> Seq<u8> {
    "# Terrain Export from _WorldGenTM_\n".spec_bytes()
}

fn push_text(out: &mut Vec<u8>, text: &str)
    ensures
        final(out)@ == old(out)@ + text.spec_bytes(),
{
    let bytes = text.as_bytes();
    let mut i: usize = 0;
    while i < bytes.len()
        invariant
            bytes@ == text.spec_bytes(),
            i <= bytes@.len(),
            out@ == old(out)@ + bytes@.take(i as int),
        decreases bytes@.len() - i,
    {
        out.push(bytes[i]);
        proof {
            assert(bytes@.take(i + 1) =~= bytes@.take(i as int).push(bytes@[i as int]));
        }
        i += 1;
    }
    proof {
        assert(bytes@.take(i as int) =~= bytes@);
    }
}

fn push_digits(out: &mut Vec<u8>, n: u64)
    ensures
        final(out)@ == old(out)@ + digits(n as nat),
    decreases n,
{
    if n >= 10 {
        push_digits(out, n / 10);
    }
    let digit = (n % 10) as u8;
    out.push(48 + digit);
    proof {
        if n >= 10 {
            assert(out@ =~= old(out)@ + digits(n as nat));
        } else {
            assert(out@ =~= old(out)@ + digits(n as nat));
        }
    }
}

fn push_decimal(out: &mut Vec<u8>, v: i64)
    ensures
        final(out)@ == old(out)@ + decimal(v as int),
{
    if v < 0 {
        out.push(45);
        let magnitude: u64 = (-(v + 1)) as u64 + 1;
        push_digits(out, magnitude);
        proof {
            assert(out@ =~= old(out)@ + decimal(v as int));
        }
    } else {
        push_digits(out, v as u64);
    }
}

fn push_face(out: &mut Vec<u8>, base: usize)
    requires
        base + 3 <= usize::MAX,
    ensures
        final(out)@ == old(out)@ + face_text(base as nat),
{
    push_text(out, "f ");
    push_count(out, base + 1);
    push_text(out, " ");
    push_count(out, base + 2);
    push_text(out, " ");
    push_count(out, base + 3);
    push_text(out, "\n");
    proof {
        assert(out@ =~= old(out)@ + face_text(base as nat));
    }
}

fn push_count(out: &mut Vec<u8>, n: usize)
    ensures
        final(out)@ == old(out)@ + decimal(n as int),
{
    push_digits(out, n as u64);
}

/// Collects the lines of a mesh in the Wavefront OBJ format.
///
/// The lines gather in the writer until `take` hands them out, so that the
/// caller decides where and when they are written.
///
/// Coordinates are written as whole numbers. A mesh of a grid is written in the
/// grid's own numbers, in which one unit is `ONE`: it has the shape of the
/// terrain and is `ONE` (65536) times as large along every axis as the same
/// mesh measured in units.
pub struct ObjWriter {
    out: Vec<u8>,
    vertex_count: usize,
}

impl ObjWriter {
    /// The lines that wait to be taken.
    pub closed spec fn bytes(&self) -> Seq<u8> {
        self.out@
    }

    /// Number of vertices counted so far: those of triangles and lines.
    pub closed spec fn count(&self) -> nat {
        self.vertex_count as nat
    }

    /// A writer that holds the header of an export.
    pub fn new() -> (writer: ObjWriter)
        ensures
            writer.bytes() == header_text(),
            writer.count() == 0,
    {
        let mut out: Vec<u8> = Vec::new();
        push_text(&mut out, "# Terrain Export from _WorldGenTM_\n");
        proof {
            assert(out@ =~= header_text());
        }
        ObjWriter { out, vertex_count: 0 }
    }

    /// Number of vertices counted so far: those of triangles and lines.
    pub fn vertex_count(&self) -> (n: usize)
        ensures
            n == self.count(),
    {
        self.vertex_count
    }

    /// Hands out the lines gathered since the last call.
    pub fn take(&mut self) -> (lines: Vec<u8>)
        ensures
            lines@ == old(self).bytes(),
            final(self).bytes() == Seq::<u8>::empty(),
            final(self).count() == old(self).count(),
    {
        let mut lines: Vec<u8> = Vec::new();
        core::mem::swap(&mut self.out, &mut lines);
        lines
    }

    /// Writes the line of one vertex; the vertex is not counted.
    pub fn vertex(&mut self, vector: &Vector)
        ensures
            final(self).bytes() == old(self).bytes() + vertex_text(*vector),
            final(self).count() == old(self).count(),
    {
        push_text(&mut self.out, "v ");
        push_decimal(&mut self.out, vector.x);
        push_text(&mut self.out, " ");
        push_decimal(&mut self.out, vector.y);
        push_text(&mut self.out, " ");
        push_decimal(&mut self.out, vector.z);
        push_text(&mut self.out, "\n");
        proof {
            assert(self.out@ =~= old(self).out@ + vertex_text(*vector));
        }
    }

    /// Writes the three corners of `triangle` and the face between them.
    #[allow(unused)]
    pub fn triangle(&mut self, triangle: &Triangle)
        requires
            old(self).count() + 3 <= usize::MAX,
        ensures
            final(self).bytes() == old(self).bytes() + triangle_text(*triangle, old(self).count()),
            final(self).count() == old(self).count() + 3,
    {
        let ghost start = self.out@;
        self.vertex(&triangle.0[0]);
        let ghost one = self.out@;
        self.vertex(&triangle.0[1]);
        let ghost two = self.out@;
        self.vertex(&triangle.0[2]);
        let ghost three = self.out@;
        let base = self.vertex_count;
        push_face(&mut self.out, base);
        self.vertex_count += 3;
        proof {
            let a = vertex_text(triangle.0@[0]);
            let b = vertex_text(triangle.0@[1]);
            let c = vertex_text(triangle.0@[2]);
            let f = face_text(base as nat);
            assert(one == start + a);
            assert(two == one + b);
            assert(three == two + c);
            assert(self.out@ == three + f);
            assert(start + a + b + c + f =~= start + (a + b + c + f));
        }
    }

    /// Writes `triangles` one after the other.
    #[allow(unused)]
    pub fn triangles(&mut self, triangles: &[Triangle])
        requires
            old(self).count() + 3 * triangles@.len() <= usize::MAX,
        ensures
            final(self).bytes() == old(self).bytes() + triangles_text(
                triangles@,
                old(self).count(),
                triangles@.len(),
            ),
            final(self).count() == old(self).count() + 3 * triangles@.len(),
    {
        let mut i: usize = 0;
        while i < triangles.len()
            invariant
                i <= triangles@.len(),
                old(self).count() + 3 * triangles@.len() <= usize::MAX,
                self.vertex_count == old(self).vertex_count + 3 * i,
                self.out@ == old(self).out@ + triangles_text(triangles@, old(self).count(), i as nat),
            decreases triangles@.len() - i,
        {
            let ghost before = self.out@;
            self.triangle(&triangles[i]);
            proof {
                assert(self.out@ =~= old(self).out@ + triangles_text(
                    triangles@,
                    old(self).count(),
                    (i + 1) as nat,
                ));
            }
            i += 1;
        }
    }

    /// Writes `vertices` and the line that leads through them in their order.
    #[allow(unused)]
    pub fn line(&mut self, vertices: &[Vector])
        requires
            old(self).count() + vertices@.len() <= usize::MAX,
        ensures
            final(self).bytes() == old(self).bytes() + vertices_text(vertices@, vertices@.len())
                + "l".spec_bytes() + numbers_text(old(self).count(), vertices@.len())
                + "\n".spec_bytes(),
            final(self).count() == old(self).count() + vertices@.len(),
    {
        let mut line: Vec<u8> = Vec::new();
        push_text(&mut line, "l");
        let mut i: usize = 0;
        while i < vertices.len()
            invariant
                i <= vertices@.len(),
                old(self).count() + vertices@.len() <= usize::MAX,
                self.vertex_count == old(self).vertex_count + i,
                self.out@ == old(self).out@ + vertices_text(vertices@, i as nat),
                line@ == "l".spec_bytes() + numbers_text(old(self).count(), i as nat),
            decreases vertices@.len() - i,
        {
            let ghost before = self.out@;
            let ghost line_before = line@;
            self.vertex(&vertices[i]);
            self.vertex_count += 1;
            push_text(&mut line, " ");
            push_count(&mut line, self.vertex_count);
            proof {
                assert(self.out@ =~= old(self).out@ + vertices_text(vertices@, (i + 1) as nat));
                assert(line@ =~= "l".spec_bytes() + numbers_text(old(self).count(), (i + 1) as nat));
            }
            i += 1;
        }
        push_text(&mut line, "\n");
        let mut k: usize = 0;
        let ghost gathered = self.out@;
        while k < line.len()
            invariant
                k <= line@.len(),
                self.vertex_count == old(self).vertex_count + vertices@.len(),
                self.out@ == gathered + line@.take(k as int),
            decreases line@.len() - k,
        {
            self.out.push(line[k]);
            proof {
                assert(line@.take(k + 1) =~= line@.take(k as int).push(line@[k as int]));
            }
            k += 1;
        }
        proof {
            assert(line@.take(k as int) =~= line@);
            assert(self.out@ =~= old(self).out@ + vertices_text(vertices@, vertices@.len())
                + "l".spec_bytes() + numbers_text(old(self).count(), vertices@.len())
                + "\n".spec_bytes());
        }
    }
}

/// What is written piece by piece is the sum of the pieces.
proof fn lemma_pieces(
    s: Seq<u8>,
    a: Seq<u8>,
    b: Seq<u8>,
    c: Seq<u8>,
    d: Seq<u8>,
    e: Seq<u8>,
    f: Seq<u8>,
)
    ensures
        s + a + b == s + (a + b),
        s + a + b + c + d + e + f == s + (a + b + c + d + e + f),
{
    assert(s + a + b =~= s + (a + b));
    assert(s + a + b + c + d + e + f =~= s + (a + b + c + d + e + f));
}

/// The point above the corner `(x, y)` at the height `z`.
fn corner_at(x: usize, y: usize, z: i64) -> (v: Vector)
    requires
        x * 65536 <= i64::MAX,
        y * 65536 <= i64::MAX,
    ensures
        v == corner(x as int, y as int, z as int),
{
    Vector::new(x as i64 * ONE, y as i64 * ONE, z)
}

/// Writes the triangle between `a`, `b` and `c`.
fn write_corners(obj: &mut ObjWriter, a: Vector, b: Vector, c: Vector)
    requires
        old(obj).count() + 3 <= usize::MAX,
    ensures
        final(obj).bytes() == old(obj).bytes() + corners_text(a, b, c, old(obj).count()),
        final(obj).count() == old(obj).count() + 3,
{
    obj.triangle(&Triangle([a, b, c]));
}

/// Writes the wall below the edge from `a` to `b`.
fn write_side(obj: &mut ObjWriter, a: Vector, b: Vector)
    requires
        old(obj).count() + 6 <= usize::MAX,
    ensures
        final(obj).bytes() == old(obj).bytes() + side_text(a, b, old(obj).count()),
        final(obj).count() == old(obj).count() + 6,
{
    let floor: i64 = -100 * ONE;
    let la = Vector::new(a.x, a.y, floor);
    let lb = Vector::new(b.x, b.y, floor);
    let ghost start = obj.bytes();
    let ghost base = obj.count();
    write_corners(obj, la, lb, b);
    write_corners(obj, la, b, a);
    proof {
        let first = corners_text(low(a), low(b), b, base);
        let second = corners_text(low(a), b, a, base + 3);
        lemma_pieces(start, first, second, first, first, first, first);
    }
}

/// Writes the surface between the cell `(x, y)` of `map` and the cells to the
/// right of it and below it. Columns and rows are `ONE` apart, as one unit of
/// height is `ONE`.
pub fn mesh_cell(map: &Grid, obj: &mut ObjWriter, x: usize, y: usize)
    requires
        x + 1 < map.spec_width(),
        y + 1 < map.spec_height(),
        map.spec_width() * 65536 <= i64::MAX,
        map.spec_height() * 65536 <= i64::MAX,
        old(obj).count() + 6 <= usize::MAX,
    ensures
        final(obj).bytes() == old(obj).bytes() + mesh_cell_text(
            *map,
            x as int,
            y as int,
            old(obj).count(),
        ),
        final(obj).count() == old(obj).count() + 6,
{
    let a = corner_at(x, y, map.get(x, y));
    let b = corner_at(x + 1, y, map.get(x + 1, y));
    let c = corner_at(x, y + 1, map.get(x, y + 1));
    let d = corner_at(x + 1, y + 1, map.get(x + 1, y + 1));
    let ghost start = obj.bytes();
    let ghost base = obj.count();
    write_corners(obj, a, b, c);
    write_corners(obj, b, d, c);
    proof {
        let first = corners_text(a, b, c, base);
        let second = corners_text(b, d, c, base + 3);
        lemma_pieces(start, first, second, first, first, first, first);
    }
}

/// Writes the cell `(x, y)` of `map` as a block with a flat top and four walls.
/// Columns and rows are `ONE` apart, as one unit of height is `ONE`.
pub fn cube_cell(map: &Grid, obj: &mut ObjWriter, x: usize, y: usize)
    requires
        x + 1 < map.spec_width(),
        y + 1 < map.spec_height(),
        map.spec_width() * 65536 <= i64::MAX,
        map.spec_height() * 65536 <= i64::MAX,
        old(obj).count() + 30 <= usize::MAX,
    ensures
        final(obj).bytes() == old(obj).bytes() + cube_cell_text(
            *map,
            x as int,
            y as int,
            old(obj).count(),
        ),
        final(obj).count() == old(obj).count() + 30,
{
    let h = map.get(x, y);
    let a = corner_at(x, y, h);
    let b = corner_at(x + 1, y, h);
    let c = corner_at(x + 1, y + 1, h);
    let d = corner_at(x, y + 1, h);
    let ghost start = obj.bytes();
    let ghost base = obj.count();

    // top face
    write_corners(obj, a, b, c);
    write_corners(obj, a, c, d);

    // side faces
    write_side(obj, a, b);
    write_side(obj, b, c);
    write_side(obj, c, d);
    write_side(obj, d, a);
    proof {
        let t1 = corners_text(a, b, c, base);
        let t2 = corners_text(a, c, d, base + 3);
        let s1 = side_text(a, b, base + 6);
        let s2 = side_text(b, c, base + 12);
        let s3 = side_text(c, d, base + 18);
        let s4 = side_text(d, a, base + 24);
        lemma_pieces(start, t1, t2, s1, s2, s3, s4);
    }
}

} // verus!
