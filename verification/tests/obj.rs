use worldgen::geometry::{Triangle, Vector};
use worldgen::grid::Grid;
use worldgen::obj::{cube_cell, mesh_cell, ObjWriter};

fn text(bytes: Vec<u8>) -> String {
    String::from_utf8(bytes).unwrap()
}

#[test]
fn writer_starts_with_header() {
    let mut writer = ObjWriter::new();
    assert_eq!(text(writer.take()), "# Terrain Export from _WorldGenTM_\n");
    assert_eq!(text(writer.take()), "");
}

#[test]
fn vertex_line() {
    let mut writer = ObjWriter::new();
    writer.take();
    writer.vertex(&Vector::new(1, -20, 305));
    assert_eq!(text(writer.take()), "v 1 -20 305\n");
}

#[test]
fn vertex_line_at_the_limits() {
    let mut writer = ObjWriter::new();
    writer.take();
    writer.vertex(&Vector::new(i64::MIN, 0, i64::MAX));
    assert_eq!(
        text(writer.take()),
        "v -9223372036854775808 0 9223372036854775807\n"
    );
}

#[test]
fn triangle_lines_count_vertices() {
    let mut writer = ObjWriter::new();
    writer.take();
    let a = Vector::new(0, 0, 0);
    let b = Vector::new(1, 0, 0);
    let c = Vector::new(0, 1, 10);
    writer.triangle(&Triangle([a, b, c]));
    assert_eq!(text(writer.take()), "v 0 0 0\nv 1 0 0\nv 0 1 10\nf 1 2 3\n");
    assert_eq!(writer.vertex_count(), 3);
    writer.triangle(&Triangle([c, b, a]));
    assert_eq!(text(writer.take()), "v 0 1 10\nv 1 0 0\nv 0 0 0\nf 4 5 6\n");
    assert_eq!(writer.vertex_count(), 6);
}

#[test]
fn triangles_are_written_in_order() {
    let mut writer = ObjWriter::new();
    writer.take();
    let a = Vector::new(0, 0, 0);
    let b = Vector::new(1, 0, 0);
    let c = Vector::new(0, 1, 0);
    let d = Vector::new(1, 1, 0);
    writer.triangles(&[Triangle([a, b, c]), Triangle([b, d, c])]);
    assert_eq!(
        text(writer.take()),
        "v 0 0 0\nv 1 0 0\nv 0 1 0\nf 1 2 3\nv 1 0 0\nv 1 1 0\nv 0 1 0\nf 4 5 6\n"
    );
}

#[test]
fn line_lists_its_vertices() {
    let mut writer = ObjWriter::new();
    writer.take();
    writer.line(&[Vector::new(0, 0, 0), Vector::new(5, 5, 5), Vector::new(-1, 2, 3)]);
    assert_eq!(
        text(writer.take()),
        "v 0 0 0\nv 5 5 5\nv -1 2 3\nl 1 2 3\n"
    );
    writer.line(&[Vector::new(7, 8, 9)]);
    assert_eq!(text(writer.take()), "v 7 8 9\nl 4\n");
}

#[test]
fn empty_line() {
    let mut writer = ObjWriter::new();
    writer.take();
    writer.line(&[]);
    assert_eq!(text(writer.take()), "l\n");
}

#[test]
fn mesh_cell_spans_two_triangles() {
    let mut map = Grid::new(3, 3);
    map.map_coords(|x, y, _| (10 * x + y) as i64);
    let mut writer = ObjWriter::new();
    writer.take();
    mesh_cell(&map, &mut writer, 1, 0);
    assert_eq!(
        text(writer.take()),
        "v 65536 0 10\nv 131072 0 20\nv 65536 65536 11\nf 1 2 3\n\
         v 131072 0 20\nv 131072 65536 21\nv 65536 65536 11\nf 4 5 6\n"
    );
    assert_eq!(writer.vertex_count(), 6);
}

#[test]
fn cube_cell_has_a_top_and_four_walls() {
    let mut map = Grid::new(2, 2);
    map.set(0, 0, 7);
    let mut writer = ObjWriter::new();
    writer.take();
    cube_cell(&map, &mut writer, 0, 0);
    let lines = text(writer.take());
    let expected = [
        // top
        "v 0 0 7", "v 65536 0 7", "v 65536 65536 7", "f 1 2 3",
        "v 0 0 7", "v 65536 65536 7", "v 0 65536 7", "f 4 5 6",
        // wall below the first edge
        "v 0 0 -6553600", "v 65536 0 -6553600", "v 65536 0 7", "f 7 8 9",
        "v 0 0 -6553600", "v 65536 0 7", "v 0 0 7", "f 10 11 12",
        // second edge
        "v 65536 0 -6553600", "v 65536 65536 -6553600", "v 65536 65536 7", "f 13 14 15",
        "v 65536 0 -6553600", "v 65536 65536 7", "v 65536 0 7", "f 16 17 18",
        // third edge
        "v 65536 65536 -6553600", "v 0 65536 -6553600", "v 0 65536 7", "f 19 20 21",
        "v 65536 65536 -6553600", "v 0 65536 7", "v 65536 65536 7", "f 22 23 24",
        // fourth edge
        "v 0 65536 -6553600", "v 0 0 -6553600", "v 0 0 7", "f 25 26 27",
        "v 0 65536 -6553600", "v 0 0 7", "v 0 65536 7", "f 28 29 30",
    ];
    assert_eq!(lines.lines().collect::<Vec<_>>(), expected);
    assert_eq!(writer.vertex_count(), 30);
}
