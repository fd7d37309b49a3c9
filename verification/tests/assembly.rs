use star_render::assemble_triangles;

#[test]
fn no_vertices_no_triangles() {
    let v: Vec<u32> = Vec::new();
    assert!(assemble_triangles(&v).is_empty());
}

#[test]
fn fewer_than_three_vertices_form_nothing() {
    assert!(assemble_triangles(&[7u32]).is_empty());
    assert!(assemble_triangles(&[7u32, 8]).is_empty());
}

#[test]
fn three_vertices_form_one_triangle() {
    assert_eq!(assemble_triangles(&[7u32, 8, 9]), vec![[7, 8, 9]]);
}

#[test]
fn leftover_vertices_are_dropped() {
    let v: Vec<u32> = vec![10, 20, 30, 40, 50, 60, 70];
    assert_eq!(assemble_triangles(&v), vec![[10, 20, 30], [40, 50, 60]]);
    let w: Vec<u32> = vec![10, 20, 30, 40, 50, 60, 70, 80];
    assert_eq!(assemble_triangles(&w), vec![[10, 20, 30], [40, 50, 60]]);
}

#[test]
fn triangles_keep_vertex_order() {
    let v: Vec<(f32, f32)> = (0..12).map(|i| (i as f32, -(i as f32))).collect();
    let t = assemble_triangles(&v);
    assert_eq!(t.len(), 4);
    for k in 0..4 {
        for j in 0..3 {
            assert_eq!(t[k][j], v[3 * k + j]);
        }
    }
}
