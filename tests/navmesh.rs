use rusty_pedestrians_engine::navmesh::{CellEdge, Navmesh};

type Vec2 = (f64, f64);

fn unit_square() -> Navmesh<Vec2> {
  Navmesh::from_triangles(
    vec![(0., 0.), (1., 0.), (1., 1.), (0., 1.)],
    &vec![[0, 1, 2], [0, 2, 3]],
  )
}

fn det(a: Vec2, b: Vec2) -> f64 {
  a.0 * b.1 - a.1 * b.0
}

fn sides(mesh: &Navmesh<Vec2>, p: Vec2) -> Vec<i8> {
  let v = mesh.get_vertices();
  mesh
    .get_edges()
    .iter()
    .map(|&(a, b)| {
      let d = det((v[b].0 - v[a].0, v[b].1 - v[a].1), (p.0 - v[a].0, p.1 - v[a].1));
      if d > 0. {
        1
      } else if d < 0. {
        -1
      } else {
        0
      }
    })
    .collect()
}

#[test]
fn test_unit_square() {
  let navmesh = unit_square();
  assert_eq!(navmesh.get_vertices().len(), 4);
  assert_eq!(navmesh.get_edges(), &[(0, 1), (1, 2), (0, 2), (2, 3), (0, 3)]);
  assert_eq!(
    navmesh.get_cells_edges(),
    &[
      [CellEdge::Direct(0), CellEdge::Direct(1), CellEdge::Indirect(2)],
      [CellEdge::Direct(2), CellEdge::Direct(3), CellEdge::Indirect(4)],
    ]
  );
  assert_eq!(
    navmesh.get_edges_cells(),
    &[
      (Some(0), None),
      (Some(0), None),
      (Some(1), Some(0)),
      (Some(1), None),
      (None, Some(1)),
    ]
  );
  assert_eq!(navmesh.count_cells(), 2);
  assert_eq!(navmesh.get_cell(0), Some([(0., 0.), (1., 0.), (1., 1.)]));
  assert_eq!(navmesh.get_cell(1), Some([(0., 0.), (1., 1.), (0., 1.)]));
  assert_eq!(navmesh.get_cell(2), None);
  assert_eq!(navmesh.cell_vertex_indices(1), Some([0, 2, 3]));
}

#[test]
fn test_render_to_obj() {
  let navmesh = Navmesh::from_triangles(
    vec![(0., 0.), (1., 0.), (1., 1.), (0., 1.), (2., 0.), (2., 1.)],
    &vec![[0, 1, 2], [0, 2, 3], [1, 4, 5], [1, 5, 2]],
  );
  assert_eq!(
    String::from_utf8(navmesh.render_faces_obj()).unwrap(),
    "f 1 2 3\n\
    f 1 3 4\n\
    f 2 5 6\n\
    f 2 6 3\n"
  );
}

#[test]
fn faces_number_vertices_past_nine() {
  let mut vertices: Vec<Vec2> = (0..10).map(|i| (i as f64, 0.)).collect();
  vertices.push((0., 1.));
  let navmesh = Navmesh::from_triangles(vertices, &vec![[9, 0, 10]]);
  assert_eq!(String::from_utf8(navmesh.render_faces_obj()).unwrap(), "f 10 1 11\n");
}

#[test]
fn test_locate_square() {
  let navmesh = Navmesh::from_triangles(
    vec![(-5., -5.), (5., -5.), (-5., 5.), (5., 5.)],
    &vec![[0, 1, 2], [3, 2, 1]],
  );
  let at = |p: Vec2, o: Option<usize>| navmesh.locate(&sides(&navmesh, p), o);
  assert_eq!(at((-2., -2.), None), Some(0));
  assert_eq!(at((2., 2.), None), Some(1));
  assert_eq!(at((-2., -2.), Some(1)), Some(0));
  assert_eq!(at((2., 2.), Some(1)), Some(1));
  assert_eq!(at((10., 0.), Some(0)), None);
  assert_eq!(at((10., 0.), Some(1)), None);
  assert_eq!(at((-1., 1.), Some(0)), Some(0));
  assert_eq!(at((-1., 1.), Some(1)), Some(1));
}

#[test]
fn locate_in_a_mesh_without_cells_finds_nothing() {
  let navmesh: Navmesh<Vec2> = Navmesh::from_triangles(vec![], &vec![]);
  assert_eq!(navmesh.count_cells(), 0);
  assert_eq!(navmesh.locate(&vec![], None), None);
  assert_eq!(String::from_utf8(navmesh.render_faces_obj()).unwrap(), "");
}

#[test]
fn locate_walks_across_several_cells() {
  // A strip of four cells from x = 0 to x = 4.
  let navmesh = Navmesh::from_triangles(
    vec![(0., 0.), (2., 0.), (4., 0.), (0., 1.), (2., 1.), (4., 1.)],
    &vec![[0, 1, 4], [0, 4, 3], [1, 2, 5], [1, 5, 4]],
  );
  assert_eq!(navmesh.locate(&sides(&navmesh, (3.5, 0.2)), Some(1)), Some(2));
  assert_eq!(navmesh.locate(&sides(&navmesh, (2.5, 0.9)), Some(1)), Some(3));
}

#[test]
fn empty_scenario_mesh_renders_two_unit_square_faces() {
  // The unit square as the empty scenario lays it out, its second cell
  // turned counter-clockwise.
  let navmesh = Navmesh::from_triangles(
    vec![(0., 0.), (1., 0.), (1., 1.), (0., 1.)],
    &vec![[0, 1, 2], [0, 2, 3]],
  );
  assert_eq!(
    String::from_utf8(navmesh.render_faces_obj()).unwrap(),
    "f 1 2 3\nf 1 3 4\n"
  );
}
