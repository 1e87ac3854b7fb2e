use rusty_pedestrians_engine::neighborhood::{nearest_neighbors, AgentNeighborhood, MAX_NEIGHBORS};

type Vec2 = (f64, f64);

fn distance(a: Vec2, b: Vec2) -> f64 {
  ((a.0 - b.0).powi(2) + (a.1 - b.1).powi(2)).sqrt()
}

fn neighborhoods(positions: &[Vec2], velocities: &[Vec2], radii: &[f64]) -> Vec<AgentNeighborhood<Vec2, f64>> {
  let distances: Vec<Vec<f64>> = positions
    .iter()
    .map(|&p| positions.iter().map(|&q| distance(q, p)).collect())
    .collect();
  let keys: Vec<Vec<u64>> = distances
    .iter()
    .map(|row| row.iter().map(|d| d.to_bits()).collect())
    .collect();
  AgentNeighborhood::compute_agents_neighborhood(
    &positions.to_vec(),
    &velocities.to_vec(),
    &radii.to_vec(),
    &distances,
    &keys,
  )
}

#[test]
fn test_compute_agents_neighborhood() {
  let positions = vec![(1.0, 1.0), (-2.0, 2.0), (-3.0, -3.0), (4.0, -4.0)];
  let velocities = vec![(0., 0.); 4];
  let radii = vec![0.35; 4];
  let agents_neighborhood = neighborhoods(&positions, &velocities, &radii);
  assert_eq!(agents_neighborhood[0].neighbors_len(), 3);
  assert_eq!(agents_neighborhood[1].neighbors_len(), 3);
  assert_eq!(agents_neighborhood[2].neighbors_len(), 3);
  assert_eq!(agents_neighborhood[3].neighbors_len(), 3);
  assert_eq!(
    agents_neighborhood[0].get_neighbors_positions(),
    &[(-2.0, 2.0), (-3.0, -3.0), (4.0, -4.0)]
  );
  assert_eq!(agents_neighborhood[0].get_neighbors_radii(), &[0.35, 0.35, 0.35]);
}

#[test]
fn neighbors_are_sorted_by_distance_then_index() {
  // Agent 0 is the focal one; agents 2 and 3 are equally far.
  let keys: Vec<u64> = vec![0, 50, 20, 20, 10];
  assert_eq!(nearest_neighbors(&keys, 0), vec![4, 2, 3, 1]);
}

#[test]
fn focal_agent_is_excluded_even_when_another_shares_its_place() {
  let keys: Vec<u64> = vec![0, 0, 7];
  assert_eq!(nearest_neighbors(&keys, 1), vec![0, 2]);
}

#[test]
fn at_most_ten_neighbors_are_kept() {
  let keys: Vec<u64> = (0..15u64).rev().collect();
  let r = nearest_neighbors(&keys, 14);
  assert_eq!(r.len(), MAX_NEIGHBORS);
  assert_eq!(r, vec![13, 12, 11, 10, 9, 8, 7, 6, 5, 4]);
}

#[test]
fn lone_agent_has_no_neighbor() {
  assert_eq!(nearest_neighbors(&vec![0u64], 0), Vec::<usize>::new());
  let n = neighborhoods(&[(0., 0.)], &[(1., 1.)], &[0.35]);
  assert_eq!(n[0].neighbors_len(), 0);
}

#[test]
fn neighborhood_carries_velocities_and_distances() {
  let positions = vec![(0., 0.), (3., 4.), (1., 0.)];
  let velocities = vec![(0., 0.), (1., 2.), (3., 4.)];
  let radii = vec![0.1, 0.2, 0.3];
  let n = neighborhoods(&positions, &velocities, &radii);
  assert_eq!(n[0].get_neighbors_indices(), &[2, 1]);
  assert_eq!(n[0].get_neighbors_velocities(), &[(3., 4.), (1., 2.)]);
  assert_eq!(n[0].get_neighbors_radii(), &[0.3, 0.2]);
  assert_eq!(n[0].get_neighbors_distances(), &[1., 5.]);
}
