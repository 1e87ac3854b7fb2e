use rusty_pedestrians_engine::agents::{Agent, Agents};

type Vec2 = (f64, f64);

fn default_agent() -> Agent<Vec2, f64> {
  Agent {
    position: (0., 0.),
    velocity: (0., 0.),
    direction: (1., 0.),
    target: (0., 0.),
    desired_speed: 2.1,
    maximum_speed: 3.0,
    maximum_acceleration: 3.0,
    radius: 0.35,
  }
}

#[test]
fn agents_test_new() {
  let agents: Agents<Vec2, f64> = Agents::new();
  assert_eq!(agents.len(), 0);
}

#[test]
fn test_create_agent() {
  let mut agents: Agents<Vec2, f64> = Agents::new();
  let created_agent = Agent {
    position: (2.0, 3.0),
    velocity: (0., 0.),
    ..default_agent()
  };
  agents.create_agent(created_agent);
  assert_eq!(agents.len(), 1);
  assert_eq!(agents.get_positions(), &[(2.0, 3.0)]);
  assert_eq!(agents.get_velocities(), &[(0., 0.)]);
  assert_eq!(agents.retrieve_agent(0), created_agent);
}

#[test]
fn columns_stay_parallel_after_creation_and_updates() {
  let mut agents: Agents<Vec2, f64> = Agents::new();
  for i in 0..3 {
    agents.create_agent(Agent {
      position: (i as f64, 0.),
      radius: 0.5 + i as f64,
      ..default_agent()
    });
  }
  agents.set_velocities(&[(1., 0.), (0., 1.), (-1., 0.)]);
  agents.set_radii(&[1., 2., 3.]);
  assert_eq!(agents.len(), 3);
  assert_eq!(agents.get_velocities().len(), 3);
  assert_eq!(agents.get_directions().len(), 3);
  assert_eq!(agents.get_targets().len(), 3);
  assert_eq!(agents.get_desired_speeds().len(), 3);
  assert_eq!(agents.get_maximum_speeds().len(), 3);
  assert_eq!(agents.get_maximum_accelerations().len(), 3);
  let a = agents.retrieve_agent(1);
  assert_eq!(a.position, (1., 0.));
  assert_eq!(a.velocity, (0., 1.));
  assert_eq!(a.radius, 2.);
  assert_eq!(a.desired_speed, 2.1);
}

#[test]
fn default_store_is_empty() {
  let agents: Agents<Vec2, f64> = Agents::default();
  assert_eq!(agents.len(), 0);
  assert_eq!(agents.get_radii().len(), 0);
}
