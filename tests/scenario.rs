use rusty_pedestrians_engine::scenario::EmptyScenario;

#[test]
fn empty_scenario_new_equals_default() {
  assert_eq!(EmptyScenario::new(), EmptyScenario::default());
  assert_eq!(EmptyScenario::new(), EmptyScenario {});
}
