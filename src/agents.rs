use vstd::prelude::*;

verus! {

/// One agent's state: its position, velocity, facing direction and target
/// (of the vector type `V`), and its desired speed, maximum speed, maximum
/// acceleration and radius (of the scalar type `S`).
#[derive(Clone, Copy, Debug, PartialEq)]
pub struct Agent<V, S> {
    pub position: V,
    pub velocity: V,
    pub direction: V,
    pub target: V,
    pub desired_speed: S,
    pub maximum_speed: S,
    pub maximum_acceleration: S,
    pub radius: S,
}

/// The agents, one column per attribute; entry `i` of each column belongs
/// to agent `i`.
#[derive(Clone, Debug)]
pub struct Agents<V, S> {
    positions: Vec<V>,
    velocities: Vec<V>,
    directions: Vec<V>,
    targets: Vec<V>,
    desired_speeds: Vec<S>,
    maximum_speeds: Vec<S>,
    maximum_accelerations: Vec<S>,
    radii: Vec<S>,
}

/// A copy of `s`.
fn copy_slice<T: Copy>(s: &[T]) -> (r: Vec<T>)
    ensures
        r@ == s@,
{
    let mut r: Vec<T> = Vec::new();
    let mut i: usize = 0;
    while i < s.len()
        invariant
            i <= s.len(),
            r@ == s@.take(i as int),
        decreases s.len() - i,
    {
        r.push(s[i]);
        i += 1;
        assert(r@ =~= s@.take(i as int));
    }
    assert(s@.take(s.len() as int) =~= s@);
    r
}

impl<V: Copy, S: Copy> Agents<V, S> {
    pub closed spec fn positions(&self) -> Seq<V> {
        self.positions@
    }

    pub closed spec fn velocities(&self) -> Seq<V> {
        self.velocities@
    }

    pub closed spec fn directions(&self) -> Seq<V> {
        self.directions@
    }

    pub closed spec fn targets(&self) -> Seq<V> {
        self.targets@
    }

    pub closed spec fn desired_speeds(&self) -> Seq<S> {
        self.desired_speeds@
    }

    pub closed spec fn maximum_speeds(&self) -> Seq<S> {
        self.maximum_speeds@
    }

    pub closed spec fn maximum_accelerations(&self) -> Seq<S> {
        self.maximum_accelerations@
    }

    pub closed spec fn radii(&self) -> Seq<S> {
        self.radii@
    }

    /// The number of agents.
    pub open spec fn count(&self) -> nat {
        self.positions().len()
    }

    /// Every column has one entry per agent.
    pub open spec fn wf(&self) -> bool {
        &&& self.velocities().len() == self.count()
        &&& self.directions().len() == self.count()
        &&& self.targets().len() == self.count()
        &&& self.desired_speeds().len() == self.count()
        &&& self.maximum_speeds().len() == self.count()
        &&& self.maximum_accelerations().len() == self.count()
        &&& self.radii().len() == self.count()
    }

    /// Agent `i`, gathered from the columns.
    pub open spec fn agent(&self, i: int) -> Agent<V, S> {
        Agent {
            position: self.positions()[i],
            velocity: self.velocities()[i],
            direction: self.directions()[i],
            target: self.targets()[i],
            desired_speed: self.desired_speeds()[i],
            maximum_speed: self.maximum_speeds()[i],
            maximum_acceleration: self.maximum_accelerations()[i],
            radius: self.radii()[i],
        }
    }

    /// The store holds no agent.
    pub fn new() -> (r: Self)
        ensures
            r.wf(),
            r.count() == 0,
    {
        Agents {
            positions: Vec::new(),
            velocities: Vec::new(),
            directions: Vec::new(),
            targets: Vec::new(),
            desired_speeds: Vec::new(),
            maximum_speeds: Vec::new(),
            maximum_accelerations: Vec::new(),
            radii: Vec::new(),
        }
    }

    pub fn len(&self) -> (r: usize)
        requires
            self.wf(),
        ensures
            r == self.count(),
    {
        self.positions.len()
    }

    /// Adds `agent` after the others.
    pub fn create_agent(&mut self, agent: Agent<V, S>)
        requires
            old(self).wf(),
        ensures
            final(self).wf(),
            final(self).count() == old(self).count() + 1,
            final(self).agent(old(self).count() as int) == agent,
            forall|i: int| 0 <= i < old(self).count() ==> #[trigger] final(self).agent(i) == old(self).agent(i),
    {
        self.positions.push(agent.position);
        self.velocities.push(agent.velocity);
        self.directions.push(agent.direction);
        self.targets.push(agent.target);
        self.desired_speeds.push(agent.desired_speed);
        self.maximum_speeds.push(agent.maximum_speed);
        self.maximum_accelerations.push(agent.maximum_acceleration);
        self.radii.push(agent.radius);
    }

    /// Agent `idx_agent`.
    pub fn retrieve_agent(&self, idx_agent: usize) -> (r: Agent<V, S>)
        requires
            self.wf(),
            idx_agent < self.count(),
        ensures
            r == self.agent(idx_agent as int),
    {
        Agent {
            position: self.positions[idx_agent],
            velocity: self.velocities[idx_agent],
            direction: self.directions[idx_agent],
            target: self.targets[idx_agent],
            desired_speed: self.desired_speeds[idx_agent],
            maximum_speed: self.maximum_speeds[idx_agent],
            maximum_acceleration: self.maximum_accelerations[idx_agent],
            radius: self.radii[idx_agent],
        }
    }

    pub fn get_positions(&self) -> (r: &[V])
        ensures
            r@ == self.positions(),
    {
        self.positions.as_slice()
    }

    pub fn get_velocities(&self) -> (r: &[V])
        ensures
            r@ == self.velocities(),
    {
        self.velocities.as_slice()
    }

    pub fn get_directions(&self) -> (r: &[V])
        ensures
            r@ == self.directions(),
    {
        self.directions.as_slice()
    }

    pub fn get_targets(&self) -> (r: &[V])
        ensures
            r@ == self.targets(),
    {
        self.targets.as_slice()
    }

    pub fn get_desired_speeds(&self) -> (r: &[S])
        ensures
            r@ == self.desired_speeds(),
    {
        self.desired_speeds.as_slice()
    }

    pub fn get_maximum_speeds(&self) -> (r: &[S])
        ensures
            r@ == self.maximum_speeds(),
    {
        self.maximum_speeds.as_slice()
    }

    pub fn get_maximum_accelerations(&self) -> (r: &[S])
        ensures
            r@ == self.maximum_accelerations(),
    {
        self.maximum_accelerations.as_slice()
    }

    pub fn get_radii(&self) -> (r: &[S])
        ensures
            r@ == self.radii(),
    {
        self.radii.as_slice()
    }

    /// Replaces the positions of all agents.
    pub fn set_positions(&mut self, new_positions: &[V])
        requires
            old(self).wf(),
            new_positions@.len() == old(self).count(),
        ensures
            final(self).wf(),
            final(self).positions() == new_positions@,
            final(self).velocities() == old(self).velocities(),
            final(self).directions() == old(self).directions(),
            final(self).targets() == old(self).targets(),
            final(self).desired_speeds() == old(self).desired_speeds(),
            final(self).maximum_speeds() == old(self).maximum_speeds(),
            final(self).maximum_accelerations() == old(self).maximum_accelerations(),
            final(self).radii() == old(self).radii(),
    {
        self.positions = copy_slice(new_positions);
    }

    /// Replaces the velocities of all agents.
    pub fn set_velocities(&mut self, new_velocities: &[V])
        requires
            old(self).wf(),
            new_velocities@.len() == old(self).count(),
        ensures
            final(self).wf(),
            final(self).velocities() == new_velocities@,
            final(self).positions() == old(self).positions(),
            final(self).directions() == old(self).directions(),
            final(self).targets() == old(self).targets(),
            final(self).desired_speeds() == old(self).desired_speeds(),
            final(self).maximum_speeds() == old(self).maximum_speeds(),
            final(self).maximum_accelerations() == old(self).maximum_accelerations(),
            final(self).radii() == old(self).radii(),
    {
        self.velocities = copy_slice(new_velocities);
    }

    /// Replaces the directions of all agents.
    pub fn set_directions(&mut self, new_directions: &[V])
        requires
            old(self).wf(),
            new_directions@.len() == old(self).count(),
        ensures
            final(self).wf(),
            final(self).directions() == new_directions@,
            final(self).positions() == old(self).positions(),
            final(self).velocities() == old(self).velocities(),
            final(self).targets() == old(self).targets(),
            final(self).desired_speeds() == old(self).desired_speeds(),
            final(self).maximum_speeds() == old(self).maximum_speeds(),
            final(self).maximum_accelerations() == old(self).maximum_accelerations(),
            final(self).radii() == old(self).radii(),
    {
        self.directions = copy_slice(new_directions);
    }

    /// Replaces the targets of all agents.
    pub fn set_targets(&mut self, new_targets: &[V])
        requires
            old(self).wf(),
            new_targets@.len() == old(self).count(),
        ensures
            final(self).wf(),
            final(self).targets() == new_targets@,
            final(self).positions() == old(self).positions(),
            final(self).velocities() == old(self).velocities(),
            final(self).directions() == old(self).directions(),
            final(self).desired_speeds() == old(self).desired_speeds(),
            final(self).maximum_speeds() == old(self).maximum_speeds(),
            final(self).maximum_accelerations() == old(self).maximum_accelerations(),
            final(self).radii() == old(self).radii(),
    {
        self.targets = copy_slice(new_targets);
    }

    /// Replaces the desired speeds of all agents.
    pub fn set_desired_speeds(&mut self, new_desired_speeds: &[S])
        requires
            old(self).wf(),
            new_desired_speeds@.len() == old(self).count(),
        ensures
            final(self).wf(),
            final(self).desired_speeds() == new_desired_speeds@,
            final(self).positions() == old(self).positions(),
            final(self).velocities() == old(self).velocities(),
            final(self).directions() == old(self).directions(),
            final(self).targets() == old(self).targets(),
            final(self).maximum_speeds() == old(self).maximum_speeds(),
            final(self).maximum_accelerations() == old(self).maximum_accelerations(),
            final(self).radii() == old(self).radii(),
    {
        self.desired_speeds = copy_slice(new_desired_speeds);
    }

    /// Replaces the maximum speeds of all agents.
    pub fn set_maximum_speeds(&mut self, new_maximum_speeds: &[S])
        requires
            old(self).wf(),
            new_maximum_speeds@.len() == old(self).count(),
        ensures
            final(self).wf(),
            final(self).maximum_speeds() == new_maximum_speeds@,
            final(self).positions() == old(self).positions(),
            final(self).velocities() == old(self).velocities(),
            final(self).directions() == old(self).directions(),
            final(self).targets() == old(self).targets(),
            final(self).desired_speeds() == old(self).desired_speeds(),
            final(self).maximum_accelerations() == old(self).maximum_accelerations(),
            final(self).radii() == old(self).radii(),
    {
        self.maximum_speeds = copy_slice(new_maximum_speeds);
    }

    /// Replaces the maximum accelerations of all agents.
    pub fn set_maximum_accelerations(&mut self, new_maximum_accelerations: &[S])
        requires
            old(self).wf(),
            new_maximum_accelerations@.len() == old(self).count(),
        ensures
            final(self).wf(),
            final(self).maximum_accelerations() == new_maximum_accelerations@,
            final(self).positions() == old(self).positions(),
            final(self).velocities() == old(self).velocities(),
            final(self).directions() == old(self).directions(),
            final(self).targets() == old(self).targets(),
            final(self).desired_speeds() == old(self).desired_speeds(),
            final(self).maximum_speeds() == old(self).maximum_speeds(),
            final(self).radii() == old(self).radii(),
    {
        self.maximum_accelerations = copy_slice(new_maximum_accelerations);
    }

    /// Replaces the radii of all agents.
    pub fn set_radii(&mut self, new_radii: &[S])
        requires
            old(self).wf(),
            new_radii@.len() == old(self).count(),
        ensures
            final(self).wf(),
            final(self).radii() == new_radii@,
            final(self).positions() == old(self).positions(),
            final(self).velocities() == old(self).velocities(),
            final(self).directions() == old(self).directions(),
            final(self).targets() == old(self).targets(),
            final(self).desired_speeds() == old(self).desired_speeds(),
            final(self).maximum_speeds() == old(self).maximum_speeds(),
            final(self).maximum_accelerations() == old(self).maximum_accelerations(),
    {
        self.radii = copy_slice(new_radii);
    }
}

impl<V: Copy, S: Copy> Default for Agents<V, S> {
    fn default() -> (r: Self)
        ensures
            r.wf(),
            r.count() == 0,
    {
        Agents::new()
    }
}

} // verus!
