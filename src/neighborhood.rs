use vstd::prelude::*;
use vstd::set_lib::{lemma_int_range, lemma_len_subset, set_int_range};

verus! {

/// How many neighbours an agent takes into account.
pub const MAX_NEIGHBORS: usize = 10;

/// Agent `a` comes before agent `b` in the neighbour order: the smaller
/// distance key first, and the lower index among equal keys.
///
/// A distance key is any order-preserving encoding of a distance (for a
/// non-negative float, its bit pattern).
pub open spec fn precedes(keys: Seq<u64>, a: int, b: int) -> bool {
    keys[a] < keys[b] || (keys[a] == keys[b] && a < b)
}

/// `j` is an agent other than the focal one.
pub open spec fn is_candidate(count: int, focal: int, j: int) -> bool {
    0 <= j < count && j != focal
}

/// How many neighbours the focal agent gets among `count` agents.
pub open spec fn neighbor_count(count: int) -> int {
    if count - 1 < MAX_NEIGHBORS {
        count - 1
    } else {
        MAX_NEIGHBORS as int
    }
}

/// Agent `c` stands in the list `r`.
pub open spec fn lists(r: Seq<usize>, c: int) -> bool {
    exists|i: int| 0 <= i < r.len() && r[i] as int == c
}

/// `r` lists, in neighbour order, the nearest agents to `focal`: as many as
/// `neighbor_count` allows, all other than `focal`, and every agent left out
/// comes after every agent listed.
pub open spec fn is_nearest_selection(keys: Seq<u64>, focal: int, r: Seq<usize>) -> bool {
    &&& r.len() == neighbor_count(keys.len() as int)
    &&& forall|i: int| 0 <= i < r.len() ==> is_candidate(keys.len() as int, focal, #[trigger] r[i] as int)
    &&& forall|i: int, j: int| 0 <= i < j < r.len() ==> precedes(keys, #[trigger] r[i] as int, #[trigger] r[j] as int)
    &&& forall|c: int, i: int|
        is_candidate(keys.len() as int, focal, c) && !lists(r, c) && 0 <= i < r.len()
            ==> #[trigger] precedes(keys, r[i] as int, c)
}

/// A duplicate-free list that holds every agent other than `focal`, among
/// `count`, has at least `count - 1` entries.
proof fn lemma_all_candidates_listed(s: Seq<usize>, count: int, focal: int)
    requires
        0 <= focal < count,
        s.no_duplicates(),
        forall|c: int| is_candidate(count, focal, c) ==> lists(s, c),
    ensures
        s.len() >= count - 1,
{
    let t = s.map_values(|x: usize| x as int);
    assert(t.no_duplicates()) by {
        assert forall|i: int, j: int| 0 <= i < t.len() && 0 <= j < t.len() && i != j implies t[i] != t[j] by {
            assert(s[i] != s[j]);
        }
    }
    t.unique_seq_to_set();
    lemma_int_range(0, count);
    let u = set_int_range(0, count).remove(focal);
    assert(u.len() == count - 1);
    assert forall|x: int| u.contains(x) implies t.to_set().contains(x) by {
        assert(is_candidate(count, focal, x));
        assert(lists(s, x));
        let i = choose|i: int| 0 <= i < s.len() && s[i] as int == x;
        assert(t[i] == x);
    }
    lemma_len_subset(u, t.to_set());
}

/// The nearest neighbours of agent `focal`, given one distance key per agent
/// (the key of its distance to `focal`).
pub fn nearest_neighbors(distance_keys: &Vec<u64>, focal: usize) -> (r: Vec<usize>)
    requires
        focal < distance_keys.len(),
    ensures
        is_nearest_selection(distance_keys@, focal as int, r@),
{
    let ghost keys = distance_keys@;
    let n = distance_keys.len();
    let wanted: usize = if n - 1 < MAX_NEIGHBORS { n - 1 } else { MAX_NEIGHBORS };
    let mut r: Vec<usize> = Vec::new();
    while r.len() < wanted
        invariant
            n == keys.len(),
            keys == distance_keys@,
            focal < n,
            wanted as int == neighbor_count(n as int),
            r.len() <= wanted,
            forall|i: int| 0 <= i < r.len() ==> is_candidate(n as int, focal as int, #[trigger] r@[i] as int),
            forall|i: int, j: int| 0 <= i < j < r.len() ==> precedes(keys, #[trigger] r@[i] as int, #[trigger] r@[j] as int),
            forall|c: int, i: int|
                is_candidate(n as int, focal as int, c) && !lists(r@, c) && 0 <= i < r.len()
                    ==> #[trigger] precedes(keys, r@[i] as int, c),
        decreases wanted - r.len(),
    {
        proof {
            assert(r@.no_duplicates()) by {
                assert forall|i: int, j: int| 0 <= i < r.len() && 0 <= j < r.len() && i != j implies r@[i] != r@[j] by {
                    if i < j {
                        assert(precedes(keys, r@[i] as int, r@[j] as int));
                    } else {
                        assert(precedes(keys, r@[j] as int, r@[i] as int));
                    }
                }
            }
        }
        let ghost prev = r@;
        // The first left-out candidate in neighbour order.
        let mut best: usize = n;
        let mut j: usize = 0;
        while j < n
            invariant
                n == keys.len(),
                keys == distance_keys@,
                focal < n,
                j <= n,
                r@ == prev,
                best == n || (is_candidate(n as int, focal as int, best as int) && !lists(r@, best as int)),
                forall|c: int|
                    0 <= c < j && is_candidate(n as int, focal as int, c) && !lists(r@, c)
                        ==> best < n && (c == best || precedes(keys, best as int, c)),
            decreases n - j,
        {
            if j != focal {
                let mut listed = false;
                let mut k: usize = 0;
                while k < r.len()
                    invariant
                        k <= r.len(),
                        listed <==> exists|i: int| 0 <= i < k && r@[i] == j,
                    decreases r.len() - k,
                {
                    if r[k] == j {
                        listed = true;
                    }
                    k += 1;
                }
                proof {
                    if lists(r@, j as int) {
                        let i = choose|i: int| 0 <= i < r.len() && r@[i] as int == j as int;
                        assert(listed);
                    }
                }
                if !listed {
                    if best == n || distance_keys[j] < distance_keys[best]
                        || (distance_keys[j] == distance_keys[best] && j < best) {
                        best = j;
                    }
                }
            }
            j += 1;
        }
        proof {
            // The pigeonhole bound guarantees that a candidate is left out.
            if best == n {
                lemma_all_candidates_listed(r@, n as int, focal as int);
            }
        }
        r.push(best);
        proof {
            assert forall|c: int| !lists(r@, c) implies !lists(prev, c) && c != best by {
                if lists(prev, c) {
                    let i = choose|i: int| 0 <= i < prev.len() && prev[i] as int == c;
                    assert(r@[i] as int == c);
                }
                if c == best {
                    assert(r@[prev.len() as int] as int == c);
                }
            }
        }
    }
    r
}

/// The nearest selection is unique: any two lists that both select the
/// nearest neighbours of `focal` are the same list, so the neighbour order
/// (distance key, then index) fixes each agent's neighbourhood exactly.
pub proof fn lemma_nearest_selection_unique(keys: Seq<u64>, focal: int, r1: Seq<usize>, r2: Seq<usize>)
    requires
        is_nearest_selection(keys, focal, r1),
        is_nearest_selection(keys, focal, r2),
    ensures
        r1 == r2,
{
    assert forall|i: int| 0 <= i < r1.len() implies r1[i] == r2[i] by {
        lemma_selections_agree_up_to(keys, focal, r1, r2, i);
    }
    assert(r1 =~= r2);
}

/// Two nearest selections agree on their first `i + 1` entries.
proof fn lemma_selections_agree_up_to(keys: Seq<u64>, focal: int, r1: Seq<usize>, r2: Seq<usize>, i: int)
    requires
        is_nearest_selection(keys, focal, r1),
        is_nearest_selection(keys, focal, r2),
        0 <= i < r1.len(),
    ensures
        forall|m: int| 0 <= m <= i ==> r1[m] == r2[m],
    decreases i,
{
    if i > 0 {
        lemma_selections_agree_up_to(keys, focal, r1, r2, i - 1);
    }
    let a = r1[i] as int;
    let b = r2[i] as int;
    if a != b {
        assert(is_candidate(keys.len() as int, focal, r1[i] as int));
        assert(is_candidate(keys.len() as int, focal, r2[i] as int));
        if precedes(keys, a, b) {
            // `a` would have to come in `r2` before `b`, or after it.
            if lists(r2, a) {
                let j = choose|j: int| 0 <= j < r2.len() && r2[j] as int == a;
                if j < i {
                    assert(r1[j] == r2[j]);
                    assert(precedes(keys, r1[j] as int, r1[i] as int));
                } else {
                    assert(precedes(keys, r2[i] as int, r2[j] as int));
                }
            } else {
                assert(precedes(keys, r2[i] as int, a));
            }
        } else {
            assert(precedes(keys, b, a));
            if lists(r1, b) {
                let j = choose|j: int| 0 <= j < r1.len() && r1[j] as int == b;
                if j < i {
                    assert(r1[j] == r2[j]);
                    assert(precedes(keys, r2[j] as int, r2[i] as int));
                } else {
                    assert(precedes(keys, r1[i] as int, r1[j] as int));
                }
            } else {
                assert(precedes(keys, r1[i] as int, b));
            }
        }
    }
}

/// The values that `sel` picks out of `values`, in the order of `sel`.
pub open spec fn picked<T>(values: Seq<T>, sel: Seq<usize>) -> Seq<T> {
    Seq::new(sel.len(), |k: int| values[sel[k] as int])
}

/// The neighbours of one focal agent, nearest first: their indices and, in
/// parallel, their positions, velocities, radii and distances to the focal
/// agent. Positions and velocities are of the vector type `V`, radii and
/// distances of the scalar type `S`.
pub struct AgentNeighborhood<V, S> {
    neighbors_indices: Vec<usize>,
    neighbors_positions: Vec<V>,
    neighbors_velocities: Vec<V>,
    neighbors_radii: Vec<S>,
    neighbors_distances: Vec<S>,
}

/// Copies the entries of `values` that `sel` picks.
fn pick<T: Copy>(values: &Vec<T>, sel: &Vec<usize>) -> (r: Vec<T>)
    requires
        forall|k: int| 0 <= k < sel.len() ==> #[trigger] sel@[k] < values.len(),
    ensures
        r@ == picked(values@, sel@),
{
    let mut r: Vec<T> = Vec::new();
    let mut k: usize = 0;
    while k < sel.len()
        invariant
            k <= sel.len(),
            forall|m: int| 0 <= m < sel.len() ==> #[trigger] sel@[m] < values.len(),
            r@ == picked(values@, sel@.take(k as int)),
        decreases sel.len() - k,
    {
        r.push(values[sel[k]]);
        k += 1;
        proof {
            assert(r@ =~= picked(values@, sel@.take(k as int)));
        }
    }
    proof {
        assert(sel@.take(sel.len() as int) =~= sel@);
    }
    r
}

impl<V: Copy, S: Copy> AgentNeighborhood<V, S> {
    /// The indices of the neighbours, nearest first.
    pub closed spec fn indices(&self) -> Seq<usize> {
        self.neighbors_indices@
    }

    pub closed spec fn positions(&self) -> Seq<V> {
        self.neighbors_positions@
    }

    pub closed spec fn velocities(&self) -> Seq<V> {
        self.neighbors_velocities@
    }

    pub closed spec fn radii(&self) -> Seq<S> {
        self.neighbors_radii@
    }

    pub closed spec fn distances(&self) -> Seq<S> {
        self.neighbors_distances@
    }

    /// The neighbourhood lists every neighbour's data, in parallel with its
    /// indices.
    pub open spec fn gathers(
        &self,
        positions: Seq<V>,
        velocities: Seq<V>,
        radii: Seq<S>,
        distances: Seq<S>,
    ) -> bool {
        &&& self.positions() == picked(positions, self.indices())
        &&& self.velocities() == picked(velocities, self.indices())
        &&& self.radii() == picked(radii, self.indices())
        &&& self.distances() == picked(distances, self.indices())
    }

    /// The neighbourhood of agent `focal`: its nearest other agents by
    /// `distance_keys`, with their data taken from the columns.
    /// `distances` and `distance_keys` hold, for each agent, its distance to
    /// `focal` and that distance's key.
    pub fn compute_agent_neighborhood(
        focal: usize,
        positions: &Vec<V>,
        velocities: &Vec<V>,
        radii: &Vec<S>,
        distances: &Vec<S>,
        distance_keys: &Vec<u64>,
    ) -> (r: Self)
        requires
            focal < positions.len(),
            velocities.len() == positions.len(),
            radii.len() == positions.len(),
            distances.len() == positions.len(),
            distance_keys.len() == positions.len(),
        ensures
            is_nearest_selection(distance_keys@, focal as int, r.indices()),
            r.gathers(positions@, velocities@, radii@, distances@),
    {
        let sel = nearest_neighbors(distance_keys, focal);
        AgentNeighborhood {
            neighbors_positions: pick(positions, &sel),
            neighbors_velocities: pick(velocities, &sel),
            neighbors_radii: pick(radii, &sel),
            neighbors_distances: pick(distances, &sel),
            neighbors_indices: sel,
        }
    }

    /// The neighbourhood of every agent; row `i` of `distances` and of
    /// `distance_keys` holds each agent's distance to agent `i` and its key.
    pub fn compute_agents_neighborhood(
        positions: &Vec<V>,
        velocities: &Vec<V>,
        radii: &Vec<S>,
        distances: &Vec<Vec<S>>,
        distance_keys: &Vec<Vec<u64>>,
    ) -> (r: Vec<Self>)
        requires
            velocities.len() == positions.len(),
            radii.len() == positions.len(),
            distances.len() == positions.len(),
            distance_keys.len() == positions.len(),
            forall|i: int| 0 <= i < positions.len() ==> #[trigger] distances@[i].len() == positions.len(),
            forall|i: int| 0 <= i < positions.len() ==> #[trigger] distance_keys@[i].len() == positions.len(),
        ensures
            r.len() == positions.len(),
            forall|i: int| 0 <= i < r.len() ==> is_nearest_selection(distance_keys@[i]@, i, #[trigger] r@[i].indices()),
            forall|i: int| 0 <= i < r.len() ==> #[trigger] r@[i].gathers(positions@, velocities@, radii@, distances@[i]@),
    {
        let mut r: Vec<Self> = Vec::new();
        let mut i: usize = 0;
        while i < positions.len()
            invariant
                i <= positions.len(),
                r.len() == i,
                velocities.len() == positions.len(),
                radii.len() == positions.len(),
                distances.len() == positions.len(),
                distance_keys.len() == positions.len(),
                forall|m: int| 0 <= m < positions.len() ==> #[trigger] distances@[m].len() == positions.len(),
                forall|m: int| 0 <= m < positions.len() ==> #[trigger] distance_keys@[m].len() == positions.len(),
                forall|m: int| 0 <= m < i ==> is_nearest_selection(distance_keys@[m]@, m, #[trigger] r@[m].indices()),
                forall|m: int| 0 <= m < i ==> #[trigger] r@[m].gathers(positions@, velocities@, radii@, distances@[m]@),
            decreases positions.len() - i,
        {
            assert(distances@[i as int].len() == positions.len());
            assert(distance_keys@[i as int].len() == positions.len());
            let n = Self::compute_agent_neighborhood(
                i,
                positions,
                velocities,
                radii,
                &distances[i],
                &distance_keys[i],
            );
            r.push(n);
            i += 1;
        }
        r
    }

    pub fn neighbors_len(&self) -> (r: usize)
        ensures
            r == self.indices().len(),
    {
        self.neighbors_indices.len()
    }

    pub fn get_neighbors_indices(&self) -> (r: &[usize])
        ensures
            r@ == self.indices(),
    {
        self.neighbors_indices.as_slice()
    }

    pub fn get_neighbors_positions(&self) -> (r: &[V])
        ensures
            r@ == self.positions(),
    {
        self.neighbors_positions.as_slice()
    }

    pub fn get_neighbors_velocities(&self) -> (r: &[V])
        ensures
            r@ == self.velocities(),
    {
        self.neighbors_velocities.as_slice()
    }

    pub fn get_neighbors_radii(&self) -> (r: &[S])
        ensures
            r@ == self.radii(),
    {
        self.neighbors_radii.as_slice()
    }

    pub fn get_neighbors_distances(&self) -> (r: &[S])
        ensures
            r@ == self.distances(),
    {
        self.neighbors_distances.as_slice()
    }
}

} // verus!
