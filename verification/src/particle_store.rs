//! Structure-of-arrays particle storage and the deterministic random stream
//! that drives particle creation.
//!
//! Every particle is identified by its index into parallel columns. Its
//! `id` is a unique, monotonically increasing number that stays with the
//! particle when dead particles are compacted away; bonds refer to partners
//! by id. The physical scalars (position, velocity, energy, ...) are kept
//! as values of a type parameter `F` that the store only moves around.
use crate::components::{CellRole, ParticleType, MAX_BONDS, NUM_TYPES};
use std::collections::{HashMap, HashSet};
use vstd::prelude::*;
use vstd::std_specs::iter::IteratorSpec;

verus! {

// ---------------------------------------------------------------------------
// SimRng: deterministic pseudo-random stream (Mulberry32)
// ---------------------------------------------------------------------------

/// Increment added to the generator state on every draw.
pub const MULBERRY32_STEP: u32 = 0x6D2B_79F5;

/// The generator state after one draw from state `s`.
pub open spec fn mulberry32_advance(s: u32) -> u32 {
    ((s + MULBERRY32_STEP) % 0x1_0000_0000) as u32
}

/// The 32-bit output that Mulberry32 derives from an advanced state `s`.
pub open spec fn mulberry32_output(s: u32) -> u32 {
    let t1 = (((s ^ (s >> 15u32)) as int * (s | 1u32) as int) % 0x1_0000_0000) as u32;
    let t2 = t1 ^ ((t1 as int + ((t1 ^ (t1 >> 7u32)) as int * (t1 | 61u32) as int) % 0x1_0000_0000)
        % 0x1_0000_0000) as u32;
    t2 ^ (t2 >> 14u32)
}

/// The generator state after `k` draws from seed `seed`: the state walks
/// through an arithmetic progression modulo 2^32.
pub open spec fn mulberry32_state_after(seed: u32, k: nat) -> u32 {
    ((seed + k * MULBERRY32_STEP) % 0x1_0000_0000) as u32
}

/// Deterministic pseudo-random number generator (Mulberry32).
///
/// The same seed always produces the same stream of draws.
pub struct SimRng {
    state: u32,
}

impl View for SimRng {
    type V = u32;

    /// The generator's current state.
    closed spec fn view(&self) -> u32 {
        self.state
    }
}

impl Default for SimRng {
    /// A generator seeded with 42.
    fn default() -> (r: Self)
        ensures
            r@ == 42,
    {
        SimRng::new(42)
    }
}

impl SimRng {
    /// Create a new generator with the given seed.
    pub fn new(seed: u32) -> (r: Self)
        ensures
            r@ == seed,
    {
        SimRng { state: seed }
    }

    /// Advance the generator and return the next raw 32-bit draw.
    pub fn next_u32(&mut self) -> (r: u32)
        ensures
            final(self)@ == mulberry32_advance(old(self)@),
            r == mulberry32_output(final(self)@),
    {
        self.state = self.state.wrapping_add(MULBERRY32_STEP);
        let mut t = self.state;
        t = (t ^ (t >> 15u32)).wrapping_mul(t | 1u32);
        t ^= t.wrapping_add((t ^ (t >> 7u32)).wrapping_mul(t | 61u32));
        t ^ (t >> 14u32)
    }
}

/// Each draw moves the state one step along the progression
/// `seed, seed + STEP, seed + 2*STEP, ...` (mod 2^32), so the `k`-th draw
/// depends only on the seed and `k`.
pub proof fn lemma_draws_follow_seed(seed: u32, k: nat)
    ensures
        mulberry32_state_after(seed, 0) == seed,
        mulberry32_advance(mulberry32_state_after(seed, k)) == mulberry32_state_after(seed, k + 1),
{
    let m: int = 0x1_0000_0000;
    let a: int = seed + k * MULBERRY32_STEP;
    vstd::arithmetic::div_mod::lemma_add_mod_noop(a, MULBERRY32_STEP as int, m);
    vstd::arithmetic::div_mod::lemma_mod_twice(MULBERRY32_STEP as int, m);
    assert((k + 1) * MULBERRY32_STEP == k * MULBERRY32_STEP + MULBERRY32_STEP) by (nonlinear_arith);
}

// ---------------------------------------------------------------------------
// Sequence models used by the store's contracts
// ---------------------------------------------------------------------------

/// The entries of `s` whose position is marked in `keep`, in their order.
pub open spec fn kept<T>(s: Seq<T>, keep: Seq<bool>) -> Seq<T>
    decreases s.len(),
{
    if s.len() == 0 {
        Seq::empty()
    } else {
        let prev = kept(s.drop_last(), keep);
        if keep[s.len() - 1] {
            prev.push(s.last())
        } else {
            prev
        }
    }
}

/// Positions `0..n` that are marked in `keep`, in increasing order.
pub open spec fn kept_positions(keep: Seq<bool>, n: nat) -> Seq<int> {
    kept(Seq::new(n, |i: int| i), keep)
}

/// Map from the id of every alive particle to its position. When an id
/// occurs twice the later position wins.
pub open spec fn index_map(ids: Seq<u32>, alive: Seq<bool>) -> Map<u32, usize>
    decreases ids.len(),
{
    if ids.len() == 0 {
        Map::empty()
    } else {
        let prev = index_map(ids.drop_last(), alive);
        if alive[ids.len() - 1] {
            prev.insert(ids.last(), (ids.len() - 1) as usize)
        } else {
            prev
        }
    }
}

/// Number of positions `i < alive.len()` with `alive[i]` and `flag[i] == want`.
pub open spec fn count_flagged(alive: Seq<bool>, flag: Seq<bool>, want: bool) -> nat
    decreases alive.len(),
{
    if alive.len() == 0 {
        0
    } else {
        let i = alive.len() - 1;
        count_flagged(alive.drop_last(), flag, want) + if alive[i] && flag[i] == want {
            1nat
        } else {
            0nat
        }
    }
}

/// Bonds are mutual: particle `i` lists particle `j` exactly when `j` lists `i`.
pub open spec fn symmetric_bonds(bonds: Seq<Set<u32>>, ids: Seq<u32>) -> bool {
    forall|i: int, j: int|
        0 <= i < ids.len() && 0 <= j < ids.len() ==> (#[trigger] bonds[i].contains(ids[j])
            <==> #[trigger] bonds[j].contains(ids[i]))
}

/// Ids increase strictly with position, so no id occurs twice.
pub open spec fn strictly_increasing(ids: Seq<u32>) -> bool {
    forall|i: int, j: int| 0 <= i < j < ids.len() ==> #[trigger] ids[i] < #[trigger] ids[j]
}

proof fn lemma_count_flagged_le(alive: Seq<bool>, flag: Seq<bool>, want: bool)
    ensures
        count_flagged(alive, flag, want) <= alive.len(),
    decreases alive.len(),
{
    if alive.len() > 0 {
        lemma_count_flagged_le(alive.drop_last(), flag, want);
    }
}

/// Remove from `col` every entry whose position is not marked in `keep`,
/// keeping the order of the rest.
fn retain_marked<T: Copy>(col: &mut Vec<T>, keep: &Vec<bool>)
    requires
        old(col)@.len() <= keep@.len(),
    ensures
        final(col)@ == kept(old(col)@, keep@),
{
    let ghost orig = col@;
    let n = col.len();
    let mut write: usize = 0;
    let mut read: usize = 0;
    while read < n
        invariant
            n == orig.len(),
            n <= keep@.len(),
            col@.len() == n,
            read <= n,
            write <= read,
            col@.take(write as int) == kept(orig.take(read as int), keep@),
            forall|j: int| read <= j < n ==> col@[j] == orig[j],
        decreases n - read,
    {
        proof {
            assert(orig.take(read + 1).drop_last() =~= orig.take(read as int));
        }
        if keep[read] {
            let v = col[read];
            col[write] = v;
            proof {
                assert(col@.take(write + 1) =~= col@.take(write as int).push(v));
            }
            write = write + 1;
        }
        read = read + 1;
    }
    proof {
        assert(orig.take(n as int) =~= orig);
    }
    col.truncate(write);
    proof {
        assert(col@ =~= col@.take(write as int));
    }
}

/// `retain_marked` for columns of bond sets, moving each kept set into place.
fn retain_marked_sets(col: &mut Vec<HashSet<u32>>, keep: &Vec<bool>)
    requires
        old(col)@.len() <= keep@.len(),
    ensures
        final(col)@ == kept(old(col)@, keep@),
{
    let ghost orig = col@;
    let n = col.len();
    let mut write: usize = 0;
    let mut read: usize = 0;
    while read < n
        invariant
            n == orig.len(),
            n <= keep@.len(),
            col@.len() == n,
            read <= n,
            write <= read,
            col@.take(write as int) == kept(orig.take(read as int), keep@),
            forall|j: int| read <= j < n ==> col@[j] == orig[j],
        decreases n - read,
    {
        proof {
            assert(orig.take(read + 1).drop_last() =~= orig.take(read as int));
        }
        if keep[read] {
            let mut moved: HashSet<u32> = HashSet::new();
            core::mem::swap(&mut moved, &mut col[read]);
            col[write] = moved;
            proof {
                assert(col@.take(write + 1) =~= col@.take(write as int).push(orig[read as int]));
            }
            write = write + 1;
        }
        read = read + 1;
    }
    proof {
        assert(orig.take(n as int) =~= orig);
    }
    col.truncate(write);
    proof {
        assert(col@ =~= col@.take(write as int));
    }
}

// ---------------------------------------------------------------------------
// ParticleStore
// ---------------------------------------------------------------------------

/// Scalars a new particle starts with besides its position and energy: the
/// initial velocity jitter and phase drawn by the caller, and the values the
/// scalar type uses for zero and one.
#[derive(Clone, Copy)]
pub struct SpawnScalars<F> {
    pub vx: F,
    pub vy: F,
    pub vz: F,
    pub phase: F,
    pub zero: F,
    pub one: F,
}

/// Structure-of-Arrays storage for all particle data.
///
/// Each particle is identified by its **index** into these parallel arrays.
/// The `id` field contains a unique, monotonically-increasing particle ID
/// that is stable across compaction (used for bond references).
pub struct ParticleStore<F> {
    // ---- Identity ----
    /// Unique particle ID (monotonically increasing, stable across compaction).
    pub id: Vec<u32>,
    /// Particle type (Alpha, Beta, Catalyst, Data, Membrane, Motor).
    pub ptype: Vec<ParticleType>,
    /// Whether this particle is alive. Dead particles are removed on cleanup.
    pub alive: Vec<bool>,
    /// Whether this particle is an inert energy deposit.
    pub is_deposit: Vec<bool>,
    // ---- Physics ----
    /// World-space X position.
    pub x: Vec<F>,
    /// World-space Y position.
    pub y: Vec<F>,
    /// World-space Z position.
    pub z: Vec<F>,
    /// Velocity X component (world-units per tick).
    pub vx: Vec<F>,
    /// Velocity Y component.
    pub vy: Vec<F>,
    /// Velocity Z component.
    pub vz: Vec<F>,
    // ---- Biology ----
    /// Energy reserve. Particles with zero energy may die.
    pub energy: Vec<F>,
    /// Signal value propagated through bonds.
    pub signal: Vec<F>,
    /// Particle-local memory for simple learning / state.
    pub memory: Vec<F>,
    /// Phase accumulator for oscillatory behaviours.
    pub phase: Vec<F>,
    /// Age in simulation ticks since spawning.
    pub age: Vec<u32>,
    // ---- Bonds ----
    /// Set of bonded partner particle IDs (by particle id, not index).
    pub bonds: Vec<HashSet<u32>>,
    // ---- Organism membership ----
    /// Organism ID this particle belongs to. -1 = not in any organism.
    pub organism_id: Vec<i32>,
    // ---- Advanced: genetics & epigenetics ----
    /// Combo bonus factor derived from bond-pattern interactions.
    pub combo_bonus: Vec<F>,
    /// Gene expression level.
    pub gene_expr: Vec<F>,
    /// Specialised cell role within an organism.
    pub cell_role: Vec<CellRole>,
    /// Epigenetic weight modifier (multiplicative, starts at one).
    pub epi_weight: Vec<F>,
    // ---- Advanced: symbolic & cultural ----
    /// Symbol code channel (0 = none, 1-8 = active channel).
    pub symbol_code: Vec<u8>,
    /// Particle ID of held tool (-1 = none).
    pub held_tool: Vec<i32>,
    /// Cultural meme identifier (0 = none).
    pub cultural_meme: Vec<u16>,
    /// Meta-cognition level (zero = none, higher = deeper).
    pub meta_cog_level: Vec<F>,
    // ---- Advanced: immune system ----
    /// Immune signature: organisms with the same signature cooperate.
    pub signature: Vec<u32>,
    // ---- Index mapping ----
    /// Maps particle ID to current array index. Rebuilt on compaction.
    pub id_to_index: HashMap<u32, usize>,
    /// Next particle ID to assign (monotonically increasing).
    pub next_id: u32,
    // ---- Cached aggregates ----
    /// Count of alive, non-deposit particles (updated on rebuild_index).
    pub alive_count: usize,
}

impl<F> ParticleStore<F> {
    /// Number of slots (alive and dead).
    pub open spec fn n(&self) -> nat {
        self.id@.len()
    }

    /// The bond sets, one per slot.
    pub open spec fn bond_view(&self) -> Seq<Set<u32>> {
        self.bonds@.map_values(|b: HashSet<u32>| b@)
    }

    /// Every column has one entry per slot.
    pub open spec fn columns_aligned(&self) -> bool {
        let n = self.id@.len();
        &&& self.ptype@.len() == n
        &&& self.alive@.len() == n
        &&& self.is_deposit@.len() == n
        &&& self.x@.len() == n
        &&& self.y@.len() == n
        &&& self.z@.len() == n
        &&& self.vx@.len() == n
        &&& self.vy@.len() == n
        &&& self.vz@.len() == n
        &&& self.energy@.len() == n
        &&& self.signal@.len() == n
        &&& self.memory@.len() == n
        &&& self.phase@.len() == n
        &&& self.age@.len() == n
        &&& self.bonds@.len() == n
        &&& self.organism_id@.len() == n
        &&& self.combo_bonus@.len() == n
        &&& self.gene_expr@.len() == n
        &&& self.cell_role@.len() == n
        &&& self.epi_weight@.len() == n
        &&& self.symbol_code@.len() == n
        &&& self.held_tool@.len() == n
        &&& self.cultural_meme@.len() == n
        &&& self.meta_cog_level@.len() == n
        &&& self.signature@.len() == n
    }

    /// The store's structural invariant: aligned columns, unique ids that
    /// increase with position and lie below `next_id`, index entries that
    /// point at the position carrying their id, and bond entries that name
    /// assigned ids.
    pub open spec fn wf(&self) -> bool {
        &&& self.wf_columns()
        &&& forall|k: u32| #[trigger] self.id_to_index@.contains_key(k) ==> {
            &&& self.id_to_index@[k] < self.n()
            &&& self.id@[self.id_to_index@[k] as int] == k
        }
    }

    /// The part of `wf` that concerns the columns alone.
    pub open spec fn wf_columns(&self) -> bool {
        &&& self.columns_aligned()
        &&& strictly_increasing(self.id@)
        &&& forall|i: int| 0 <= i < self.n() ==> #[trigger] self.id@[i] < self.next_id
        &&& forall|i: int, b: u32| 0 <= i < self.n() && #[trigger] self.bond_view()[i].contains(b) ==> b < self.next_id
    }

    /// The id index and the alive count describe the current columns: the
    /// index maps exactly the ids of alive particles to their positions.
    pub open spec fn index_consistent(&self) -> bool {
        &&& self.id_to_index@ == index_map(self.id@, self.alive@)
        &&& self.alive_count == count_flagged(self.alive@, self.is_deposit@, false)
    }

    /// Bonds are mutual between the particles of the store.
    pub open spec fn bonds_symmetric(&self) -> bool {
        symmetric_bonds(self.bond_view(), self.id@)
    }

    /// No particle has more than `MAX_BONDS` bonds.
    pub open spec fn bonds_within_capacity(&self) -> bool {
        forall|i: int| 0 <= i < self.n() ==> (#[trigger] self.bond_view()[i]).len() <= MAX_BONDS
    }

    /// All columns, the index, the id counter and the alive count of `self`
    /// and `other` agree; bond sets may differ.
    pub open spec fn same_except_bonds(&self, other: &Self) -> bool {
        &&& self.same_columns_except_bonds(other)
        &&& self.id_to_index@ == other.id_to_index@
        &&& self.alive_count == other.alive_count
        &&& self.bonds@.len() == other.bonds@.len()
    }

    /// All columns and the id counter agree, bond sets included.
    pub open spec fn same_columns(&self, other: &Self) -> bool {
        &&& self.same_columns_except_bonds(other)
        &&& self.bonds@ == other.bonds@
    }

    /// All columns other than the bond sets, and the id counter, agree.
    pub open spec fn same_columns_except_bonds(&self, other: &Self) -> bool {
        &&& self.id@ == other.id@
        &&& self.ptype@ == other.ptype@
        &&& self.alive@ == other.alive@
        &&& self.is_deposit@ == other.is_deposit@
        &&& self.x@ == other.x@
        &&& self.y@ == other.y@
        &&& self.z@ == other.z@
        &&& self.vx@ == other.vx@
        &&& self.vy@ == other.vy@
        &&& self.vz@ == other.vz@
        &&& self.energy@ == other.energy@
        &&& self.signal@ == other.signal@
        &&& self.memory@ == other.memory@
        &&& self.phase@ == other.phase@
        &&& self.age@ == other.age@
        &&& self.organism_id@ == other.organism_id@
        &&& self.combo_bonus@ == other.combo_bonus@
        &&& self.gene_expr@ == other.gene_expr@
        &&& self.cell_role@ == other.cell_role@
        &&& self.epi_weight@ == other.epi_weight@
        &&& self.symbol_code@ == other.symbol_code@
        &&& self.held_tool@ == other.held_tool@
        &&& self.cultural_meme@ == other.cultural_meme@
        &&& self.meta_cog_level@ == other.meta_cog_level@
        &&& self.signature@ == other.signature@
        &&& self.next_id == other.next_id
    }
}

impl<F> Default for ParticleStore<F> {
    /// An empty store whose first particle will get id 0.
    fn default() -> (r: Self)
        ensures
            r.wf(),
            r.index_consistent(),
            r.bonds_symmetric(),
            r.bonds_within_capacity(),
            r.n() == 0,
            r.next_id == 0,
            r.alive_count == 0,
            r.id_to_index@ == Map::<u32, usize>::empty(),
    {
        let r = ParticleStore {
            id: Vec::new(),
            ptype: Vec::new(),
            alive: Vec::new(),
            is_deposit: Vec::new(),
            x: Vec::new(),
            y: Vec::new(),
            z: Vec::new(),
            vx: Vec::new(),
            vy: Vec::new(),
            vz: Vec::new(),
            energy: Vec::new(),
            signal: Vec::new(),
            memory: Vec::new(),
            phase: Vec::new(),
            age: Vec::new(),
            bonds: Vec::new(),
            organism_id: Vec::new(),
            combo_bonus: Vec::new(),
            gene_expr: Vec::new(),
            cell_role: Vec::new(),
            epi_weight: Vec::new(),
            symbol_code: Vec::new(),
            held_tool: Vec::new(),
            cultural_meme: Vec::new(),
            meta_cog_level: Vec::new(),
            signature: Vec::new(),
            id_to_index: HashMap::new(),
            next_id: 0,
            alive_count: 0,
        };
        proof {
            assert(r.id_to_index@ =~= index_map(r.id@, r.alive@));
        }
        r
    }
}

impl<F: Copy> ParticleStore<F> {
    /// Total number of slots (alive + dead, before compaction).
    pub fn len(&self) -> (r: usize)
        ensures
            r == self.n(),
    {
        self.id.len()
    }

    /// Whether there are no particles at all.
    pub fn is_empty(&self) -> (r: bool)
        ensures
            r == (self.n() == 0),
    {
        self.id.len() == 0
    }

    /// Spawn a new particle with the given type, position, and energy.
    ///
    /// Returns the index of the newly created particle. The new particle
    /// takes the next id, starts alive with no bonds and no organism, and
    /// its advanced fields take their neutral values.
    pub fn spawn(&mut self, ptype: ParticleType, x: F, y: F, z: F, energy: F, init: SpawnScalars<F>) -> (idx: usize)
        requires
            old(self).wf(),
            old(self).next_id < u32::MAX,
            old(self).alive_count < usize::MAX,
        ensures
            final(self).wf(),
            idx == old(self).n(),
            final(self).next_id == old(self).next_id + 1,
            final(self).alive_count == old(self).alive_count + 1,
            final(self).id@ == old(self).id@.push(old(self).next_id),
            final(self).ptype@ == old(self).ptype@.push(ptype),
            final(self).alive@ == old(self).alive@.push(true),
            final(self).is_deposit@ == old(self).is_deposit@.push(false),
            final(self).x@ == old(self).x@.push(x),
            final(self).y@ == old(self).y@.push(y),
            final(self).z@ == old(self).z@.push(z),
            final(self).vx@ == old(self).vx@.push(init.vx),
            final(self).vy@ == old(self).vy@.push(init.vy),
            final(self).vz@ == old(self).vz@.push(init.vz),
            final(self).energy@ == old(self).energy@.push(energy),
            final(self).signal@ == old(self).signal@.push(init.zero),
            final(self).memory@ == old(self).memory@.push(init.zero),
            final(self).phase@ == old(self).phase@.push(init.phase),
            final(self).age@ == old(self).age@.push(0u32),
            final(self).bond_view() == old(self).bond_view().push(Set::<u32>::empty()),
            final(self).organism_id@ == old(self).organism_id@.push(-1i32),
            final(self).combo_bonus@ == old(self).combo_bonus@.push(init.zero),
            final(self).gene_expr@ == old(self).gene_expr@.push(init.zero),
            final(self).cell_role@ == old(self).cell_role@.push(CellRole::Unassigned),
            final(self).epi_weight@ == old(self).epi_weight@.push(init.one),
            final(self).symbol_code@ == old(self).symbol_code@.push(0u8),
            final(self).held_tool@ == old(self).held_tool@.push(-1i32),
            final(self).cultural_meme@ == old(self).cultural_meme@.push(0u16),
            final(self).meta_cog_level@ == old(self).meta_cog_level@.push(init.zero),
            final(self).signature@ == old(self).signature@.push(0u32),
            final(self).id_to_index@ == old(self).id_to_index@.insert(old(self).next_id, idx),
            old(self).index_consistent() ==> final(self).index_consistent(),
            old(self).bonds_symmetric() ==> final(self).bonds_symmetric(),
            old(self).bonds_within_capacity() ==> final(self).bonds_within_capacity(),
    {
        let ghost pre = *self;
        let id = self.next_id;
        self.next_id = self.next_id + 1;
        let idx = self.id.len();

        // Identity
        self.id.push(id);
        self.ptype.push(ptype);
        self.alive.push(true);
        self.is_deposit.push(false);

        // Physics
        self.x.push(x);
        self.y.push(y);
        self.z.push(z);
        self.vx.push(init.vx);
        self.vy.push(init.vy);
        self.vz.push(init.vz);

        // Biology
        self.energy.push(energy);
        self.signal.push(init.zero);
        self.memory.push(init.zero);
        self.phase.push(init.phase);
        self.age.push(0);

        // Bonds
        self.bonds.push(HashSet::new());

        // Organism
        self.organism_id.push(-1);

        // Advanced
        self.combo_bonus.push(init.zero);
        self.gene_expr.push(init.zero);
        self.cell_role.push(CellRole::Unassigned);
        self.epi_weight.push(init.one);
        self.symbol_code.push(0);
        self.held_tool.push(-1);
        self.cultural_meme.push(0);
        self.meta_cog_level.push(init.zero);
        self.signature.push(0);

        // Index mapping
        self.id_to_index.insert(id, idx);
        self.alive_count = self.alive_count + 1;

        proof {
            assert(self.bond_view() =~= pre.bond_view().push(Set::<u32>::empty()));
            assert(self.id@.drop_last() =~= pre.id@);
            assert(self.alive@.drop_last() =~= pre.alive@);
            assert(self.is_deposit@.drop_last() =~= pre.is_deposit@);
            if pre.index_consistent() {
                assert(index_map(self.id@, self.alive@) == index_map(pre.id@, self.alive@).insert(
                    id,
                    idx,
                ));
                pre.lemma_index_map_prefix_alive(self.alive@);
                pre.lemma_count_prefix(self.alive@, self.is_deposit@);
            }
            if pre.bonds_symmetric() {
                assert forall|i: int, j: int|
                    0 <= i < self.id@.len() && 0 <= j < self.id@.len() implies (
                    #[trigger] self.bond_view()[i].contains(self.id@[j])
                        <==> #[trigger] self.bond_view()[j].contains(self.id@[i])) by {
                    if i < idx && j < idx {
                        assert(pre.bond_view()[i].contains(pre.id@[j]) <==> pre.bond_view()[j].contains(pre.id@[i]));
                    }
                }
            }
        }
        idx
    }
}

impl<F> ParticleStore<F> {
    /// The index map only looks at the alive flags of existing positions.
    proof fn lemma_index_map_prefix_alive(&self, alive: Seq<bool>)
        requires
            alive.len() >= self.alive@.len(),
            self.alive@ == alive.take(self.alive@.len() as int),
            self.columns_aligned(),
        ensures
            index_map(self.id@, alive) == index_map(self.id@, self.alive@),
    {
        lemma_index_map_ignores_tail(self.id@, self.alive@, alive);
    }

    /// The live count only looks at the flags of existing positions.
    proof fn lemma_count_prefix(&self, alive: Seq<bool>, flag: Seq<bool>)
        requires
            alive.len() == self.alive@.len() + 1,
            flag.len() == alive.len(),
            self.alive@ == alive.drop_last(),
            self.is_deposit@ == flag.drop_last(),
            alive.last(),
            !flag.last(),
        ensures
            count_flagged(alive, flag, false) == count_flagged(self.alive@, self.is_deposit@, false) + 1,
    {
        lemma_count_flagged_ignores_tail(self.alive@, self.is_deposit@, flag, false);
        assert(alive.drop_last() == self.alive@);
    }
}

/// `index_map` depends on the alive flags of the first `ids.len()` positions only.
proof fn lemma_index_map_ignores_tail(ids: Seq<u32>, a: Seq<bool>, b: Seq<bool>)
    requires
        a.len() >= ids.len(),
        b.len() >= ids.len(),
        forall|i: int| 0 <= i < ids.len() ==> a[i] == b[i],
    ensures
        index_map(ids, a) == index_map(ids, b),
    decreases ids.len(),
{
    if ids.len() > 0 {
        lemma_index_map_ignores_tail(ids.drop_last(), a, b);
    }
}

/// `count_flagged` depends on the flags of the first `alive.len()` positions only.
proof fn lemma_count_flagged_ignores_tail(alive: Seq<bool>, f: Seq<bool>, g: Seq<bool>, want: bool)
    requires
        f.len() >= alive.len(),
        g.len() >= alive.len(),
        forall|i: int| 0 <= i < alive.len() ==> f[i] == g[i],
    ensures
        count_flagged(alive, f, want) == count_flagged(alive, g, want),
    decreases alive.len(),
{
    if alive.len() > 0 {
        lemma_count_flagged_ignores_tail(alive.drop_last(), f, g, want);
    }
}

/// Outcome of forming a bond between the particles at positions `a` and `b`:
/// whether it was formed, and the bond sets afterwards. A bond is formed
/// unless either side is at capacity or `a` already lists `b`.
pub open spec fn form_bond_model(bv: Seq<Set<u32>>, ids: Seq<u32>, a: int, b: int) -> (bool, Seq<Set<u32>>) {
    let ia = ids[a];
    let ib = ids[b];
    if bv[a].len() >= MAX_BONDS || bv[b].len() >= MAX_BONDS || bv[a].contains(ib) {
        (false, bv)
    } else {
        let s1 = bv.update(a, bv[a].insert(ib));
        (true, s1.update(b, s1[b].insert(ia)))
    }
}

/// Outcome of breaking the bond between positions `a` and `b`: whether
/// either side listed the other, and the bond sets afterwards.
pub open spec fn break_bond_model(bv: Seq<Set<u32>>, ids: Seq<u32>, a: int, b: int) -> (bool, Seq<Set<u32>>) {
    let ia = ids[a];
    let ib = ids[b];
    let s1 = bv.update(a, bv[a].remove(ib));
    (bv[a].contains(ib) || s1[b].contains(ia), s1.update(b, s1[b].remove(ia)))
}

impl<F: Copy> ParticleStore<F> {
    /// Rebuild the `id_to_index` mapping and `alive_count` cache.
    ///
    /// Must be called after any operation that changes alive status or
    /// compacts the arrays.
    pub fn rebuild_index(&mut self)
        requires
            old(self).wf_columns(),
        ensures
            final(self).wf(),
            final(self).index_consistent(),
            final(self).same_columns(old(self)),
    {
        let ghost pre = *self;
        self.id_to_index.clear();
        self.alive_count = 0;
        let n = self.id.len();
        let mut i: usize = 0;
        while i < n
            invariant
                pre.wf_columns(),
                self.same_columns(&pre),
                n == pre.n(),
                i <= n,
                self.id_to_index@ == index_map(self.id@.take(i as int), self.alive@),
                self.alive_count == count_flagged(self.alive@.take(i as int), self.is_deposit@, false),
            decreases n - i,
        {
            proof {
                assert(self.id@.take(i + 1).drop_last() =~= self.id@.take(i as int));
                assert(self.alive@.take(i + 1).drop_last() =~= self.alive@.take(i as int));
                lemma_count_flagged_le(self.alive@.take(i as int), self.is_deposit@, false);
            }
            if self.alive[i] {
                self.id_to_index.insert(self.id[i], i);
                if !self.is_deposit[i] {
                    self.alive_count = self.alive_count + 1;
                }
            }
            i = i + 1;
        }
        proof {
            assert(self.id@.take(n as int) =~= self.id@);
            assert(self.alive@.take(n as int) =~= self.alive@);
            lemma_index_map_values(self.id@, self.alive@);
            assert(self.columns_aligned());
            assert(self.bond_view() == pre.bond_view());
            assert(forall|k: u32| #[trigger] self.id_to_index@.contains_key(k) ==> self.id_to_index@[k] < self.n()
                && self.id@[self.id_to_index@[k] as int] == k);
        }
    }

    /// Look up the current array index for a particle ID.
    ///
    /// Returns `None` if the particle has been killed or doesn't exist.
    pub fn idx(&self, particle_id: u32) -> (r: Option<usize>)
        ensures
            r == (if self.id_to_index@.contains_key(particle_id) && (self.id_to_index@[particle_id] as int)
                < self.alive@.len() && self.alive@[self.id_to_index@[particle_id] as int] {
                Some(self.id_to_index@[particle_id])
            } else {
                None
            }),
            self.wf() ==> (r matches Some(j) ==> j < self.n() && self.alive@[j as int] && self.id@[j as int]
                == particle_id),
            self.wf() ==> forall|i: int|
                0 <= i < self.n() && self.id@[i] == particle_id && !self.alive@[i] ==> r is None,
            self.wf() && self.index_consistent() ==> forall|i: int|
                0 <= i < self.n() && self.id@[i] == particle_id && self.alive@[i] ==> r == Some(i as usize),
    {
        proof {
            if self.wf() {
                if self.id_to_index@.contains_key(particle_id) {
                    let j = self.id_to_index@[particle_id] as int;
                    assert forall|i: int| 0 <= i < self.n() && self.id@[i] == particle_id implies i == j by {
                        if i < j {
                            assert(self.id@[i] < self.id@[j]);
                        } else if j < i {
                            assert(self.id@[j] < self.id@[i]);
                        }
                    }
                }
                if self.index_consistent() {
                    assert forall|i: int|
                        0 <= i < self.n() && self.id@[i] == particle_id && self.alive@[i] implies self.id_to_index@.contains_key(
                        particle_id,
                    ) by {
                        lemma_lookup_finds_alive_particle(self, particle_id, i);
                    }
                }
            }
        }
        match self.id_to_index.get(&particle_id) {
            Some(i) => {
                let i = *i;
                if i < self.alive.len() && self.alive[i] {
                    Some(i)
                } else {
                    None
                }
            },
            None => None,
        }
    }

    /// Get the total bond count for the particle at `idx`.
    pub fn bond_count(&self, idx: usize) -> (r: usize)
        requires
            self.wf(),
            idx < self.n(),
        ensures
            r == self.bond_view()[idx as int].len(),
    {
        self.bonds[idx].len()
    }

    /// Check if a particle has room for more bonds.
    pub fn can_bond(&self, idx: usize) -> (r: bool)
        requires
            self.wf(),
            idx < self.n(),
        ensures
            r == (self.bond_view()[idx as int].len() < MAX_BONDS),
    {
        self.bonds[idx].len() < MAX_BONDS
    }

    /// Form a bond between two particles (by index). Returns true if the bond
    /// was formed, false if either particle is at max bonds or already bonded.
    pub fn form_bond(&mut self, a: usize, b: usize) -> (r: bool)
        requires
            old(self).wf(),
            a < old(self).n(),
            b < old(self).n(),
        ensures
            final(self).wf(),
            final(self).same_except_bonds(old(self)),
            (r, final(self).bond_view()) == form_bond_model(old(self).bond_view(), old(self).id@, a as int, b as int),
            old(self).bonds_symmetric() ==> final(self).bonds_symmetric(),
            old(self).bonds_within_capacity() ==> final(self).bonds_within_capacity(),
    {
        let ghost pre = *self;
        proof {
            lemma_hash_set_finite(&self.bonds@[a as int]);
            lemma_hash_set_finite(&self.bonds@[b as int]);
        }
        let id_a = self.id[a];
        let id_b = self.id[b];
        if self.bonds[a].len() >= MAX_BONDS || self.bonds[b].len() >= MAX_BONDS {
            return false;
        }
        if self.bonds[a].contains(&id_b) {
            return false;
        }
        self.bonds[a].insert(id_b);
        let ghost mid = self.bond_view();
        proof {
            assert(mid =~= pre.bond_view().update(a as int, pre.bond_view()[a as int].insert(id_b)));
        }
        self.bonds[b].insert(id_a);
        proof {
            let post = self.bond_view();
            assert(post =~= mid.update(b as int, mid[b as int].insert(id_a)));
            lemma_form_bond_keeps_laws(pre.bond_view(), pre.id@, a as int, b as int, pre.next_id);
        }
        true
    }

    /// Break a bond between two particles (by index). Returns true if a bond
    /// existed and was broken.
    pub fn break_bond(&mut self, a: usize, b: usize) -> (r: bool)
        requires
            old(self).wf(),
            a < old(self).n(),
            b < old(self).n(),
        ensures
            final(self).wf(),
            final(self).same_except_bonds(old(self)),
            (r, final(self).bond_view()) == break_bond_model(old(self).bond_view(), old(self).id@, a as int, b as int),
            old(self).bonds_symmetric() ==> final(self).bonds_symmetric(),
            old(self).bonds_within_capacity() ==> final(self).bonds_within_capacity(),
    {
        let ghost pre = *self;
        proof {
            lemma_hash_set_finite(&self.bonds@[a as int]);
            lemma_hash_set_finite(&self.bonds@[b as int]);
        }
        let id_a = self.id[a];
        let id_b = self.id[b];
        let removed_a = self.bonds[a].remove(&id_b);
        let ghost mid = self.bond_view();
        proof {
            assert(mid =~= pre.bond_view().update(a as int, pre.bond_view()[a as int].remove(id_b)));
        }
        let removed_b = self.bonds[b].remove(&id_a);
        proof {
            let post = self.bond_view();
            assert(post =~= mid.update(b as int, mid[b as int].remove(id_a)));
            lemma_break_bond_keeps_laws(pre.bond_view(), pre.id@, a as int, b as int, pre.next_id);
        }
        removed_a || removed_b
    }

    /// Get the organism ID of the particle at `idx` as `Option<u32>`.
    /// Returns `None` if the particle is not in any organism (negative id).
    pub fn organism_id_opt(&self, idx: usize) -> (r: Option<u32>)
        requires
            self.wf(),
            idx < self.n(),
        ensures
            r == (if self.organism_id@[idx as int] >= 0 {
                Some(self.organism_id@[idx as int] as u32)
            } else {
                None
            }),
    {
        let oid = self.organism_id[idx];
        if oid >= 0 {
            Some(oid as u32)
        } else {
            None
        }
    }

    /// Count the number of alive deposit particles.
    pub fn deposit_count(&self) -> (r: usize)
        requires
            self.wf(),
        ensures
            r == count_flagged(self.alive@, self.is_deposit@, true),
    {
        let n = self.len();
        let mut count: usize = 0;
        let mut i: usize = 0;
        while i < n
            invariant
                self.wf(),
                n == self.n(),
                i <= n,
                count == count_flagged(self.alive@.take(i as int), self.is_deposit@, true),
            decreases n - i,
        {
            proof {
                assert(self.alive@.take(i + 1).drop_last() =~= self.alive@.take(i as int));
                lemma_count_flagged_le(self.alive@.take(i as int), self.is_deposit@, true);
            }
            if self.alive[i] && self.is_deposit[i] {
                count = count + 1;
            }
            i = i + 1;
        }
        proof {
            assert(self.alive@.take(n as int) =~= self.alive@);
        }
        count
    }

    /// Check if any alive particle has at least one bond.
    pub fn has_any_bonds(&self) -> (r: bool)
        requires
            self.wf(),
        ensures
            r == exists|i: int| 0 <= i < self.n() && self.alive@[i] && !(#[trigger] self.bond_view()[i]).is_empty(),
    {
        let n = self.len();
        let mut i: usize = 0;
        while i < n
            invariant
                self.wf(),
                n == self.n(),
                i <= n,
                forall|j: int| 0 <= j < i ==> !(self.alive@[j] && !(#[trigger] self.bond_view()[j]).is_empty()),
            decreases n - i,
        {
            if self.alive[i] && !self.bonds[i].is_empty() {
                assert(self.alive@[i as int] && !self.bond_view()[i as int].is_empty());
                return true;
            }
            i = i + 1;
        }
        false
    }

    /// Pre-allocate capacity for the expected number of particles.
    pub fn reserve(&mut self, additional: usize)
        ensures
            final(self).same_columns(old(self)),
            final(self).id_to_index@ == old(self).id_to_index@,
            final(self).alive_count == old(self).alive_count,
    {
        self.id.reserve(additional);
        self.ptype.reserve(additional);
        self.alive.reserve(additional);
        self.is_deposit.reserve(additional);
        self.x.reserve(additional);
        self.y.reserve(additional);
        self.z.reserve(additional);
        self.vx.reserve(additional);
        self.vy.reserve(additional);
        self.vz.reserve(additional);
        self.energy.reserve(additional);
        self.signal.reserve(additional);
        self.memory.reserve(additional);
        self.phase.reserve(additional);
        self.age.reserve(additional);
        self.bonds.reserve(additional);
        self.organism_id.reserve(additional);
        self.combo_bonus.reserve(additional);
        self.gene_expr.reserve(additional);
        self.cell_role.reserve(additional);
        self.epi_weight.reserve(additional);
        self.symbol_code.reserve(additional);
        self.held_tool.reserve(additional);
        self.cultural_meme.reserve(additional);
        self.meta_cog_level.reserve(additional);
        self.signature.reserve(additional);
    }
}

/// Every position recorded in `index_map` is a position of an alive
/// particle with that id.
proof fn lemma_index_map_values(ids: Seq<u32>, alive: Seq<bool>)
    requires
        ids.len() <= usize::MAX,
    ensures
        forall|k: u32| #[trigger] index_map(ids, alive).contains_key(k) ==> {
            let i = index_map(ids, alive)[k] as int;
            &&& 0 <= i < ids.len()
            &&& ids[i] == k
            &&& alive[i]
        },
    decreases ids.len(),
{
    if ids.len() > 0 {
        let prev = ids.drop_last();
        lemma_index_map_values(prev, alive);
        let m = index_map(ids, alive);
        assert forall|k: u32| #[trigger] m.contains_key(k) implies {
            let i = m[k] as int;
            &&& 0 <= i < ids.len()
            &&& ids[i] == k
            &&& alive[i]
        } by {
            if alive[ids.len() - 1] && k == ids.last() {
            } else {
                assert(index_map(prev, alive).contains_key(k));
                let i = index_map(prev, alive)[k] as int;
                assert(prev[i] == ids[i]);
            }
        }
    }
}

/// The view of a hash set is a finite set.
proof fn lemma_hash_set_finite(h: &HashSet<u32>)
    ensures
        h@.finite(),
{
    let it = vstd::std_specs::hash::spec_hash_keys_iter(h);
    assert(it.remaining().unref().to_set() == h@);
    vstd::seq_lib::seq_to_set_is_finite(it.remaining().unref());
}

/// Forming a bond keeps bonds mutual, within capacity, and naming assigned ids.
pub proof fn lemma_form_bond_keeps_laws(bv: Seq<Set<u32>>, ids: Seq<u32>, a: int, b: int, next_id: u32)
    requires
        bv.len() == ids.len(),
        bv[a].finite(),
        bv[b].finite(),
        0 <= a < ids.len(),
        0 <= b < ids.len(),
        strictly_increasing(ids),
        forall|i: int| 0 <= i < ids.len() ==> #[trigger] ids[i] < next_id,
        forall|i: int, x: u32| 0 <= i < ids.len() && #[trigger] bv[i].contains(x) ==> x < next_id,
    ensures
        ({
            let after = form_bond_model(bv, ids, a, b).1;
            &&& after.len() == bv.len()
            &&& symmetric_bonds(bv, ids) ==> symmetric_bonds(after, ids)
            &&& (forall|i: int| 0 <= i < ids.len() ==> (#[trigger] bv[i]).len() <= MAX_BONDS) ==> (
            forall|i: int| 0 <= i < ids.len() ==> (#[trigger] after[i]).len() <= MAX_BONDS)
            &&& forall|i: int, x: u32| 0 <= i < ids.len() && #[trigger] after[i].contains(x) ==> x < next_id
        }),
{
    let after = form_bond_model(bv, ids, a, b).1;
    if form_bond_model(bv, ids, a, b).0 {
        let s1 = bv.update(a, bv[a].insert(ids[b]));
        assert(s1[b].finite());
        if forall|i: int| 0 <= i < ids.len() ==> (#[trigger] bv[i]).len() <= MAX_BONDS {
            assert forall|i: int| 0 <= i < ids.len() implies (#[trigger] after[i]).len() <= MAX_BONDS by {
                assert(bv[i].len() <= MAX_BONDS);
                assert(bv[a].len() < MAX_BONDS);
                assert(bv[b].len() < MAX_BONDS);
            }
        }
        assert forall|i: int, j: int| 0 <= i < ids.len() && 0 <= j < ids.len() && ids[i] == ids[j] implies i == j by {
            if i < j {
                assert(ids[i] < ids[j]);
            } else if j < i {
                assert(ids[j] < ids[i]);
            }
        }
        if symmetric_bonds(bv, ids) {
            assert forall|i: int, j: int| 0 <= i < ids.len() && 0 <= j < ids.len() implies (
            #[trigger] after[i].contains(ids[j]) <==> #[trigger] after[j].contains(ids[i])) by {
                assert(bv[i].contains(ids[j]) <==> bv[j].contains(ids[i]));
            }
        }
    }
}

/// Breaking a bond keeps bonds mutual, within capacity, and naming assigned ids.
pub proof fn lemma_break_bond_keeps_laws(bv: Seq<Set<u32>>, ids: Seq<u32>, a: int, b: int, next_id: u32)
    requires
        bv.len() == ids.len(),
        bv[a].finite(),
        bv[b].finite(),
        0 <= a < ids.len(),
        0 <= b < ids.len(),
        strictly_increasing(ids),
        forall|i: int, x: u32| 0 <= i < ids.len() && #[trigger] bv[i].contains(x) ==> x < next_id,
    ensures
        ({
            let after = break_bond_model(bv, ids, a, b).1;
            &&& after.len() == bv.len()
            &&& symmetric_bonds(bv, ids) ==> symmetric_bonds(after, ids)
            &&& (forall|i: int| 0 <= i < ids.len() ==> (#[trigger] bv[i]).len() <= MAX_BONDS) ==> (
            forall|i: int| 0 <= i < ids.len() ==> (#[trigger] after[i]).len() <= MAX_BONDS)
            &&& forall|i: int, x: u32| 0 <= i < ids.len() && #[trigger] after[i].contains(x) ==> x < next_id
        }),
{
    let after = break_bond_model(bv, ids, a, b).1;
    assert forall|i: int, j: int| 0 <= i < ids.len() && 0 <= j < ids.len() && ids[i] == ids[j] implies i == j by {
        if i < j {
            assert(ids[i] < ids[j]);
        } else if j < i {
            assert(ids[j] < ids[i]);
        }
    }
    if symmetric_bonds(bv, ids) {
        assert forall|i: int, j: int| 0 <= i < ids.len() && 0 <= j < ids.len() implies (
        #[trigger] after[i].contains(ids[j]) <==> #[trigger] after[j].contains(ids[i])) by {
            assert(bv[i].contains(ids[j]) <==> bv[j].contains(ids[i]));
        }
    }
    let s1 = bv.update(a, bv[a].remove(ids[b]));
    assert(s1[b].finite());
    if forall|i: int| 0 <= i < ids.len() ==> (#[trigger] bv[i]).len() <= MAX_BONDS {
        assert forall|i: int| 0 <= i < ids.len() implies (#[trigger] after[i]).len() <= MAX_BONDS by {
            assert(bv[i].len() <= MAX_BONDS);
            if i == a || i == b {
                assert(s1[b].remove(ids[a]).len() <= s1[b].len());
                assert(bv[a].remove(ids[b]).len() <= bv[a].len());
            }
        }
    }
}

// ---------------------------------------------------------------------------
// Compaction
// ---------------------------------------------------------------------------

/// Facts about the positions that compaction keeps: they lie in `0..n`,
/// are marked, increase strictly, and include every marked position.
pub proof fn lemma_kept_positions(keep: Seq<bool>, n: nat)
    requires
        keep.len() >= n,
    ensures
        ({
            let p = kept_positions(keep, n);
            &&& forall|k: int| 0 <= k < p.len() ==> 0 <= #[trigger] p[k] < n && keep[p[k]]
            &&& forall|k1: int, k2: int| 0 <= k1 < k2 < p.len() ==> #[trigger] p[k1] < #[trigger] p[k2]
            &&& forall|i: int| 0 <= i < n && keep[i] ==> #[trigger] p.contains(i)
        }),
    decreases n,
{
    if n > 0 {
        lemma_kept_positions(keep, (n - 1) as nat);
        assert(Seq::new(n, |i: int| i).drop_last() =~= Seq::new((n - 1) as nat, |i: int| i));
        let p = kept_positions(keep, n);
        let q = kept_positions(keep, (n - 1) as nat);
        if keep[n - 1] {
            assert(p == q.push(n - 1));
            assert forall|i: int| 0 <= i < n && keep[i] implies #[trigger] p.contains(i) by {
                if i < n - 1 {
                    assert(q.contains(i));
                    let k = choose|k: int| 0 <= k < q.len() && q[k] == i;
                    assert(p[k] == i);
                } else {
                    assert(p[q.len() as int] == i);
                }
            }
        } else {
            assert(p == q);
        }
    }
}

/// Compaction keeps, in order, exactly the entries at the kept positions.
pub proof fn lemma_kept_as_positions<T>(s: Seq<T>, keep: Seq<bool>)
    requires
        keep.len() >= s.len(),
    ensures
        kept(s, keep) == kept_positions(keep, s.len()).map_values(|i: int| s[i]),
    decreases s.len(),
{
    let n = s.len();
    if n > 0 {
        let prev = s.drop_last();
        lemma_kept_as_positions(prev, keep);
        lemma_kept_positions(keep, (n - 1) as nat);
        assert(Seq::new(n, |i: int| i).drop_last() =~= Seq::new((n - 1) as nat, |i: int| i));
        let q = kept_positions(keep, (n - 1) as nat);
        assert(q.map_values(|i: int| prev[i]) =~= q.map_values(|i: int| s[i]));
        if keep[n - 1] {
            assert(kept_positions(keep, n) == q.push(n - 1));
            assert(kept_positions(keep, n).map_values(|i: int| s[i]) =~= q.map_values(|i: int| s[i]).push(s[n - 1]));
        }
    } else {
        assert(kept(s, keep) =~= kept_positions(keep, s.len()).map_values(|i: int| s[i]));
    }
}

/// Compacting commutes with mapping every entry.
proof fn lemma_kept_map<A, B>(s: Seq<A>, keep: Seq<bool>, f: spec_fn(A) -> B)
    ensures
        kept(s.map_values(f), keep) == kept(s, keep).map_values(f),
    decreases s.len(),
{
    if s.len() > 0 {
        lemma_kept_map(s.drop_last(), keep, f);
        assert(s.map_values(f).drop_last() =~= s.drop_last().map_values(f));
        assert(kept(s.drop_last(), keep).push(s.last()).map_values(f) =~= kept(s.drop_last(), keep).map_values(f).push(f(s.last())));
    } else {
        assert(kept(s.map_values(f), keep) =~= kept(s, keep).map_values(f));
    }
}

/// Compaction of a column by its own flags leaves only `true` entries.
proof fn lemma_kept_self_all_true(keep: Seq<bool>)
    ensures
        forall|k: int| 0 <= k < kept(keep, keep).len() ==> #[trigger] kept(keep, keep)[k],
    decreases keep.len(),
{
    if keep.len() > 0 {
        lemma_kept_self_all_true(keep.drop_last());
        lemma_kept_ignores_tail(keep.drop_last(), keep.drop_last(), keep);
    }
}

/// `kept` depends on the flags of the first `s.len()` positions only.
proof fn lemma_kept_ignores_tail<T>(s: Seq<T>, a: Seq<bool>, b: Seq<bool>)
    requires
        a.len() >= s.len(),
        b.len() >= s.len(),
        forall|i: int| 0 <= i < s.len() ==> a[i] == b[i],
    ensures
        kept(s, a) == kept(s, b),
    decreases s.len(),
{
    if s.len() > 0 {
        lemma_kept_ignores_tail(s.drop_last(), a, b);
    }
}

impl<F: Copy> ParticleStore<F> {
    /// Remove dead particles by compacting all arrays in place.
    ///
    /// After compaction the alive particles occupy contiguous indices
    /// starting from 0, in their previous order, each column carrying its
    /// entries along; the `id_to_index` mapping and `alive_count` are
    /// rebuilt.
    pub fn cleanup(&mut self)
        requires
            old(self).wf(),
        ensures
            final(self).wf(),
            final(self).index_consistent(),
            forall|i: int| 0 <= i < final(self).n() ==> #[trigger] final(self).alive@[i],
            final(self).next_id == old(self).next_id,
            final(self).id@ == kept(old(self).id@, old(self).alive@),
            final(self).ptype@ == kept(old(self).ptype@, old(self).alive@),
            final(self).alive@ == kept(old(self).alive@, old(self).alive@),
            final(self).is_deposit@ == kept(old(self).is_deposit@, old(self).alive@),
            final(self).x@ == kept(old(self).x@, old(self).alive@),
            final(self).y@ == kept(old(self).y@, old(self).alive@),
            final(self).z@ == kept(old(self).z@, old(self).alive@),
            final(self).vx@ == kept(old(self).vx@, old(self).alive@),
            final(self).vy@ == kept(old(self).vy@, old(self).alive@),
            final(self).vz@ == kept(old(self).vz@, old(self).alive@),
            final(self).energy@ == kept(old(self).energy@, old(self).alive@),
            final(self).signal@ == kept(old(self).signal@, old(self).alive@),
            final(self).memory@ == kept(old(self).memory@, old(self).alive@),
            final(self).phase@ == kept(old(self).phase@, old(self).alive@),
            final(self).age@ == kept(old(self).age@, old(self).alive@),
            final(self).bonds@ == kept(old(self).bonds@, old(self).alive@),
            final(self).bond_view() == kept(old(self).bond_view(), old(self).alive@),
            final(self).organism_id@ == kept(old(self).organism_id@, old(self).alive@),
            final(self).combo_bonus@ == kept(old(self).combo_bonus@, old(self).alive@),
            final(self).gene_expr@ == kept(old(self).gene_expr@, old(self).alive@),
            final(self).cell_role@ == kept(old(self).cell_role@, old(self).alive@),
            final(self).epi_weight@ == kept(old(self).epi_weight@, old(self).alive@),
            final(self).symbol_code@ == kept(old(self).symbol_code@, old(self).alive@),
            final(self).held_tool@ == kept(old(self).held_tool@, old(self).alive@),
            final(self).cultural_meme@ == kept(old(self).cultural_meme@, old(self).alive@),
            final(self).meta_cog_level@ == kept(old(self).meta_cog_level@, old(self).alive@),
            final(self).signature@ == kept(old(self).signature@, old(self).alive@),
            old(self).bonds_symmetric() ==> final(self).bonds_symmetric(),
            old(self).bonds_within_capacity() ==> final(self).bonds_within_capacity(),
    {
        let ghost pre = *self;
        retain_marked(&mut self.id, &self.alive);
        retain_marked(&mut self.ptype, &self.alive);
        retain_marked(&mut self.is_deposit, &self.alive);
        retain_marked(&mut self.x, &self.alive);
        retain_marked(&mut self.y, &self.alive);
        retain_marked(&mut self.z, &self.alive);
        retain_marked(&mut self.vx, &self.alive);
        retain_marked(&mut self.vy, &self.alive);
        retain_marked(&mut self.vz, &self.alive);
        retain_marked(&mut self.energy, &self.alive);
        retain_marked(&mut self.signal, &self.alive);
        retain_marked(&mut self.memory, &self.alive);
        retain_marked(&mut self.phase, &self.alive);
        retain_marked(&mut self.age, &self.alive);
        retain_marked_sets(&mut self.bonds, &self.alive);
        retain_marked(&mut self.organism_id, &self.alive);
        retain_marked(&mut self.combo_bonus, &self.alive);
        retain_marked(&mut self.gene_expr, &self.alive);
        retain_marked(&mut self.cell_role, &self.alive);
        retain_marked(&mut self.epi_weight, &self.alive);
        retain_marked(&mut self.symbol_code, &self.alive);
        retain_marked(&mut self.held_tool, &self.alive);
        retain_marked(&mut self.cultural_meme, &self.alive);
        retain_marked(&mut self.meta_cog_level, &self.alive);
        retain_marked(&mut self.signature, &self.alive);
        let keep = self.alive.clone();
        proof {
            assert(keep@ =~= pre.alive@);
        }
        retain_marked(&mut self.alive, &keep);
        proof {
            pre.lemma_compaction_keeps_invariants(*self);
        }
        self.rebuild_index();
    }
}

impl<F> ParticleStore<F> {
    /// Compacting every column by the alive flags keeps the structural
    /// invariant and the bond laws.
    proof fn lemma_compaction_keeps_invariants(self, post: Self)
        requires
            self.wf(),
            post.id@ == kept(self.id@, self.alive@),
            post.ptype@ == kept(self.ptype@, self.alive@),
            post.alive@ == kept(self.alive@, self.alive@),
            post.is_deposit@ == kept(self.is_deposit@, self.alive@),
            post.x@ == kept(self.x@, self.alive@),
            post.y@ == kept(self.y@, self.alive@),
            post.z@ == kept(self.z@, self.alive@),
            post.vx@ == kept(self.vx@, self.alive@),
            post.vy@ == kept(self.vy@, self.alive@),
            post.vz@ == kept(self.vz@, self.alive@),
            post.energy@ == kept(self.energy@, self.alive@),
            post.signal@ == kept(self.signal@, self.alive@),
            post.memory@ == kept(self.memory@, self.alive@),
            post.phase@ == kept(self.phase@, self.alive@),
            post.age@ == kept(self.age@, self.alive@),
            post.bonds@ == kept(self.bonds@, self.alive@),
            post.organism_id@ == kept(self.organism_id@, self.alive@),
            post.combo_bonus@ == kept(self.combo_bonus@, self.alive@),
            post.gene_expr@ == kept(self.gene_expr@, self.alive@),
            post.cell_role@ == kept(self.cell_role@, self.alive@),
            post.epi_weight@ == kept(self.epi_weight@, self.alive@),
            post.symbol_code@ == kept(self.symbol_code@, self.alive@),
            post.held_tool@ == kept(self.held_tool@, self.alive@),
            post.cultural_meme@ == kept(self.cultural_meme@, self.alive@),
            post.meta_cog_level@ == kept(self.meta_cog_level@, self.alive@),
            post.signature@ == kept(self.signature@, self.alive@),
            post.next_id == self.next_id,
        ensures
            post.columns_aligned(),
            strictly_increasing(post.id@),
            forall|i: int| 0 <= i < post.n() ==> #[trigger] post.id@[i] < post.next_id,
            forall|i: int, b: u32| 0 <= i < post.n() && #[trigger] post.bond_view()[i].contains(b) ==> b < post.next_id,
            forall|i: int| 0 <= i < post.n() ==> #[trigger] post.alive@[i],
            post.bond_view() == kept(self.bond_view(), self.alive@),
            self.bonds_symmetric() ==> post.bonds_symmetric(),
            self.bonds_within_capacity() ==> post.bonds_within_capacity(),
    {
        let keep = self.alive@;
        let n = self.n();
        let p = kept_positions(keep, n);
        lemma_kept_positions(keep, n);
        lemma_kept_as_positions(self.id@, keep);
        lemma_kept_as_positions(self.bond_view(), keep);
        lemma_kept_self_all_true(keep);
        lemma_kept_map(self.bonds@, keep, |b: HashSet<u32>| b@);
        assert(post.bond_view() == kept(self.bond_view(), keep));
        lemma_kept_as_positions(self.ptype@, keep);
        lemma_kept_as_positions(self.alive@, keep);
        lemma_kept_as_positions(self.is_deposit@, keep);
        lemma_kept_as_positions(self.x@, keep);
        lemma_kept_as_positions(self.y@, keep);
        lemma_kept_as_positions(self.z@, keep);
        lemma_kept_as_positions(self.vx@, keep);
        lemma_kept_as_positions(self.vy@, keep);
        lemma_kept_as_positions(self.vz@, keep);
        lemma_kept_as_positions(self.energy@, keep);
        lemma_kept_as_positions(self.signal@, keep);
        lemma_kept_as_positions(self.memory@, keep);
        lemma_kept_as_positions(self.phase@, keep);
        lemma_kept_as_positions(self.age@, keep);
        lemma_kept_as_positions(self.bonds@, keep);
        lemma_kept_as_positions(self.organism_id@, keep);
        lemma_kept_as_positions(self.combo_bonus@, keep);
        lemma_kept_as_positions(self.gene_expr@, keep);
        lemma_kept_as_positions(self.cell_role@, keep);
        lemma_kept_as_positions(self.epi_weight@, keep);
        lemma_kept_as_positions(self.symbol_code@, keep);
        lemma_kept_as_positions(self.held_tool@, keep);
        lemma_kept_as_positions(self.cultural_meme@, keep);
        lemma_kept_as_positions(self.meta_cog_level@, keep);
        lemma_kept_as_positions(self.signature@, keep);
        assert(post.columns_aligned());
        assert forall|k1: int, k2: int| 0 <= k1 < k2 < post.id@.len() implies #[trigger] post.id@[k1] < #[trigger] post.id@[k2] by {
            assert(p[k1] < p[k2]);
        }
        assert forall|i: int| 0 <= i < post.n() implies #[trigger] post.id@[i] < post.next_id by {
            assert(0 <= p[i] < n);
        }
        assert forall|i: int, b: u32| 0 <= i < post.n() && #[trigger] post.bond_view()[i].contains(b) implies b < post.next_id by {
            assert(0 <= p[i] < n);
            assert(self.bond_view()[p[i]].contains(b));
        }
        if self.bonds_symmetric() {
            assert forall|i: int, j: int| 0 <= i < post.id@.len() && 0 <= j < post.id@.len() implies (
            #[trigger] post.bond_view()[i].contains(post.id@[j]) <==> #[trigger] post.bond_view()[j].contains(post.id@[i])) by {
                assert(0 <= p[i] < n && 0 <= p[j] < n);
                assert(self.bond_view()[p[i]].contains(self.id@[p[j]]) <==> self.bond_view()[p[j]].contains(self.id@[p[i]]));
            }
        }
        if self.bonds_within_capacity() {
            assert forall|i: int| 0 <= i < post.n() implies (#[trigger] post.bond_view()[i]).len() <= MAX_BONDS by {
                assert(0 <= p[i] < n);
                assert(self.bond_view()[p[i]].len() <= MAX_BONDS);
            }
        }
    }
}

// ---------------------------------------------------------------------------
// Bond-partner queries
// ---------------------------------------------------------------------------

/// Filtering a sequence without duplicates keeps as many entries as
/// filtering the set of its entries.
proof fn lemma_filter_len_matches_set<A>(s: Seq<A>, p: spec_fn(A) -> bool)
    requires
        s.no_duplicates(),
    ensures
        s.filter(p).len() == s.to_set().filter(p).len(),
        s.to_set().filter(p).finite(),
    decreases s.len(),
{
    vstd::seq_lib::seq_to_set_is_finite(s);
    s.to_set().lemma_len_filter(p);
    if s.len() == 0 {
        assert(s.to_set().filter(p) =~= Set::<A>::empty());
    } else {
        let t = s.drop_last();
        let x = s.last();
        assert(t.no_duplicates());
        lemma_filter_len_matches_set(t, p);
        assert(s == t.push(x));
        assert(!t.contains(x));
        assert(s.to_set() =~= t.to_set().insert(x));
        vstd::seq_lib::seq_to_set_is_finite(t);
        t.to_set().lemma_len_filter(p);
        reveal(Seq::filter);
        assert(s.filter(p) == (if p(x) { t.filter(p).push(x) } else { t.filter(p) }));
        assert(!t.to_set().filter(p).contains(x));
        if p(x) {
            assert(s.to_set().filter(p) =~= t.to_set().filter(p).insert(x));
        } else {
            assert(s.to_set().filter(p) =~= t.to_set().filter(p));
        }
    }
}

/// The positions of the bond entries in `order` that the index knows
/// about, in the same order.
pub open spec fn lookup_all(index: Map<u32, usize>, order: Seq<u32>) -> Seq<usize>
    decreases order.len(),
{
    if order.len() == 0 {
        Seq::empty()
    } else {
        let prev = lookup_all(index, order.drop_last());
        let b = order.last();
        if index.contains_key(b) {
            prev.push(index[b])
        } else {
            prev
        }
    }
}

impl<F> ParticleStore<F> {
    /// Bond entry `bid` names, through the index, an alive particle of type `t`.
    pub open spec fn is_live_partner_of_type(&self, bid: u32, t: ParticleType) -> bool {
        &&& self.id_to_index@.contains_key(bid)
        &&& self.alive@[self.id_to_index@[bid] as int]
        &&& self.ptype@[self.id_to_index@[bid] as int] == t
    }

    /// The bond entries of the particle at `idx` that name alive particles of type `t`.
    pub open spec fn live_partners_of_type(&self, idx: int, t: ParticleType) -> Set<u32> {
        self.bond_view()[idx].filter(|bid: u32| self.is_live_partner_of_type(bid, t))
    }
}

impl<F: Copy> ParticleStore<F> {
    /// Check whether the particle at `idx` has a Catalyst bonded to it.
    pub fn has_catalyst(&self, idx: usize) -> (r: bool)
        requires
            self.wf(),
            idx < self.n(),
        ensures
            r == exists|bid: u32| #[trigger] self.bond_view()[idx as int].contains(bid)
                && self.is_live_partner_of_type(bid, ParticleType::Catalyst),
    {
        let iter = self.bonds[idx].iter();
        let ghost order = iter.remaining().unref();
        proof {
            assert(order.to_set() == self.bond_view()[idx as int]);
        }
        for bid in it: iter
            invariant
                self.wf(),
                idx < self.n(),
                it.seq().unref() == order,
                order.to_set() == self.bond_view()[idx as int],
                forall|k: int| 0 <= k < it.index() ==> !self.is_live_partner_of_type(#[trigger] order[k], ParticleType::Catalyst),
        {
            let ghost k = it.index();
            match self.id_to_index.get(bid) {
                Some(bi) => {
                    let bi = *bi;
                    if self.alive[bi] && self.ptype[bi] == ParticleType::Catalyst {
                        proof {
                            assert(order[k] == *bid);
                            assert(order.to_set().contains(*bid));
                        }
                        return true;
                    }
                },
                None => {},
            }
            proof {
                assert(order[k] == *bid);
            }
        }
        proof {
            assert forall|bid: u32| #[trigger] self.bond_view()[idx as int].contains(bid)
                implies !self.is_live_partner_of_type(bid, ParticleType::Catalyst) by {
                assert(order.contains(bid));
            }
        }
        false
    }

    /// Count the number of bond partners of a given type for particle at `idx`.
    pub fn count_bonded_type(&self, idx: usize, ptype: ParticleType) -> (r: usize)
        requires
            self.wf(),
            idx < self.n(),
        ensures
            r == self.live_partners_of_type(idx as int, ptype).len(),
    {
        let iter = self.bonds[idx].iter();
        let ghost order = iter.remaining().unref();
        let ghost pred = |b: u32| self.is_live_partner_of_type(b, ptype);
        proof {
            assert(order.to_set() == self.bond_view()[idx as int]);
            assert(order.no_duplicates());
            assert(vstd::std_specs::hash::spec_hash_set_len(&self.bonds@[idx as int])
                == self.bond_view()[idx as int].len());
        }
        let mut count: usize = 0;
        for bid in it: iter
            invariant
                self.wf(),
                idx < self.n(),
                it.seq().unref() == order,
                order.len() <= usize::MAX,
                0 <= it.index() <= order.len(),
                count == order.take(it.index()).filter(pred).len(),
                pred == (|b: u32| self.is_live_partner_of_type(b, ptype)),
        {
            let ghost k = it.index();
            proof {
                assert(order.take(k + 1).drop_last() =~= order.take(k));
                assert(order[k] == *bid);
                order.take(k).lemma_filter_len(pred);
            }
            let hit = match self.id_to_index.get(bid) {
                Some(bi) => {
                    let bi = *bi;
                    self.alive[bi] && self.ptype[bi] == ptype
                },
                None => false,
            };
            proof {
                assert(hit == pred(order[k]));
                reveal(Seq::filter);
                assert(order.take(k + 1).filter(pred) == (if pred(order[k]) {
                    order.take(k).filter(pred).push(order[k])
                } else {
                    order.take(k).filter(pred)
                }));
            }
            if hit {
                count = count + 1;
            }
        }
        proof {
            assert(order.take(order.len() as int) =~= order);
            lemma_filter_len_matches_set(order, pred);
        }
        count
    }

    /// Get the indices of all bond partners for the particle at `idx` that
    /// the index knows about. They come in the order in which the bond set
    /// is walked, which is not specified.
    pub fn bond_partners(&self, idx: usize) -> (r: Vec<usize>)
        requires
            self.wf(),
            idx < self.n(),
        ensures
            exists|order: Seq<u32>| #![auto]
                order.no_duplicates() && order.to_set() == self.bond_view()[idx as int] && r@
                    == lookup_all(self.id_to_index@, order),
    {
        let iter = self.bonds[idx].iter();
        let ghost order = iter.remaining().unref();
        proof {
            assert(order.to_set() == self.bond_view()[idx as int]);
            assert(order.no_duplicates());
        }
        let mut out: Vec<usize> = Vec::new();
        for bid in it: iter
            invariant
                it.seq().unref() == order,
                0 <= it.index() <= order.len(),
                out@ == lookup_all(self.id_to_index@, order.take(it.index())),
        {
            let ghost k = it.index();
            proof {
                assert(order.take(k + 1).drop_last() =~= order.take(k));
                assert(order[k] == *bid);
            }
            match self.id_to_index.get(bid) {
                Some(bi) => {
                    out.push(*bi);
                },
                None => {},
            }
        }
        proof {
            assert(order.take(order.len() as int) =~= order);
        }
        out
    }
}

// ---------------------------------------------------------------------------
// Laws of the store
// ---------------------------------------------------------------------------

/// Every alive particle's id is in `index_map`.
proof fn lemma_index_map_covers(ids: Seq<u32>, alive: Seq<bool>)
    ensures
        forall|i: int| 0 <= i < ids.len() && alive[i] ==> #[trigger] index_map(ids, alive).contains_key(ids[i]),
    decreases ids.len(),
{
    if ids.len() > 0 {
        let prev = ids.drop_last();
        lemma_index_map_covers(prev, alive);
        assert forall|i: int| 0 <= i < ids.len() && alive[i] implies #[trigger] index_map(ids, alive).contains_key(ids[i]) by {
            if i < ids.len() - 1 {
                assert(prev[i] == ids[i]);
                assert(index_map(prev, alive).contains_key(prev[i]));
            }
        }
    }
}

/// While the index is consistent, looking up an id finds exactly the
/// alive particle that carries it.
pub proof fn lemma_lookup_finds_alive_particle<F>(store: &ParticleStore<F>, pid: u32, i: int)
    requires
        store.wf(),
        store.index_consistent(),
    ensures
        store.id_to_index@.contains_key(pid) ==> {
            let j = store.id_to_index@[pid] as int;
            0 <= j < store.n() && store.alive@[j] && store.id@[j] == pid
        },
        (0 <= i < store.n() && store.alive@[i] && store.id@[i] == pid) ==> (
        store.id_to_index@.contains_key(pid) && store.id_to_index@[pid] == i),
{
    assert(store.id.len() == store.id@.len());
    lemma_index_map_values(store.id@, store.alive@);
    lemma_index_map_covers(store.id@, store.alive@);
    if 0 <= i < store.n() && store.alive@[i] && store.id@[i] == pid {
        assert(index_map(store.id@, store.alive@).contains_key(store.id@[i]));
        let j = store.id_to_index@[pid] as int;
        assert(0 <= j < store.n() && store.id@[j] == pid);
        if j < i {
            assert(store.id@[j] < store.id@[i]);
        } else if i < j {
            assert(store.id@[i] < store.id@[j]);
        }
    }
}

/// Between mutually bonded particles, a bond that was just formed can be
/// broken again, which restores the bonds exactly; forming it a second time
/// fails.
pub proof fn lemma_form_then_break_restores(bv: Seq<Set<u32>>, ids: Seq<u32>, a: int, b: int)
    requires
        bv.len() == ids.len(),
        0 <= a < ids.len(),
        0 <= b < ids.len(),
        a != b,
        strictly_increasing(ids),
        symmetric_bonds(bv, ids),
        form_bond_model(bv, ids, a, b).0,
    ensures
        !form_bond_model(form_bond_model(bv, ids, a, b).1, ids, a, b).0,
        break_bond_model(form_bond_model(bv, ids, a, b).1, ids, a, b) == (true, bv),
{
    let ia = ids[a];
    let ib = ids[b];
    assert(ia != ib) by {
        if a < b {
            assert(ids[a] < ids[b]);
        } else {
            assert(ids[b] < ids[a]);
        }
    }
    assert(!bv[a].contains(ib));
    assert(bv[a].contains(ids[b]) <==> bv[b].contains(ids[a]));
    assert(!bv[b].contains(ia));
    let formed = form_bond_model(bv, ids, a, b).1;
    let s1 = formed.update(a, formed[a].remove(ib));
    assert(formed[a].remove(ib) =~= bv[a]);
    assert(s1[b].remove(ia) =~= bv[b]);
    assert(break_bond_model(formed, ids, a, b).1 =~= bv);
}

// ---------------------------------------------------------------------------
// Render-facing views: alive positions and bonded pairs
// ---------------------------------------------------------------------------

/// Positions `0..n` as machine indices.
pub open spec fn positions(n: nat) -> Seq<usize> {
    Seq::new(n, |i: int| i as usize)
}

impl<F> ParticleStore<F> {
    /// The bonded pairs contributed by particle `i` when its bond set is
    /// walked in `order`: `(i, j)` for every entry that the index maps to an
    /// alive particle `j` whose id is larger than `i`'s.
    pub open spec fn pairs_of(&self, i: int, order: Seq<u32>) -> Seq<(usize, usize)>
        decreases order.len(),
    {
        if order.len() == 0 {
            Seq::empty()
        } else {
            let prev = self.pairs_of(i, order.drop_last());
            let bid = order.last();
            if self.id_to_index@.contains_key(bid) && self.id@[i] < bid
                && self.alive@[self.id_to_index@[bid] as int] {
                prev.push((i as usize, self.id_to_index@[bid]))
            } else {
                prev
            }
        }
    }

    /// The bonded pairs of all alive particles, particle by particle, each
    /// bond set walked in the corresponding order of `orders`.
    pub open spec fn all_pairs(&self, orders: Seq<Seq<u32>>) -> Seq<(usize, usize)>
        decreases orders.len(),
    {
        if orders.len() == 0 {
            Seq::empty()
        } else {
            let k = orders.len() - 1;
            self.all_pairs(orders.drop_last()) + if self.alive@[k] {
                self.pairs_of(k, orders[k])
            } else {
                Seq::empty()
            }
        }
    }

    /// `orders` lists, for each of the first `orders.len()` particles, its
    /// bond set once each, in some order.
    pub open spec fn walk_orders(&self, orders: Seq<Seq<u32>>) -> bool {
        forall|k: int| 0 <= k < orders.len() ==> (#[trigger] orders[k]).no_duplicates()
            && orders[k].to_set() == self.bond_view()[k]
    }
}

impl<F: Copy> ParticleStore<F> {
    /// Indices of all living particles, in increasing order.
    pub fn alive_indices(&self) -> (r: Vec<usize>)
        requires
            self.wf(),
        ensures
            r@ == kept(positions(self.n()), self.alive@),
    {
        let n = self.len();
        let mut out: Vec<usize> = Vec::new();
        let mut i: usize = 0;
        while i < n
            invariant
                self.wf(),
                n == self.n(),
                i <= n,
                out@ == kept(positions(i as nat), self.alive@),
            decreases n - i,
        {
            proof {
                assert(positions((i + 1) as nat).drop_last() =~= positions(i as nat));
            }
            if self.alive[i] {
                out.push(i);
            }
            i = i + 1;
        }
        out
    }

    /// Collect every bond between living particles once, as the pair of
    /// their indices with the smaller id first. Within one particle, pairs
    /// follow the order in which its bond set is walked, which is not
    /// specified.
    pub fn bond_pairs(&self) -> (r: Vec<(usize, usize)>)
        requires
            self.wf(),
        ensures
            exists|orders: Seq<Seq<u32>>| #![auto]
                orders.len() == self.n() && self.walk_orders(orders) && r@ == self.all_pairs(orders),
    {
        let n = self.len();
        let mut out: Vec<(usize, usize)> = Vec::new();
        let ghost mut orders: Seq<Seq<u32>> = Seq::empty();
        let mut i: usize = 0;
        while i < n
            invariant
                self.wf(),
                n == self.n(),
                i <= n,
                orders.len() == i,
                self.walk_orders(orders),
                out@ == self.all_pairs(orders),
            decreases n - i,
        {
            let ghost before = out@;
            let iter = self.bonds[i].iter();
            let ghost order = vstd::std_specs::hash::into_iter_hash_keys(iter);
            proof {
                assert(order == iter.remaining().unref());
                assert(order.to_set() == self.bond_view()[i as int]);
                assert(order.no_duplicates());
            }
            if self.alive[i] {
                let id_i = self.id[i];
                for bid in it: iter
                    invariant
                        self.wf(),
                        i < self.n(),
                        id_i == self.id@[i as int],
                        it.seq().unref() == order,
                        0 <= it.index() <= order.len(),
                        out@ == before + self.pairs_of(i as int, order.take(it.index())),
                {
                    let ghost k = it.index();
                    proof {
                        assert(order.take(k + 1).drop_last() =~= order.take(k));
                        assert(order[k] == *bid);
                    }
                    match self.id_to_index.get(bid) {
                        Some(j) => {
                            let j = *j;
                            if id_i < *bid && self.alive[j] {
                                out.push((i, j));
                                proof {
                                    assert(before + self.pairs_of(i as int, order.take(k + 1)) =~= (before
                                        + self.pairs_of(i as int, order.take(k))).push((i, j)));
                                }
                            } else {
                                proof {
                                    assert(self.pairs_of(i as int, order.take(k + 1)) == self.pairs_of(i as int, order.take(k)));
                                }
                            }
                        },
                        None => {
                            proof {
                                assert(self.pairs_of(i as int, order.take(k + 1)) == self.pairs_of(i as int, order.take(k)));
                            }
                        },
                    }
                }
                proof {
                    assert(order.take(order.len() as int) =~= order);
                }
            }
            proof {
                let next = orders.push(order);
                assert(next.drop_last() =~= orders);
                if !self.alive@[i as int] {
                    assert(out@ =~= before + Seq::<(usize, usize)>::empty());
                }
                assert(out@ == self.all_pairs(next));
                orders = next;
            }
            i = i + 1;
        }
        out
    }
}

/// The pairs contributed by one particle name distinct, alive, bonded
/// particles with larger ids, and include every such partner in the order.
proof fn lemma_pairs_of_facts<F>(store: &ParticleStore<F>, i: int, order: Seq<u32>)
    requires
        store.wf(),
        store.index_consistent(),
        0 <= i < store.n(),
        order.no_duplicates(),
    ensures
        forall|k: int| #![trigger store.pairs_of(i, order)[k]] 0 <= k < store.pairs_of(i, order).len() ==> {
            let (x, y) = store.pairs_of(i, order)[k];
            &&& x == i
            &&& y < store.n()
            &&& store.alive@[y as int]
            &&& store.id@[i] < store.id@[y as int]
            &&& order.contains(store.id@[y as int])
        },
        store.pairs_of(i, order).no_duplicates(),
        forall|b: int|
            0 <= b < store.n() && store.alive@[b] && store.id@[i] < store.id@[b] && #[trigger] order.contains(
                store.id@[b],
            ) ==> store.pairs_of(i, order).contains((i as usize, b as usize)),
    decreases order.len(),
{
    assert(store.id.len() == store.id@.len());
    lemma_index_map_values(store.id@, store.alive@);
    if order.len() > 0 {
        let prev = order.drop_last();
        let bid = order.last();
        assert(prev.no_duplicates());
        lemma_pairs_of_facts(store, i, prev);
        assert(!prev.contains(bid));
        let pp = store.pairs_of(i, prev);
        let p = store.pairs_of(i, order);
        assert forall|k: int| 0 <= k < prev.len() implies order.contains(#[trigger] prev[k]) by {
            assert(order[k] == prev[k]);
        }
        assert(order[order.len() - 1] == bid);
        if store.id_to_index@.contains_key(bid) && store.id@[i] < bid && store.alive@[store.id_to_index@[bid] as int] {
            let j = store.id_to_index@[bid];
            assert(index_map(store.id@, store.alive@).contains_key(bid));
            assert(p == pp.push((i as usize, j)));
            assert(store.id@[j as int] == bid);
            assert(!pp.contains((i as usize, j))) by {
                if pp.contains((i as usize, j)) {
                    let k = choose|k: int| 0 <= k < pp.len() && pp[k] == (i as usize, j);
                    assert(pp[k] == (i as usize, j));
                }
            }
            assert forall|b: int|
                0 <= b < store.n() && store.alive@[b] && store.id@[i] < store.id@[b] && #[trigger] order.contains(
                    store.id@[b],
                ) implies p.contains((i as usize, b as usize)) by {
                if prev.contains(store.id@[b]) {
                    let k = choose|k: int| 0 <= k < pp.len() && pp[k] == (i as usize, b as usize);
                    assert(p[k] == (i as usize, b as usize));
                } else {
                    let m = choose|m: int| 0 <= m < order.len() && order[m] == store.id@[b];
                    if m < order.len() - 1 {
                        assert(prev[m] == order[m]);
                    }
                    assert(store.id@[b] == bid);
                    lemma_lookup_finds_alive_particle(store, bid, b);
                    assert(p[pp.len() as int] == (i as usize, b as usize));
                }
            }
        } else {
            assert(p == pp);
            assert forall|b: int|
                0 <= b < store.n() && store.alive@[b] && store.id@[i] < store.id@[b] && #[trigger] order.contains(
                    store.id@[b],
                ) implies p.contains((i as usize, b as usize)) by {
                if !prev.contains(store.id@[b]) {
                    let m = choose|m: int| 0 <= m < order.len() && order[m] == store.id@[b];
                    if m < order.len() - 1 {
                        assert(prev[m] == order[m]);
                    }
                    assert(store.id@[b] == bid);
                    lemma_lookup_finds_alive_particle(store, bid, b);
                }
            }
        }
    }
}

/// Each bond between two living particles appears exactly once among the
/// collected pairs, as (smaller id, larger id); no other pair appears.
pub proof fn lemma_bond_pairs_each_once<F>(store: &ParticleStore<F>, orders: Seq<Seq<u32>>)
    requires
        store.wf(),
        store.index_consistent(),
        orders.len() <= store.n(),
        store.walk_orders(orders),
    ensures
        forall|k: int| #![trigger store.all_pairs(orders)[k]] 0 <= k < store.all_pairs(orders).len() ==> {
            let (a, b) = store.all_pairs(orders)[k];
            &&& a < orders.len()
            &&& b < store.n()
            &&& store.alive@[a as int]
            &&& store.alive@[b as int]
            &&& store.id@[a as int] < store.id@[b as int]
            &&& store.bond_view()[a as int].contains(store.id@[b as int])
        },
        store.all_pairs(orders).no_duplicates(),
        forall|a: int, b: int|
            0 <= a < orders.len() && 0 <= b < store.n() && store.alive@[a] && store.alive@[b] && store.id@[a]
                < store.id@[b] && #[trigger] store.bond_view()[a].contains(store.id@[b]) ==> store.all_pairs(
                orders,
            ).contains((a as usize, b as usize)),
    decreases orders.len(),
{
    if orders.len() > 0 {
        let prev = orders.drop_last();
        let last = orders.len() - 1;
        assert forall|k: int| 0 <= k < prev.len() implies (#[trigger] prev[k]).no_duplicates()
            && prev[k].to_set() == store.bond_view()[k] by {
            assert(prev[k] == orders[k]);
        }
        lemma_bond_pairs_each_once(store, prev);
        let rp = store.all_pairs(prev);
        let order = orders[last];
        assert(order.no_duplicates() && order.to_set() == store.bond_view()[last]);
        lemma_pairs_of_facts(store, last, order);
        let extra = if store.alive@[last] {
            store.pairs_of(last, order)
        } else {
            Seq::empty()
        };
        let r = store.all_pairs(orders);
        assert(r == rp + extra);
        assert forall|k: int| #![trigger r[k]] 0 <= k < r.len() implies {
            let (a, b) = r[k];
            &&& a < orders.len()
            &&& b < store.n()
            &&& store.alive@[a as int]
            &&& store.alive@[b as int]
            &&& store.id@[a as int] < store.id@[b as int]
            &&& store.bond_view()[a as int].contains(store.id@[b as int])
        } by {
            if k < rp.len() {
                assert(r[k] == rp[k]);
            } else {
                assert(r[k] == extra[k - rp.len()]);
                let (a, b) = r[k];
                assert(order.contains(store.id@[b as int]));
                assert(order.to_set().contains(store.id@[b as int]));
            }
        }
        assert forall|x: int, y: int| 0 <= x < y < r.len() implies r[x] != r[y] by {
            if y < rp.len() {
                assert(r[x] == rp[x] && r[y] == rp[y]);
            } else if x >= rp.len() {
                assert(r[x] == extra[x - rp.len()] && r[y] == extra[y - rp.len()]);
            } else {
                assert(r[x] == rp[x]);
                assert(r[y] == extra[y - rp.len()]);
                assert(rp[x].0 < prev.len());
            }
        }
        assert forall|a: int, b: int|
            0 <= a < orders.len() && 0 <= b < store.n() && store.alive@[a] && store.alive@[b] && store.id@[a]
                < store.id@[b] && #[trigger] store.bond_view()[a].contains(store.id@[b]) implies r.contains(
            (a as usize, b as usize),
        ) by {
            if a < prev.len() {
                let k = choose|k: int| 0 <= k < rp.len() && rp[k] == (a as usize, b as usize);
                assert(r[k] == rp[k]);
            } else {
                assert(a == last);
                assert(order.to_set().contains(store.id@[b]));
                assert(order.contains(store.id@[b]));
                let k = choose|k: int| 0 <= k < extra.len() && extra[k] == (a as usize, b as usize);
                assert(r[rp.len() + k] == extra[k]);
            }
        }
    }
}

// ---------------------------------------------------------------------------
// Laws that say what the bond operations and the queries decide
// ---------------------------------------------------------------------------

/// Forming a bond between positions `a` and `b` succeeds exactly when each
/// of the two particles holds fewer than `MAX_BONDS` bonds and `a` does not
/// list `b` yet. On success `a` gains the entry `b` and `b` gains the entry
/// `a`, and no other particle's bonds change; on failure nothing changes.
pub proof fn lemma_form_bond_outcome(bv: Seq<Set<u32>>, ids: Seq<u32>, a: int, b: int)
    requires
        bv.len() == ids.len(),
        0 <= a < ids.len(),
        0 <= b < ids.len(),
    ensures
        form_bond_model(bv, ids, a, b).0 <==> (bv[a].len() < MAX_BONDS && bv[b].len() < MAX_BONDS
            && !bv[a].contains(ids[b])),
        form_bond_model(bv, ids, a, b).1.len() == bv.len(),
        form_bond_model(bv, ids, a, b).0 ==> {
            let after = form_bond_model(bv, ids, a, b).1;
            &&& after[a] == bv[a].insert(ids[b])
            &&& after[b] == bv[b].insert(ids[a])
            &&& after[a].contains(ids[b])
            &&& after[b].contains(ids[a])
            &&& forall|i: int| 0 <= i < bv.len() && i != a && i != b ==> #[trigger] after[i] == bv[i]
        },
        !form_bond_model(bv, ids, a, b).0 ==> form_bond_model(bv, ids, a, b).1 == bv,
{
    let after = form_bond_model(bv, ids, a, b).1;
    if form_bond_model(bv, ids, a, b).0 {
        if a == b {
            assert(after[a] =~= bv[a].insert(ids[b]));
        } else {
            assert(after[a] =~= bv[a].insert(ids[b]));
            assert(after[b] =~= bv[b].insert(ids[a]));
        }
    }
}

/// Breaking the bond between positions `a` and `b` reports whether either
/// side listed the other. Afterwards neither lists the other, each lost
/// only that entry, and no other particle's bonds change.
pub proof fn lemma_break_bond_outcome(bv: Seq<Set<u32>>, ids: Seq<u32>, a: int, b: int)
    requires
        bv.len() == ids.len(),
        0 <= a < ids.len(),
        0 <= b < ids.len(),
    ensures
        break_bond_model(bv, ids, a, b).0 <==> (bv[a].contains(ids[b]) || bv[b].contains(ids[a])),
        ({
            let after = break_bond_model(bv, ids, a, b).1;
            &&& after.len() == bv.len()
            &&& after[a] == bv[a].remove(ids[b])
            &&& after[b] == bv[b].remove(ids[a])
            &&& !after[a].contains(ids[b])
            &&& !after[b].contains(ids[a])
            &&& forall|i: int| 0 <= i < bv.len() && i != a && i != b ==> #[trigger] after[i] == bv[i]
        }),
{
    let after = break_bond_model(bv, ids, a, b).1;
    assert(after[a] =~= bv[a].remove(ids[b]));
    assert(after[b] =~= bv[b].remove(ids[a]));
}

/// `count_flagged` counts exactly the positions that are alive and whose
/// flag is `want`; a dead position never counts.
pub proof fn lemma_count_flagged_counts(alive: Seq<bool>, flag: Seq<bool>, want: bool)
    ensures
        Set::new(|i: int| 0 <= i < alive.len() && alive[i] && flag[i] == want).finite(),
        count_flagged(alive, flag, want) == Set::new(
            |i: int| 0 <= i < alive.len() && alive[i] && flag[i] == want,
        ).len(),
    decreases alive.len(),
{
    let s = Set::new(|i: int| 0 <= i < alive.len() && alive[i] && flag[i] == want);
    if alive.len() == 0 {
        assert(s =~= Set::empty());
    } else {
        let prev = alive.drop_last();
        lemma_count_flagged_counts(prev, flag, want);
        let sp = Set::new(|i: int| 0 <= i < prev.len() && prev[i] && flag[i] == want);
        let last = alive.len() - 1;
        if alive[last] && flag[last] == want {
            assert(s =~= sp.insert(last));
        } else {
            assert(s =~= sp);
        }
    }
}

/// Every entry that `lookup_all` gives is the position the index records
/// for some entry of `order`, and every entry of `order` that the index
/// knows contributes its position.
pub proof fn lemma_lookup_all_members(index: Map<u32, usize>, order: Seq<u32>)
    ensures
        forall|b: u32|
            order.contains(b) && index.contains_key(b) ==> #[trigger] lookup_all(index, order).contains(
                index[b],
            ),
        forall|x: usize|
            #[trigger] lookup_all(index, order).contains(x) ==> exists|b: u32|
                order.contains(b) && index.contains_key(b) && #[trigger] index[b] == x,
        lookup_all(index, order).len() <= order.len(),
    decreases order.len(),
{
    if order.len() > 0 {
        let prev = order.drop_last();
        let last = order.last();
        lemma_lookup_all_members(index, prev);
        let r = lookup_all(index, order);
        let rp = lookup_all(index, prev);
        assert forall|b: u32| order.contains(b) && index.contains_key(b) implies #[trigger] r.contains(index[b]) by {
            if b == last {
                assert(r[r.len() - 1] == index[b]);
            } else {
                let k = choose|k: int| 0 <= k < order.len() && order[k] == b;
                assert(prev[k] == b);
                assert(rp.contains(index[b]));
                let m = choose|m: int| 0 <= m < rp.len() && rp[m] == index[b];
                assert(r[m] == index[b]);
            }
        }
        assert forall|x: usize| #[trigger] r.contains(x) implies exists|b: u32|
            order.contains(b) && index.contains_key(b) && #[trigger] index[b] == x by {
            let m = choose|m: int| 0 <= m < r.len() && r[m] == x;
            if m < rp.len() {
                assert(rp[m] == x);
                assert(rp.contains(x));
                let b = choose|b: u32| prev.contains(b) && index.contains_key(b) && #[trigger] index[b] == x;
                let k = choose|k: int| 0 <= k < prev.len() && prev[k] == b;
                assert(order[k] == b);
            } else {
                assert(order[order.len() - 1] == last);
            }
        }
    }
}

/// When distinct known entries map to distinct positions, `lookup_all` of
/// an order without repeats has no repeats.
proof fn lemma_lookup_all_distinct(index: Map<u32, usize>, order: Seq<u32>)
    requires
        order.no_duplicates(),
        forall|b1: u32, b2: u32|
            index.contains_key(b1) && index.contains_key(b2) && #[trigger] index[b1] == #[trigger] index[b2]
                ==> b1 == b2,
    ensures
        lookup_all(index, order).no_duplicates(),
    decreases order.len(),
{
    if order.len() > 0 {
        let prev = order.drop_last();
        let last = order.last();
        assert(prev.no_duplicates());
        lemma_lookup_all_distinct(index, prev);
        lemma_lookup_all_members(index, prev);
        let rp = lookup_all(index, prev);
        if index.contains_key(last) {
            if rp.contains(index[last]) {
                let b = choose|b: u32| prev.contains(b) && index.contains_key(b) && #[trigger] index[b] == index[last];
                let k = choose|k: int| 0 <= k < prev.len() && prev[k] == b;
                assert(order[k] == b && order[order.len() - 1] == last);
            }
        }
    }
}

impl<F> ParticleStore<F> {
    /// Bond entry `bid` names a living particle of type `t` exactly when some
    /// position carries id `bid`, is alive, and holds type `t`: the type is
    /// read where the particle with that id stands.
    pub proof fn lemma_live_partner_by_position(&self, bid: u32, t: ParticleType)
        requires
            self.wf(),
            self.index_consistent(),
        ensures
            self.is_live_partner_of_type(bid, t) <==> exists|j: int|
                0 <= j < self.n() && #[trigger] self.id@[j] == bid && self.alive@[j] && self.ptype@[j] == t,
    {
        if self.is_live_partner_of_type(bid, t) {
            lemma_lookup_finds_alive_particle(self, bid, 0);
            let j = self.id_to_index@[bid] as int;
            assert(self.id@[j] == bid);
        }
        if exists|j: int| 0 <= j < self.n() && #[trigger] self.id@[j] == bid && self.alive@[j] && self.ptype@[j] == t {
            let j = choose|j: int| 0 <= j < self.n() && #[trigger] self.id@[j] == bid && self.alive@[j] && self.ptype@[j] == t;
            lemma_lookup_finds_alive_particle(self, bid, j);
        }
    }

    /// The particle at `idx` has a living bonded partner of type `t` (what
    /// `has_catalyst` reports for `Catalyst`) exactly when some alive
    /// particle of type `t` has its id among `idx`'s bonds; the partners
    /// that `count_bonded_type` counts are exactly the ids of those
    /// particles.
    pub proof fn lemma_bonded_type_by_position(&self, idx: int, t: ParticleType)
        requires
            self.wf(),
            self.index_consistent(),
            0 <= idx < self.n(),
        ensures
            (exists|bid: u32| #[trigger] self.bond_view()[idx].contains(bid) && self.is_live_partner_of_type(bid, t))
                <==> exists|j: int|
                0 <= j < self.n() && self.alive@[j] && self.ptype@[j] == t && #[trigger] self.bond_view()[idx].contains(
                    self.id@[j],
                ),
            self.live_partners_of_type(idx, t) == Set::new(
                |j: int| 0 <= j < self.n() && self.alive@[j] && self.ptype@[j] == t && self.bond_view()[idx].contains(self.id@[j]),
            ).map(|j: int| self.id@[j]),
    {
        let positions = Set::new(
            |j: int| 0 <= j < self.n() && self.alive@[j] && self.ptype@[j] == t && self.bond_view()[idx].contains(self.id@[j]),
        );
        let ids = positions.map(|j: int| self.id@[j]);
        assert forall|bid: u32| self.live_partners_of_type(idx, t).contains(bid) <==> ids.contains(bid) by {
            self.lemma_live_partner_by_position(bid, t);
            if ids.contains(bid) {
                let j = choose|j: int| positions.contains(j) && self.id@[j] == bid;
                assert(self.id@[j] == bid);
            }
            if self.live_partners_of_type(idx, t).contains(bid) {
                let j = choose|j: int| 0 <= j < self.n() && #[trigger] self.id@[j] == bid && self.alive@[j] && self.ptype@[j] == t;
                assert(positions.contains(j));
            }
        }
        assert(self.live_partners_of_type(idx, t) =~= ids);
        if exists|bid: u32| #[trigger] self.bond_view()[idx].contains(bid) && self.is_live_partner_of_type(bid, t) {
            let bid = choose|bid: u32| #[trigger] self.bond_view()[idx].contains(bid) && self.is_live_partner_of_type(bid, t);
            self.lemma_live_partner_by_position(bid, t);
            let j = choose|j: int| 0 <= j < self.n() && #[trigger] self.id@[j] == bid && self.alive@[j] && self.ptype@[j] == t;
            assert(self.bond_view()[idx].contains(self.id@[j]));
        }
        if exists|j: int|
            0 <= j < self.n() && self.alive@[j] && self.ptype@[j] == t && #[trigger] self.bond_view()[idx].contains(self.id@[j]) {
            let j = choose|j: int|
                0 <= j < self.n() && self.alive@[j] && self.ptype@[j] == t && #[trigger] self.bond_view()[idx].contains(self.id@[j]);
            self.lemma_live_partner_by_position(self.id@[j], t);
            assert(self.bond_view()[idx].contains(self.id@[j]) && self.is_live_partner_of_type(self.id@[j], t));
        }
    }

    /// What `bond_partners` gives for the particle at `idx`, walking its bond
    /// set in `order`: every position `j` occurs in it exactly when `j` is
    /// alive and `idx` lists `j`'s id, and none occurs twice.
    pub proof fn lemma_bond_partners_exact(&self, idx: int, order: Seq<u32>)
        requires
            self.wf(),
            self.index_consistent(),
            0 <= idx < self.n(),
            order.no_duplicates(),
            order.to_set() == self.bond_view()[idx],
        ensures
            forall|j: int|
                0 <= j < self.n() ==> (#[trigger] lookup_all(self.id_to_index@, order).contains(j as usize)
                    <==> (self.alive@[j] && self.bond_view()[idx].contains(self.id@[j]))),
            forall|k: int|
                0 <= k < lookup_all(self.id_to_index@, order).len() ==> #[trigger] lookup_all(
                    self.id_to_index@,
                    order,
                )[k] < self.n(),
            lookup_all(self.id_to_index@, order).no_duplicates(),
    {
        let index = self.id_to_index@;
        let r = lookup_all(index, order);
        assert(self.id.len() == self.id@.len());
        lemma_lookup_all_members(index, order);
        assert forall|b1: u32, b2: u32|
            index.contains_key(b1) && index.contains_key(b2) && #[trigger] index[b1] == #[trigger] index[b2] implies b1 == b2 by {
            assert(self.id@[index[b1] as int] == b1);
            assert(self.id@[index[b2] as int] == b2);
        }
        lemma_lookup_all_distinct(index, order);
        assert forall|k: int| 0 <= k < r.len() implies #[trigger] r[k] < self.n() by {
            assert(r.contains(r[k]));
            let b = choose|b: u32| order.contains(b) && index.contains_key(b) && #[trigger] index[b] == r[k];
        }
        assert forall|j: int| 0 <= j < self.n() implies (#[trigger] r.contains(j as usize) <==> (self.alive@[j]
            && self.bond_view()[idx].contains(self.id@[j]))) by {
            assert((j as usize) as int == j);
            if r.contains(j as usize) {
                let b = choose|b: u32| order.contains(b) && index.contains_key(b) && #[trigger] index[b] == j as usize;
                lemma_lookup_finds_alive_particle(self, b, j);
                assert(self.id@[j] == b);
                assert(order.to_set().contains(b));
            }
            if self.alive@[j] && self.bond_view()[idx].contains(self.id@[j]) {
                lemma_lookup_finds_alive_particle(self, self.id@[j], j);
                assert(order.to_set().contains(self.id@[j]));
            }
        }
    }
}

impl<F> ParticleStore<F> {
    /// What `alive_indices` gives: every alive position once, in increasing
    /// order, and nothing else.
    pub proof fn lemma_alive_indices_exact(&self)
        requires
            self.wf(),
        ensures
            ({
                let r = kept(positions(self.n()), self.alive@);
                &&& forall|k: int| 0 <= k < r.len() ==> #[trigger] r[k] < self.n() && self.alive@[r[k] as int]
                &&& forall|k1: int, k2: int| 0 <= k1 < k2 < r.len() ==> #[trigger] r[k1] < #[trigger] r[k2]
                &&& forall|i: int| 0 <= i < self.n() && self.alive@[i] ==> #[trigger] r.contains(i as usize)
            }),
    {
        let n = self.n();
        assert(self.id.len() == self.id@.len());
        let pos = positions(n);
        let r = kept(pos, self.alive@);
        lemma_kept_as_positions(pos, self.alive@);
        lemma_kept_positions(self.alive@, n);
        let p = kept_positions(self.alive@, n);
        assert(r == p.map_values(|i: int| pos[i]));
        assert forall|k: int| 0 <= k < r.len() implies #[trigger] r[k] < self.n() && self.alive@[r[k] as int] by {
            assert(r[k] == pos[p[k]]);
        }
        assert forall|k1: int, k2: int| 0 <= k1 < k2 < r.len() implies #[trigger] r[k1] < #[trigger] r[k2] by {
            assert(r[k1] == pos[p[k1]]);
            assert(r[k2] == pos[p[k2]]);
            assert(p[k1] < p[k2]);
        }
        assert forall|i: int| 0 <= i < self.n() && self.alive@[i] implies #[trigger] r.contains(i as usize) by {
            assert(p.contains(i));
            let k = choose|k: int| 0 <= k < p.len() && p[k] == i;
            assert(r[k] == pos[i]);
        }
    }
}

} // verus!
