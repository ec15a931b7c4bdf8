//! Particle kinds, cell roles, bond slots and the integer-valued per-particle
//! records of the simulation.
use vstd::prelude::*;

verus! {

/// Total number of distinct particle types in the simulation.
pub const NUM_TYPES: usize = 6;

/// Maximum bonds a single particle can form simultaneously.
pub const MAX_BONDS: usize = 4;

/// The fundamental type of a particle, governing its interaction affinities,
/// bonding behaviour, and role potential.
#[derive(Debug, Clone, Copy, PartialEq, Eq, Hash, Structural)]
pub enum ParticleType {
    Alpha,
    Beta,
    Catalyst,
    Data,
    Membrane,
    Motor,
}

/// The type with numeric index `i` (indices follow declaration order).
pub open spec fn type_at(i: int) -> ParticleType {
    if i == 0 {
        ParticleType::Alpha
    } else if i == 1 {
        ParticleType::Beta
    } else if i == 2 {
        ParticleType::Catalyst
    } else if i == 3 {
        ParticleType::Data
    } else if i == 4 {
        ParticleType::Membrane
    } else {
        ParticleType::Motor
    }
}

impl ParticleType {
    /// Position of the type in declaration order.
    pub open spec fn ordinal(self) -> int {
        match self {
            ParticleType::Alpha => 0,
            ParticleType::Beta => 1,
            ParticleType::Catalyst => 2,
            ParticleType::Data => 3,
            ParticleType::Membrane => 4,
            ParticleType::Motor => 5,
        }
    }

    /// Human-readable name of the type.
    pub open spec fn name_text(self) -> Seq<char> {
        match self {
            ParticleType::Alpha => "Alpha"@,
            ParticleType::Beta => "Beta"@,
            ParticleType::Catalyst => "Catalyst"@,
            ParticleType::Data => "Data"@,
            ParticleType::Membrane => "Membrane"@,
            ParticleType::Motor => "Motor"@,
        }
    }

    /// Numeric index (matches the declaration order).
    pub fn as_index(self) -> (r: usize)
        ensures
            r == self.ordinal(),
            r < NUM_TYPES,
    {
        match self {
            ParticleType::Alpha => 0,
            ParticleType::Beta => 1,
            ParticleType::Catalyst => 2,
            ParticleType::Data => 3,
            ParticleType::Membrane => 4,
            ParticleType::Motor => 5,
        }
    }

    /// Construct from a numeric index below `NUM_TYPES`.
    pub fn from_index(idx: usize) -> (r: Self)
        requires
            idx < NUM_TYPES,
        ensures
            r == type_at(idx as int),
            r.ordinal() == idx,
    {
        match idx {
            0 => ParticleType::Alpha,
            1 => ParticleType::Beta,
            2 => ParticleType::Catalyst,
            3 => ParticleType::Data,
            4 => ParticleType::Membrane,
            _ => ParticleType::Motor,
        }
    }

    /// Try to construct from a numeric index, returning `None` for out-of-range.
    pub fn try_from_index(idx: usize) -> (r: Option<Self>)
        ensures
            r == (if idx < NUM_TYPES { Some(type_at(idx as int)) } else { None }),
    {
        match idx {
            0 => Some(ParticleType::Alpha),
            1 => Some(ParticleType::Beta),
            2 => Some(ParticleType::Catalyst),
            3 => Some(ParticleType::Data),
            4 => Some(ParticleType::Membrane),
            5 => Some(ParticleType::Motor),
            _ => None,
        }
    }

    /// Human-readable name.
    pub fn name(self) -> (r: &'static str)
        ensures
            r@ == self.name_text(),
    {
        match self {
            ParticleType::Alpha => "Alpha",
            ParticleType::Beta => "Beta",
            ParticleType::Catalyst => "Catalyst",
            ParticleType::Data => "Data",
            ParticleType::Membrane => "Membrane",
            ParticleType::Motor => "Motor",
        }
    }

    /// All particle types, in index order.
    pub fn all() -> (r: Vec<Self>)
        ensures
            r@.len() == NUM_TYPES,
            forall|i: int| 0 <= i < NUM_TYPES ==> #[trigger] r@[i] == type_at(i),
    {
        let mut v: Vec<Self> = Vec::new();
        let mut i: usize = 0;
        while i < NUM_TYPES
            invariant
                i <= NUM_TYPES,
                v@.len() == i,
                forall|j: int| 0 <= j < i ==> #[trigger] v@[j] == type_at(j),
            decreases NUM_TYPES - i,
        {
            v.push(Self::from_index(i));
            i = i + 1;
        }
        v
    }
}

impl Default for ParticleType {
    /// The first type, `Alpha`.
    fn default() -> (r: Self)
        ensures
            r == ParticleType::Alpha,
    {
        ParticleType::Alpha
    }
}

/// Index and type are inverse to each other.
pub proof fn lemma_type_index_roundtrip(t: ParticleType, i: int)
    requires
        0 <= i < NUM_TYPES,
    ensures
        type_at(t.ordinal()) == t,
        0 <= t.ordinal() < NUM_TYPES,
        type_at(i).ordinal() == i,
{
}


/// Numeric identifier of a particle (monotonically increasing).
#[derive(Debug, Clone, Copy, PartialEq, Eq, Hash)]
pub struct ParticleId(pub u32);

/// Tag: the particle is alive and should be simulated.
#[derive(Debug, Clone, Copy, Default)]
pub struct Alive;

/// Age in simulation ticks since spawning.
#[derive(Debug, Clone, Copy, Default)]
pub struct Age(pub u32);

/// Tag for particles that have become inert energy deposits.
#[derive(Debug, Clone, Copy, Default)]
pub struct IsDeposit;

/// Immune signature: organisms with the same signature cooperate.
#[derive(Debug, Clone, Copy, Default)]
pub struct Signature(pub u32);

/// Symbol code channel. `0` = no symbol, `1..=8` = active channel.
#[derive(Debug, Clone, Copy, Default)]
pub struct SymbolCode(pub u8);

/// Key of a held "tool" entity (another particle used instrumentally).
#[derive(Debug, Clone, Copy, Default)]
pub struct HeldTool(pub Option<u64>);

/// Cultural meme identifier. `0` = none.
#[derive(Debug, Clone, Copy, Default)]
pub struct CulturalMeme(pub u16);

// ---------------------------------------------------------------------------
// Bonds
// ---------------------------------------------------------------------------

/// The partner held by one slot, as a sequence of zero or one keys.
pub open spec fn slot_items(slot: Option<u64>) -> Seq<u64> {
    match slot {
        Some(e) => seq![e],
        None => Seq::empty(),
    }
}

/// Up to `MAX_BONDS` bonds to other entities, each partner written as its
/// 64-bit entity key.
#[derive(Debug, Clone, Copy)]
pub struct Bonds {
    /// Bonded partner keys (`None` = empty slot).
    pub partners: [Option<u64>; MAX_BONDS],
    /// Number of active bonds (cached for fast checks).
    pub count: u8,
}

impl Default for Bonds {
    /// No bonds: every slot empty.
    fn default() -> (r: Self)
        ensures
            r.wf(),
            r.count == 0,
            r.partner_list() == Seq::<u64>::empty(),
            forall|i: int| 0 <= i < MAX_BONDS ==> #[trigger] r.partners@[i] is None,
    {
        Bonds::new()
    }
}

impl Bonds {
    /// The partners in slot order.
    pub open spec fn partner_list(self) -> Seq<u64> {
        slot_items(self.partners@[0]) + slot_items(self.partners@[1]) + slot_items(
            self.partners@[2],
        ) + slot_items(self.partners@[3])
    }

    /// The partners as a set.
    pub open spec fn partner_set(self) -> Set<u64> {
        self.partner_list().to_set()
    }

    /// Number of occupied slots.
    pub open spec fn used_slots(self) -> int {
        (slot_items(self.partners@[0]).len() + slot_items(self.partners@[1]).len() + slot_items(
            self.partners@[2],
        ).len() + slot_items(self.partners@[3]).len()) as int
    }

    /// The cached count matches the occupied slots and no partner occupies
    /// two slots.
    pub open spec fn wf(self) -> bool {
        &&& self.count as int == self.used_slots()
        &&& forall|i: int, j: int|
            0 <= i < MAX_BONDS && 0 <= j < MAX_BONDS && i != j && (#[trigger] self.partners@[i]) is Some
                ==> self.partners@[i] != #[trigger] self.partners@[j]
    }

    /// Index of the first empty slot, `MAX_BONDS` when all are taken.
    pub open spec fn first_free(self) -> int {
        if self.partners@[0] is None {
            0
        } else if self.partners@[1] is None {
            1
        } else if self.partners@[2] is None {
            2
        } else if self.partners@[3] is None {
            3
        } else {
            4
        }
    }

    /// Index of the slot holding `e`, `MAX_BONDS` when none does.
    pub open spec fn slot_of(self, e: u64) -> int {
        if self.partners@[0] == Some(e) {
            0
        } else if self.partners@[1] == Some(e) {
            1
        } else if self.partners@[2] == Some(e) {
            2
        } else if self.partners@[3] == Some(e) {
            3
        } else {
            4
        }
    }

    /// Create a new empty bonds record.
    pub fn new() -> (r: Self)
        ensures
            r.wf(),
            r.count == 0,
            r.partner_list() == Seq::<u64>::empty(),
            forall|i: int| 0 <= i < MAX_BONDS ==> #[trigger] r.partners@[i] is None,
    {
        let r = Bonds { partners: [None, None, None, None], count: 0 };
        assert(r.partner_list() =~= Seq::<u64>::empty());
        r
    }

    /// Returns `true` when no more bond slots are available.
    pub fn is_full(&self) -> (r: bool)
        ensures
            r == (self.count >= MAX_BONDS),
    {
        self.count as usize >= MAX_BONDS
    }

    /// Returns `true` if `entity` is already bonded.
    pub fn has(&self, entity: u64) -> (r: bool)
        ensures
            r == self.partner_set().contains(entity),
            r == self.partner_list().contains(entity),
            r == (self.slot_of(entity) < MAX_BONDS),
    {
        proof {
            self.lemma_contains_iff_slot(entity);
        }
        let mut i: usize = 0;
        while i < MAX_BONDS
            invariant
                i <= MAX_BONDS,
                forall|j: int| 0 <= j < i ==> self.partners@[j] != Some(entity),
            decreases MAX_BONDS - i,
        {
            if let Some(p) = self.partners[i] {
                if p == entity {
                    assert(self.partners@[i as int] == Some(entity));
                    assert(self.slot_of(entity) <= i) by {
                        if i == 0 {
                        } else if i == 1 {
                        } else if i == 2 {
                        } else {
                        }
                    }
                    proof {
                        self.lemma_contains_iff_slot(entity);
                    }
                    return true;
                }
            }
            i = i + 1;
        }
        false
    }

    /// Try to add a bond. Returns `true` on success, `false` if full or duplicate.
    pub fn add(&mut self, entity: u64) -> (r: bool)
        requires
            old(self).wf(),
        ensures
            final(self).wf(),
            r == (!old(self).partner_set().contains(entity) && old(self).count < MAX_BONDS),
            r ==> final(self).partners@ == old(self).partners@.update(
                old(self).first_free(),
                Some(entity),
            ),
            r ==> final(self).count == old(self).count + 1,
            r ==> final(self).partner_set() == old(self).partner_set().insert(entity),
            !r ==> *final(self) == *old(self),
    {
        if self.has(entity) || self.is_full() {
            return false;
        }
        proof {
            self.lemma_contains_iff_slot(entity);
        }
        let ghost pre = *self;
        let mut i: usize = 0;
        while i < MAX_BONDS
            invariant
                *self == pre,
                pre == *old(self),
                pre.wf(),
                pre.count < MAX_BONDS,
                pre.slot_of(entity) == MAX_BONDS,
                i <= pre.first_free(),
            decreases MAX_BONDS - i,
        {
            if self.partners[i].is_none() {
                proof {
                    assert(pre.first_free() == i) by {
                        if i == 0 {
                        } else if i == 1 {
                        } else if i == 2 {
                        } else {
                        }
                    }
                }
                self.partners[i] = Some(entity);
                self.count = self.count + 1;
                proof {
                    let post = *self;
                    assert(post.partners@ == pre.partners@.update(i as int, Some(entity)));
                    assert(post.used_slots() == pre.used_slots() + 1);
                    pre.lemma_contains_iff_slot(entity);
                    assert forall|x: u64| post.partner_set().contains(x) == pre.partner_set().insert(entity).contains(x) by {
                        post.lemma_contains_iff_slot(x);
                        pre.lemma_contains_iff_slot(x);
                    }
                    assert(post.partner_set() =~= pre.partner_set().insert(entity));
                }
                return true;
            }
            proof {
                assert(pre.first_free() != i) by {
                    if i == 0 {
                    } else if i == 1 {
                    } else if i == 2 {
                    } else {
                    }
                }
            }
            i = i + 1;
        }
        proof {
            assert(pre.used_slots() == 4);
        }
        false
    }

    /// Remove a bond partner. Returns `true` if the partner was found and removed.
    pub fn remove(&mut self, entity: u64) -> (r: bool)
        requires
            old(self).wf(),
        ensures
            final(self).wf(),
            r == old(self).partner_set().contains(entity),
            r ==> final(self).partners@ == old(self).partners@.update(
                old(self).slot_of(entity),
                None,
            ),
            r ==> final(self).count == old(self).count - 1,
            r ==> final(self).partner_set() == old(self).partner_set().remove(entity),
            !r ==> *final(self) == *old(self),
    {
        proof {
            self.lemma_contains_iff_slot(entity);
        }
        let ghost pre = *self;
        let mut i: usize = 0;
        while i < MAX_BONDS
            invariant
                *self == pre,
                pre == *old(self),
                pre.wf(),
                i <= pre.slot_of(entity),
            decreases MAX_BONDS - i,
        {
            let hit = match self.partners[i] {
                Some(p) => p == entity,
                None => false,
            };
            if hit {
                proof {
                    assert(pre.slot_of(entity) == i) by {
                        if i == 0 {
                        } else if i == 1 {
                        } else if i == 2 {
                        } else {
                        }
                    }
                }
                self.partners[i] = None;
                self.count = self.count - 1;
                proof {
                    let post = *self;
                    assert(post.partners@ == pre.partners@.update(i as int, None));
                    assert(post.used_slots() == pre.used_slots() - 1);
                    pre.lemma_contains_iff_slot(entity);
                    assert forall|x: u64| post.partner_set().contains(x) == pre.partner_set().remove(entity).contains(x) by {
                        post.lemma_contains_iff_slot(x);
                        pre.lemma_contains_iff_slot(x);
                        if x != entity && pre.slot_of(x) == i {
                            assert(pre.partners@[i as int] == Some(x));
                        }
                    }
                    assert(post.partner_set() =~= pre.partner_set().remove(entity));
                }
                return true;
            }
            proof {
                assert(pre.slot_of(entity) != i) by {
                    if i == 0 {
                    } else if i == 1 {
                    } else if i == 2 {
                    } else {
                    }
                }
            }
            i = i + 1;
        }
        false
    }

    /// All current bond partners, in slot order.
    pub fn iter(&self) -> (r: Vec<u64>)
        ensures
            r@ == self.partner_list(),
    {
        let mut out: Vec<u64> = Vec::new();
        let mut i: usize = 0;
        while i < MAX_BONDS
            invariant
                i <= MAX_BONDS,
                out@ == self.partners_before(i as int),
            decreases MAX_BONDS - i,
        {
            if let Some(p) = self.partners[i] {
                out.push(p);
            }
            proof {
                assert(self.partners_before(i + 1) =~= self.partners_before(i as int) + slot_items(
                    self.partners@[i as int],
                ));
            }
            i = i + 1;
        }
        proof {
            reveal_with_fuel(Bonds::partners_before, 5);
            assert(self.partners_before(4) =~= self.partner_list());
        }
        out
    }

    /// Partners held by the first `n` slots, in slot order.
    pub open spec fn partners_before(self, n: int) -> Seq<u64>
        decreases n,
    {
        if n <= 0 {
            Seq::empty()
        } else {
            self.partners_before(n - 1) + slot_items(self.partners@[n - 1])
        }
    }

    /// Number of active bonds.
    pub fn len(&self) -> (r: usize)
        ensures
            r == self.count,
    {
        self.count as usize
    }

    /// Returns `true` if there are no active bonds.
    pub fn is_empty(&self) -> (r: bool)
        ensures
            r == (self.count == 0),
    {
        self.count == 0
    }

    proof fn lemma_contains_iff_slot(self, e: u64)
        ensures
            self.partner_list().contains(e) <==> self.slot_of(e) < MAX_BONDS,
    {
        let l0 = slot_items(self.partners@[0]);
        let l1 = slot_items(self.partners@[1]);
        let l2 = slot_items(self.partners@[2]);
        let l3 = slot_items(self.partners@[3]);
        let l = self.partner_list();
        assert(l == l0 + l1 + l2 + l3);
        if self.slot_of(e) < MAX_BONDS {
            let k = self.slot_of(e);
            let pos = if k == 0 {
                0
            } else if k == 1 {
                l0.len() as int
            } else if k == 2 {
                (l0.len() + l1.len()) as int
            } else {
                (l0.len() + l1.len() + l2.len()) as int
            };
            assert(l[pos] == e);
        }
        if l.contains(e) {
            let j = choose|j: int| 0 <= j < l.len() && l[j] == e;
            if j < l0.len() {
                assert(l0[j] == e);
            } else if j < l0.len() + l1.len() {
                assert(l1[j - l0.len()] == e);
            } else if j < l0.len() + l1.len() + l2.len() {
                assert(l2[j - l0.len() - l1.len()] == e);
            } else {
                assert(l3[j - l0.len() - l1.len() - l2.len()] == e);
            }
        }
    }
}


/// A new bond goes into the lowest empty slot: every slot below
/// `first_free` is taken, and `first_free` is empty unless all slots are
/// taken.
pub proof fn lemma_first_free_is_lowest_empty(b: Bonds)
    ensures
        0 <= b.first_free() <= MAX_BONDS,
        b.first_free() < MAX_BONDS ==> b.partners@[b.first_free()] is None,
        forall|i: int| 0 <= i < b.first_free() ==> #[trigger] b.partners@[i] is Some,
{
}

/// `slot_of(e)` is the lowest slot holding `e`, and `MAX_BONDS` exactly when
/// no slot holds it.
pub proof fn lemma_slot_of_finds_partner(b: Bonds, e: u64)
    ensures
        0 <= b.slot_of(e) <= MAX_BONDS,
        b.slot_of(e) < MAX_BONDS ==> b.partners@[b.slot_of(e)] == Some(e),
        forall|i: int| 0 <= i < b.slot_of(e) ==> #[trigger] b.partners@[i] != Some(e),
        b.slot_of(e) == MAX_BONDS <==> forall|i: int| 0 <= i < MAX_BONDS ==> #[trigger] b.partners@[i] != Some(e),
{
    if forall|i: int| 0 <= i < MAX_BONDS ==> #[trigger] b.partners@[i] != Some(e) {
        assert(b.partners@[0] != Some(e));
        assert(b.partners@[1] != Some(e));
        assert(b.partners@[2] != Some(e));
        assert(b.partners@[3] != Some(e));
    }
}

/// The cached bond count is the number of distinct partners.
pub proof fn lemma_bond_count_is_partner_count(b: Bonds)
    requires
        b.wf(),
    ensures
        b.partner_list().len() == b.count,
        b.partner_list().no_duplicates(),
        b.partner_set().len() == b.count,
{
    let l = b.partner_list();
    assert forall|i: int, j: int| 0 <= i < l.len() && 0 <= j < l.len() && i != j implies l[i] != l[j] by {
        b.lemma_position_slot(i);
        b.lemma_position_slot(j);
        assert(b.partners@[b.position_slot(i)] is Some);
    }
    assert(l.no_duplicates());
    l.unique_seq_to_set();
}

impl Bonds {
    /// Every position of the partner list comes from a distinct occupied slot.
    proof fn lemma_position_slot(self, p: int)
        requires
            0 <= p < self.partner_list().len(),
        ensures
            0 <= self.position_slot(p) < MAX_BONDS,
            self.partners@[self.position_slot(p)] == Some(self.partner_list()[p]),
            p == self.slots_before(self.position_slot(p)),
    {
        let l0 = slot_items(self.partners@[0]);
        let l1 = slot_items(self.partners@[1]);
        let l2 = slot_items(self.partners@[2]);
        let l3 = slot_items(self.partners@[3]);
        let l = self.partner_list();
        assert(l == l0 + l1 + l2 + l3);
        let k = self.position_slot(p);
        if p < l0.len() {
            assert(self.partners@[0] == Some(l[p]));
        } else if p < l0.len() + l1.len() {
            assert(self.partners@[1] == Some(l[p]));
        } else if p < l0.len() + l1.len() + l2.len() {
            assert(self.partners@[2] == Some(l[p]));
        } else {
            assert(self.partners@[3] == Some(l[p]));
        }
    }

    /// Number of occupied slots among the first `k`.
    pub open spec fn slots_before(self, k: int) -> int {
        let n0 = slot_items(self.partners@[0]).len() as int;
        let n1 = slot_items(self.partners@[1]).len() as int;
        let n2 = slot_items(self.partners@[2]).len() as int;
        if k == 0 {
            0
        } else if k == 1 {
            n0
        } else if k == 2 {
            n0 + n1
        } else {
            n0 + n1 + n2
        }
    }

    /// The slot that position `p` of the partner list comes from.
    pub open spec fn position_slot(self, p: int) -> int {
        let n0 = slot_items(self.partners@[0]).len();
        let n1 = slot_items(self.partners@[1]).len();
        let n2 = slot_items(self.partners@[2]).len();
        if p < n0 {
            0
        } else if p < n0 + n1 {
            1
        } else if p < n0 + n1 + n2 {
            2
        } else {
            3
        }
    }
}


// ---------------------------------------------------------------------------
// Cell roles
// ---------------------------------------------------------------------------

/// Specialised role that a particle can assume when it is part of an organism.
#[derive(Debug, Clone, Copy, PartialEq, Eq, Hash, Default, Structural)]
pub enum CellRole {
    #[default]
    Unassigned,
    Sensor,
    Digester,
    MotorCell,
    Defense,
    Reproducer,
}

impl CellRole {
    /// Position of the role in declaration order.
    pub open spec fn ordinal(self) -> int {
        match self {
            CellRole::Unassigned => 0,
            CellRole::Sensor => 1,
            CellRole::Digester => 2,
            CellRole::MotorCell => 3,
            CellRole::Defense => 4,
            CellRole::Reproducer => 5,
        }
    }

    /// Numeric index (matches the declaration order).
    pub fn as_index(self) -> (r: usize)
        ensures
            r == self.ordinal(),
    {
        match self {
            CellRole::Unassigned => 0,
            CellRole::Sensor => 1,
            CellRole::Digester => 2,
            CellRole::MotorCell => 3,
            CellRole::Defense => 4,
            CellRole::Reproducer => 5,
        }
    }

    /// Construct from a numeric index; out-of-range indices give `Unassigned`.
    pub fn from_index(idx: usize) -> (r: Self)
        ensures
            r == role_at(idx as int),
            idx < 6 ==> r.ordinal() == idx,
    {
        match idx {
            0 => CellRole::Unassigned,
            1 => CellRole::Sensor,
            2 => CellRole::Digester,
            3 => CellRole::MotorCell,
            4 => CellRole::Defense,
            5 => CellRole::Reproducer,
            _ => CellRole::Unassigned,
        }
    }
}

/// The role with numeric index `i`; indices outside `0..6` give `Unassigned`.
pub open spec fn role_at(i: int) -> CellRole {
    if i == 1 {
        CellRole::Sensor
    } else if i == 2 {
        CellRole::Digester
    } else if i == 3 {
        CellRole::MotorCell
    } else if i == 4 {
        CellRole::Defense
    } else if i == 5 {
        CellRole::Reproducer
    } else {
        CellRole::Unassigned
    }
}

/// Wrapper for `CellRole` as a per-particle record.
#[derive(Debug, Clone, Copy, Default)]
pub struct CellRoleComp(pub CellRole);

// ---------------------------------------------------------------------------
// Organism & colony membership
// ---------------------------------------------------------------------------

/// Marks a particle as belonging to an organism.
/// `organism_id == -1` means "not part of any organism".
#[derive(Debug, Clone, Copy)]
pub struct OrganismMember {
    pub organism_id: i32,
}

impl Default for OrganismMember {
    fn default() -> (r: Self)
        ensures
            r.organism_id == -1,
    {
        OrganismMember { organism_id: -1 }
    }
}

impl OrganismMember {
    /// Returns `true` if this particle currently belongs to an organism.
    pub fn has_organism(&self) -> (r: bool)
        ensures
            r == (self.organism_id >= 0),
    {
        self.organism_id >= 0
    }

    /// Returns the organism ID as `Option<u32>`, mapping negative IDs to `None`.
    pub fn organism(&self) -> (r: Option<u32>)
        ensures
            r == (if self.organism_id >= 0 { Some(self.organism_id as u32) } else { None }),
            r matches Some(v) ==> v == self.organism_id,
    {
        if self.organism_id >= 0 {
            Some(self.organism_id as u32)
        } else {
            None
        }
    }
}

/// Colony membership. `-1` means "no colony".
#[derive(Debug, Clone, Copy)]
pub struct ColonyMember(pub i32);

impl Default for ColonyMember {
    fn default() -> (r: Self)
        ensures
            r.0 == -1,
    {
        ColonyMember(-1)
    }
}

impl ColonyMember {
    /// Returns `true` if this particle belongs to a colony.
    pub fn has_colony(&self) -> (r: bool)
        ensures
            r == (self.0 >= 0),
    {
        self.0 >= 0
    }

    /// Returns the colony ID as `Option<u32>`, mapping negative IDs to `None`.
    pub fn colony(&self) -> (r: Option<u32>)
        ensures
            r == (if self.0 >= 0 { Some(self.0 as u32) } else { None }),
            r matches Some(v) ==> v == self.0,
    {
        if self.0 >= 0 {
            Some(self.0 as u32)
        } else {
            None
        }
    }
}

/// A cell role survives the trip through its index.
pub proof fn lemma_cell_role_index_roundtrip(r: CellRole)
    ensures
        0 <= r.ordinal() < 6,
        role_at(r.ordinal()) == r,
{
}

} // verus!
