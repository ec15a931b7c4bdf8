use genesis_sim::components::{CellRole, ParticleType};
use genesis_sim::particle_store::{ParticleStore, SimRng, SpawnScalars};

/// Draw the initial velocity jitter and phase the way the simulation does.
fn draw_init(rng: &mut SimRng) -> SpawnScalars<f32> {
    let mut unit = || (rng.next_u32() as f64 / 4_294_967_296.0) as f32;
    let vx = (unit() - 0.5) * 0.2;
    let vy = (unit() - 0.5) * 0.2;
    let vz = (unit() - 0.5) * 0.2;
    let phase = unit() * std::f32::consts::TAU;
    SpawnScalars { vx, vy, vz, phase, zero: 0.0, one: 1.0 }
}

fn spawn(
    store: &mut ParticleStore<f32>,
    rng: &mut SimRng,
    ptype: ParticleType,
    x: f32,
    y: f32,
    z: f32,
    energy: f32,
) -> usize {
    let init = draw_init(rng);
    store.spawn(ptype, x, y, z, energy, init)
}

#[test]
fn spawn_and_lookup() {
    let mut store = ParticleStore::default();
    let mut rng = SimRng::new(1);
    let idx = spawn(&mut store, &mut rng, ParticleType::Alpha, 1.0, 2.0, 3.0, 10.0);
    assert_eq!(idx, 0);
    assert_eq!(store.len(), 1);
    assert_eq!(store.alive_count, 1);
    assert_eq!(store.ptype[0], ParticleType::Alpha);
    assert_eq!(store.idx(0), Some(0));
}

#[test]
fn killed_particle_is_not_found() {
    let mut store = ParticleStore::default();
    let mut rng = SimRng::new(1);
    let a = spawn(&mut store, &mut rng, ParticleType::Alpha, 0.0, 0.0, 0.0, 1.0);
    let b = spawn(&mut store, &mut rng, ParticleType::Beta, 1.0, 0.0, 0.0, 1.0);
    store.alive[a] = false;
    // Neither rebuild_index nor cleanup has run since the kill.
    assert_eq!(store.idx(store.id[a]), None);
    assert_eq!(store.idx(store.id[b]), Some(b));
    assert_eq!(store.idx(99), None);
}

#[test]
fn cleanup_compacts() {
    let mut store = ParticleStore::default();
    let mut rng = SimRng::new(1);
    spawn(&mut store, &mut rng, ParticleType::Alpha, 0.0, 0.0, 0.0, 1.0);
    spawn(&mut store, &mut rng, ParticleType::Beta, 1.0, 0.0, 0.0, 1.0);
    spawn(&mut store, &mut rng, ParticleType::Catalyst, 2.0, 0.0, 0.0, 1.0);

    // Kill the middle particle
    store.alive[1] = false;
    store.cleanup();

    assert_eq!(store.len(), 2);
    assert_eq!(store.alive_count, 2);
    assert_eq!(store.ptype[0], ParticleType::Alpha);
    assert_eq!(store.ptype[1], ParticleType::Catalyst);
}

#[test]
fn bond_formation_and_breaking() {
    let mut store = ParticleStore::default();
    let mut rng = SimRng::new(1);
    let a = spawn(&mut store, &mut rng, ParticleType::Alpha, 0.0, 0.0, 0.0, 1.0);
    let b = spawn(&mut store, &mut rng, ParticleType::Beta, 1.0, 0.0, 0.0, 1.0);

    assert!(store.form_bond(a, b));
    assert_eq!(store.bond_count(a), 1);
    assert_eq!(store.bond_count(b), 1);

    // Can't double-bond
    assert!(!store.form_bond(a, b));

    assert!(store.break_bond(a, b));
    assert_eq!(store.bond_count(a), 0);
    assert_eq!(store.bond_count(b), 0);
}

#[test]
fn spawn_fills_neutral_defaults() {
    let mut store: ParticleStore<f32> = ParticleStore::default();
    let init = SpawnScalars { vx: 0.1, vy: -0.1, vz: 0.05, phase: 2.0, zero: 0.0, one: 1.0 };
    let idx = store.spawn(ParticleType::Data, 4.0, 5.0, 6.0, 7.5, init);
    assert_eq!(idx, 0);
    assert_eq!(store.id[0], 0);
    assert_eq!(store.next_id, 1);
    assert!(store.alive[0]);
    assert!(!store.is_deposit[0]);
    assert_eq!(store.x[0], 4.0);
    assert_eq!(store.y[0], 5.0);
    assert_eq!(store.z[0], 6.0);
    assert_eq!(store.vx[0], 0.1);
    assert_eq!(store.vy[0], -0.1);
    assert_eq!(store.vz[0], 0.05);
    assert_eq!(store.energy[0], 7.5);
    assert_eq!(store.phase[0], 2.0);
    assert_eq!(store.signal[0], 0.0);
    assert_eq!(store.epi_weight[0], 1.0);
    assert_eq!(store.age[0], 0);
    assert!(store.bonds[0].is_empty());
    assert_eq!(store.organism_id[0], -1);
    assert_eq!(store.held_tool[0], -1);
    assert_eq!(store.cell_role[0], CellRole::Unassigned);
    assert_eq!(store.symbol_code[0], 0);
    assert_eq!(store.cultural_meme[0], 0);
    assert_eq!(store.signature[0], 0);
}

#[test]
fn ids_survive_compaction_and_lookup_follows() {
    let mut store = ParticleStore::default();
    let mut rng = SimRng::new(7);
    for i in 0..5 {
        spawn(&mut store, &mut rng, ParticleType::from_index(i % 6), i as f32, 0.0, 0.0, 1.0);
    }
    store.alive[0] = false;
    store.alive[3] = false;
    store.cleanup();
    assert_eq!(store.id, vec![1, 2, 4]);
    assert_eq!(store.x, vec![1.0, 2.0, 4.0]);
    assert!(store.alive.iter().all(|a| *a));
    assert_eq!(store.idx(0), None);
    assert_eq!(store.idx(3), None);
    assert_eq!(store.idx(4), Some(2));
    assert_eq!(store.idx(2), Some(1));
    // New particles keep getting fresh ids.
    let idx = spawn(&mut store, &mut rng, ParticleType::Motor, 9.0, 0.0, 0.0, 1.0);
    assert_eq!(idx, 3);
    assert_eq!(store.id[3], 5);
    assert_eq!(store.idx(5), Some(3));
}

#[test]
fn rebuild_index_counts_live_non_deposits() {
    let mut store = ParticleStore::default();
    let mut rng = SimRng::new(3);
    for _ in 0..4 {
        spawn(&mut store, &mut rng, ParticleType::Alpha, 0.0, 0.0, 0.0, 1.0);
    }
    store.is_deposit[1] = true;
    store.alive[2] = false;
    store.rebuild_index();
    assert_eq!(store.alive_count, 2);
    assert_eq!(store.deposit_count(), 1);
    assert_eq!(store.idx(2), None);
    assert_eq!(store.idx(1), Some(1));
    assert_eq!(store.len(), 4);
}

#[test]
fn bonds_respect_capacity() {
    let mut store = ParticleStore::default();
    let mut rng = SimRng::new(5);
    for _ in 0..6 {
        spawn(&mut store, &mut rng, ParticleType::Beta, 0.0, 0.0, 0.0, 1.0);
    }
    for other in 1..5 {
        assert!(store.form_bond(0, other));
    }
    assert_eq!(store.bond_count(0), 4);
    assert!(!store.can_bond(0));
    assert!(store.can_bond(5));
    // Particle 0 is full, so a fifth bond is refused on either side.
    assert!(!store.form_bond(0, 5));
    assert!(!store.form_bond(5, 0));
    assert_eq!(store.bond_count(5), 0);
    // Breaking a bond that does not exist reports false.
    assert!(!store.break_bond(1, 2));
    assert!(store.break_bond(3, 0));
    assert!(store.can_bond(0));
    assert!(!store.bonds[3].contains(&0));
    assert!(!store.bonds[0].contains(&3));
}

#[test]
fn partner_queries() {
    let mut store = ParticleStore::default();
    let mut rng = SimRng::new(11);
    let a = spawn(&mut store, &mut rng, ParticleType::Alpha, 0.0, 0.0, 0.0, 1.0);
    let c1 = spawn(&mut store, &mut rng, ParticleType::Catalyst, 0.0, 0.0, 0.0, 1.0);
    let c2 = spawn(&mut store, &mut rng, ParticleType::Catalyst, 0.0, 0.0, 0.0, 1.0);
    let m = spawn(&mut store, &mut rng, ParticleType::Membrane, 0.0, 0.0, 0.0, 1.0);
    assert!(!store.has_catalyst(a));
    assert!(!store.has_any_bonds());
    assert!(store.form_bond(a, c1));
    assert!(store.form_bond(a, c2));
    assert!(store.form_bond(a, m));
    assert!(store.has_any_bonds());
    assert!(store.has_catalyst(a));
    assert!(!store.has_catalyst(m));
    assert_eq!(store.count_bonded_type(a, ParticleType::Catalyst), 2);
    assert_eq!(store.count_bonded_type(a, ParticleType::Membrane), 1);
    assert_eq!(store.count_bonded_type(a, ParticleType::Motor), 0);
    let mut partners = store.bond_partners(a);
    partners.sort();
    assert_eq!(partners, vec![c1, c2, m]);
    // A dead catalyst no longer counts once the index is rebuilt.
    store.alive[c1] = false;
    assert_eq!(store.count_bonded_type(a, ParticleType::Catalyst), 1);
    store.alive[c2] = false;
    assert!(!store.has_catalyst(a));
    store.cleanup();
    assert_eq!(store.len(), 2);
    let partners = store.bond_partners(0);
    assert_eq!(partners, vec![1]);
}

#[test]
fn organism_id_and_reserve() {
    let mut store = ParticleStore::default();
    let mut rng = SimRng::new(2);
    spawn(&mut store, &mut rng, ParticleType::Alpha, 0.0, 0.0, 0.0, 1.0);
    assert_eq!(store.organism_id_opt(0), None);
    store.organism_id[0] = 12;
    assert_eq!(store.organism_id_opt(0), Some(12));
    store.reserve(100);
    assert_eq!(store.len(), 1);
    assert!(store.x.capacity() >= 101);
    assert!(!store.is_empty());
    let empty: ParticleStore<f32> = ParticleStore::default();
    assert!(empty.is_empty());
}

#[test]
fn alive_indices_in_order() {
    let mut store = ParticleStore::default();
    let mut rng = SimRng::new(4);
    for _ in 0..5 {
        spawn(&mut store, &mut rng, ParticleType::Data, 0.0, 0.0, 0.0, 1.0);
    }
    store.alive[1] = false;
    store.alive[4] = false;
    assert_eq!(store.alive_indices(), vec![0, 2, 3]);
}

#[test]
fn bond_pairs_lists_each_bond_once() {
    let mut store = ParticleStore::default();
    let mut rng = SimRng::new(8);
    for _ in 0..5 {
        spawn(&mut store, &mut rng, ParticleType::Alpha, 0.0, 0.0, 0.0, 1.0);
    }
    assert!(store.form_bond(0, 1));
    assert!(store.form_bond(2, 1));
    assert!(store.form_bond(3, 4));
    assert!(store.form_bond(0, 4));
    let mut pairs = store.bond_pairs();
    pairs.sort();
    assert_eq!(pairs, vec![(0, 1), (0, 4), (1, 2), (3, 4)]);
    // Bonds to dead particles are not drawn.
    store.alive[4] = false;
    let mut pairs = store.bond_pairs();
    pairs.sort();
    assert_eq!(pairs, vec![(0, 1), (1, 2)]);
}
