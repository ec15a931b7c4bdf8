use genesis_sim::components::{
    Bonds, CellRole, ColonyMember, OrganismMember, ParticleType, MAX_BONDS, NUM_TYPES,
};

#[test]
fn particle_type_index_roundtrip() {
    for i in 0..NUM_TYPES {
        assert_eq!(ParticleType::from_index(i).as_index(), i);
        assert_eq!(ParticleType::try_from_index(i), Some(ParticleType::from_index(i)));
    }
    assert_eq!(ParticleType::try_from_index(6), None);
    assert_eq!(ParticleType::try_from_index(usize::MAX), None);
    assert_eq!(ParticleType::Membrane.as_index(), 4);
    assert_eq!(ParticleType::from_index(2), ParticleType::Catalyst);
}

#[test]
fn particle_type_names_and_all() {
    let names: Vec<&str> = ParticleType::all().iter().map(|t| t.name()).collect();
    assert_eq!(names, vec!["Alpha", "Beta", "Catalyst", "Data", "Membrane", "Motor"]);
    assert_eq!(ParticleType::all().len(), NUM_TYPES);
}

#[test]
fn cell_role_indices() {
    assert_eq!(CellRole::from_index(3), CellRole::MotorCell);
    assert_eq!(CellRole::from_index(42), CellRole::Unassigned);
    assert_eq!(CellRole::Reproducer.as_index(), 5);
    assert_eq!(CellRole::default(), CellRole::Unassigned);
    for i in 0..6 {
        assert_eq!(CellRole::from_index(i).as_index(), i);
    }
}

#[test]
fn membership_records() {
    let none = OrganismMember::default();
    assert!(!none.has_organism());
    assert_eq!(none.organism(), None);
    let some = OrganismMember { organism_id: 7 };
    assert!(some.has_organism());
    assert_eq!(some.organism(), Some(7));
    let no_colony = ColonyMember::default();
    assert!(!no_colony.has_colony());
    assert_eq!(no_colony.colony(), None);
    assert_eq!(ColonyMember(3).colony(), Some(3));
    assert!(ColonyMember(0).has_colony());
}

#[test]
fn bonds_slots() {
    let mut b = Bonds::new();
    assert!(b.is_empty());
    assert!(!b.is_full());
    assert!(b.add(10));
    assert!(!b.add(10));
    assert!(b.has(10));
    assert!(b.add(20));
    assert!(b.add(30));
    assert!(b.add(40));
    assert!(b.is_full());
    assert_eq!(b.len(), MAX_BONDS);
    assert!(!b.add(50));
    assert!(!b.has(50));
    assert!(b.remove(20));
    assert!(!b.remove(20));
    assert!(!b.has(20));
    assert_eq!(b.len(), 3);
    assert_eq!(b.partners[1], None);
    // The freed slot is reused first.
    assert!(b.add(60));
    assert_eq!(b.partners[1], Some(60));
    assert_eq!(b.iter(), vec![10, 60, 30, 40]);
}
