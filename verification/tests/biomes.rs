use ferrum::worldgen::biomes::{all_biomes, biome_name, by_name, display_name, index, Biome, BIOME_COUNT};

#[test]
fn biome_lookup_by_name() {
    assert_eq!(by_name("desert"), Some(Biome::Desert));
    assert_eq!(by_name("Desert"), Some(Biome::Desert));
    assert_eq!(by_name("snowy plains"), Some(Biome::SnowyPlains));
    assert_eq!(by_name("snowy_plains"), Some(Biome::SnowyPlains));
    assert_eq!(by_name("mushroom_island"), Some(Biome::MushroomIsland));
    assert_eq!(by_name("savanna"), Some(Biome::Savanna));
    assert_eq!(by_name("nope"), None);
}

#[test]
fn biome_ids_unique_and_valid() {
    let mut seen = std::collections::HashSet::new();
    for &b in &all_biomes() {
        assert!(seen.insert(b.id()), "id dupliqué pour {b:?}");
    }
    assert_eq!(Biome::Savanna.id(), 35);
    assert_eq!(Biome::MushroomIsland.id(), 14);
    assert_eq!(display_name(Biome::SnowyPlains), "Snowy Plains");
}

#[test]
fn every_biome_is_found_by_its_names() {
    for b in all_biomes() {
        assert_eq!(by_name(biome_name(b)), Some(b));
        assert_eq!(by_name(&display_name(b)), Some(b));
        assert_eq!(by_name(&biome_name(b).to_uppercase()), Some(b));
    }
}

#[test]
fn table_order_round_trips() {
    let all = all_biomes();
    assert_eq!(all.len(), BIOME_COUNT);
    for (i, b) in all.iter().enumerate() {
        assert_eq!(index(*b), i);
    }
    assert_eq!(all[0], Biome::DeepOcean);
    assert_eq!(all[14], Biome::Savanna);
}

#[test]
fn display_names_capitalise_each_word() {
    assert_eq!(display_name(Biome::DeepOcean), "Deep Ocean");
    assert_eq!(display_name(Biome::MushroomIsland), "Mushroom Island");
    assert_eq!(display_name(Biome::Plains), "Plains");
    assert_eq!(biome_name(Biome::SnowyTaiga), "snowy_taiga");
}

#[test]
fn lookup_rejects_near_misses() {
    assert_eq!(by_name(""), None);
    assert_eq!(by_name("deser"), None);
    assert_eq!(by_name("deserts"), None);
    assert_eq!(by_name("snowy-plains"), None);
}
