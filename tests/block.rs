use ritematica::{BlockState, BlockStateBuilder, BlockStatePattern, ResourceLocation};
use std::collections::HashMap;

fn loc(s: &str) -> ResourceLocation {
    ResourceLocation::parse(s).unwrap()
}

fn props_of(state: &BlockState) -> HashMap<String, String> {
    state.get_properties().iter().cloned().collect()
}

fn map_of(pairs: &[(&str, &str)]) -> HashMap<String, String> {
    pairs.iter().map(|(k, v)| (k.to_string(), v.to_string())).collect()
}

#[test]
fn builder() {
    let blockstate = BlockStateBuilder::new(loc("piston"))
        .properties(&[("facing", "down")])
        .build();

    assert_eq!(
        blockstate.get_name(),
        &ResourceLocation::new("minecraft", "piston").unwrap()
    );

    assert_eq!(props_of(&blockstate), map_of(&[("facing", "down")]));
}

#[test]
fn blockstate() {
    let blockstate = BlockStateBuilder::new(ResourceLocation::new("minecraft", "piston").unwrap())
        .properties(&[("facing", "down"), ("extended", "true")])
        .build();

    // testing get_name()
    let get_name = blockstate.get_name();

    assert_eq!(
        get_name,
        &ResourceLocation::new("minecraft", "piston").unwrap()
    );

    // testing get_properties()
    assert_eq!(
        props_of(&blockstate),
        map_of(&[("facing", "down"), ("extended", "true")])
    );

    // testing set_name()
    let mut blockstate = blockstate.clone();
    blockstate.set_name(loc("sticky_piston"));

    assert_eq!(
        blockstate.get_name(),
        &ResourceLocation::new("minecraft", "sticky_piston").unwrap()
    );

    // testing set_properties()
    blockstate.set_properties(&[("facing", "up")]);

    assert_eq!(props_of(&blockstate), map_of(&[("facing", "up")]));
}

#[test]
fn blockstate_add_properties() {
    let mut blockstate = BlockStateBuilder::new(loc("piston"))
        .properties(&[("facing", "down")])
        .build();

    blockstate.add_properties(&[("extended", "true")]);

    assert_eq!(
        props_of(&blockstate),
        map_of(&[("facing", "down"), ("extended", "true")])
    );
}

#[test]
fn blockstate_clear_properties() {
    let mut blockstate = BlockStateBuilder::new(loc("piston"))
        .properties(&[("facing", "down"), ("extended", "true")])
        .build();

    blockstate.clear_properties();

    assert_eq!(props_of(&blockstate), HashMap::<String, String>::new());
}

#[test]
fn blockstate_remove_property() {
    let mut blockstate = BlockStateBuilder::new(loc("piston"))
        .properties(&[("facing", "down"), ("extended", "true")])
        .build();

    blockstate.remove_property("extended");

    assert_eq!(props_of(&blockstate), map_of(&[("facing", "down")]));
}

#[test]
fn blockstate_pattern_matches() {
    let pattern = BlockStateBuilder::new(loc("piston"))
        .properties(&[("facing", "down")])
        .build();

    let block_state = BlockStateBuilder::new(loc("piston"))
        .properties(&[("facing", "down")])
        .build();

    assert!(pattern.matches(&block_state));
}

#[test]
fn blockstate_pattern_does_not_match() {
    let pattern = BlockStateBuilder::new(loc("piston"))
        .properties(&[("facing", "down")])
        .build();

    let block_state = BlockStateBuilder::new(loc("piston"))
        .properties(&[("facing", "up")])
        .build();

    assert!(!pattern.matches(&block_state));
}

#[test]
fn blockstate_pattern_fn_matches() {
    let pattern_fn: Box<dyn BlockStatePattern> = Box::new(|block_state: &BlockState| {
        block_state.get_name().to_string() == "minecraft:piston"
            && block_state.get_property("facing") == Some(&"down".to_string())
    });

    let block_state = BlockStateBuilder::new(loc("piston"))
        .properties(&[("facing", "down")])
        .build();

    assert!(pattern_fn.matches(&block_state));
}

#[test]
fn later_pair_wins_and_names_stay_unique() {
    let state = BlockStateBuilder::new(loc("lever"))
        .properties(&[("face", "wall"), ("face", "floor"), ("powered", "false")])
        .build();
    assert_eq!(state.get_properties().len(), 2);
    assert_eq!(state.get_property("face"), Some(&"floor".to_string()));
    let mut state = state;
    state.add_properties(&[("powered", "true")]);
    assert_eq!(state.get_properties().len(), 2);
    assert_eq!(state.get_property("powered"), Some(&"true".to_string()));
    assert_eq!(state.get_property("missing"), None);
}

#[test]
fn equality_ignores_property_order() {
    let a = BlockStateBuilder::new(loc("piston"))
        .properties(&[("facing", "down"), ("extended", "true")])
        .build();
    let b = BlockStateBuilder::new(loc("piston"))
        .properties(&[("extended", "true"), ("facing", "down")])
        .build();
    let c = BlockStateBuilder::new(loc("sticky_piston"))
        .properties(&[("extended", "true"), ("facing", "down")])
        .build();
    let d = BlockStateBuilder::new(loc("piston"))
        .properties(&[("extended", "true")])
        .build();
    assert!(a.same_state(&b));
    assert!(!a.same_state(&c));
    assert!(!a.same_state(&d));
    assert!(!d.same_state(&a));
}

#[test]
fn removing_a_missing_property_changes_nothing() {
    let mut state = BlockStateBuilder::new(loc("piston"))
        .properties(&[("facing", "down")])
        .build();
    state.remove_property("extended");
    assert_eq!(props_of(&state), map_of(&[("facing", "down")]));
}
