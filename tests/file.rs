use ritematica::file::check_extension;
use ritematica::packing::words_needed;
use ritematica::{
    BlockStateBuilder, Coordinates, LitematicaFile, Metadata, Region, ResourceLocation,
};

fn region(x: i32) -> Region {
    let air = BlockStateBuilder::new(ResourceLocation::minecraft("air").unwrap()).build();
    let size = Coordinates::from((x, 1, 1));
    Region::from_parts(Coordinates::from((0, 0, 0)), size, vec![air], vec![0; words_needed(x as u64, 2)])
        .unwrap()
}

fn file_with(names: &[&str]) -> LitematicaFile {
    let metadata = Metadata {
        author: "someone".to_string(),
        enclosing_size: Coordinates::from((1, 1, 1)),
        total_volume: 1,
        region_count: names.len() as i32,
        description: String::new(),
        name: "test".to_string(),
        time_modified: 0,
        total_blocks: 0,
        time_created: 0,
    };
    let mut file = LitematicaFile::new(metadata, 3465, 6);
    for (i, name) in names.iter().enumerate() {
        file.insert_region(name.to_string(), region(i as i32 + 1));
    }
    file
}

#[test]
fn get_regions() {
    let file = file_with(&["test"]);
    let regions = file.get_regions();

    assert_eq!(regions.len(), 1);
    assert!(regions.iter().any(|(name, _)| name == "test"));
}

#[test]
fn get_region_names() {
    let file = file_with(&["test"]);
    let region_names = file.get_region_names();

    assert_eq!(region_names.first().copied(), Some("test"));
}

#[test]
fn get_region() {
    let file = file_with(&["test"]);
    let region = file.get_region("test");

    assert!(region.is_some());
}

#[test]
fn rename_region() {
    let mut file = file_with(&["test"]);
    file.rename_region("test", "test2");

    assert!(file.get_region("test").is_none());
    assert!(file.get_region("test2").is_some());
}

#[test]
fn rename_missing_region_is_a_no_op() {
    let mut file = file_with(&["a", "b"]);
    file.rename_region("c", "a");
    assert_eq!(file.get_region_names(), vec!["a", "b"]);
    assert_eq!(file.get_region("a").unwrap().calc_volume(), 1);
}

#[test]
fn rename_onto_existing_name_overwrites() {
    let mut file = file_with(&["a", "b"]);
    file.rename_region("b", "a");
    assert_eq!(file.get_region_names(), vec!["a"]);
    assert_eq!(file.get_region("a").unwrap().calc_volume(), 2);
}

#[test]
fn insert_and_remove_regions() {
    let mut file = file_with(&["a"]);
    file.insert_region("a".to_string(), region(7));
    assert_eq!(file.get_region_names(), vec!["a"]);
    assert_eq!(file.get_region("a").unwrap().calc_volume(), 7);
    let taken = file.remove_region("a").unwrap();
    assert_eq!(taken.calc_volume(), 7);
    assert!(file.remove_region("a").is_none());
    assert!(file.get_region_names().is_empty());
}

#[test]
fn edit_region_in_place() {
    let mut file = file_with(&["a"]);
    let stone = BlockStateBuilder::new(ResourceLocation::minecraft("stone").unwrap()).build();
    file.get_region_mut("a")
        .unwrap()
        .set_block(Coordinates::from((0, 0, 0)), stone)
        .unwrap();
    let shown = file.get_region("a").unwrap().get_block(Coordinates::from((0, 0, 0))).unwrap();
    assert_eq!(shown.get_name().to_string(), "minecraft:stone");
    assert!(file.get_region_mut("missing").is_none());
}

#[test]
fn extension_check() {
    assert!(check_extension("out.litematic"));
    assert!(check_extension("dir/.litematic"));
    assert!(!check_extension("out.litematica"));
    assert!(!check_extension("out.nbt"));
    assert!(!check_extension("litematic"));
    assert!(!check_extension(""));
}
