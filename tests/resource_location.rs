use ritematica::{ParseError, ResourceLocation};

#[test]
fn new_resource_location() {
    let resource_location = ResourceLocation::new("create", "mechanical_drill").unwrap();

    assert_eq!(resource_location.get_namespace(), "create");
    assert_eq!(resource_location.get_path(), "mechanical_drill");
}

#[test]
fn minecraft_resource_location() {
    let resource_location = ResourceLocation::minecraft("andesite").unwrap();

    assert_eq!(resource_location.get_namespace(), "minecraft");
    assert_eq!(resource_location.get_path(), "andesite");
}

#[test]
fn parse_resource_location() {
    let resource_location = ResourceLocation::parse("create:mechanical_drill").unwrap();

    assert_eq!(resource_location.get_namespace(), "create");
    assert_eq!(resource_location.get_path(), "mechanical_drill");
}

#[test]
fn parse_resource_location_default_namespace() {
    let resource_location = ResourceLocation::parse("andesite").unwrap();

    assert_eq!(resource_location.get_namespace(), "minecraft");
    assert_eq!(resource_location.get_path(), "andesite");
}

#[test]
fn parse_resource_location_invalid_namespace() {
    let result = ResourceLocation::parse("invalid!namespace:resource_path");

    assert!(result.is_err());
}

#[test]
fn parse_resource_location_invalid_path() {
    let result = ResourceLocation::parse("custom_namespace:invalid!path");

    assert!(result.is_err());
}

#[test]
fn resource_location_display() {
    let resource_location = ResourceLocation::new("create", "mechanical_drill").unwrap();
    let display = resource_location.to_string();

    assert_eq!(display, "create:mechanical_drill");
}

#[test]
fn resource_location_from_str() {
    let resource_location: ResourceLocation = "create:mechanical_bearing".parse().unwrap();

    assert_eq!(resource_location.get_namespace(), "create");
    assert_eq!(resource_location.get_path(), "mechanical_bearing");
}

#[test]
fn parse_examples() {
    let stone = ResourceLocation::parse("stone").unwrap();
    assert_eq!((stone.get_namespace(), stone.get_path()), ("minecraft", "stone"));
    let drill = ResourceLocation::parse("create:mechanical_drill").unwrap();
    assert_eq!((drill.get_namespace(), drill.get_path()), ("create", "mechanical_drill"));
    assert_eq!(ResourceLocation::parse("bad!:x"), Err(ParseError));
    assert_eq!(ResourceLocation::parse("ns:bad!"), Err(ParseError));
}

#[test]
fn parse_splits_at_first_colon() {
    assert_eq!(ResourceLocation::parse("a:b:c"), Err(ParseError));
    let loc = ResourceLocation::parse("a:b/c.d-e_f").unwrap();
    assert_eq!(loc.get_namespace(), "a");
    assert_eq!(loc.get_path(), "b/c.d-e_f");
}

#[test]
fn parse_rejects_empty_parts() {
    assert_eq!(ResourceLocation::parse(""), Err(ParseError));
    assert_eq!(ResourceLocation::parse(":stone"), Err(ParseError));
    assert_eq!(ResourceLocation::parse("minecraft:"), Err(ParseError));
    assert_eq!(ResourceLocation::new("", "stone"), Err(ParseError));
    assert_eq!(ResourceLocation::new("minecraft", ""), Err(ParseError));
}

#[test]
fn namespace_rejects_slash_path_accepts_it() {
    assert_eq!(ResourceLocation::new("a/b", "c"), Err(ParseError));
    assert!(ResourceLocation::new("a", "b/c").is_ok());
    assert_eq!(ResourceLocation::minecraft("Stone!"), Err(ParseError));
    assert_eq!(ResourceLocation::new("cr\u{e9}ate", "x"), Err(ParseError));
}

#[test]
fn canonical_form_round_trips() {
    let loc = ResourceLocation::new("my.mod-1", "blocks/oak_log").unwrap();
    let text = loc.to_string();
    assert_eq!(text, "my.mod-1:blocks/oak_log");
    assert_eq!(ResourceLocation::parse(&text).unwrap(), loc);
}

#[test]
fn ordering_is_by_namespace_then_path() {
    let a = ResourceLocation::new("a", "z").unwrap();
    let b = ResourceLocation::new("b", "a").unwrap();
    let c = ResourceLocation::new("b", "b").unwrap();
    assert!(a < b && b < c);
}

#[test]
fn parse_error_message() {
    assert_eq!(ParseError.to_string(), "Parse error");
}
