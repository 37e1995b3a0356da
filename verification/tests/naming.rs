use packet_codec::naming::{to_pascal_case, to_snake_case};

#[test]
fn snake_case_of_field_names() {
    assert_eq!(to_snake_case("entityId"), "entity_id");
    assert_eq!(to_snake_case("EntityId"), "entity_id");
    assert_eq!(to_snake_case("entityUUID"), "entity_uuid");
    assert_eq!(to_snake_case("velocityX"), "velocity_x");
    assert_eq!(to_snake_case("ABC"), "abc");
    assert_eq!(to_snake_case("aBcD"), "a_bc_d");
    assert_eq!(to_snake_case("already_snake"), "already_snake");
    assert_eq!(to_snake_case("with_Upper"), "with__upper");
    assert_eq!(to_snake_case("x1Y"), "x1_y");
    assert_eq!(to_snake_case(""), "");
}

#[test]
fn snake_case_beyond_ascii() {
    assert_eq!(to_snake_case("größeÄndern"), "größe_ändern");
    assert_eq!(to_snake_case("xİ"), "x_i\u{307}");
    assert_eq!(to_snake_case("日本語"), "日本語");
}

#[test]
fn pascal_case_of_kind_names() {
    assert_eq!(to_pascal_case("entity_id"), "entityId");
    assert_eq!(to_pascal_case("_entity_id"), "EntityId");
    assert_eq!(to_pascal_case("spawn_experience_orb"), "spawnExperienceOrb");
    assert_eq!(to_pascal_case("a__b"), "aB");
    assert_eq!(to_pascal_case("trailing_"), "trailing");
    assert_eq!(to_pascal_case("___"), "");
    assert_eq!(to_pascal_case("NoUnderscore"), "NoUnderscore");
    assert_eq!(to_pascal_case("x_1"), "x1");
    assert_eq!(to_pascal_case(""), "");
}

#[test]
fn pascal_case_beyond_ascii() {
    assert_eq!(to_pascal_case("stra_ße"), "straSSe");
    assert_eq!(to_pascal_case("_ärger"), "Ärger");
}
