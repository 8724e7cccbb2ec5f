//! Models and their parents, textures and their references.

use mc_renderer::json::{get_text, get_unsigned, JsonScalar, JsonValue};
use mc_renderer::model::{
    has_finite_ancestry, has_finite_reference, normalize, resolve_model, resolve_texture,
    DisplayTransform, MinecraftModel, ModelElement, ModelFace,
};
use mc_renderer::name_map::NameMap;
use mc_renderer::single::Single;
use mc_renderer::text::{join, remove_all, starts_with};

fn single(x: f32) -> Single {
    Single { bits: x.to_bits() }
}

fn text(t: &str) -> JsonValue {
    JsonValue::Text(t.to_string())
}

fn textures(entries: &[(&str, &str)]) -> NameMap<JsonValue> {
    let mut map = NameMap::new();
    for (name, value) in entries {
        map.insert(name.to_string(), text(value));
    }
    map
}

fn element(height: f32) -> ModelElement {
    ModelElement {
        from: [single(0.0); 3],
        to: [single(16.0), single(height), single(16.0)],
        shade: None,
        faces: NameMap::new(),
    }
}

fn scaled(x: f32) -> DisplayTransform {
    DisplayTransform {
        rotation: None,
        translation: None,
        scale: Some([single(x); 3]),
    }
}

fn display(entries: &[(&str, f32)]) -> NameMap<DisplayTransform> {
    let mut map = NameMap::new();
    for (name, x) in entries {
        map.insert(name.to_string(), scaled(*x));
    }
    map
}

fn model(parent: Option<&str>) -> MinecraftModel {
    MinecraftModel {
        parent: parent.map(|p| p.to_string()),
        textures: None,
        elements: None,
        display: None,
    }
}

fn heights(m: &MinecraftModel) -> Option<Vec<Single>> {
    m.elements
        .as_ref()
        .map(|elements| elements.iter().map(|e| e.to[1]).collect())
}

fn texture_of<'a>(m: &'a MinecraftModel, name: &str) -> Option<&'a str> {
    match m.textures.as_ref()?.get(name)? {
        JsonValue::Text(t) => Some(t.as_str()),
        _ => None,
    }
}

fn scale_of(m: &MinecraftModel, name: &str) -> Option<Single> {
    Some(m.display.as_ref()?.get(name)?.scale?[0])
}

/// A grandparent with boxes, a parent with a texture, and a child that names it.
fn family() -> NameMap<MinecraftModel> {
    let mut models = NameMap::new();
    let mut block = model(None);
    block.display = Some(display(&[("gui", 0.625), ("ground", 0.25)]));
    models.insert("block".to_string(), block);
    let mut cube = model(Some("block/block"));
    cube.elements = Some(vec![element(16.0)]);
    models.insert("cube".to_string(), cube);
    let mut cube_all = model(Some("minecraft:block/cube"));
    cube_all.textures = Some(textures(&[("particle", "#all"), ("up", "#all")]));
    models.insert("cube_all".to_string(), cube_all);
    let mut stone = model(Some("minecraft:block/cube_all"));
    stone.textures = Some(textures(&[("all", "minecraft:block/stone"), ("up", "block/top")]));
    stone.display = Some(display(&[("gui", 0.5)]));
    models.insert("stone".to_string(), stone);
    models
}

#[test]
fn namespace_and_folder_are_dropped() {
    assert_eq!(normalize("minecraft:block/stone"), "stone");
    assert_eq!(normalize("block/stone"), "stone");
    assert_eq!(normalize("minecraft:stone"), "stone");
    assert_eq!(normalize("stone"), "stone");
    assert_eq!(normalize(""), "");
    assert_eq!(normalize("item/stone"), "item/stone");
    assert_eq!(normalize("block/block/a"), "a");
    assert_eq!(normalize("my_block/a"), "my_a");
    assert_eq!(normalize("blominecraft:ck/a"), "a");
    assert_eq!(normalize("blblock/ock/a"), "block/a");
}

#[test]
fn occurrences_are_removed_from_the_front() {
    for (t, p) in [
        ("aaaa", "aa"),
        ("aaa", "aa"),
        ("abab", "ab"),
        ("aabb", "ab"),
        ("xyz", ""),
        ("", "a"),
        ("späße", "ß"),
        ("short", "longer than it"),
    ] {
        let expected = if p.is_empty() { t.to_string() } else { t.replace(p, "") };
        assert_eq!(remove_all(t, p), expected);
    }
    assert_eq!(remove_all("aaa", "aa"), "a");
    assert_eq!(remove_all("aabb", "ab"), "ab");
}

#[test]
fn texts_are_joined_and_compared_at_the_front() {
    assert_eq!(join("out/", "stone"), "out/stone");
    assert!(starts_with("template_slab", "template"));
    assert!(!starts_with("stemplate", "template"));
    assert!(!starts_with("temp", "template"));
    assert!(starts_with("anything", ""));
}

#[test]
fn a_model_takes_from_its_parents_what_it_leaves_out() {
    let models = family();
    assert!(has_finite_ancestry("stone", &models));
    let stone = resolve_model("stone", &models);
    assert_eq!(stone.parent.as_deref(), Some("minecraft:block/cube_all"));
    assert_eq!(heights(&stone), Some(vec![single(16.0)]));
    assert_eq!(texture_of(&stone, "particle"), Some("#all"));
    assert_eq!(texture_of(&stone, "all"), Some("minecraft:block/stone"));
    assert_eq!(texture_of(&stone, "down"), None);
    assert_eq!(scale_of(&stone, "ground"), Some(single(0.25)));
    assert_eq!(scale_of(&stone, "head"), None);
}

#[test]
fn a_model_keeps_what_it_has() {
    let mut models = family();
    let mut flat = model(Some("cube_all"));
    flat.elements = Some(vec![element(1.0), element(2.0)]);
    models.insert("flat".to_string(), flat);
    let flat = resolve_model("flat", &models);
    assert_eq!(heights(&flat), Some(vec![single(1.0), single(2.0)]));
    let stone = resolve_model("stone", &models);
    assert_eq!(texture_of(&stone, "up"), Some("block/top"));
    assert_eq!(scale_of(&stone, "gui"), Some(single(0.5)));
}

#[test]
fn an_empty_list_of_boxes_is_kept() {
    let mut models = family();
    let mut none = model(Some("cube"));
    none.elements = Some(Vec::new());
    models.insert("none".to_string(), none);
    assert_eq!(heights(&resolve_model("none", &models)), Some(Vec::new()));
}

#[test]
fn a_model_is_found_by_any_of_its_names() {
    let models = family();
    for name in ["stone", "block/stone", "minecraft:stone", "minecraft:block/stone"] {
        let found = resolve_model(name, &models);
        assert_eq!(texture_of(&found, "all"), Some("minecraft:block/stone"));
    }
}

#[test]
fn a_missing_model_leaves_everything_out() {
    let models = family();
    assert!(has_finite_ancestry("nothing", &models));
    let nothing = resolve_model("nothing", &models);
    assert!(nothing.parent.is_none());
    assert!(nothing.textures.is_none());
    assert!(nothing.elements.is_none());
    assert!(nothing.display.is_none());
}

#[test]
fn a_missing_parent_gives_empty_maps() {
    let mut models = NameMap::new();
    models.insert("orphan".to_string(), model(Some("gone")));
    let orphan = resolve_model("orphan", &models);
    assert_eq!(orphan.parent.as_deref(), Some("gone"));
    assert!(orphan.elements.is_none());
    assert!(orphan.textures.unwrap().is_empty());
    assert!(orphan.display.unwrap().is_empty());
}

#[test]
fn a_model_without_parent_is_as_it_is_stored() {
    let block = resolve_model("block", &family());
    assert!(block.textures.is_none());
    assert_eq!(scale_of(&block, "gui"), Some(single(0.625)));
}

#[test]
fn circles_of_parents_are_found() {
    let mut models = family();
    models.insert("own".to_string(), model(Some("minecraft:block/own")));
    models.insert("a".to_string(), model(Some("b")));
    models.insert("b".to_string(), model(Some("c")));
    models.insert("c".to_string(), model(Some("block/b")));
    assert!(!has_finite_ancestry("own", &models));
    assert!(!has_finite_ancestry("a", &models));
    assert!(!has_finite_ancestry("minecraft:block/c", &models));
    assert!(has_finite_ancestry("stone", &models));
}

#[test]
fn references_are_followed_to_their_end() {
    let map = textures(&[
        ("all", "minecraft:block/stone"),
        ("side", "#all"),
        ("north", "#side"),
        ("lost", "#gone"),
    ]);
    for (t, expected) in [
        ("#north", "stone"),
        ("#all", "stone"),
        ("block/dirt", "dirt"),
        ("#gone", "#gone"),
        ("#lost", "#gone"),
        ("north", "north"),
        ("", ""),
        ("#", "#"),
    ] {
        assert!(has_finite_reference(t, &map));
        assert_eq!(resolve_texture(t.to_string(), &map), expected);
    }
}

#[test]
fn objects_refer_by_their_sprite() {
    let mut map = textures(&[("all", "block/sand")]);
    let mut members = NameMap::new();
    members.insert("sprite".to_string(), JsonScalar::Text("#all".to_string()));
    members.insert("tint".to_string(), JsonScalar::Unsigned(3));
    map.insert("object".to_string(), JsonValue::Object(members));
    let mut other = NameMap::new();
    other.insert("sprite".to_string(), JsonScalar::Unsigned(3));
    map.insert("number".to_string(), JsonValue::Object(other));
    map.insert("bare".to_string(), JsonValue::Object(NameMap::new()));
    map.insert("five".to_string(), JsonValue::Unsigned(5));
    map.insert("null".to_string(), JsonValue::Other);
    assert_eq!(resolve_texture("#object".to_string(), &map), "sand");
    for stuck in ["#number", "#bare", "#five", "#null"] {
        assert!(has_finite_reference(stuck, &map));
        assert_eq!(resolve_texture(stuck.to_string(), &map), stuck);
    }
}

#[test]
fn circles_of_references_are_found() {
    let map = textures(&[("a", "#b"), ("b", "#c"), ("c", "#b"), ("own", "#own"), ("d", "x")]);
    assert!(!has_finite_reference("#a", &map));
    assert!(!has_finite_reference("#own", &map));
    assert!(has_finite_reference("#d", &map));
    assert!(has_finite_reference("a", &map));
}

#[test]
fn members_are_read_by_their_kind() {
    let mut object = NameMap::new();
    object.insert("index".to_string(), JsonScalar::Unsigned(7));
    object.insert("name".to_string(), JsonScalar::Text("x".to_string()));
    object.insert("flag".to_string(), JsonScalar::Other);
    assert_eq!(get_unsigned(&object, "index"), Some(7));
    assert_eq!(get_unsigned(&object, "name"), None);
    assert_eq!(get_unsigned(&object, "flag"), None);
    assert_eq!(get_unsigned(&object, "none"), None);
    assert_eq!(get_text(&object, "name").map(|t| t.as_str()), Some("x"));
    assert_eq!(get_text(&object, "index"), None);
}

#[test]
fn a_map_keeps_one_value_for_each_name() {
    let mut map = NameMap::new();
    assert!(map.is_empty());
    map.insert("b".to_string(), JsonScalar::Unsigned(1));
    map.insert("a".to_string(), JsonScalar::Unsigned(2));
    map.insert("b".to_string(), JsonScalar::Unsigned(3));
    assert_eq!(map.len(), 2);
    assert!(!map.is_empty());
    assert!(map.contains_key("a") && map.contains_key("b") && !map.contains_key("c"));
    assert_eq!(get_unsigned(&map, "b"), Some(3));
    assert_eq!(map.name_at(0), "b");
    assert_eq!(map.name_at(1), "a");
    assert!(matches!(map.value_at(0), JsonScalar::Unsigned(3)));
    assert!(map.get("c").is_none());
}

#[test]
fn maps_are_overlaid() {
    let mut base = textures(&[("a", "1"), ("b", "2")]);
    base.extend(&textures(&[("b", "3"), ("c", "4")]));
    assert_eq!(base.len(), 3);
    let value = |name: &str| match base.get(name) {
        Some(JsonValue::Text(t)) => t.clone(),
        _ => String::new(),
    };
    assert_eq!((value("a"), value("b"), value("c")), ("1".into(), "3".into(), "4".into()));
}

#[test]
fn copies_are_like_what_they_are_copied_from() {
    let mut faces = NameMap::new();
    for name in ["up", "down", "north"] {
        faces.insert(
            name.to_string(),
            ModelFace {
                texture: format!("#{name}"),
                uv: Some([single(1.0), single(2.0), single(3.0), single(4.0)]),
                rotation: Some(90),
            },
        );
    }
    let mut whole = model(Some("cube"));
    whole.elements = Some(vec![ModelElement { faces, ..element(3.0) }]);
    let copy = whole.clone().elements.unwrap().remove(0).clone();
    assert_eq!(copy.to[1], single(3.0));
    assert_eq!(copy.faces.len(), 3);
    assert_eq!(copy.faces.name_at(2), "north");
    let face = copy.faces.get("down").unwrap();
    assert_eq!(face.texture, "#down");
    assert_eq!(face.rotation, Some(90));
    assert_eq!(face.uv.unwrap()[3], single(4.0));
}
