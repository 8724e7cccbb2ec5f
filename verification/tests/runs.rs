//! Options, the folder of assets, and the order of the work.

use mc_renderer::animation::AnimatedTexture;
use mc_renderer::assets::{
    keep_texture, list_textures, next_step, plan_model, resolve_minecraft_base, should_render,
    AfterRead, BaseSource, ModelPlan, Probe, TextureList, TextureStep, MODEL_FILE, TEXTURE_FOLDER,
};
use mc_renderer::json::JsonValue;
use mc_renderer::model::{MinecraftModel, ModelElement, ModelFace};
use mc_renderer::name_map::NameMap;
use mc_renderer::options::{output_path, parse_args, parse_number, RenderOptions};
use mc_renderer::pixels::RgbaImage;
use mc_renderer::single::Single;

fn parse(args: &[&str]) -> RenderOptions {
    let mut all = vec!["mc_renderer".to_string()];
    all.extend(args.iter().map(|a| a.to_string()));
    parse_args(&all)
}

fn element(faces: &[(&str, &str)]) -> ModelElement {
    let mut map = NameMap::new();
    for (name, texture) in faces {
        map.insert(
            name.to_string(),
            ModelFace {
                texture: texture.to_string(),
                uv: None,
                rotation: None,
            },
        );
    }
    ModelElement {
        from: [Single { bits: 0 }; 3],
        to: [Single { bits: 16.0f32.to_bits() }; 3],
        shade: None,
        faces: map,
    }
}

fn textures(entries: &[(&str, &str)]) -> NameMap<JsonValue> {
    let mut map = NameMap::new();
    for (name, value) in entries {
        map.insert(name.to_string(), JsonValue::Text(value.to_string()));
    }
    map
}

fn texture(delays: &[u32]) -> AnimatedTexture {
    AnimatedTexture {
        frames: delays.iter().map(|_| RgbaImage::new(1, 1)).collect(),
        frame_delays_ms: delays.to_vec(),
    }
}

fn drawable(parent: Option<&str>) -> MinecraftModel {
    MinecraftModel {
        parent: parent.map(|p| p.to_string()),
        textures: Some(textures(&[("all", "stone")])),
        elements: Some(vec![element(&[])]),
        display: None,
    }
}

#[test]
fn options_have_defaults() {
    for options in [parse(&[]), parse_args(&vec![])] {
        assert_eq!(options.minecraft, None);
        assert_eq!(options.output, "./output/");
        assert_eq!(options.resolution, 128);
        assert!(!options.interpolate);
        assert!(options.antialias);
    }
}

#[test]
fn options_are_read() {
    let options = parse(&[
        "--minecraft",
        "C:/assets/minecraft",
        "--output",
        "./renders/",
        "--render-resolution",
        "256",
        "--interpolate",
        "--no-aa",
    ]);
    assert_eq!(options.minecraft.as_deref(), Some("C:/assets/minecraft"));
    assert_eq!(options.output, "./renders/");
    assert_eq!(options.resolution, 256);
    assert!(options.interpolate);
    assert!(!options.antialias);
    assert!(parse(&["-i"]).interpolate);
}

#[test]
fn the_output_is_a_folder() {
    for (given, folder) in [
        ("out", "out/"),
        ("out/", "out/"),
        ("out\\", "out\\"),
        ("a/b", "a/b/"),
        ("", "/"),
    ] {
        assert_eq!(parse(&["--output", given]).output, folder);
    }
}

#[test]
fn the_first_argument_is_the_program() {
    assert!(!parse_args(&vec!["-i".to_string()]).interpolate);
}

#[test]
fn the_last_of_several_counts() {
    let options = parse(&[
        "--render-resolution",
        "64",
        "--render-resolution",
        "many",
        "--output",
        "a",
        "--output",
        "b",
    ]);
    assert_eq!(options.resolution, 64);
    assert_eq!(options.output, "b/");
}

#[test]
fn what_is_not_known_is_passed_over() {
    let options = parse(&["x", "--unknown", "-i", "--no-aa=1", "--render-resolution"]);
    assert!(options.interpolate);
    assert!(options.antialias);
    assert_eq!(options.resolution, 128);
    assert_eq!(parse(&["--minecraft"]).minecraft, None);
    assert_eq!(parse(&["--output"]).output, "./output/");
}

#[test]
fn a_value_is_not_taken_for_an_option() {
    let options = parse(&["--minecraft", "--no-aa", "--output", "-i"]);
    assert_eq!(options.minecraft.as_deref(), Some("--no-aa"));
    assert_eq!(options.output, "-i/");
    assert!(options.antialias && !options.interpolate);
    assert!(parse(&["--render-resolution", "-i"]).interpolate == false);
}

#[test]
fn numbers_are_read_as_the_standard_library_reads_them() {
    let greatest = format!("{}", usize::MAX);
    let above = format!("{}0", usize::MAX);
    let next = "18446744073709551616";
    for text in [
        "0", "7", "128", "007", "+5", "+", "", "-1", "1.5", "1 ", " 1", "a", "9a", "++1", "+-1",
        "٣", greatest.as_str(), above.as_str(), next, "99999999999999999999x",
        "000000000000000000000000001",
    ] {
        assert_eq!(parse_number(text), text.parse::<usize>().ok(), "{text}");
    }
    assert_eq!(parse_number("+12"), Some(12));
}

#[test]
fn an_image_is_called_after_its_block() {
    assert_eq!(output_path("./output/", "stone"), "./output/stone.webp");
}

const THERE: Probe = Probe { folder: true, model_file: true };
const EMPTY: Probe = Probe { folder: true, model_file: false };
const GONE: Probe = Probe { folder: false, model_file: false };

#[test]
fn folders_are_tried_in_their_order() {
    let all = resolve_minecraft_base(Some(THERE), Some(THERE), THERE, THERE);
    assert_eq!(all, Some(BaseSource::Argument));
    let beside = resolve_minecraft_base(Some(EMPTY), Some(THERE), THERE, THERE);
    assert_eq!(beside, Some(BaseSource::Executable));
    let working = resolve_minecraft_base(None, Some(GONE), THERE, THERE);
    assert_eq!(working, Some(BaseSource::WorkingDirectory));
    let below = resolve_minecraft_base(None, None, EMPTY, THERE);
    assert_eq!(below, Some(BaseSource::AssetsDirectory));
    assert_eq!(resolve_minecraft_base(Some(GONE), None, GONE, EMPTY), None);
}

#[test]
fn the_place_of_the_folder_is_described() {
    let words = |source: BaseSource| source.description();
    assert_eq!(words(BaseSource::Argument), "Provided via --minecraft argument");
    assert_eq!(words(BaseSource::Executable), "Detected beside the executable directory");
    assert_eq!(
        words(BaseSource::WorkingDirectory),
        "Detected in current working directory (minecraft/)"
    );
    assert_eq!(
        words(BaseSource::AssetsDirectory),
        "Detected in current working directory (assets/minecraft/)"
    );
    assert_eq!(MODEL_FILE, "models/block/_all.json");
    assert_eq!(TEXTURE_FOLDER, "textures/block");
}

#[test]
fn children_of_some_parents_are_drawn() {
    for parent in [
        "block/block",
        "minecraft:block/cube_all",
        "minecraft:block/cube_column",
        "minecraft:block/cube_bottom_top",
        "minecraft:block/cube",
        "minecraft:block/stairs",
        "block/stairs",
        "minecraft:block/slab",
        "block/slab",
        "minecraft:block/carpet",
        "block/carpet",
    ] {
        assert!(should_render("stone", &drawable(Some(parent))), "{parent}");
    }
    for parent in ["", "block/cube_all", "cube", "minecraft:block/block", "minecraft:block/cross"] {
        assert!(!should_render("stone", &drawable(Some(parent))), "{parent}");
    }
    assert!(!should_render("stone", &drawable(None)));
}

#[test]
fn templates_and_empty_models_are_not_drawn() {
    let whole = drawable(Some("block/block"));
    assert!(!should_render("template_slab", &whole));
    assert!(!should_render("template", &whole));
    assert!(should_render("a_template", &whole));
    let mut without = drawable(Some("block/block"));
    without.elements = Some(vec![]);
    assert!(!should_render("stone", &without));
    without.elements = None;
    assert!(!should_render("stone", &without));
    let mut plain = drawable(Some("block/block"));
    plain.textures = Some(NameMap::new());
    assert!(!should_render("stone", &plain));
    plain.textures = None;
    assert!(!should_render("stone", &plain));
}

fn named(files: &[&str], endless: bool) -> TextureList {
    TextureList {
        files: files.iter().map(|f| f.to_string()).collect(),
        endless,
    }
}

#[test]
fn the_textures_of_all_faces_are_listed() {
    let elements = vec![
        element(&[("up", "#top"), ("down", "block/dirt")]),
        element(&[]),
        element(&[("north", "#top")]),
    ];
    let map = textures(&[("top", "#all"), ("all", "minecraft:block/grass")]);
    let list = list_textures(&elements, &map);
    assert_eq!(list.files, vec!["grass", "dirt", "grass"]);
    assert!(!list.endless);
}

#[test]
fn textures_are_listed_up_to_a_circle() {
    let elements = vec![
        element(&[("up", "#a")]),
        element(&[("up", "x"), ("down", "#b"), ("north", "z")]),
        element(&[("up", "#a")]),
    ];
    let whole = list_textures(&elements, &textures(&[("a", "w"), ("b", "y")]));
    assert_eq!(whole.files, vec!["w", "x", "y", "z", "w"]);
    assert!(!whole.endless);
    let round = list_textures(&elements, &textures(&[("a", "w"), ("b", "#b")]));
    assert_eq!(round.files, vec!["w", "x"]);
    assert!(round.endless);
    let at_once = list_textures(&elements, &textures(&[("a", "#a")]));
    assert!(at_once.files.is_empty() && at_once.endless);
}

#[test]
fn a_model_is_planned() {
    let mut models = NameMap::new();
    let mut cube = drawable(Some("block/block"));
    cube.elements = Some(vec![element(&[("up", "#all"), ("down", "#end")])]);
    models.insert("cube_all".to_string(), cube);
    let mut stone = drawable(Some("minecraft:block/cube_all"));
    stone.elements = None;
    stone.textures = Some(textures(&[("end", "minecraft:block/stone_end")]));
    models.insert("stone".to_string(), stone);
    let mut lost = drawable(Some("minecraft:block/cube_all"));
    lost.elements = None;
    lost.textures = Some(textures(&[("end", "#end")]));
    models.insert("lost".to_string(), lost);
    models.insert("round".to_string(), drawable(Some("round")));
    match plan_model("stone", &models) {
        ModelPlan::Draw { elements, textures, display, list } => {
            assert_eq!(list.files, vec!["stone", "stone_end"]);
            assert!(!list.endless);
            assert_eq!(elements.len(), 1);
            assert_eq!(textures.len(), 2);
            assert!(display.unwrap().is_empty());
        }
        _ => panic!("stone is drawn"),
    }
    match plan_model("lost", &models) {
        ModelPlan::Draw { list, .. } => {
            assert_eq!(list.files, vec!["stone"]);
            assert!(list.endless);
        }
        _ => panic!("lost is drawn as far as it goes"),
    }
    assert!(matches!(plan_model("round", &models), ModelPlan::EndlessParents));
    assert!(matches!(plan_model("nothing", &models), ModelPlan::Skip));
}

#[test]
fn textures_are_read_until_all_are_there() {
    let files = named(&["a", "b", "a", "c"], false);
    let mut cache = NameMap::new();
    let mut read = Vec::new();
    let lengths = [("a", vec![50]), ("b", vec![10, 20, 30]), ("c", vec![1, 2, 3])];
    loop {
        match next_step(&files, &cache) {
            TextureStep::Read(file) => {
                let (_, delays) = lengths.iter().find(|(name, _)| *name == file).unwrap();
                read.push(file.clone());
                let after = keep_texture(file, Some(texture(delays)), &mut cache);
                assert_eq!(after, AfterRead::GoOn);
            }
            TextureStep::Endless => panic!("there is an end"),
            TextureStep::Still => panic!("there is an animation"),
            TextureStep::Animation { frames, delays } => {
                assert_eq!(frames, 3);
                assert_eq!(delays, vec![10, 20, 30]);
                break;
            }
        }
    }
    assert_eq!(read, vec!["a", "b", "c"]);
}

#[test]
fn a_circle_counts_only_once_the_files_before_it_are_there() {
    let files = named(&["a"], true);
    let mut cache = NameMap::new();
    assert!(matches!(next_step(&files, &cache), TextureStep::Read(file) if file == "a"));
    cache.insert("a".to_string(), texture(&[50]));
    assert!(matches!(next_step(&files, &cache), TextureStep::Endless));
}

#[test]
fn a_model_without_animation_is_drawn_once() {
    let mut cache = NameMap::new();
    cache.insert("a".to_string(), texture(&[70]));
    assert!(matches!(next_step(&named(&["a"], false), &cache), TextureStep::Still));
    let none: NameMap<AnimatedTexture> = NameMap::new();
    assert!(matches!(next_step(&named(&[], false), &none), TextureStep::Still));
}

#[test]
fn a_model_whose_texture_cannot_be_read_is_passed_over() {
    let mut cache = NameMap::new();
    cache.insert("a".to_string(), texture(&[70]));
    assert_eq!(keep_texture("b".to_string(), None, &mut cache), AfterRead::Skip);
    assert_eq!(cache.len(), 1);
    let read = Some(texture(&[10, 20]));
    assert_eq!(keep_texture("b".to_string(), read, &mut cache), AfterRead::GoOn);
    assert_eq!(cache.get("b").unwrap().frame_delays_ms, vec![10, 20]);
    let step = next_step(&named(&["a", "b"], false), &cache);
    assert!(matches!(step, TextureStep::Animation { frames: 2, delays } if delays == vec![10, 20]));
}
