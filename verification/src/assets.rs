//! Where the assets of a run are found, which models are drawn, and which
//! textures have to be read before.
use crate::animation::{AnimatedTexture, TextureView};
use crate::json::{JsonValue, ValueView};
use crate::model::{
    ancestry_is_finite, display_view, element_views, has_finite_ancestry, has_finite_reference,
    reference_is_finite, resolve_model, resolve_texture, resolved, texture_name, DisplayTransform,
    ElementView, MinecraftModel, ModelElement, ModelView,
};
use crate::name_map::NameMap;
use crate::text::{same_text, starts_with, texts};
use vstd::prelude::*;

verus! {

/// The file below the folder of assets that holds all block models.
pub const MODEL_FILE: &'static str = "models/block/_all.json";

/// The folder below the folder of assets that holds the textures of blocks.
pub const TEXTURE_FOLDER: &'static str = "textures/block";

/// Where the folder of assets was found.
#[derive(Clone, Copy, Debug, PartialEq, Eq, Structural)]
pub enum BaseSource {
    /// It was named by an argument.
    Argument,
    /// It lies beside the program.
    Executable,
    /// It lies in the working directory.
    WorkingDirectory,
    /// It lies below `assets` in the working directory.
    AssetsDirectory,
}

/// What is known of a folder: whether it exists, and whether the file with all models does.
#[derive(Clone, Copy, Debug)]
pub struct Probe {
    pub folder: bool,
    pub model_file: bool,
}

/// Whether a folder can be used.
pub open spec fn is_usable(probe: Probe) -> bool {
    probe.folder && probe.model_file
}

/// Whether a folder that may be unknown can be used.
pub open spec fn is_known_and_usable(probe: Option<Probe>) -> bool {
    match probe {
        Some(known) => is_usable(known),
        None => false,
    }
}

/// The words for where the folder of assets was found.
pub open spec fn description_of(source: BaseSource) -> Seq<char> {
    match source {
        BaseSource::Argument => "Provided via --minecraft argument"@,
        BaseSource::Executable => "Detected beside the executable directory"@,
        BaseSource::WorkingDirectory => "Detected in current working directory (minecraft/)"@,
        BaseSource::AssetsDirectory =>
            "Detected in current working directory (assets/minecraft/)"@,
    }
}

/// Whether the folder of the given source can be used.
pub open spec fn source_is_usable(
    source: BaseSource,
    argument: Option<Probe>,
    executable: Option<Probe>,
    working: Probe,
    assets: Probe,
) -> bool {
    match source {
        BaseSource::Argument => is_known_and_usable(argument),
        BaseSource::Executable => is_known_and_usable(executable),
        BaseSource::WorkingDirectory => is_usable(working),
        BaseSource::AssetsDirectory => is_usable(assets),
    }
}

/// The place of a source in the order in which they are tried.
pub open spec fn rank(source: BaseSource) -> int {
    match source {
        BaseSource::Argument => 0,
        BaseSource::Executable => 1,
        BaseSource::WorkingDirectory => 2,
        BaseSource::AssetsDirectory => 3,
    }
}

impl BaseSource {
    /// The words for where the folder of assets was found.
    pub fn description(self) -> (r: &'static str)
        ensures
            r@ == description_of(self),
    {
        match self {
            BaseSource::Argument => "Provided via --minecraft argument",
            BaseSource::Executable => "Detected beside the executable directory",
            BaseSource::WorkingDirectory => "Detected in current working directory (minecraft/)",
            BaseSource::AssetsDirectory =>
                "Detected in current working directory (assets/minecraft/)",
        }
    }
}

/// The first source whose folder of assets can be used. The folders named by an argument and
/// beside the program may be unknown.
pub fn resolve_minecraft_base(
    argument: Option<Probe>,
    executable: Option<Probe>,
    working: Probe,
    assets: Probe,
) -> (r: Option<BaseSource>)
    ensures
        match r {
            Some(found) => source_is_usable(found, argument, executable, working, assets)
                && forall|s: BaseSource| #[trigger]
                rank(s) < rank(found) ==> !source_is_usable(
                    s,
                    argument,
                    executable,
                    working,
                    assets,
                ),
            None => forall|s: BaseSource|
                !(#[trigger] source_is_usable(s, argument, executable, working, assets)),
        },
{
    if let Some(known) = argument {
        if known.folder && known.model_file {
            return Some(BaseSource::Argument);
        }
    }
    if let Some(known) = executable {
        if known.folder && known.model_file {
            return Some(BaseSource::Executable);
        }
    }
    if working.folder && working.model_file {
        return Some(BaseSource::WorkingDirectory);
    }
    if assets.folder && assets.model_file {
        return Some(BaseSource::AssetsDirectory);
    }
    None
}

/// Whether a parent is one of those whose children are drawn.
pub open spec fn is_rendered_parent(parent: Seq<char>) -> bool {
    ||| parent == "block/block"@
    ||| parent == "minecraft:block/cube_all"@
    ||| parent == "minecraft:block/cube_column"@
    ||| parent == "minecraft:block/cube_bottom_top"@
    ||| parent == "minecraft:block/cube"@
    ||| parent == "minecraft:block/stairs"@
    ||| parent == "block/stairs"@
    ||| parent == "minecraft:block/slab"@
    ||| parent == "block/slab"@
    ||| parent == "minecraft:block/carpet"@
    ||| parent == "block/carpet"@
}

/// Whether a model, with all that it inherits, is drawn: it has boxes and textures, is no
/// template, and has one of the parents whose children are drawn.
pub open spec fn is_rendered(name: Seq<char>, model: ModelView) -> bool {
    &&& model.elements matches Some(elements) && elements.len() > 0
    &&& model.textures matches Some(textures) && textures != Map::<Seq<char>, ValueView>::empty()
    &&& !"template"@.is_prefix_of(name)
    &&& model.parent matches Some(parent) && is_rendered_parent(parent)
}

fn is_drawn_parent(parent: &str) -> (r: bool)
    ensures
        r == is_rendered_parent(parent@),
{
    same_text(parent, "block/block") || same_text(parent, "minecraft:block/cube_all") || same_text(
        parent,
        "minecraft:block/cube_column",
    ) || same_text(parent, "minecraft:block/cube_bottom_top") || same_text(
        parent,
        "minecraft:block/cube",
    ) || same_text(parent, "minecraft:block/stairs") || same_text(parent, "block/stairs")
        || same_text(parent, "minecraft:block/slab") || same_text(parent, "block/slab")
        || same_text(parent, "minecraft:block/carpet") || same_text(parent, "block/carpet")
}

/// Whether a model, with all that it inherits, is drawn.
pub fn should_render(name: &str, model: &MinecraftModel) -> (r: bool)
    ensures
        r == is_rendered(name@, model@),
{
    let has_elements = match &model.elements {
        Some(elements) => {
            assert(element_views(elements@).len() == elements@.len());
            elements.len() > 0
        },
        None => false,
    };
    let has_textures = match &model.textures {
        Some(textures) => !textures.is_empty(),
        None => false,
    };
    let has_parent = match &model.parent {
        Some(parent) => is_drawn_parent(parent.as_str()),
        None => false,
    };
    has_elements && has_textures && !starts_with(name, "template") && has_parent
}

/// What the faces of a box refer to as their textures, in order.
pub open spec fn box_references(element: ElementView) -> Seq<Seq<char>> {
    Seq::new(element.faces.len(), |i: int| element.faces[i].1.texture)
}

/// What the faces of the first `n` boxes refer to as their textures, in order.
pub open spec fn references_of(elements: Seq<ElementView>, n: nat) -> Seq<Seq<char>>
    decreases n,
{
    if n == 0 {
        Seq::empty()
    } else {
        references_of(elements, (n - 1) as nat) + box_references(elements[n - 1])
    }
}

/// The texture files that the references stand for.
pub open spec fn files_of(
    textures: Map<Seq<char>, ValueView>,
    references: Seq<Seq<char>>,
) -> Seq<Seq<char>> {
    Seq::new(references.len(), |i: int| texture_name(textures, references[i]))
}

/// Whether each of the references ends.
pub open spec fn all_end(
    textures: Map<Seq<char>, ValueView>,
    references: Seq<Seq<char>>,
) -> bool {
    forall|i: int|
        0 <= i < references.len() ==> reference_is_finite(textures, #[trigger] references[i])
}

/// The texture files of a model.
#[derive(Debug)]
pub struct TextureList {
    /// The files of the faces, in order, up to the first face whose references go round in a
    /// circle.
    pub files: Vec<String>,
    /// Whether there is such a face.
    pub endless: bool,
}

/// Whether `list` holds the texture files of the references, up to the first that does not end.
pub open spec fn lists(
    list: TextureList,
    textures: Map<Seq<char>, ValueView>,
    references: Seq<Seq<char>>,
) -> bool {
    let n = list.files@.len() as int;
    &&& n <= references.len()
    &&& all_end(textures, references.take(n))
    &&& texts(list.files@) == files_of(textures, references.take(n))
    &&& list.endless <==> n < references.len()
    &&& list.endless ==> !reference_is_finite(textures, references[n])
}

/// The texture files of all faces, in order, up to the first face whose references go round in a
/// circle.
pub fn list_textures(elements: &Vec<ModelElement>, textures: &NameMap<JsonValue>) -> (r:
    TextureList)
    ensures
        lists(r, textures@, references_of(element_views(elements@), elements@.len())),
{
    let ghost views = element_views(elements@);
    let ghost all = references_of(views, elements@.len());
    let mut files: Vec<String> = Vec::new();
    let mut i: usize = 0;
    while i < elements.len()
        invariant
            i <= elements.len(),
            views == element_views(elements@),
            all == references_of(views, elements@.len()),
            all_end(textures@, references_of(views, i as nat)),
            texts(files@) == files_of(textures@, references_of(views, i as nat)),
        decreases elements.len() - i,
    {
        let faces = &elements[i].faces;
        let ghost element = views[i as int];
        let ghost earlier = references_of(views, i as nat);
        let ghost own = box_references(element);
        assert(element.faces == faces.items());
        assert(earlier + own.take(0) == earlier);
        let mut j: usize = 0;
        while j < faces.len()
            invariant
                i < elements@.len(),
                views == element_views(elements@),
                all == references_of(views, elements@.len()),
                earlier == references_of(views, i as nat),
                element == views[i as int],
                element.faces == faces.items(),
                own == box_references(element),
                j <= faces.items().len(),
                all_end(textures@, earlier + own.take(j as int)),
                texts(files@) == files_of(textures@, earlier + own.take(j as int)),
            decreases faces.items().len() - j,
        {
            let face = faces.value_at(j);
            assert(own[j as int] == face.texture@);
            let ghost before = earlier + own.take(j as int);
            let ghost so_far = texts(files@);
            assert(so_far.len() == files@.len());
            proof {
                assert(references_of(views, (i + 1) as nat) == earlier + own);
                lemma_references_grow(views, (i + 1) as nat, elements@.len());
                let through = earlier + own;
                let at = before.len() as int;
                assert(all.take(through.len() as int) == through);
                assert(before == through.take(at));
                assert(all.take(at) == before) by {
                    assert(all.take(at) == all.take(through.len() as int).take(at));
                }
                assert(all[at] == all.take(through.len() as int)[at]);
                assert(through[at] == own[j as int]);
            }
            if !has_finite_reference(face.texture.as_str(), textures) {
                return TextureList { files, endless: true };
            }
            let file = resolve_texture(face.texture.clone(), textures);
            files.push(file);
            proof {
                assert(earlier + own.take(j + 1) == before.push(face.texture@));
                assert(texts(files@) == so_far.push(file@));
                assert(files_of(textures@, before.push(face.texture@)) == files_of(
                    textures@,
                    before,
                ).push(file@));
                assert forall|k: int| 0 <= k < before.len() + 1 implies reference_is_finite(
                    textures@,
                    #[trigger] before.push(face.texture@)[k],
                ) by {
                    if k < before.len() {
                        assert(before.push(face.texture@)[k] == before[k]);
                    }
                }
            }
            j += 1;
        }
        assert(own.take(j as int) == own);
        i += 1;
    }
    assert(all.take(all.len() as int) == all);
    assert(texts(files@).len() == files@.len());
    TextureList { files, endless: false }
}

/// The references of fewer boxes are the first of those of more.
proof fn lemma_references_grow(elements: Seq<ElementView>, m: nat, n: nat)
    requires
        m <= n,
    ensures
        references_of(elements, m).len() <= references_of(elements, n).len(),
        references_of(elements, n).take(references_of(elements, m).len() as int)
            == references_of(elements, m),
    decreases n,
{
    let fewer = references_of(elements, m);
    if m < n {
        lemma_references_grow(elements, m, (n - 1) as nat);
        let more = references_of(elements, (n - 1) as nat);
        assert((more + box_references(elements[n - 1])).take(fewer.len() as int) == more.take(
            fewer.len() as int,
        ));
    } else {
        assert(fewer.take(fewer.len() as int) == fewer);
    }
}

/// What is to be done with a model.
pub enum ModelPlan {
    /// Its parents go round in a circle.
    EndlessParents,
    /// It is not drawn.
    Skip,
    /// Its boxes are drawn once the texture files are there.
    Draw {
        elements: Vec<ModelElement>,
        textures: NameMap<JsonValue>,
        display: Option<NameMap<DisplayTransform>>,
        list: TextureList,
    },
}

/// What is to be done with the model called `name`.
pub fn plan_model(name: &str, models: &NameMap<MinecraftModel>) -> (r: ModelPlan)
    ensures
        ({
            let model = resolved(models@, name@);
            match r {
                ModelPlan::EndlessParents => !ancestry_is_finite(models@, name@),
                ModelPlan::Skip => ancestry_is_finite(models@, name@) && !is_rendered(name@, model),
                ModelPlan::Draw { elements, textures, display, list } => {
                    &&& ancestry_is_finite(models@, name@)
                    &&& is_rendered(name@, model)
                    &&& model.elements == Some(element_views(elements@))
                    &&& model.textures == Some(textures@)
                    &&& model.display == display_view(display)
                    &&& lists(
                        list,
                        textures@,
                        references_of(element_views(elements@), elements@.len()),
                    )
                },
            }
        }),
{
    if !has_finite_ancestry(name, models) {
        return ModelPlan::EndlessParents;
    }
    let model = resolve_model(name, models);
    if !should_render(name, &model) {
        return ModelPlan::Skip;
    }
    let MinecraftModel { elements, textures, display, .. } = model;
    match (elements, textures) {
        (Some(elements), Some(textures)) => {
            let list = list_textures(&elements, &textures);
            ModelPlan::Draw { elements, textures, display, list }
        },
        _ => ModelPlan::Skip,
    }
}

/// What is to be done next for a model.
pub enum TextureStep {
    /// The texture file with the given name is to be read; where it cannot be read, the
    /// model is not drawn.
    Read(String),
    /// The textures of the next face go round in a circle.
    Endless,
    /// All textures are there: the model is drawn as a still image.
    Still,
    /// All textures are there: the model is drawn with so many frames, each shown for its
    /// delay.
    Animation { frames: usize, delays: Vec<u32> },
}

/// The greatest number of frames among the first `n` texture files, at least 1, and the
/// delays of the first texture that has so many.
pub open spec fn longest(
    cache: Map<Seq<char>, TextureView>,
    files: Seq<Seq<char>>,
    n: nat,
) -> (nat, Seq<u32>)
    decreases n,
{
    if n == 0 {
        (1, Seq::empty())
    } else {
        let earlier = longest(cache, files, (n - 1) as nat);
        let texture = cache[files[n - 1]];
        if texture.frames.len() > earlier.0 {
            (texture.frames.len(), texture.frame_delays_ms)
        } else {
            earlier
        }
    }
}

/// Whether the texture file with number `i` is the first that is not there.
pub open spec fn is_first_missing(
    cache: Map<Seq<char>, TextureView>,
    files: Seq<Seq<char>>,
    i: int,
) -> bool {
    &&& 0 <= i < files.len()
    &&& !cache.dom().contains(files[i])
    &&& forall|j: int| 0 <= j < i ==> cache.dom().contains(#[trigger] files[j])
}

/// Whether each of the texture files is there.
pub open spec fn all_are_there(cache: Map<Seq<char>, TextureView>, files: Seq<Seq<char>>) -> bool {
    forall|i: int| 0 <= i < files.len() ==> cache.dom().contains(#[trigger] files[i])
}

/// What is to be done next for a model whose faces have the given texture files, when those in
/// `cache` have been read.
pub fn next_step(list: &TextureList, cache: &NameMap<AnimatedTexture>) -> (r: TextureStep)
    ensures
        match r {
            TextureStep::Read(file) => exists|i: int| #[trigger]
                is_first_missing(cache@, texts(list.files@), i) && file@ == list.files@[i]@,
            TextureStep::Endless => list.endless && all_are_there(cache@, texts(list.files@)),
            TextureStep::Still => {
                &&& !list.endless
                &&& all_are_there(cache@, texts(list.files@))
                &&& longest(cache@, texts(list.files@), list.files@.len()).0 <= 1
            },
            TextureStep::Animation { frames, delays } => {
                &&& !list.endless
                &&& all_are_there(cache@, texts(list.files@))
                &&& frames > 1
                &&& (frames as nat, delays@) == longest(
                    cache@,
                    texts(list.files@),
                    list.files@.len(),
                )
            },
        },
{
    let files = &list.files;
    let ghost all = texts(files@);
    let mut frames: usize = 1;
    let mut delays: Vec<u32> = Vec::new();
    let mut i: usize = 0;
    while i < files.len()
        invariant
            files@ == list.files@,
            i <= files.len(),
            all == texts(files@),
            forall|j: int| 0 <= j < i ==> cache@.dom().contains(#[trigger] all[j]),
            (frames as nat, delays@) == longest(cache@, all, i as nat),
        decreases files.len() - i,
    {
        assert(all[i as int] == files@[i as int]@);
        match cache.get(files[i].as_str()) {
            Some(texture) => {
                if texture.frames.len() > frames {
                    frames = texture.frames.len();
                    delays = copy_delays(&texture.frame_delays_ms);
                }
            },
            None => {
                assert(is_first_missing(cache@, all, i as int));
                return TextureStep::Read(files[i].clone());
            },
        }
        i += 1;
    }
    if list.endless {
        return TextureStep::Endless;
    }
    if frames <= 1 {
        return TextureStep::Still;
    }
    TextureStep::Animation { frames, delays }
}

/// What is to be done with a model after one of its texture files was read.
#[derive(Clone, Copy, Debug, PartialEq, Eq, Structural)]
pub enum AfterRead {
    /// The texture is there, and the model goes on to its next step.
    GoOn,
    /// There is no texture, and the model is passed over.
    Skip,
}

/// Keeps the texture that was made of a texture file, where one could be made, and says what is
/// to be done with the model that asked for it.
pub fn keep_texture(
    file: String,
    read: Option<AnimatedTexture>,
    cache: &mut NameMap<AnimatedTexture>,
) -> (r: AfterRead)
    ensures
        match read {
            Some(texture) => r == AfterRead::GoOn && final(cache)@ == old(cache)@.insert(
                file@,
                texture@,
            ),
            None => r == AfterRead::Skip && *final(cache) == *old(cache),
        },
{
    match read {
        Some(texture) => {
            cache.insert(file, texture);
            AfterRead::GoOn
        },
        None => AfterRead::Skip,
    }
}

fn copy_delays(delays: &Vec<u32>) -> (r: Vec<u32>)
    ensures
        r@ == delays@,
{
    let r = delays.clone();
    assert(r@ =~= delays@);
    r
}

/// A model is drawn with at least as many frames as each of its textures has, and, where that is
/// more than one, with the delays of a texture that has as many.
pub proof fn law_longest(cache: Map<Seq<char>, TextureView>, files: Seq<Seq<char>>, n: nat, i: int)
    requires
        0 <= i < n <= files.len(),
    ensures
        longest(cache, files, n).0 >= 1,
        longest(cache, files, n).0 >= cache[files[i]].frames.len(),
        longest(cache, files, n).0 > 1 ==> exists|k: int|
            0 <= k < n && (#[trigger] cache[files[k]]).frames.len() == longest(cache, files, n).0
                && cache[files[k]].frame_delays_ms == longest(cache, files, n).1,
    decreases n,
{
    let last = cache[files[n - 1]];
    if n > 1 {
        let j = if i < n - 1 {
            i
        } else {
            0
        };
        law_longest(cache, files, (n - 1) as nat, j);
        let earlier = longest(cache, files, (n - 1) as nat);
        if last.frames.len() <= earlier.0 && earlier.0 > 1 {
            let k = choose|k: int|
                0 <= k < n - 1 && (#[trigger] cache[files[k]]).frames.len() == earlier.0
                    && cache[files[k]].frame_delays_ms == earlier.1;
            assert(cache[files[k]].frames.len() == earlier.0);
        }
    } else {
        assert(longest(cache, files, 0) == (1nat, Seq::<u32>::empty()));
    }
}

/// Once all texture files of a model are there, each face has its texture, and no face is left
/// out for want of one.
pub proof fn law_ready_faces_have_their_textures(
    textures: Map<Seq<char>, ValueView>,
    cache: Map<Seq<char>, TextureView>,
    elements: Seq<ElementView>,
    list: TextureList,
    e: int,
    f: int,
)
    requires
        lists(list, textures, references_of(elements, elements.len())),
        !list.endless,
        all_are_there(cache, texts(list.files@)),
        0 <= e < elements.len(),
        0 <= f < elements[e].faces.len(),
    ensures
        reference_is_finite(textures, elements[e].faces[f].1.texture),
        cache.dom().contains(texture_name(textures, elements[e].faces[f].1.texture)),
{
    let all = references_of(elements, elements.len());
    let earlier = references_of(elements, e as nat);
    let own = box_references(elements[e]);
    let at = earlier.len() + f;
    assert(all.take(all.len() as int) == all);
    assert(references_of(elements, (e + 1) as nat) == earlier + own);
    lemma_references_grow(elements, (e + 1) as nat, elements.len());
    assert((earlier + own)[at] == own[f]);
    assert(all[at] == all.take((earlier + own).len() as int)[at]);
    assert(texts(list.files@)[at] == texture_name(textures, own[f]));
}

/// Reading the file that is asked for, and no other, leads on: it is not asked for again.
pub proof fn law_reading_leads_on(
    cache: Map<Seq<char>, TextureView>,
    files: Seq<Seq<char>>,
    i: int,
    texture: TextureView,
    j: int,
)
    requires
        is_first_missing(cache, files, i),
        is_first_missing(cache.insert(files[i], texture), files, j),
    ensures
        i < j,
{
    if j <= i {
        assert(cache.insert(files[i], texture).dom().contains(files[j]));
    }
}

}
