//! Block models: how a model inherits from its parents, and how the texture of
//! a face is looked up.
use crate::chain::{
    ends, ends_within, is_path, last, lemma_circle, lemma_ends_step, lemma_last_step,
    lemma_no_more_than, steps, Next,
};
use crate::json::{get_text, text_member, JsonValue, ValueView};
use crate::name_map::{as_map, holds, position, NameMap, Replicate};
use crate::single::Single;
use crate::text::{
    after_first, lemma_without_front, lemma_without_keeps_front, remove_all, starts_with, texts,
    without,
};
use vstd::prelude::*;

verus! {

/// A block model as it is written: what it leaves out it takes from its parent.
#[derive(Debug)]
pub struct MinecraftModel {
    pub parent: Option<String>,
    pub textures: Option<NameMap<JsonValue>>,
    pub elements: Option<Vec<ModelElement>>,
    pub display: Option<NameMap<DisplayTransform>>,
}

/// A box of a model, from one corner to the opposite one, with its faces.
#[derive(Debug)]
pub struct ModelElement {
    pub from: [Single; 3],
    pub to: [Single; 3],
    pub shade: Option<bool>,
    pub faces: NameMap<ModelFace>,
}

/// A face of a box: its texture, the part of the texture it shows and how that is turned.
#[derive(Debug)]
pub struct ModelFace {
    pub texture: String,
    pub uv: Option<[Single; 4]>,
    pub rotation: Option<i32>,
}

/// How a model is placed before it is drawn.
#[derive(Clone, Copy, Debug)]
pub struct DisplayTransform {
    pub rotation: Option<[Single; 3]>,
    pub translation: Option<[Single; 3]>,
    pub scale: Option<[Single; 3]>,
}

/// What a face stands for.
pub struct FaceView {
    pub texture: Seq<char>,
    pub uv: Option<[Single; 4]>,
    pub rotation: Option<i32>,
}

/// What a box stands for.
pub struct ElementView {
    pub from: [Single; 3],
    pub to: [Single; 3],
    pub shade: Option<bool>,
    pub faces: Seq<(Seq<char>, FaceView)>,
}

/// What a model stands for.
pub struct ModelView {
    pub parent: Option<Seq<char>>,
    pub textures: Option<Map<Seq<char>, ValueView>>,
    pub elements: Option<Seq<ElementView>>,
    pub display: Option<Map<Seq<char>, DisplayTransform>>,
}

/// What the boxes stand for.
pub open spec fn element_views(elements: Seq<ModelElement>) -> Seq<ElementView> {
    Seq::new(elements.len(), |i: int| elements[i]@)
}

impl View for ModelFace {
    type V = FaceView;

    open spec fn view(&self) -> FaceView {
        FaceView { texture: self.texture@, uv: self.uv, rotation: self.rotation }
    }
}

impl View for ModelElement {
    type V = ElementView;

    open spec fn view(&self) -> ElementView {
        ElementView {
            from: self.from,
            to: self.to,
            shade: self.shade,
            faces: self.faces.items(),
        }
    }
}

impl View for DisplayTransform {
    type V = DisplayTransform;

    open spec fn view(&self) -> DisplayTransform {
        *self
    }
}

impl View for MinecraftModel {
    type V = ModelView;

    open spec fn view(&self) -> ModelView {
        ModelView {
            parent: match self.parent {
                Some(name) => Some(name@),
                None => None,
            },
            textures: match self.textures {
                Some(textures) => Some(textures@),
                None => None,
            },
            elements: match self.elements {
                Some(elements) => Some(element_views(elements@)),
                None => None,
            },
            display: display_view(self.display),
        }
    }
}

/// What the placements stand for.
pub open spec fn display_view(display: Option<NameMap<DisplayTransform>>) -> Option<
    Map<Seq<char>, DisplayTransform>,
> {
    match display {
        Some(map) => Some(map@),
        None => None,
    }
}

impl Replicate for ModelFace {
    fn replicate(&self) -> (r: Self) {
        ModelFace { texture: self.texture.clone(), uv: self.uv, rotation: self.rotation }
    }
}

impl Replicate for ModelElement {
    fn replicate(&self) -> (r: Self) {
        ModelElement {
            from: self.from,
            to: self.to,
            shade: self.shade,
            faces: self.faces.replicate(),
        }
    }
}

impl Replicate for DisplayTransform {
    fn replicate(&self) -> (r: Self) {
        *self
    }
}

/// A copy of the boxes.
fn replicate_elements(elements: &Vec<ModelElement>) -> (r: Vec<ModelElement>)
    ensures
        element_views(r@) == element_views(elements@),
{
    let mut copies: Vec<ModelElement> = Vec::new();
    let mut i: usize = 0;
    while i < elements.len()
        invariant
            i <= elements.len(),
            copies@.len() == i,
            forall|j: int| 0 <= j < i ==> (#[trigger] copies@[j])@ == elements@[j]@,
        decreases elements.len() - i,
    {
        copies.push(elements[i].replicate());
        i += 1;
    }
    assert(element_views(copies@) =~= element_views(elements@));
    copies
}

impl Replicate for MinecraftModel {
    fn replicate(&self) -> (r: Self) {
        MinecraftModel {
            parent: match &self.parent {
                Some(name) => Some(name.clone()),
                None => None,
            },
            textures: match &self.textures {
                Some(textures) => Some(textures.replicate()),
                None => None,
            },
            elements: match &self.elements {
                Some(elements) => Some(replicate_elements(elements)),
                None => None,
            },
            display: match &self.display {
                Some(display) => Some(display.replicate()),
                None => None,
            },
        }
    }
}

impl Clone for ModelFace {
    fn clone(&self) -> (r: Self)
        ensures
            r@ == self@,
    {
        self.replicate()
    }
}

impl Clone for ModelElement {
    fn clone(&self) -> (r: Self)
        ensures
            r@ == self@,
    {
        self.replicate()
    }
}

impl Clone for MinecraftModel {
    fn clone(&self) -> (r: Self)
        ensures
            r@ == self@,
    {
        self.replicate()
    }
}

/// The name under which a model or a texture file is found: without namespace and folder.
pub open spec fn normalized(name: Seq<char>) -> Seq<char> {
    without(without(name, "minecraft:"@), "block/"@)
}

/// The name without namespace and folder.
pub fn normalize(name: &str) -> (r: String)
    ensures
        r@ == normalized(name@),
{
    let local = remove_all(name, "minecraft:");
    remove_all(local.as_str(), "block/")
}

/// The model that leaves everything out.
pub open spec fn blank() -> ModelView {
    ModelView { parent: None, textures: None, elements: None, display: None }
}

/// The model stored under `key`, blank where there is none.
pub open spec fn stored(models: Map<Seq<char>, ModelView>, key: Seq<char>) -> ModelView {
    if models.dom().contains(key) {
        models[key]
    } else {
        blank()
    }
}

/// Where the parent of the model under each key is stored.
pub open spec fn parent_key(models: Map<Seq<char>, ModelView>) -> Next {
    |key: Seq<char>|
        match stored(models, key).parent {
            Some(name) => Some(normalized(name)),
            None => None,
        }
}

/// Whether going from the model called `name` to its parent, to the parent's
/// parent and so on ends at a model without parent.
pub open spec fn ancestry_is_finite(models: Map<Seq<char>, ModelView>, name: Seq<char>) -> bool {
    ends(parent_key(models), normalized(name))
}

/// The entries of the two maps, those of `child` where both have one.
pub open spec fn overlaid<T>(
    parent: Option<Map<Seq<char>, T>>,
    child: Option<Map<Seq<char>, T>>,
) -> Map<Seq<char>, T> {
    let base = match parent {
        Some(map) => map,
        None => Map::empty(),
    };
    match child {
        Some(map) => base.union_prefer_right(map),
        None => base,
    }
}

/// What `child` is once it has taken what it leaves out from `parent`.
pub open spec fn inherited(child: ModelView, parent: ModelView) -> ModelView {
    ModelView {
        parent: child.parent,
        textures: Some(overlaid(parent.textures, child.textures)),
        elements: if child.elements is None {
            parent.elements
        } else {
            child.elements
        },
        display: Some(overlaid(parent.display, child.display)),
    }
}

/// The model under `key` with what it inherits over at most `n` generations.
pub open spec fn resolved_within(
    models: Map<Seq<char>, ModelView>,
    key: Seq<char>,
    n: nat,
) -> ModelView
    decreases n,
{
    match parent_key(models)(key) {
        Some(parent) if n > 0 => inherited(
            stored(models, key),
            resolved_within(models, parent, (n - 1) as nat),
        ),
        _ => stored(models, key),
    }
}

/// The model called `name` with all that it inherits.
pub open spec fn resolved(models: Map<Seq<char>, ModelView>, name: Seq<char>) -> ModelView {
    let key = normalized(name);
    resolved_within(models, key, steps(parent_key(models), key))
}

/// The model called `name` with all that it inherits: boxes from the nearest
/// model that has some, and of each texture and placement the nearest.
pub fn resolve_model(name: &str, models: &NameMap<MinecraftModel>) -> (r: MinecraftModel)
    requires
        ancestry_is_finite(models@, name@),
    ensures
        r@ == resolved(models@, name@),
{
    resolve_generations(name, models, Ghost(steps(parent_key(models@), normalized(name@))))
}

fn resolve_generations(
    name: &str,
    models: &NameMap<MinecraftModel>,
    Ghost(n): Ghost<nat>,
) -> (r: MinecraftModel)
    requires
        ends_within(parent_key(models@), normalized(name@), n),
    ensures
        r@ == resolved_within(models@, normalized(name@), n),
    decreases n,
{
    let key = normalize(name);
    let mut current = match models.get(key.as_str()) {
        Some(model) => model.replicate(),
        None => MinecraftModel { parent: None, textures: None, elements: None, display: None },
    };
    assert(current@ == stored(models@, key@));
    let ghost child = current@;
    if current.parent.is_none() {
        return current;
    }
    let parent_name = match &current.parent {
        Some(parent_name) => parent_name.clone(),
        None => String::new(),
    };
    let parent = resolve_generations(parent_name.as_str(), models, Ghost((n - 1) as nat));
    let ghost above = parent@;
    let elements = match current.elements {
        Some(elements) => Some(elements),
        None => parent.elements,
    };
    let mut textures = match parent.textures {
        Some(textures) => textures,
        None => NameMap::new(),
    };
    if let Some(own) = &current.textures {
        textures.extend(own);
    }
    let mut display = match parent.display {
        Some(display) => display,
        None => NameMap::new(),
    };
    if let Some(own) = &current.display {
        display.extend(own);
    }
    let r = MinecraftModel {
        parent: current.parent,
        textures: Some(textures),
        elements,
        display: Some(display),
    };
    assert(r@ == inherited(child, above));
    r
}

/// The names of the entries.
spec fn item_names<T>(items: Seq<(Seq<char>, T)>) -> Seq<Seq<char>> {
    Seq::new(items.len(), |i: int| items[i].0)
}

/// Whether one of the strings is `wanted`.
fn any_is(strings: &Vec<String>, wanted: &String) -> (r: bool)
    ensures
        r == texts(strings@).contains(wanted@),
{
    let mut i: usize = 0;
    while i < strings.len()
        invariant
            i <= strings.len(),
            forall|j: int| 0 <= j < i ==> (#[trigger] texts(strings@)[j]) != wanted@,
        decreases strings.len() - i,
    {
        if strings[i] == *wanted {
            assert(texts(strings@)[i as int] == wanted@);
            return true;
        }
        i += 1;
    }
    false
}

/// Whether going from the model called `name` from parent to parent ends.
pub fn has_finite_ancestry(name: &str, models: &NameMap<MinecraftModel>) -> (r: bool)
    ensures
        r == ancestry_is_finite(models@, name@),
{
    let ghost next = parent_key(models@);
    let ghost all = item_names(models.items());
    let mut seen: Vec<String> = Vec::new();
    let mut key = normalize(name);
    loop
        invariant
            next == parent_key(models@),
            all == item_names(models.items()),
            ends(next, key@) == ancestry_is_finite(models@, name@),
            texts(seen@).no_duplicates(),
            is_path(next, texts(seen@).push(key@)),
            forall|i: int| 0 <= i < seen@.len() ==> all.contains(#[trigger] texts(seen@)[i]),
        decreases all.len() - seen@.len(),
    {
        proof {
            lemma_ends_step(next, key@);
        }
        let parent = match models.get(key.as_str()) {
            Some(model) => match &model.parent {
                Some(parent) => normalize(parent.as_str()),
                None => return true,
            },
            None => return true,
        };
        if any_is(&seen, &key) {
            proof {
                let path = texts(seen@).push(key@);
                let at = choose|i: int| 0 <= i < seen@.len() && texts(seen@)[i] == key@;
                assert(path[at] == path.last());
                lemma_circle(next, path, at);
            }
            return false;
        }
        let ghost before = texts(seen@);
        proof {
            let i = position(models.items(), key@);
            assert(holds(models.items(), key@));
            assert(all[i] == key@);
            assert(next(key@) == Some(parent@));
        }
        seen.push(key);
        proof {
            assert(texts(seen@) == before.push(key@));
            assert forall|i: int| 0 <= i < seen@.len() implies all.contains(
                #[trigger] texts(seen@)[i],
            ) by {
                if i < before.len() {
                    assert(texts(seen@)[i] == before[i]);
                }
            }
            lemma_no_more_than(texts(seen@), all);
            let path = texts(seen@).push(parent@);
            assert forall|i: int| 0 <= i < path.len() - 1 implies next(#[trigger] path[i]) == Some(
                path[i + 1],
            ) by {
                let shorter = before.push(key@);
                assert(path[i] == shorter[i]);
                if i < before.len() {
                    assert(path[i + 1] == shorter[i + 1]);
                }
            }
        }
        key = parent;
    }
}

/// The texture that each texture reference stands for: a text that starts with
/// `#` stands for the entry under the rest of it, which is a text or an object
/// with a text under `sprite`.
pub open spec fn reference(textures: Map<Seq<char>, ValueView>) -> Next {
    |texture: Seq<char>|
        if texture.len() > 0 && texture[0] == '#' && textures.dom().contains(texture.skip(1)) {
            match textures[texture.skip(1)] {
                ValueView::Text(t) => Some(t),
                ValueView::Object(members) => text_member(members, "sprite"@),
                _ => None,
            }
        } else {
            None
        }
}

/// Whether following the references from `texture` on ends.
pub open spec fn reference_is_finite(
    textures: Map<Seq<char>, ValueView>,
    texture: Seq<char>,
) -> bool {
    ends(reference(textures), texture)
}

/// The name of the texture file that `texture` stands for.
pub open spec fn texture_name(textures: Map<Seq<char>, ValueView>, texture: Seq<char>) -> Seq<
    char,
> {
    normalized(last(reference(textures), texture))
}

/// The texture that `texture` refers to.
fn follow(texture: &str, textures: &NameMap<JsonValue>) -> (r: Option<String>)
    ensures
        (match r {
            Some(t) => Some(t@),
            None => None,
        }) == reference(textures@)(texture@),
{
    proof {
        reveal_strlit("#");
    }
    if !starts_with(texture, "#") {
        assert("#"@.len() == 1);
        proof {
            if texture@.len() > 0 && texture@[0] == '#' {
                assert("#"@.is_prefix_of(texture@));
            }
        }
        return None;
    }
    assert(texture@[0] == "#"@[0]);
    let key = after_first(texture);
    match textures.get(key.as_str()) {
        Some(JsonValue::Text(t)) => Some(t.clone()),
        Some(JsonValue::Object(members)) => match get_text(members, "sprite") {
            Some(t) => Some(t.clone()),
            None => None,
        },
        _ => None,
    }
}

/// The name of the texture file that `tex` stands for: references are followed
/// as far as they lead, then namespace and folder are dropped.
pub fn resolve_texture(tex: String, textures: &NameMap<JsonValue>) -> (r: String)
    requires
        reference_is_finite(textures@, tex@),
    ensures
        r@ == texture_name(textures@, tex@),
{
    let ghost next = reference(textures@);
    let ghost mut left = steps(next, tex@);
    let mut current = tex;
    loop
        invariant
            next == reference(textures@),
            ends_within(next, current@, left),
            last(next, current@) == last(next, tex@),
        decreases left,
    {
        proof {
            lemma_last_step(next, current@);
        }
        match follow(current.as_str(), textures) {
            Some(following) => {
                proof {
                    left = (left - 1) as nat;
                }
                current = following;
            },
            None => {
                return normalize(current.as_str());
            },
        }
    }
}

/// Whether following the references from `tex` on ends.
pub fn has_finite_reference(tex: &str, textures: &NameMap<JsonValue>) -> (r: bool)
    ensures
        r == reference_is_finite(textures@, tex@),
{
    let ghost next = reference(textures@);
    let ghost all = item_names(textures.items());
    let mut seen: Vec<String> = Vec::new();
    let mut current = tex.to_owned();
    loop
        invariant
            next == reference(textures@),
            all == item_names(textures.items()),
            ends(next, current@) == reference_is_finite(textures@, tex@),
            texts(seen@).no_duplicates(),
            is_path(next, texts(seen@).push(current@)),
            forall|i: int|
                0 <= i < seen@.len() ==> next(#[trigger] texts(seen@)[i]) is Some,
        decreases all.len() - seen@.len(),
    {
        proof {
            lemma_ends_step(next, current@);
        }
        let following = match follow(current.as_str(), textures) {
            Some(following) => following,
            None => return true,
        };
        if any_is(&seen, &current) {
            proof {
                let path = texts(seen@).push(current@);
                let at = choose|i: int| 0 <= i < seen@.len() && texts(seen@)[i] == current@;
                assert(path[at] == path.last());
                lemma_circle(next, path, at);
            }
            return false;
        }
        let ghost before = texts(seen@);
        seen.push(current);
        proof {
            let after = texts(seen@);
            assert(after == before.push(current@));
            assert forall|i: int| 0 <= i < seen@.len() implies next(#[trigger] after[i]) is Some by {
                if i < before.len() {
                    assert(after[i] == before[i]);
                }
            }
            lemma_references_no_more_than(textures.items(), after);
            let path = after.push(following@);
            assert forall|i: int| 0 <= i < path.len() - 1 implies next(#[trigger] path[i]) == Some(
                path[i + 1],
            ) by {
                let shorter = before.push(current@);
                assert(path[i] == shorter[i]);
                if i < before.len() {
                    assert(path[i + 1] == shorter[i + 1]);
                }
            }
        }
        current = following;
    }
}

/// Distinct references that lead somewhere are no more than there are entries.
proof fn lemma_references_no_more_than(
    items: Seq<(Seq<char>, ValueView)>,
    references: Seq<Seq<char>>,
)
    requires
        references.no_duplicates(),
        forall|i: int|
            0 <= i < references.len() ==> reference(as_map(items))(#[trigger] references[i]) is Some,
    ensures
        references.len() <= items.len(),
{
    let all = item_names(items);
    let keys = Seq::new(references.len(), |i: int| references[i].skip(1));
    assert forall|i: int, j: int| 0 <= i < j < keys.len() implies keys[i] != keys[j] by {
        let (a, b) = (references[i], references[j]);
        assert(reference(as_map(items))(a) is Some);
        assert(reference(as_map(items))(b) is Some);
        if keys[i] == keys[j] {
            assert(a == seq!['#'] + a.skip(1));
            assert(b == seq!['#'] + b.skip(1));
        }
    }
    assert forall|i: int| 0 <= i < keys.len() implies all.contains(#[trigger] keys[i]) by {
        assert(reference(as_map(items))(references[i]) is Some);
        assert(holds(items, keys[i]));
        assert(all[position(items, keys[i])] == keys[i]);
    }
    lemma_no_more_than(keys, all);
}

/// Neither the namespace nor the folder in front of a name changes what it names.
pub proof fn law_prefixes_do_not_matter(name: Seq<char>)
    ensures
        normalized("minecraft:"@ + name) == normalized(name),
        normalized("block/"@ + name) == normalized(name),
        normalized("minecraft:block/"@ + name) == normalized(name),
{
    reveal_strlit("minecraft:");
    reveal_strlit("block/");
    reveal_strlit("minecraft:block/");
    lemma_without_front("minecraft:"@, name);
    lemma_without_keeps_front("block/"@, name, "minecraft:"@);
    lemma_without_front("block/"@, without(name, "minecraft:"@));
    assert("minecraft:block/"@ == "minecraft:"@ + "block/"@);
    assert("minecraft:block/"@ + name == "minecraft:"@ + ("block/"@ + name));
    lemma_without_front("minecraft:"@, "block/"@ + name);
}

/// Models and textures are found with and without the namespace and the folder in front.
pub proof fn law_names_are_found_with_prefixes(
    models: Map<Seq<char>, ModelView>,
    textures: Map<Seq<char>, ValueView>,
    name: Seq<char>,
)
    ensures
        resolved(models, "minecraft:block/"@ + name) == resolved(models, name),
        resolved(models, "block/"@ + name) == resolved(models, name),
        texture_name(textures, "minecraft:block/"@ + name) == normalized(name),
        texture_name(textures, "block/"@ + name) == normalized(name),
{
    reveal_strlit("minecraft:block/");
    reveal_strlit("block/");
    law_prefixes_do_not_matter(name);
    let next = reference(textures);
    let (long, short) = ("minecraft:block/"@ + name, "block/"@ + name);
    assert(long[0] == 'm' && short[0] == 'b');
    lemma_ends_step(next, long);
    lemma_ends_step(next, short);
    lemma_last_step(next, long);
    lemma_last_step(next, short);
}

proof fn lemma_resolved_within(models: Map<Seq<char>, ModelView>, key: Seq<char>, m: nat, n: nat)
    requires
        ends_within(parent_key(models), key, m),
        ends_within(parent_key(models), key, n),
    ensures
        resolved_within(models, key, m) == resolved_within(models, key, n),
    decreases m,
{
    if let Some(parent) = parent_key(models)(key) {
        lemma_resolved_within(models, parent, (m - 1) as nat, (n - 1) as nat);
    }
}

/// A model without parent is what is stored under its name; one with a parent
/// inherits from what its parent is once that has inherited in turn.
pub proof fn law_inheritance(models: Map<Seq<char>, ModelView>, name: Seq<char>)
    requires
        ancestry_is_finite(models, name),
    ensures
        resolved(models, name) == (match stored(models, normalized(name)).parent {
            None => stored(models, normalized(name)),
            Some(parent) => inherited(
                stored(models, normalized(name)),
                resolved(models, parent),
            ),
        }),
        stored(models, normalized(name)).parent matches Some(parent) ==> ancestry_is_finite(
            models,
            parent,
        ),
{
    let next = parent_key(models);
    let key = normalized(name);
    lemma_ends_step(next, key);
    if let Some(parent) = next(key) {
        let n = steps(next, key);
        lemma_resolved_within(models, parent, (n - 1) as nat, steps(next, parent));
    }
}

/// The entry under `k`, where there is one.
pub open spec fn entry<T>(map: Option<Map<Seq<char>, T>>, k: Seq<char>) -> Option<T> {
    match map {
        Some(entries) if entries.dom().contains(k) => Some(entries[k]),
        _ => None,
    }
}

/// What a model gives itself it keeps: boxes, textures and placements of its own
/// are not replaced by those of an ancestor.
pub proof fn law_own_comes_first(models: Map<Seq<char>, ModelView>, name: Seq<char>, k: Seq<char>)
    requires
        ancestry_is_finite(models, name),
    ensures
        ({
            let own = stored(models, normalized(name));
            let whole = resolved(models, name);
            &&& whole.parent == own.parent
            &&& own.elements is Some ==> whole.elements == own.elements
            &&& entry(own.textures, k) is Some ==> entry(whole.textures, k) == entry(
                own.textures,
                k,
            )
            &&& entry(own.display, k) is Some ==> entry(whole.display, k) == entry(own.display, k)
        }),
{
    law_inheritance(models, name);
}

/// What a model leaves out it has as its parent has it.
pub proof fn law_rest_is_inherited(
    models: Map<Seq<char>, ModelView>,
    name: Seq<char>,
    parent: Seq<char>,
    k: Seq<char>,
)
    requires
        ancestry_is_finite(models, name),
        stored(models, normalized(name)).parent == Some(parent),
    ensures
        ({
            let own = stored(models, normalized(name));
            let whole = resolved(models, name);
            let above = resolved(models, parent);
            &&& own.elements is None ==> whole.elements == above.elements
            &&& whole.textures is Some
            &&& whole.display is Some
            &&& entry(own.textures, k) is None ==> entry(whole.textures, k) == entry(
                above.textures,
                k,
            )
            &&& entry(own.display, k) is None ==> entry(whole.display, k) == entry(above.display, k)
        }),
{
    law_inheritance(models, name);
}

/// What is no reference, or leads nowhere, is its own texture; a reference
/// stands for what the texture that it leads to stands for.
pub proof fn law_references(textures: Map<Seq<char>, ValueView>, texture: Seq<char>)
    requires
        reference_is_finite(textures, texture),
    ensures
        texture_name(textures, texture) == (match reference(textures)(texture) {
            None => normalized(texture),
            Some(following) => texture_name(textures, following),
        }),
        reference(textures)(texture) matches Some(following) ==> reference_is_finite(
            textures,
            following,
        ),
{
    lemma_last_step(reference(textures), texture);
    lemma_ends_step(reference(textures), texture);
}

}
