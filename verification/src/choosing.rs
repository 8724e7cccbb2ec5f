//! Which models are drawn, and what is found where.
use crate::animation::TextureView;
use crate::assets::{
    is_rendered, longest, rank, references_of, source_is_usable, BaseSource, Probe,
};
use crate::json::ValueView;
use crate::model::{
    normalized, reference_is_finite, resolved, texture_name, DisplayTransform, ElementView,
    FaceView, ModelView,
};
use crate::name_map::{as_map, distinct, holds, position};
use crate::render::{
    element_is_renderable, face_is_renderable, is_renderable, side_named, size_fits,
};
use crate::text::{lemma_without_front, lemma_without_step, without};
use vstd::prelude::*;

verus! {

/// The parents whose children are drawn.
pub open spec fn drawn_parents() -> Seq<Seq<char>> {
    seq![
        "block/block"@,
        "minecraft:block/cube_all"@,
        "minecraft:block/cube_column"@,
        "minecraft:block/cube_bottom_top"@,
        "minecraft:block/cube"@,
        "minecraft:block/stairs"@,
        "block/stairs"@,
        "minecraft:block/slab"@,
        "block/slab"@,
        "minecraft:block/carpet"@,
        "block/carpet"@,
    ]
}

/// Whether a name is that of a template.
pub open spec fn is_template(name: Seq<char>) -> bool {
    exists|rest: Seq<char>| name == #[trigger] ("template"@ + rest)
}

proof fn lemma_template(name: Seq<char>)
    ensures
        is_template(name) == "template"@.is_prefix_of(name),
{
    let front = "template"@;
    if front.is_prefix_of(name) {
        let rest = name.skip(front.len() as int);
        assert(name == front + rest);
    }
    if is_template(name) {
        let rest = choose|rest: Seq<char>| name == #[trigger] (front + rest);
        assert((front + rest).take(front.len() as int) == front);
    }
}

/// A model with a box, with a texture, with one of the parents whose children are drawn, and with
/// a name that is not that of a template is drawn, however many boxes and textures it has and
/// however it is placed; no other model is.
pub proof fn law_models_that_are_drawn(
    name: Seq<char>,
    parent: Seq<char>,
    textures: Map<Seq<char>, ValueView>,
    elements: Seq<ElementView>,
    display: Option<Map<Seq<char>, DisplayTransform>>,
    texture: Seq<char>,
)
    requires
        textures.dom().contains(texture),
        elements.len() > 0,
        !is_template(name),
        drawn_parents().contains(parent),
    ensures
        is_rendered(
            name,
            ModelView {
                parent: Some(parent),
                textures: Some(textures),
                elements: Some(elements),
                display,
            },
        ),
{
    lemma_template(name);
    assert(!Map::<Seq<char>, ValueView>::empty().dom().contains(texture));
    let i = choose|i: int| 0 <= i < drawn_parents().len() && drawn_parents()[i] == parent;
    assert(drawn_parents()[i] == parent);
}

/// A model that is drawn has boxes, textures and one of the parents whose children are drawn, and
/// is not a template.
pub proof fn law_no_other_models_are_drawn(name: Seq<char>, model: ModelView)
    requires
        is_rendered(name, model),
    ensures
        !is_template(name),
        model.elements matches Some(elements) && elements.len() > 0,
        model.textures matches Some(textures) && exists|k: Seq<char>| textures.dom().contains(k),
        model.parent matches Some(parent) && drawn_parents().contains(parent),
{
    lemma_template(name);
    let textures = model.textures.unwrap();
    if forall|k: Seq<char>| !textures.dom().contains(k) {
        assert(textures =~= Map::<Seq<char>, ValueView>::empty());
    }
    let all = drawn_parents();
    assert(all.contains(all[0]) && all.contains(all[1]) && all.contains(all[2]) && all.contains(
        all[3],
    ) && all.contains(all[4]) && all.contains(all[5]) && all.contains(all[6]) && all.contains(
        all[7],
    ) && all.contains(all[8]) && all.contains(all[9]) && all.contains(all[10]));
}

/// A model that is drawn is drawn with one more box, wherever it is put in, and with one more
/// texture.
pub proof fn law_more_is_drawn_too(
    name: Seq<char>,
    model: ModelView,
    k: int,
    element: ElementView,
    key: Seq<char>,
    value: ValueView,
)
    requires
        is_rendered(name, model),
        0 <= k <= model.elements.unwrap().len(),
    ensures
        is_rendered(
            name,
            ModelView {
                elements: Some(model.elements.unwrap().insert(k, element)),
                textures: Some(model.textures.unwrap().insert(key, value)),
                ..model
            },
        ),
{
    law_no_other_models_are_drawn(name, model);
    let textures = model.textures.unwrap().insert(key, value);
    assert(textures.dom().contains(key));
    assert(!Map::<Seq<char>, ValueView>::empty().dom().contains(key));
}

/// A folder can be used just where it is known, it exists, and the file with all models does.
pub proof fn law_folders_need_their_models(
    argument: Option<Probe>,
    executable: Option<Probe>,
    working: Probe,
    assets: Probe,
)
    ensures
        source_is_usable(BaseSource::Argument, argument, executable, working, assets) <==> argument
            == Some(Probe { folder: true, model_file: true }),
        source_is_usable(BaseSource::Executable, argument, executable, working, assets)
            <==> executable == Some(Probe { folder: true, model_file: true }),
        source_is_usable(BaseSource::WorkingDirectory, argument, executable, working, assets)
            <==> working == (Probe { folder: true, model_file: true }),
        source_is_usable(BaseSource::AssetsDirectory, argument, executable, working, assets)
            <==> assets == (Probe { folder: true, model_file: true }),
        rank(BaseSource::Argument) < rank(BaseSource::Executable),
        rank(BaseSource::Executable) < rank(BaseSource::WorkingDirectory),
        rank(BaseSource::WorkingDirectory) < rank(BaseSource::AssetsDirectory),
{
}

/// The frames of a model are those of the first of its textures that has the most.
pub proof fn law_first_of_the_longest(
    cache: Map<Seq<char>, TextureView>,
    files: Seq<Seq<char>>,
    n: nat,
    k: int,
)
    requires
        0 <= k < n <= files.len(),
        cache[files[k]].frames.len() > 1,
        forall|j: int|
            0 <= j < n ==> (#[trigger] cache[files[j]]).frames.len() <= cache[files[k]].frames.len(),
        forall|j: int|
            0 <= j < k ==> (#[trigger] cache[files[j]]).frames.len() < cache[files[k]].frames.len(),
    ensures
        longest(cache, files, n) == (cache[files[k]].frames.len(), cache[files[k]].frame_delays_ms),
    decreases n,
{
    if n - 1 > k {
        law_first_of_the_longest(cache, files, (n - 1) as nat, k);
        assert(cache[files[n - 1]].frames.len() <= cache[files[k]].frames.len());
    } else {
        lemma_shorter(cache, files, k as nat, cache[files[k]].frames.len());
    }
}

/// Where no texture has as many as `most` frames, neither has the longest.
proof fn lemma_shorter(
    cache: Map<Seq<char>, TextureView>,
    files: Seq<Seq<char>>,
    n: nat,
    most: nat,
)
    requires
        most > 1,
        forall|j: int| 0 <= j < n ==> (#[trigger] cache[files[j]]).frames.len() < most,
    ensures
        longest(cache, files, n).0 < most,
    decreases n,
{
    if n > 0 {
        lemma_shorter(cache, files, (n - 1) as nat, most);
        assert(cache[files[n - 1]].frames.len() < most);
    }
}

/// Where no texture has more than one frame, a model is drawn once.
pub proof fn law_stills_are_drawn_once(
    cache: Map<Seq<char>, TextureView>,
    files: Seq<Seq<char>>,
    n: nat,
)
    requires
        n <= files.len(),
        forall|j: int| 0 <= j < n ==> (#[trigger] cache[files[j]]).frames.len() <= 1,
    ensures
        longest(cache, files, n) == (1nat, Seq::<u32>::empty()),
    decreases n,
{
    if n > 0 {
        law_stills_are_drawn_once(cache, files, (n - 1) as nat);
        assert(cache[files[n - 1]].frames.len() <= 1);
    }
}

/// The references of a model are those of its boxes, one box after the other, and of a box those
/// of its faces.
pub proof fn law_references_are_those_of_all_faces(elements: Seq<ElementView>, element: ElementView)
    ensures
        references_of(Seq::<ElementView>::empty(), 0) == Seq::<Seq<char>>::empty(),
        ({
            let more = elements.push(element);
            let before = references_of(elements, elements.len());
            let after = references_of(more, more.len());
            &&& after.len() == before.len() + element.faces.len()
            &&& forall|i: int| 0 <= i < before.len() ==> #[trigger] after[i] == before[i]
            &&& forall|f: int|
                0 <= f < element.faces.len() ==> #[trigger] after[before.len() + f]
                    == element.faces[f].1.texture
        }),
{
    lemma_first_references(elements, elements.push(element), elements.len());
}

proof fn lemma_first_references(a: Seq<ElementView>, b: Seq<ElementView>, n: nat)
    requires
        n <= a.len(),
        n <= b.len(),
        forall|i: int| 0 <= i < n ==> a[i] == #[trigger] b[i],
    ensures
        references_of(a, n) == references_of(b, n),
    decreases n,
{
    if n > 0 {
        lemma_first_references(a, b, (n - 1) as nat);
        assert(a[n - 1] == b[n - 1]);
    }
}

/// A model without parent is as it is stored under its plain name; under a name that is not
/// stored there is nothing.
pub proof fn law_models_are_found(models: Map<Seq<char>, ModelView>, name: Seq<char>)
    ensures
        models.dom().contains(normalized(name)) && models[normalized(name)].parent is None
            ==> resolved(models, name) == models[normalized(name)],
        !models.dom().contains(normalized(name)) ==> resolved(models, name) == (ModelView {
            parent: None,
            textures: None,
            elements: None,
            display: None,
        }),
{
    crate::chain::lemma_ends_step(crate::model::parent_key(models), normalized(name));
    if crate::model::stored(models, normalized(name)).parent is None {
        crate::model::law_inheritance(models, name);
    }
}

/// A text that does not start with `#` names a texture file; one that does stands for what is
/// found under the rest of it, a text or the sprite of an object, and for itself where nothing
/// else is found.
pub proof fn law_what_references_stand_for(
    textures: Map<Seq<char>, ValueView>,
    key: Seq<char>,
    plain: Seq<char>,
)
    requires
        plain.len() == 0 || plain[0] != '#',
        reference_is_finite(textures, seq!['#'] + key),
    ensures
        texture_name(textures, plain) == normalized(plain),
        !textures.dom().contains(key) ==> texture_name(textures, seq!['#'] + key) == normalized(
            seq!['#'] + key,
        ),
        textures.dom().contains(key) ==> match textures[key] {
            ValueView::Text(text) => texture_name(textures, seq!['#'] + key) == texture_name(
                textures,
                text,
            ),
            ValueView::Object(members) => if members.dom().contains("sprite"@) && members[
                "sprite"@
            ] is Text {
                texture_name(textures, seq!['#'] + key) == texture_name(
                    textures,
                    members["sprite"@]->Text_0,
                )
            } else {
                texture_name(textures, seq!['#'] + key) == normalized(seq!['#'] + key)
            },
            _ => texture_name(textures, seq!['#'] + key) == normalized(seq!['#'] + key),
        },
{
    let reference = seq!['#'] + key;
    assert(reference.skip(1) == key);
    assert(reference[0] == '#');
    crate::model::law_references(textures, reference);
    crate::chain::lemma_ends_step(crate::model::reference(textures), plain);
    crate::model::law_references(textures, plain);
}

/// A name without namespace and folder stays as it is.
pub proof fn law_plain_names_stay(name: Seq<char>)
    requires
        forall|i: int| 0 <= i < name.len() ==> #[trigger] name[i] != ':' && name[i] != '/',
    ensures
        normalized(name) == name,
{
    reveal_strlit("minecraft:");
    reveal_strlit("block/");
    lemma_kept(name, "minecraft:"@, 9);
    lemma_kept(name, "block/"@, 5);
}

/// A text that holds not all characters of a pattern stays as it is when the pattern is removed.
proof fn lemma_kept(text: Seq<char>, pattern: Seq<char>, at: int)
    requires
        0 <= at < pattern.len(),
        forall|i: int| 0 <= i < text.len() ==> #[trigger] text[i] != pattern[at],
    ensures
        crate::text::without(text, pattern) == text,
    decreases text.len(),
{
    if text.len() > 0 {
        if pattern.is_prefix_of(text) {
            assert(text[at] == pattern[at]);
        }
        crate::text::lemma_without_step(text, pattern);
        let rest = text.skip(1);
        assert forall|i: int| 0 <= i < rest.len() implies #[trigger] rest[i] != pattern[at] by {
            assert(rest[i] == text[i + 1]);
        }
        lemma_kept(rest, pattern, at);
        assert(seq![text[0]] + rest == text);
    }
}

/// A pattern is taken out wherever it occurs, and what stands before and behind it stays, but for
/// more of the same behind.
pub proof fn law_patterns_are_taken_out_everywhere(
    front: Seq<char>,
    pattern: Seq<char>,
    back: Seq<char>,
)
    requires
        pattern.len() > 0,
        forall|i: int| 0 <= i < front.len() ==> #[trigger] front[i] != pattern.last(),
        forall|i: int| 0 <= i < pattern.len() - 1 ==> #[trigger] pattern[i] != pattern.last(),
    ensures
        without(front + pattern + back, pattern) == front + without(back, pattern),
    decreases front.len(),
{
    let n = pattern.len() as int;
    let text = front + pattern + back;
    if front.len() == 0 {
        assert(text == pattern + back);
        lemma_without_front(pattern, back);
        assert(front + without(back, pattern) == without(back, pattern));
    } else {
        if pattern.is_prefix_of(text) {
            assert(text[n - 1] == pattern[n - 1]);
            if n - 1 < front.len() {
                assert(text[n - 1] == front[n - 1]);
            } else {
                assert(text[n - 1] == pattern[n - 1 - front.len()]);
            }
        }
        lemma_without_step(text, pattern);
        let rest = front.skip(1);
        assert(text.skip(1) == rest + pattern + back);
        assert forall|i: int| 0 <= i < rest.len() implies #[trigger] rest[i] != pattern.last() by {
            assert(rest[i] == front[i + 1]);
        }
        law_patterns_are_taken_out_everywhere(rest, pattern, back);
        assert(seq![front[0]] + (rest + without(back, pattern)) == front + without(back, pattern));
    }
}

/// A name loses its namespace and its folder, wherever they stand.
pub proof fn law_names_lose_namespace_and_folder(front: Seq<char>, back: Seq<char>)
    requires
        forall|i: int| 0 <= i < front.len() ==> #[trigger] front[i] != ':' && front[i] != '/',
    ensures
        without(front + "minecraft:"@ + back, "minecraft:"@) == front + without(
            back,
            "minecraft:"@,
        ),
        without(front + "block/"@ + back, "block/"@) == front + without(back, "block/"@),
        normalized(back) == without(without(back, "minecraft:"@), "block/"@),
{
    reveal_strlit("minecraft:");
    reveal_strlit("block/");
    law_patterns_are_taken_out_everywhere(front, "minecraft:"@, back);
    law_patterns_are_taken_out_everywhere(front, "block/"@, back);
}

/// A map holds just its entries: under each name the value that stands with it.
pub proof fn law_maps_hold_their_entries<T>(items: Seq<(Seq<char>, T)>, i: int, name: Seq<char>)
    requires
        distinct(items),
        0 <= i < items.len(),
    ensures
        as_map(items).dom().contains(items[i].0),
        as_map(items)[items[i].0] == items[i].1,
        as_map(items).dom().contains(name) ==> exists|j: int|
            0 <= j < items.len() && (#[trigger] items[j]).0 == name && as_map(items)[name]
                == items[j].1,
{
    let key = items[i].0;
    assert(holds(items, key));
    let k = position(items, key);
    assert(0 <= k < items.len() && items[k].0 == key);
    if k < i {
        assert(items[k].0 != items[i].0);
    }
    if i < k {
        assert(items[i].0 != items[k].0);
    }
    if as_map(items).dom().contains(name) {
        let j = position(items, name);
        assert(0 <= j < items.len() && items[j].0 == name);
    }
}

/// A face can be drawn where its references end and its texture file is not there, or has frames
/// that all have pixels; it can not where they do not end, or the file has no frames.
pub proof fn law_which_faces_can_be_drawn(
    textures: Map<Seq<char>, ValueView>,
    cache: Map<Seq<char>, TextureView>,
    index: int,
    name: Seq<char>,
    face: FaceView,
)
    requires
        0 <= index,
    ensures
        ({
            let file = texture_name(textures, face.texture);
            let there = cache.dom().contains(file);
            let ends = reference_is_finite(textures, face.texture);
            let can = face_is_renderable(textures, cache, index, name, face);
            &&& !ends ==> !can
            &&& ends && !there ==> can
            &&& there && cache[file].frames.len() == 0 ==> !can
            &&& ends && there && cache[file].frames.len() > 0 && (forall|k: int|
                0 <= k < cache[file].frames.len() ==> (#[trigger] cache[file].frames[k]).width > 0
                    && cache[file].frames[k].height > 0) ==> can
            &&& there && index < cache[file].frames.len() && name == "up"@ && (
            cache[file].frames[index].width == 0 || cache[file].frames[index].height == 0) ==> !can
        }),
{
    let file = texture_name(textures, face.texture);
    let frames = cache[file].frames;
    if frames.len() > 0 {
        vstd::arithmetic::div_mod::lemma_mod_bound(index, frames.len() as int);
        let shown = frames[index % frames.len() as int];
        if index < frames.len() {
            vstd::arithmetic::div_mod::lemma_small_mod(index as nat, frames.len());
        }
    }
    reveal_strlit("up");
    assert(side_named("up"@) is Some) by {
        crate::mapping::law_sides_have_their_names("up"@, crate::render::Side::Up);
    }
}

/// Boxes can be drawn where each of them can.
pub proof fn law_one_more_box_can_be_drawn(
    textures: Map<Seq<char>, ValueView>,
    cache: Map<Seq<char>, TextureView>,
    index: int,
    elements: Seq<ElementView>,
    element: ElementView,
)
    ensures
        is_renderable(textures, cache, index, Seq::<ElementView>::empty()),
        is_renderable(textures, cache, index, elements.push(element)) <==> is_renderable(
            textures,
            cache,
            index,
            elements,
        ) && element_is_renderable(textures, cache, index, element),
{
    let more = elements.push(element);
    assert(more[elements.len() as int] == element);
    assert forall|i: int| 0 <= i < elements.len() implies more[i] == #[trigger] elements[i] by {
    }
    if is_renderable(textures, cache, index, more) {
        assert forall|i: int| 0 <= i < elements.len() implies element_is_renderable(
            textures,
            cache,
            index,
            #[trigger] elements[i],
        ) by {
            assert(element_is_renderable(textures, cache, index, more[i]));
        }
    }
}

/// An image can be held where its canvas can: four bytes for each pixel, four times as many where
/// edges are smoothed.
pub proof fn law_sizes_that_fit(n: nat)
    ensures
        size_fits(n, false) <==> n <= u32::MAX && 4 * (n * n) <= isize::MAX,
        size_fits(n, true) <==> n <= u32::MAX && 16 * (n * n) <= isize::MAX,
{
    assert((n * 2) * (n * 2) == 4 * (n * n)) by (nonlinear_arith);
    assert((n * 1) * (n * 1) == n * n) by (nonlinear_arith);
    assert(n * n >= 0) by (nonlinear_arith);
}

}
