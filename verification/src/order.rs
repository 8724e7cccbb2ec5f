//! The order in which boxes are drawn: where it does not matter.
use crate::animation::frame_at;
use crate::arith::Meaning;
use crate::model::{texture_name, ElementView, FaceView};
use crate::pixels::ImageView;
use crate::raster::{
    are_apart, is_cut_out, is_whole, law_either_order, opaque_is_exact, piece_drawn, Canvas, Piece,
};
use crate::render::{
    blank_canvas, elements_drawn, face_drawn, face_vertices, faces_drawn, is_image_of_scene,
    lemma_same_image, scene_canvas, side_named, Projection, Scene,
};
use vstd::prelude::*;

verus! {

/// The triangles that a face is drawn as.
pub open spec fn face_pieces(
    sem: Meaning,
    to: Projection,
    scene: Scene,
    element: ElementView,
    name: Seq<char>,
    face: FaceView,
) -> Seq<Piece> {
    let file = texture_name(scene.textures, face.texture);
    match side_named(name) {
        Some(side) if scene.cache.dom().contains(file) => {
            let tex = frame_at(scene.cache[file], scene.frame_index);
            let v = face_vertices(sem, to, element, side, face, scene.size);
            seq![
                Piece { v0: v.0, v1: v.1, v2: v.2, tex },
                Piece { v0: v.1, v1: v.3, v2: v.2, tex },
            ]
        },
        _ => Seq::empty(),
    }
}

/// The triangles that the first `n` faces of a box are drawn as.
pub open spec fn box_pieces(
    sem: Meaning,
    to: Projection,
    scene: Scene,
    element: ElementView,
    n: nat,
) -> Seq<Piece>
    decreases n,
{
    if n == 0 {
        Seq::empty()
    } else {
        let (name, face) = element.faces[n - 1];
        box_pieces(sem, to, scene, element, (n - 1) as nat) + face_pieces(
            sem,
            to,
            scene,
            element,
            name,
            face,
        )
    }
}

/// Whether no two faces of the two boxes are at the same depth at a pixel that both cover.
pub open spec fn boxes_are_apart(
    sem: Meaning,
    to: Projection,
    scene: Scene,
    a: ElementView,
    b: ElementView,
) -> bool {
    let ps = box_pieces(sem, to, scene, a, a.faces.len());
    let qs = box_pieces(sem, to, scene, b, b.faces.len());
    forall|i: int, j: int|
        0 <= i < ps.len() && 0 <= j < qs.len() ==> are_apart(
            sem,
            scene.size,
            scene.size,
            #[trigger] ps[i],
            #[trigger] qs[j],
        )
}

/// Whether each frame that is shown is opaque where it shows.
pub open spec fn frames_are_cut_out(sem: Meaning, scene: Scene) -> bool {
    forall|file: Seq<char>| #[trigger]
        scene.cache.dom().contains(file) ==> is_cut_out(
            sem,
            frame_at(scene.cache[file], scene.frame_index),
        )
}

/// The canvas once the pieces are drawn, one after the other.
spec fn pieces_drawn(sem: Meaning, before: Canvas, size: nat, pieces: Seq<Piece>) -> Canvas
    decreases pieces.len(),
{
    if pieces.len() == 0 {
        before
    } else {
        piece_drawn(
            sem,
            pieces_drawn(sem, before, size, pieces.drop_last()),
            size,
            size,
            pieces.last(),
        )
    }
}

/// Whether each of the pieces is opaque where it shows.
spec fn all_cut_out(sem: Meaning, pieces: Seq<Piece>) -> bool {
    forall|i: int| 0 <= i < pieces.len() ==> is_cut_out(sem, (#[trigger] pieces[i]).tex)
}

proof fn lemma_stays_whole(sem: Meaning, before: Canvas, size: nat, pieces: Seq<Piece>)
    requires
        is_whole(before, size, size),
    ensures
        is_whole(pieces_drawn(sem, before, size, pieces), size, size),
    decreases pieces.len(),
{
    if pieces.len() > 0 {
        lemma_stays_whole(sem, before, size, pieces.drop_last());
    }
}

/// Pieces after pieces are all of them one after the other.
proof fn lemma_joined(sem: Meaning, before: Canvas, size: nat, a: Seq<Piece>, b: Seq<Piece>)
    ensures
        pieces_drawn(sem, before, size, a + b) == pieces_drawn(
            sem,
            pieces_drawn(sem, before, size, a),
            size,
            b,
        ),
    decreases b.len(),
{
    if b.len() == 0 {
        assert(a + b == a);
    } else {
        lemma_joined(sem, before, size, a, b.drop_last());
        assert((a + b).drop_last() == a + b.drop_last());
        assert((a + b).last() == b.last());
    }
}

/// A face is drawn as its pieces.
proof fn lemma_face_as_pieces(
    sem: Meaning,
    to: Projection,
    scene: Scene,
    before: Canvas,
    element: ElementView,
    name: Seq<char>,
    face: FaceView,
)
    ensures
        face_drawn(sem, to, scene, before, element, name, face) == pieces_drawn(
            sem,
            before,
            scene.size,
            face_pieces(sem, to, scene, element, name, face),
        ),
        frames_are_cut_out(sem, scene) ==> all_cut_out(
            sem,
            face_pieces(sem, to, scene, element, name, face),
        ),
{
    let pieces = face_pieces(sem, to, scene, element, name, face);
    if pieces.len() > 0 {
        let first = pieces.drop_last();
        assert(first.drop_last().len() == 0);
        assert(first.last() == pieces[0]);
        assert(pieces_drawn(sem, before, scene.size, first) == piece_drawn(
            sem,
            pieces_drawn(sem, before, scene.size, first.drop_last()),
            scene.size,
            scene.size,
            pieces[0],
        ));
    }
}

/// A box is drawn as its pieces.
proof fn lemma_box_as_pieces(
    sem: Meaning,
    to: Projection,
    scene: Scene,
    before: Canvas,
    element: ElementView,
    n: nat,
)
    ensures
        faces_drawn(sem, to, scene, before, element, n) == pieces_drawn(
            sem,
            before,
            scene.size,
            box_pieces(sem, to, scene, element, n),
        ),
        frames_are_cut_out(sem, scene) ==> all_cut_out(
            sem,
            box_pieces(sem, to, scene, element, n),
        ),
    decreases n,
{
    if n > 0 {
        let m = (n - 1) as nat;
        let (name, face) = element.faces[n - 1];
        let a = box_pieces(sem, to, scene, element, m);
        let b = face_pieces(sem, to, scene, element, name, face);
        let earlier = faces_drawn(sem, to, scene, before, element, m);
        lemma_box_as_pieces(sem, to, scene, before, element, m);
        lemma_face_as_pieces(sem, to, scene, earlier, element, name, face);
        lemma_joined(sem, before, scene.size, a, b);
        if frames_are_cut_out(sem, scene) {
            assert forall|i: int| 0 <= i < (a + b).len() implies is_cut_out(
                sem,
                (#[trigger] (a + b)[i]).tex,
            ) by {
                if i < a.len() {
                    assert((a + b)[i] == a[i]);
                } else {
                    assert((a + b)[i] == b[i - a.len()]);
                }
            }
        }
    }
}

/// A piece can be drawn before or after others from which it is apart.
proof fn lemma_piece_past(sem: Meaning, before: Canvas, size: nat, p: Piece, qs: Seq<Piece>)
    requires
        opaque_is_exact(sem),
        is_whole(before, size, size),
        is_cut_out(sem, p.tex),
        all_cut_out(sem, qs),
        forall|j: int| 0 <= j < qs.len() ==> are_apart(sem, size, size, p, #[trigger] qs[j]),
    ensures
        pieces_drawn(sem, piece_drawn(sem, before, size, size, p), size, qs) == piece_drawn(
            sem,
            pieces_drawn(sem, before, size, qs),
            size,
            size,
            p,
        ),
    decreases qs.len(),
{
    if qs.len() > 0 {
        let rest = qs.drop_last();
        let q = qs.last();
        assert(q == qs[qs.len() - 1]);
        assert forall|j: int| 0 <= j < rest.len() implies are_apart(
            sem,
            size,
            size,
            p,
            #[trigger] rest[j],
        ) && is_cut_out(sem, rest[j].tex) by {
            assert(rest[j] == qs[j]);
        }
        lemma_piece_past(sem, before, size, p, rest);
        lemma_stays_whole(sem, before, size, rest);
        law_either_order(sem, pieces_drawn(sem, before, size, rest), size, size, p, q);
    }
}

/// Pieces that are apart from others can be drawn before or after them.
proof fn lemma_pieces_past(
    sem: Meaning,
    before: Canvas,
    size: nat,
    ps: Seq<Piece>,
    qs: Seq<Piece>,
)
    requires
        opaque_is_exact(sem),
        is_whole(before, size, size),
        all_cut_out(sem, ps),
        all_cut_out(sem, qs),
        forall|i: int, j: int|
            0 <= i < ps.len() && 0 <= j < qs.len() ==> are_apart(
                sem,
                size,
                size,
                #[trigger] ps[i],
                #[trigger] qs[j],
            ),
    ensures
        pieces_drawn(sem, pieces_drawn(sem, before, size, ps), size, qs) == pieces_drawn(
            sem,
            pieces_drawn(sem, before, size, qs),
            size,
            ps,
        ),
    decreases ps.len(),
{
    if ps.len() > 0 {
        let rest = ps.drop_last();
        let p = ps.last();
        assert(p == ps[ps.len() - 1]);
        assert forall|i: int| 0 <= i < rest.len() implies is_cut_out(
            sem,
            (#[trigger] rest[i]).tex,
        ) by {
            assert(rest[i] == ps[i]);
        }
        assert forall|i: int, j: int| 0 <= i < rest.len() && 0 <= j < qs.len() implies are_apart(
            sem,
            size,
            size,
            #[trigger] rest[i],
            #[trigger] qs[j],
        ) by {
            assert(rest[i] == ps[i]);
        }
        let earlier = pieces_drawn(sem, before, size, rest);
        lemma_stays_whole(sem, before, size, rest);
        lemma_piece_past(sem, earlier, size, p, qs);
        lemma_pieces_past(sem, before, size, rest, qs);
    }
}

/// The canvas once a box is drawn.
spec fn box_drawn(
    sem: Meaning,
    to: Projection,
    scene: Scene,
    before: Canvas,
    element: ElementView,
) -> Canvas {
    faces_drawn(sem, to, scene, before, element, element.faces.len())
}

/// The canvas once all boxes are drawn.
spec fn boxes_drawn(
    sem: Meaning,
    to: Projection,
    scene: Scene,
    before: Canvas,
    elements: Seq<ElementView>,
) -> Canvas {
    elements_drawn(sem, to, scene, before, elements, elements.len())
}

/// Boxes that are apart can be drawn in either order.
proof fn lemma_boxes_swap(
    sem: Meaning,
    to: Projection,
    scene: Scene,
    before: Canvas,
    a: ElementView,
    b: ElementView,
)
    requires
        opaque_is_exact(sem),
        is_whole(before, scene.size, scene.size),
        frames_are_cut_out(sem, scene),
        boxes_are_apart(sem, to, scene, a, b),
    ensures
        box_drawn(sem, to, scene, box_drawn(sem, to, scene, before, a), b) == box_drawn(
            sem,
            to,
            scene,
            box_drawn(sem, to, scene, before, b),
            a,
        ),
{
    let ps = box_pieces(sem, to, scene, a, a.faces.len());
    let qs = box_pieces(sem, to, scene, b, b.faces.len());
    lemma_box_as_pieces(sem, to, scene, before, a, a.faces.len());
    lemma_box_as_pieces(sem, to, scene, before, b, b.faces.len());
    lemma_box_as_pieces(
        sem,
        to,
        scene,
        box_drawn(sem, to, scene, before, a),
        b,
        b.faces.len(),
    );
    lemma_box_as_pieces(
        sem,
        to,
        scene,
        box_drawn(sem, to, scene, before, b),
        a,
        a.faces.len(),
    );
    lemma_pieces_past(sem, before, scene.size, ps, qs);
}

/// Only the first boxes count for what is drawn of them.
proof fn lemma_first_boxes(
    sem: Meaning,
    to: Projection,
    scene: Scene,
    before: Canvas,
    elements: Seq<ElementView>,
    others: Seq<ElementView>,
    n: nat,
)
    requires
        n <= elements.len(),
        n <= others.len(),
        forall|i: int| 0 <= i < n ==> elements[i] == #[trigger] others[i],
    ensures
        elements_drawn(sem, to, scene, before, elements, n) == elements_drawn(
            sem,
            to,
            scene,
            before,
            others,
            n,
        ),
    decreases n,
{
    if n > 0 {
        lemma_first_boxes(sem, to, scene, before, elements, others, (n - 1) as nat);
        assert(elements[n - 1] == others[n - 1]);
    }
}

/// The last box is drawn last.
proof fn lemma_last_box(
    sem: Meaning,
    to: Projection,
    scene: Scene,
    before: Canvas,
    elements: Seq<ElementView>,
)
    requires
        elements.len() > 0,
    ensures
        boxes_drawn(sem, to, scene, before, elements) == box_drawn(
            sem,
            to,
            scene,
            boxes_drawn(sem, to, scene, before, elements.drop_last()),
            elements.last(),
        ),
{
    let m = (elements.len() - 1) as nat;
    lemma_first_boxes(sem, to, scene, before, elements, elements.drop_last(), m);
}

proof fn lemma_boxes_stay_whole(
    sem: Meaning,
    to: Projection,
    scene: Scene,
    before: Canvas,
    elements: Seq<ElementView>,
)
    requires
        is_whole(before, scene.size, scene.size),
    ensures
        is_whole(boxes_drawn(sem, to, scene, before, elements), scene.size, scene.size),
    decreases elements.len(),
{
    if elements.len() > 0 {
        let rest = elements.drop_last();
        let element = elements.last();
        lemma_boxes_stay_whole(sem, to, scene, before, rest);
        lemma_last_box(sem, to, scene, before, elements);
        let earlier = boxes_drawn(sem, to, scene, before, rest);
        lemma_box_as_pieces(sem, to, scene, earlier, element, element.faces.len());
        lemma_stays_whole(
            sem,
            earlier,
            scene.size,
            box_pieces(sem, to, scene, element, element.faces.len()),
        );
    }
}

/// A box that is apart from those after it can as well be drawn last.
proof fn lemma_box_to_end(
    sem: Meaning,
    to: Projection,
    scene: Scene,
    before: Canvas,
    elements: Seq<ElementView>,
    at: int,
)
    requires
        opaque_is_exact(sem),
        is_whole(before, scene.size, scene.size),
        frames_are_cut_out(sem, scene),
        0 <= at < elements.len(),
        forall|k: int|
            at < k < elements.len() ==> boxes_are_apart(
                sem,
                to,
                scene,
                elements[at],
                #[trigger] elements[k],
            ),
    ensures
        boxes_drawn(sem, to, scene, before, elements) == box_drawn(
            sem,
            to,
            scene,
            boxes_drawn(sem, to, scene, before, elements.remove(at)),
            elements[at],
        ),
    decreases elements.len(),
{
    let rest = elements.drop_last();
    let last = elements.last();
    lemma_last_box(sem, to, scene, before, elements);
    if at == elements.len() - 1 {
        assert(elements.remove(at) == rest);
    } else {
        assert(last == elements[elements.len() - 1]);
        assert forall|k: int| at < k < rest.len() implies boxes_are_apart(
            sem,
            to,
            scene,
            rest[at],
            #[trigger] rest[k],
        ) by {
            assert(rest[k] == elements[k]);
        }
        lemma_box_to_end(sem, to, scene, before, rest, at);
        let fewer = rest.remove(at);
        let earlier = boxes_drawn(sem, to, scene, before, fewer);
        lemma_boxes_stay_whole(sem, to, scene, before, fewer);
        lemma_boxes_swap(sem, to, scene, earlier, elements[at], last);
        let without = elements.remove(at);
        assert(without == fewer.push(last));
        assert(without.drop_last() == fewer);
        lemma_last_box(sem, to, scene, before, without);
    }
}

/// Whether no two faces of different boxes are at the same depth at a pixel that both cover.
pub open spec fn all_boxes_are_apart(
    sem: Meaning,
    to: Projection,
    scene: Scene,
    elements: Seq<ElementView>,
) -> bool {
    forall|i: int, j: int|
        0 <= i < elements.len() && 0 <= j < elements.len() && i != j ==> boxes_are_apart(
            sem,
            to,
            scene,
            #[trigger] elements[i],
            #[trigger] elements[j],
        )
}

proof fn lemma_any_order(
    sem: Meaning,
    to: Projection,
    scene: Scene,
    before: Canvas,
    elements: Seq<ElementView>,
    others: Seq<ElementView>,
)
    requires
        opaque_is_exact(sem),
        is_whole(before, scene.size, scene.size),
        frames_are_cut_out(sem, scene),
        all_boxes_are_apart(sem, to, scene, elements),
        elements.to_multiset() == others.to_multiset(),
    ensures
        boxes_drawn(sem, to, scene, before, elements) == boxes_drawn(
            sem,
            to,
            scene,
            before,
            others,
        ),
    decreases elements.len(),
{
    broadcast use vstd::seq_lib::group_to_multiset_ensures;

    vstd::seq_lib::to_multiset_len(elements);
    vstd::seq_lib::to_multiset_len(others);
    if elements.len() > 0 {
        let rest = elements.drop_last();
        let x = elements.last();
        assert(elements == rest.push(x));
        assert(elements.to_multiset() == rest.to_multiset().insert(x));
        assert(others.to_multiset().count(x) > 0);
        assert(others.contains(x));
        let at = others.index_of(x);
        let fewer = others.remove(at);
        assert(fewer.to_multiset() == others.to_multiset().remove(x));
        assert(rest.to_multiset() == fewer.to_multiset());
        assert forall|k: int| at < k < others.len() implies boxes_are_apart(
            sem,
            to,
            scene,
            others[at],
            #[trigger] others[k],
        ) by {
            let y = others[k];
            assert(fewer[k - 1] == y);
            assert(fewer.contains(y));
            assert(rest.to_multiset().count(y) > 0);
            assert(rest.contains(y));
            let m = rest.index_of(y);
            assert(elements[m] == y);
            assert(elements[elements.len() - 1] == x);
        }
        assert forall|i: int, j: int|
            0 <= i < rest.len() && 0 <= j < rest.len() && i != j implies boxes_are_apart(
            sem,
            to,
            scene,
            #[trigger] rest[i],
            #[trigger] rest[j],
        ) by {
            assert(rest[i] == elements[i]);
            assert(rest[j] == elements[j]);
        }
        lemma_any_order(sem, to, scene, before, rest, fewer);
        lemma_box_to_end(sem, to, scene, before, others, at);
        lemma_last_box(sem, to, scene, before, elements);
    }
}

/// Boxes whose textures are opaque where they show, and no two of which are at the same depth at
/// a pixel that both cover, can be drawn in any order: the canvas and the image are the same.
pub proof fn law_any_order(
    sem: Meaning,
    to: Projection,
    scene: Scene,
    elements: Seq<ElementView>,
    others: Seq<ElementView>,
)
    requires
        opaque_is_exact(sem),
        frames_are_cut_out(sem, scene),
        all_boxes_are_apart(sem, to, scene, elements),
        elements.to_multiset() == others.to_multiset(),
    ensures
        scene_canvas(sem, to, scene, elements) == scene_canvas(sem, to, scene, others),
        forall|a: ImageView, b: ImageView, size: int, aa: bool|
            #[trigger] is_image_of_scene(sem, to, a, scene, elements, size, aa)
                && #[trigger] is_image_of_scene(sem, to, b, scene, others, size, aa) ==> a == b,
{
    lemma_any_order(sem, to, scene, blank_canvas(scene.size), elements, others);
    let colors = scene_canvas(sem, to, scene, elements).colors;
    assert forall|a: ImageView, b: ImageView, size: int, aa: bool|
        #[trigger] is_image_of_scene(sem, to, a, scene, elements, size, aa)
            && #[trigger] is_image_of_scene(sem, to, b, scene, others, size, aa) implies a == b by {
        lemma_same_image(sem, a, b, colors, size, aa);
    }
}

}
