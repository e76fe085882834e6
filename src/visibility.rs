//! The per-camera draw list: which entities a camera draws, and in what
//! order.
//!
//! Each candidate carries an order key, the squared ambient distance between
//! the camera and the entity encoded so that integer order is distance
//! order (for a non-negative IEEE float, its bit pattern). A candidate
//! without a world pose takes instead the next of a sequence of fallback
//! keys given by the caller, in the same encoding, so that the list stays
//! deterministic. Opaque entities are drawn nearest first, transparent ones
//! farthest first; entities with equal keys keep their candidate order.

use vstd::prelude::*;
use vstd::seq_lib::lemma_multiset_commutative;

verus! {

/// A set of render layers as a bit mask: bit `n` stands for layer `n`.
#[derive(Debug, Clone, Copy, PartialEq, Eq, Structural)]
pub struct RenderLayers {
    pub mask: u32,
}

/// The layers of an entity or camera that names none: layer 0 alone.
pub const DEFAULT_LAYER_MASK: u32 = 1;

impl RenderLayers {
    /// The layers of an entity or camera that names none.
    pub open spec fn default_layers() -> RenderLayers {
        RenderLayers { mask: DEFAULT_LAYER_MASK }
    }

    pub open spec fn shares_layer(self, other: RenderLayers) -> bool {
        self.mask & other.mask != 0
    }

    /// Layer 0 alone.
    pub fn layer_zero() -> (r: RenderLayers)
        ensures
            r == RenderLayers::default_layers(),
    {
        RenderLayers { mask: DEFAULT_LAYER_MASK }
    }

    /// The two sets have a layer in common.
    pub fn intersects(&self, other: &RenderLayers) -> (r: bool)
        ensures
            r == self.shares_layer(*other),
    {
        self.mask & other.mask != 0
    }
}

/// The layers named, or the default ones.
pub open spec fn layers_or_default(layers: Option<RenderLayers>) -> RenderLayers {
    match layers {
        Some(l) => l,
        None => RenderLayers::default_layers(),
    }
}

/// What the visibility pass reads of one entity.
#[derive(Debug, Clone, Copy, PartialEq, Eq, Structural)]
pub struct DrawCandidate {
    pub entity: u64,
    pub is_visible: bool,
    pub is_transparent: bool,
    pub layers: Option<RenderLayers>,
    /// Encoded squared ambient distance to the camera; `None` when the
    /// entity has no world pose.
    pub distance_key: Option<u64>,
}

/// An entity in a camera's draw list, with the key it was ordered by.
#[derive(Debug, Clone, Copy, PartialEq, Eq, Structural)]
pub struct VisibleEntity {
    pub entity: u64,
    pub order: u64,
}

/// A camera's draw list, rebuilt by every visibility pass.
pub struct VisibleEntities {
    pub value: Vec<VisibleEntity>,
}

/// The camera draws candidate `c`.
pub open spec fn is_drawn(c: DrawCandidate, camera: RenderLayers) -> bool {
    c.is_visible && camera.shares_layer(layers_or_default(c.layers))
}

/// How many drawn candidates of `cands` have no world pose.
pub open spec fn poseless_count(cands: Seq<DrawCandidate>, camera: RenderLayers) -> nat
    decreases cands.len(),
{
    if cands.len() == 0 {
        0
    } else {
        poseless_count(cands.drop_last(), camera) + if is_drawn(cands.last(), camera)
            && cands.last().distance_key is None {
            1nat
        } else {
            0nat
        }
    }
}

/// The drawn candidates of `cands` that are transparent (or opaque, when
/// `transparent` is false), in candidate order, each with its order key:
/// its distance key, or for the `k`-th drawn candidate without a world pose
/// `fallback_keys[k]`.
pub open spec fn drawn(
    cands: Seq<DrawCandidate>,
    camera: RenderLayers,
    fallback_keys: Seq<u64>,
    transparent: bool,
) -> Seq<VisibleEntity>
    decreases cands.len(),
{
    if cands.len() == 0 {
        Seq::empty()
    } else {
        let prev = drawn(cands.drop_last(), camera, fallback_keys, transparent);
        let c = cands.last();
        if is_drawn(c, camera) && c.is_transparent == transparent {
            let order = match c.distance_key {
                Some(d) => d,
                None => fallback_keys[poseless_count(cands.drop_last(), camera) as int],
            };
            prev.push(VisibleEntity { entity: c.entity, order })
        } else {
            prev
        }
    }
}

/// An entry of a list to be sorted, with its place in that list.
#[derive(Debug, Clone, Copy, PartialEq, Eq, Structural)]
pub struct DrawItem {
    pub entry: VisibleEntity,
    pub position: usize,
}

/// The entries of `s`, each with its place in `s`.
pub open spec fn indexed(s: Seq<VisibleEntity>) -> Seq<DrawItem> {
    Seq::new(s.len(), |i: int| DrawItem { entry: s[i], position: i as usize })
}

/// `a` is drawn no later than `b`: nearer first (farther first when
/// `farthest_first`), and on equal keys in their original order.
pub open spec fn draws_before(a: DrawItem, b: DrawItem, farthest_first: bool) -> bool {
    if a.entry.order == b.entry.order {
        a.position <= b.position
    } else if farthest_first {
        a.entry.order > b.entry.order
    } else {
        a.entry.order < b.entry.order
    }
}

pub open spec fn is_draw_sorted(s: Seq<DrawItem>, farthest_first: bool) -> bool {
    forall|i: int, j: int| 0 <= i < j < s.len() ==> draws_before(#[trigger] s[i], #[trigger] s[j], farthest_first)
}

/// `output` is `input` sorted by key, nearest first (farthest first when
/// `farthest_first`), entries with equal keys keeping their order in `input`.
pub open spec fn is_stable_draw_sort(input: Seq<VisibleEntity>, output: Seq<VisibleEntity>, farthest_first: bool) -> bool {
    exists|items: Seq<DrawItem>|
        #[trigger] is_draw_sorted(items, farthest_first) && items.to_multiset() == indexed(input).to_multiset()
            && output == items.map_values(|d: DrawItem| d.entry)
}

/// `list` is the draw list of the camera: the opaque entities it draws,
/// nearest first, then the transparent ones, farthest first.
pub open spec fn is_draw_list(
    list: Seq<VisibleEntity>,
    cands: Seq<DrawCandidate>,
    camera: RenderLayers,
    fallback_keys: Seq<u64>,
) -> bool {
    let opaque = drawn(cands, camera, fallback_keys, false);
    let transparent = drawn(cands, camera, fallback_keys, true);
    &&& list.len() == opaque.len() + transparent.len()
    &&& is_stable_draw_sort(opaque, list.subrange(0, opaque.len() as int), false)
    &&& is_stable_draw_sort(transparent, list.subrange(opaque.len() as int, list.len() as int), true)
}

fn draws_before_exec(a: &DrawItem, b: &DrawItem, farthest_first: bool) -> (r: bool)
    ensures
        r == draws_before(*a, *b, farthest_first),
{
    if a.entry.order == b.entry.order {
        a.position <= b.position
    } else if farthest_first {
        a.entry.order > b.entry.order
    } else {
        a.entry.order < b.entry.order
    }
}

proof fn lemma_insert_to_multiset<A>(s: Seq<A>, p: int, x: A)
    requires
        0 <= p <= s.len(),
    ensures
        s.insert(p, x).to_multiset() =~= s.to_multiset().insert(x),
{
    let a = s.subrange(0, p);
    let b = s.subrange(p, s.len() as int);
    assert(s =~= a + b);
    assert(s.insert(p, x) =~= a.push(x) + b);
    lemma_multiset_commutative(a, b);
    lemma_multiset_commutative(a.push(x), b);
    a.to_multiset_ensures();
}

/// Insertion sort of draw items.
fn sort_items(v: &Vec<DrawItem>, farthest_first: bool) -> (r: Vec<DrawItem>)
    ensures
        r@.to_multiset() == v@.to_multiset(),
        is_draw_sorted(r@, farthest_first),
{
    let mut r: Vec<DrawItem> = Vec::new();
    let mut i: usize = 0;
    proof {
        assert(r@ =~= v@.take(0));
    }
    while i < v.len()
        invariant
            i <= v.len(),
            r@.to_multiset() == v@.take(i as int).to_multiset(),
            is_draw_sorted(r@, farthest_first),
        decreases v.len() - i,
    {
        let x = v[i];
        let mut p: usize = 0;
        while p < r.len() && draws_before_exec(&r[p], &x, farthest_first)
            invariant
                p <= r.len(),
                forall|q: int| 0 <= q < p ==> draws_before(#[trigger] r[q], x, farthest_first),
            decreases r.len() - p,
        {
            p += 1;
        }
        let ghost before = r@;
        proof {
            lemma_insert_to_multiset(before, p as int, x);
            assert(v@.take(i + 1) =~= v@.take(i as int).push(x));
            v@.take(i as int).to_multiset_ensures();
            if p < before.len() {
                assert forall|q: int| p <= q < before.len() implies draws_before(x, #[trigger] before[q], farthest_first) by {
                    if q > p {
                        assert(draws_before(before[p as int], before[q], farthest_first));
                    }
                }
            }
        }
        r.insert(p, x);
        proof {
            before.insert_ensures(p as int, x);
            assert forall|a: int, b: int| 0 <= a < b < r.len() implies draws_before(#[trigger] r[a], #[trigger] r[b], farthest_first) by {
                if a < p && b > p {
                    assert(draws_before(before[a], x, farthest_first));
                    assert(draws_before(x, before[b - 1], farthest_first));
                } else if b < p {
                    assert(draws_before(before[a], before[b], farthest_first));
                } else if a > p {
                    assert(draws_before(before[a - 1], before[b - 1], farthest_first));
                }
            }
        }
        i += 1;
    }
    proof {
        assert(v@.take(v.len() as int) =~= v@);
    }
    r
}

/// Sorts a draw list by key, nearest first or farthest first; entries with
/// equal keys keep their order.
pub fn sort_draw_list(v: &Vec<VisibleEntity>, farthest_first: bool) -> (r: Vec<VisibleEntity>)
    ensures
        is_stable_draw_sort(v@, r@, farthest_first),
{
    let mut items: Vec<DrawItem> = Vec::new();
    let mut i: usize = 0;
    while i < v.len()
        invariant
            i <= v.len(),
            items.len() == i,
            forall|k: int| 0 <= k < i ==> #[trigger] items[k] == indexed(v@)[k],
        decreases v.len() - i,
    {
        items.push(DrawItem { entry: v[i], position: i });
        i += 1;
    }
    proof {
        assert(items@ =~= indexed(v@));
    }
    let sorted = sort_items(&items, farthest_first);
    let mut r: Vec<VisibleEntity> = Vec::new();
    let mut k: usize = 0;
    while k < sorted.len()
        invariant
            k <= sorted.len(),
            r.len() == k,
            forall|j: int| 0 <= j < k ==> #[trigger] r[j] == sorted[j].entry,
        decreases sorted.len() - k,
    {
        r.push(sorted[k].entry);
        k += 1;
    }
    proof {
        assert(r@ =~= sorted@.map_values(|d: DrawItem| d.entry));
        assert(is_draw_sorted(sorted@, farthest_first));
    }
    r
}

/// One visibility pass for a camera: discards the previous draw list and
/// rebuilds it from the candidates, opaque entities nearest first, then
/// transparent ones farthest first. A camera or entity that names no layers
/// is on layer 0. The `k`-th drawn candidate without a world pose takes the
/// key `fallback_keys[k]`; one key per candidate is always enough.
pub fn visible_entities_system(
    camera_layers: Option<RenderLayers>,
    candidates: &Vec<DrawCandidate>,
    fallback_keys: &Vec<u64>,
    visible: &mut VisibleEntities,
)
    requires
        fallback_keys.len() >= candidates.len(),
    ensures
        is_draw_list(final(visible).value@, candidates@, layers_or_default(camera_layers), fallback_keys@),
{
    visible.value.clear();
    let camera = match camera_layers {
        Some(l) => l,
        None => RenderLayers::layer_zero(),
    };
    let mut poseless: usize = 0;
    let mut opaque: Vec<VisibleEntity> = Vec::new();
    let mut transparent: Vec<VisibleEntity> = Vec::new();
    let mut i: usize = 0;
    proof {
        assert(candidates@.take(0) =~= Seq::<DrawCandidate>::empty());
    }
    while i < candidates.len()
        invariant
            i <= candidates.len(),
            fallback_keys.len() >= candidates.len(),
            camera == layers_or_default(camera_layers),
            visible.value@.len() == 0,
            poseless <= i,
            poseless == poseless_count(candidates@.take(i as int), camera),
            opaque@ == drawn(candidates@.take(i as int), camera, fallback_keys@, false),
            transparent@ == drawn(candidates@.take(i as int), camera, fallback_keys@, true),
        decreases candidates.len() - i,
    {
        let c = candidates[i];
        let layers = match c.layers {
            Some(l) => l,
            None => RenderLayers::layer_zero(),
        };
        if c.is_visible && camera.intersects(&layers) {
            let order = match c.distance_key {
                Some(d) => d,
                None => {
                    let o = fallback_keys[poseless];
                    poseless += 1;
                    o
                },
            };
            let e = VisibleEntity { entity: c.entity, order };
            if c.is_transparent {
                transparent.push(e);
            } else {
                opaque.push(e);
            }
        }
        proof {
            assert(candidates@.take(i + 1).drop_last() =~= candidates@.take(i as int));
        }
        i += 1;
    }
    proof {
        assert(candidates@.take(candidates.len() as int) =~= candidates@);
    }
    let mut nearest_first = sort_draw_list(&opaque, false);
    let mut farthest_first = sort_draw_list(&transparent, true);
    let ghost near = nearest_first@;
    let ghost far = farthest_first@;
    proof {
        let items = choose|items: Seq<DrawItem>|
            #[trigger] is_draw_sorted(items, false) && items.to_multiset() == indexed(opaque@).to_multiset()
                && near == items.map_values(|d: DrawItem| d.entry);
        items.to_multiset_ensures();
        indexed(opaque@).to_multiset_ensures();
        assert(near.len() == opaque.len());
    }
    visible.value.append(&mut nearest_first);
    visible.value.append(&mut farthest_first);
    proof {
        let list = visible.value@;
        assert(list =~= near + far);
        assert(list.subrange(0, near.len() as int) =~= near);
        assert(list.subrange(near.len() as int, list.len() as int) =~= far);
        let items = choose|items: Seq<DrawItem>|
            #[trigger] is_draw_sorted(items, true) && items.to_multiset() == indexed(transparent@).to_multiset()
                && far == items.map_values(|d: DrawItem| d.entry);
        items.to_multiset_ensures();
        indexed(transparent@).to_multiset_ensures();
    }
}

} // verus!
