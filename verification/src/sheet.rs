//! The sprite sheet builder: accumulate named sprites, then compose an atlas.
//!
//! `add_sprite` trims each incoming bitmap and appends a frame to the named
//! group, keeping insertion order both of groups and of frames within a
//! group. `compose` is the terminal step: it packs all trimmed bitmaps,
//! writes the final positions into the frames, and paints the atlas canvas.
//! Composition is a pure function of the accumulated state, so identical
//! `add_sprite` sequences always produce identical metadata and pixels.

use vstd::prelude::*;
use crate::bitmap::{Bitmap, BitmapView, blit_spec};
use crate::pack::{pack, pack_spec, pack_fits, rects_disjoint, SpriteDim, placements_ints};
use crate::trim::{trim, trim_spec, TrimView};


verus! {

/// One placed sprite's metadata: where it sits in the atlas, its trimmed and
/// original sizes, and the offsets that let a renderer re-center it.
#[derive(Clone, Copy, PartialEq, Eq, Structural, Debug)]
pub struct Frame {
    /// Distance from the original bitmap's left edge to the trimmed region.
    pub top_left_offset_x: u32,
    /// Distance from the original bitmap's top edge to the trimmed region.
    pub top_left_offset_y: u32,
    /// Signed distance from the original half-width to the trimmed region's
    /// left edge.
    pub center_offset_x: i32,
    /// Signed distance from the original half-height to the trimmed region's
    /// top edge.
    pub center_offset_y: i32,
    /// The x position of the frame in the sprite sheet.
    pub x: u32,
    /// The y position of the frame in the sprite sheet.
    pub y: u32,
    /// The width of the frame after trimming.
    pub width: u32,
    /// The height of the frame after trimming.
    pub height: u32,
    /// The original width of the frame before trimming.
    pub original_width: u32,
    /// The original height of the frame before trimming.
    pub original_height: u32,
}

/// One group key together with its ordered frames.
#[derive(Debug)]
pub struct SpriteGroup {
    /// The group key (a character or animation identifier).
    pub key: String,
    /// The frames of the group, in the order they were added.
    pub frames: Vec<Frame>,
}

/// The serializable aggregate: atlas dimensions, a name, and the ordered
/// groups of frames. Group order is the order in which keys first appeared.
#[derive(Debug)]
pub struct SpriteSheet {
    /// The width of the sprite sheet.
    pub width: u32,
    /// The height of the sprite sheet.
    pub height: u32,
    /// The name of the sprite sheet.
    pub name: String,
    /// The sprites in the sprite sheet.
    pub sprites: Vec<SpriteGroup>,
}

/// The mathematical value of a group.
#[verifier::ext_equal]
pub ghost struct GroupView {
    pub key: Seq<char>,
    pub frames: Seq<Frame>,
}

/// The mathematical value of a sprite sheet.
#[verifier::ext_equal]
pub ghost struct SheetView {
    pub width: int,
    pub height: int,
    pub name: Seq<char>,
    pub sprites: Seq<GroupView>,
}

impl View for SpriteGroup {
    type V = GroupView;

    open spec fn view(&self) -> GroupView {
        GroupView { key: self.key@, frames: self.frames@ }
    }
}

impl View for SpriteSheet {
    type V = SheetView;

    open spec fn view(&self) -> SheetView {
        SheetView {
            width: self.width as int,
            height: self.height as int,
            name: self.name@,
            sprites: Seq::new(self.sprites@.len(), |i: int| self.sprites@[i]@),
        }
    }
}

/// A trimmed bitmap waiting for placement, with the group and frame it
/// belongs to.
struct PendingSprite {
    group: usize,
    frame: usize,
    bitmap: Bitmap,
}

/// The mathematical value of a pending placement.
#[verifier::ext_equal]
pub ghost struct PendingView {
    pub group: int,
    pub frame: int,
    pub bitmap: BitmapView,
}

/// The mathematical value of a builder: the sheet name, the groups so far,
/// and the trimmed bitmaps waiting for placement.
#[verifier::ext_equal]
pub ghost struct BuilderView {
    pub name: Seq<char>,
    pub groups: Seq<GroupView>,
    pub pending: Seq<PendingView>,
}

/// Accumulates named sprites and composes them into an atlas on demand.
pub struct SpriteSheetBuilder {
    sheet: SpriteSheet,
    pending: Vec<PendingSprite>,
}

impl View for SpriteSheetBuilder {
    type V = BuilderView;

    closed spec fn view(&self) -> BuilderView {
        BuilderView {
            name: self.sheet.name@,
            groups: Seq::new(self.sheet.sprites@.len(), |i: int| self.sheet.sprites@[i]@),
            pending: Seq::new(self.pending@.len(), |k: int| PendingView {
                group: self.pending@[k].group as int,
                frame: self.pending@[k].frame as int,
                bitmap: self.pending@[k].bitmap@,
            }),
        }
    }
}

/// The first group whose key is `key`, or `groups.len()` when no group has
/// it.
pub open spec fn find_group_from(groups: Seq<GroupView>, key: Seq<char>, i: int) -> int
    decreases groups.len() - i,
{
    if i < 0 || i >= groups.len() {
        groups.len() as int
    } else if groups[i].key == key {
        i
    } else {
        find_group_from(groups, key, i + 1)
    }
}

/// The index of the group holding `key`, or `groups.len()` for a fresh key.
pub open spec fn find_group(groups: Seq<GroupView>, key: Seq<char>) -> int {
    find_group_from(groups, key, 0)
}

/// The frame recorded for a trimmed bitmap, before a position is known.
pub open spec fn frame_of(t: TrimView, ow: int, oh: int) -> Frame {
    Frame {
        top_left_offset_x: t.top_left_offset_x as u32,
        top_left_offset_y: t.top_left_offset_y as u32,
        center_offset_x: t.center_offset_x as i32,
        center_offset_y: t.center_offset_y as i32,
        x: 0,
        y: 0,
        width: t.bitmap.width as u32,
        height: t.bitmap.height as u32,
        original_width: ow as u32,
        original_height: oh as u32,
    }
}

/// What `add_sprite` does to the builder state: trim the bitmap, append the
/// frame to the named group (creating the group at the end for a fresh key),
/// and remember the trimmed bitmap with a reference to its frame.
pub open spec fn add_sprite_spec(b: BuilderView, key: Seq<char>, img: BitmapView) -> BuilderView {
    let t = trim_spec(img);
    let f = frame_of(t, img.width, img.height);
    let gi = find_group(b.groups, key);
    if gi == b.groups.len() {
        BuilderView {
            name: b.name,
            groups: b.groups.push(GroupView { key: key, frames: seq![f] }),
            pending: b.pending.push(PendingView { group: gi, frame: 0, bitmap: t.bitmap }),
        }
    } else {
        BuilderView {
            name: b.name,
            groups: b.groups.update(gi, GroupView {
                key: b.groups[gi].key,
                frames: b.groups[gi].frames.push(f),
            }),
            pending: b.pending.push(PendingView {
                group: gi,
                frame: b.groups[gi].frames.len() as int,
                bitmap: t.bitmap,
            }),
        }
    }
}

/// A frame never reports a trimmed size larger than its original size.
pub open spec fn frame_wf(f: Frame) -> bool {
    f.width <= f.original_width && f.height <= f.original_height
}

/// True when some pending placement points at frame `fi` of group `gi`.
pub open spec fn slot_covered(b: BuilderView, gi: int, fi: int) -> bool {
    exists|k: int| 0 <= k < b.pending.len()
        && (#[trigger] b.pending[k]).group == gi && b.pending[k].frame == fi
}

/// Structural soundness of a builder state: every pending placement points
/// at a distinct existing frame, every frame has exactly one pending
/// placement, frame sizes agree with their trimmed bitmaps, and group keys
/// are distinct.
pub open spec fn builder_inv(b: BuilderView) -> bool {
    &&& forall|k: int| 0 <= k < b.pending.len() ==> {
        let p = #[trigger] b.pending[k];
        &&& 0 <= p.group < b.groups.len()
        &&& 0 <= p.frame < b.groups[p.group].frames.len()
        &&& p.bitmap.wf()
        &&& b.groups[p.group].frames[p.frame].width == p.bitmap.width
        &&& b.groups[p.group].frames[p.frame].height == p.bitmap.height
    }
    &&& forall|k1: int, k2: int| 0 <= k1 < k2 < b.pending.len() ==>
        !((#[trigger] b.pending[k1]).group == (#[trigger] b.pending[k2]).group
            && b.pending[k1].frame == b.pending[k2].frame)
    &&& forall|gi: int, fi: int| 0 <= gi < b.groups.len() && 0 <= fi < b.groups[gi].frames.len()
        ==> #[trigger] slot_covered(b, gi, fi)
    &&& forall|g1: int, g2: int| 0 <= g1 < g2 < b.groups.len() ==>
        (#[trigger] b.groups[g1]).key != (#[trigger] b.groups[g2]).key
    &&& forall|gi: int, fi: int| #![trigger b.groups[gi].frames[fi]]
        0 <= gi < b.groups.len() && 0 <= fi < b.groups[gi].frames.len()
        ==> frame_wf(b.groups[gi].frames[fi])
}

impl SpriteSheetBuilder {
    /// The builder's bitmaps are all internally consistent, and its state
    /// satisfies the structural invariant. Established by `new` and kept by
    /// `add_sprite`.
    pub closed spec fn wf(&self) -> bool {
        &&& builder_inv(self@)
        &&& forall|k: int| 0 <= k < self.pending@.len() ==>
            (#[trigger] self.pending@[k]).bitmap.valid()
    }

    /// Creates an empty builder for a sheet with the given name.
    pub fn new(name: String) -> (r: SpriteSheetBuilder)
        ensures
            r.wf(),
            r@.name == name@,
            r@.groups == Seq::<GroupView>::empty(),
            r@.pending == Seq::<PendingView>::empty(),
    {
        let r = SpriteSheetBuilder {
            sheet: SpriteSheet { width: 0, height: 0, name, sprites: Vec::new() },
            pending: Vec::new(),
        };
        proof {
            assert(r@.groups =~= Seq::<GroupView>::empty());
            assert(r@.pending =~= Seq::<PendingView>::empty());
        }
        r
    }

    /// Trims the bitmap and appends the resulting frame to the named group,
    /// creating the group at the end when the key is new; the trimmed bitmap
    /// is kept aside for placement at composition time.
    pub fn add_sprite(&mut self, animation_name: String, img: Bitmap)
        requires
            old(self).wf(),
            img.valid(),
        ensures
            final(self).wf(),
            final(self)@ == add_sprite_spec(old(self)@, animation_name@, img@),
    {
        proof {
            img.lemma_valid_wf();
        }
        let ow = img.width();
        let oh = img.height();
        let t = trim(&img);
        let frame = Frame {
            top_left_offset_x: t.top_left_offset_x,
            top_left_offset_y: t.top_left_offset_y,
            center_offset_x: t.center_offset_x,
            center_offset_y: t.center_offset_y,
            x: 0,
            y: 0,
            width: t.bitmap.width(),
            height: t.bitmap.height(),
            original_width: ow,
            original_height: oh,
        };
        proof {
            assert(frame == frame_of(trim_spec(img@), img@.width, img@.height));
            t.bitmap.lemma_valid_wf();
        }

        let n = self.sheet.sprites.len();
        let mut gi: usize = 0;
        while gi < n
            invariant
                gi <= n,
                n == old(self)@.groups.len(),
                self == old(self),
                find_group(old(self)@.groups, animation_name@)
                    == find_group_from(old(self)@.groups, animation_name@, gi as int),
            ensures
                gi <= n,
                self == old(self),
                gi as int == find_group(old(self)@.groups, animation_name@),
            decreases n - gi,
        {
            if self.sheet.sprites[gi].key == animation_name {
                proof {
                    assert(old(self)@.groups[gi as int].key == animation_name@);
                }
                break;
            }
            gi = gi + 1;
        }
        let ghost gspec = find_group(old(self)@.groups, animation_name@);

        let fi: usize;
        if gi == n {
            let mut frames: Vec<Frame> = Vec::new();
            frames.push(frame);
            self.sheet.sprites.push(SpriteGroup { key: animation_name, frames });
            fi = 0;
        } else {
            let mut g = self.sheet.sprites.remove(gi);
            fi = g.frames.len();
            g.frames.push(frame);
            self.sheet.sprites.insert(gi, g);
        }
        self.pending.push(PendingSprite { group: gi, frame: fi, bitmap: t.bitmap });

        proof {
            let pre = old(self)@;
            let post = add_sprite_spec(pre, animation_name@, img@);
            assert(self@.groups =~~= post.groups);
            assert(self@.pending =~~= post.pending);
            assert(self@ =~~= post);
            lemma_add_sprite_keeps_inv(pre, animation_name@, img@);
        }
    }
}

/// `add_sprite` preserves the structural invariant of the builder state.
proof fn lemma_add_sprite_keeps_inv(b: BuilderView, key: Seq<char>, img: BitmapView)
    requires
        builder_inv(b),
        img.wf(),
    ensures
        builder_inv(add_sprite_spec(b, key, img)),
{
    let post = add_sprite_spec(b, key, img);
    let gi = find_group(b.groups, key);
    let t = trim_spec(img);
    let f = frame_of(t, img.width, img.height);
    lemma_find_group_props(b.groups, key);
    lemma_trim_bitmap_wf(img);

    assert forall|k: int| 0 <= k < post.pending.len() implies {
        let p = #[trigger] post.pending[k];
        &&& 0 <= p.group < post.groups.len()
        &&& 0 <= p.frame < post.groups[p.group].frames.len()
        &&& p.bitmap.wf()
        &&& post.groups[p.group].frames[p.frame].width == p.bitmap.width
        &&& post.groups[p.group].frames[p.frame].height == p.bitmap.height
    } by {
        if k < b.pending.len() {
            assert(post.pending[k] == b.pending[k]);
            let p = b.pending[k];
            if gi < b.groups.len() && p.group == gi {
                assert(post.groups[gi].frames[p.frame] == b.groups[gi].frames[p.frame]);
            } else {
                assert(post.groups[p.group] == b.groups[p.group]);
            }
        } else {
            assert(post.pending[k].bitmap == t.bitmap);
            if gi == b.groups.len() {
                assert(post.groups[gi].frames == seq![f]);
                assert(post.groups[gi].frames[0] == f);
            } else {
                assert(post.groups[gi].frames == b.groups[gi].frames.push(f));
                assert(post.groups[gi].frames[b.groups[gi].frames.len() as int] == f);
            }
        }
    }

    assert forall|k1: int, k2: int| 0 <= k1 < k2 < post.pending.len() implies
        !((#[trigger] post.pending[k1]).group == (#[trigger] post.pending[k2]).group
            && post.pending[k1].frame == post.pending[k2].frame) by {
        if k2 < b.pending.len() {
            assert(post.pending[k1] == b.pending[k1]);
            assert(post.pending[k2] == b.pending[k2]);
        } else {
            assert(post.pending[k1] == b.pending[k1]);
            if b.pending[k1].group == gi {
                assert(b.pending[k1].frame < b.groups[gi].frames.len());
            }
        }
    }

    assert forall|gix: int, fi: int| 0 <= gix < post.groups.len()
        && 0 <= fi < post.groups[gix].frames.len()
        implies #[trigger] slot_covered(post, gix, fi) by {
        let newk = post.pending.len() - 1;
        if gix == gi && fi == (if gi == b.groups.len() { 0int } else { b.groups[gi].frames.len() as int }) {
            assert(post.pending[newk].group == gix && post.pending[newk].frame == fi);
        } else {
            assert(0 <= gix < b.groups.len());
            assert(0 <= fi < b.groups[gix].frames.len());
            assert(slot_covered(b, gix, fi));
            let k = choose|k: int| 0 <= k < b.pending.len()
                && (#[trigger] b.pending[k]).group == gix && b.pending[k].frame == fi;
            assert(post.pending[k] == b.pending[k]);
            assert(post.pending[k].group == gix && post.pending[k].frame == fi);
        }
    }

    assert(frame_wf(f)) by {
        assert(t.bitmap.width <= img.width && t.bitmap.height <= img.height);
    }
    assert forall|gix: int, fi: int| #![trigger post.groups[gix].frames[fi]]
        0 <= gix < post.groups.len() && 0 <= fi < post.groups[gix].frames.len()
        implies frame_wf(post.groups[gix].frames[fi]) by {
        if gix == gi && fi == (if gi == b.groups.len() { 0int } else { b.groups[gi].frames.len() as int }) {
            assert(post.groups[gix].frames[fi] == f);
        } else {
            assert(post.groups[gix].frames[fi] == b.groups[gix].frames[fi]);
        }
    }

    assert forall|g1: int, g2: int| 0 <= g1 < g2 < post.groups.len() implies
        (#[trigger] post.groups[g1]).key != (#[trigger] post.groups[g2]).key by {
        if g2 < b.groups.len() {
            assert(post.groups[g1].key == b.groups[g1].key);
            assert(post.groups[g2].key == b.groups[g2].key);
        } else {
            assert(post.groups[g1].key == b.groups[g1].key);
            assert(post.groups[g2].key == key);
        }
    }

}

/// The trimmed bitmap of a well-formed bitmap is well-formed.
proof fn lemma_trim_bitmap_wf(img: BitmapView)
    requires
        img.wf(),
    ensures
        trim_spec(img).bitmap.wf(),
        trim_spec(img).bitmap.width <= img.width,
        trim_spec(img).bitmap.height <= img.height,
{
    crate::trim::lemma_has_content_bounds(img);
    let t = trim_spec(img);
    assert(t.bitmap.width * t.bitmap.height <= img.width * img.height) by (nonlinear_arith)
        requires
            0 <= t.bitmap.width <= img.width,
            0 <= t.bitmap.height <= img.height;
}

/// The group scan finds a group with the key when one exists, and reports
/// the key fresh otherwise.
pub proof fn lemma_find_group_props(groups: Seq<GroupView>, key: Seq<char>)
    ensures
        0 <= find_group(groups, key) <= groups.len(),
        find_group(groups, key) < groups.len() ==> groups[find_group(groups, key)].key == key,
        forall|j: int| 0 <= j < find_group(groups, key) ==> (#[trigger] groups[j]).key != key,
    decreases groups.len(),
{
    lemma_find_group_from_props(groups, key, 0);
}

proof fn lemma_find_group_from_props(groups: Seq<GroupView>, key: Seq<char>, i: int)
    requires
        0 <= i <= groups.len(),
    ensures
        i <= find_group_from(groups, key, i) <= groups.len(),
        find_group_from(groups, key, i) < groups.len()
            ==> groups[find_group_from(groups, key, i)].key == key,
        forall|j: int| i <= j < find_group_from(groups, key, i) ==> (#[trigger] groups[j]).key != key,
    decreases groups.len() - i,
{
    if i < groups.len() && !(groups[i].key == key) {
        lemma_find_group_from_props(groups, key, i + 1);
    }
}


/// The dimensions of the trimmed bitmaps awaiting placement, in order.
pub open spec fn pending_dims(b: BuilderView) -> Seq<SpriteDim> {
    Seq::new(b.pending.len(), |k: int| SpriteDim {
        width: b.pending[k].bitmap.width as u32,
        height: b.pending[k].bitmap.height as u32,
    })
}

/// A frame with its atlas position filled in.
pub open spec fn place_frame(f: Frame, xy: (int, int)) -> Frame {
    Frame { x: xy.0 as u32, y: xy.1 as u32, ..f }
}

/// Writes the first `m` placements into the frames they belong to.
pub open spec fn apply_placements(
    groups: Seq<GroupView>,
    pending: Seq<PendingView>,
    pls: Seq<(int, int)>,
    m: int,
) -> Seq<GroupView>
    decreases m,
{
    if m <= 0 {
        groups
    } else {
        let g1 = apply_placements(groups, pending, pls, m - 1);
        let p = pending[m - 1];
        g1.update(p.group, GroupView {
            key: g1[p.group].key,
            frames: g1[p.group].frames.update(p.frame,
                place_frame(g1[p.group].frames[p.frame], pls[m - 1])),
        })
    }
}

/// Paints the first `m` pending bitmaps onto the canvas at their placements.
pub open spec fn canvas_fold(
    c: BitmapView,
    pending: Seq<PendingView>,
    pls: Seq<(int, int)>,
    m: int,
) -> BitmapView
    decreases m,
{
    if m <= 0 {
        c
    } else {
        blit_spec(canvas_fold(c, pending, pls, m - 1), pls[m - 1].0, pls[m - 1].1,
            pending[m - 1].bitmap)
    }
}

/// The result of composing a builder: the finished metadata and the painted
/// canvas.
#[verifier::ext_equal]
pub ghost struct ComposedView {
    pub sheet: SheetView,
    pub canvas: BitmapView,
}

/// The complete composition: pack the pending bitmaps, write each placement
/// into its frame, and paint every bitmap at its place on a fresh
/// transparent canvas. A pure function of the builder state, so equal states
/// compose to equal atlases.
pub open spec fn compose_spec(b: BuilderView) -> ComposedView {
    let pk = pack_spec(pending_dims(b));
    let m = b.pending.len() as int;
    ComposedView {
        sheet: SheetView {
            width: pk.width,
            height: pk.height,
            name: b.name,
            sprites: apply_placements(b.groups, b.pending, pk.placements, m),
        },
        canvas: canvas_fold(BitmapView::transparent(pk.width, pk.height), b.pending,
            pk.placements, m),
    }
}

/// Two rectangles given by frames share no pixel.
pub open spec fn frames_disjoint(f1: Frame, f2: Frame) -> bool {
    rects_disjoint(
        f1.x as int, f1.y as int, f1.width as int, f1.height as int,
        f2.x as int, f2.y as int, f2.width as int, f2.height as int,
    )
}

/// Writing placements touches exactly the frames the pending entries point
/// at: group count, keys and frame counts stay, each pending entry's frame
/// receives its placement, and no other frame changes.
proof fn lemma_apply_placements_props(
    groups: Seq<GroupView>,
    pending: Seq<PendingView>,
    pls: Seq<(int, int)>,
    m: int,
)
    requires
        0 <= m <= pending.len(),
        forall|k: int| 0 <= k < pending.len() ==> {
            let p = #[trigger] pending[k];
            0 <= p.group < groups.len() && 0 <= p.frame < groups[p.group].frames.len()
        },
        forall|k1: int, k2: int| 0 <= k1 < k2 < pending.len() ==>
            !((#[trigger] pending[k1]).group == (#[trigger] pending[k2]).group
                && pending[k1].frame == pending[k2].frame),
    ensures
        apply_placements(groups, pending, pls, m).len() == groups.len(),
        forall|gi: int| 0 <= gi < groups.len() ==> {
            let g = #[trigger] apply_placements(groups, pending, pls, m)[gi];
            g.key == groups[gi].key && g.frames.len() == groups[gi].frames.len()
        },
        forall|j: int| 0 <= j < m ==> {
            let p = #[trigger] pending[j];
            apply_placements(groups, pending, pls, m)[p.group].frames[p.frame]
                == place_frame(groups[p.group].frames[p.frame], pls[j])
        },
        forall|gi: int, fi: int| 0 <= gi < groups.len()
            && 0 <= fi < groups[gi].frames.len()
            && !slot_placed(pending, m, gi, fi)
            ==> #[trigger] apply_placements(groups, pending, pls, m)[gi].frames[fi]
                == groups[gi].frames[fi],
    decreases m,
{
    if m > 0 {
        lemma_apply_placements_props(groups, pending, pls, m - 1);
        let prev = apply_placements(groups, pending, pls, m - 1);
        let cur = apply_placements(groups, pending, pls, m);
        let p = pending[m - 1];
        assert(!slot_placed(pending, m - 1, p.group, p.frame)) by {
            if slot_placed(pending, m - 1, p.group, p.frame) {
                let j = choose|j: int| 0 <= j < m - 1
                    && (#[trigger] pending[j]).group == p.group && pending[j].frame == p.frame;
                assert(false);
            }
        }
        assert(prev[p.group].frames[p.frame] == groups[p.group].frames[p.frame]);
        assert forall|j: int| 0 <= j < m implies {
            let q = #[trigger] pending[j];
            cur[q.group].frames[q.frame] == place_frame(groups[q.group].frames[q.frame], pls[j])
        } by {
            let q = pending[j];
            if j == m - 1 {
                assert(cur[q.group].frames[q.frame]
                    == place_frame(groups[q.group].frames[q.frame], pls[j]));
            } else {
                assert(!(q.group == p.group && q.frame == p.frame));
                assert(cur[q.group].frames[q.frame] == prev[q.group].frames[q.frame]);
            }
        }
        assert forall|gi: int, fi: int| 0 <= gi < groups.len()
            && 0 <= fi < groups[gi].frames.len()
            && !slot_placed(pending, m, gi, fi)
            implies #[trigger] cur[gi].frames[fi] == groups[gi].frames[fi] by {
            assert(!slot_placed(pending, m - 1, gi, fi)) by {
                if slot_placed(pending, m - 1, gi, fi) {
                    let j = choose|j: int| 0 <= j < m - 1
                        && (#[trigger] pending[j]).group == gi && pending[j].frame == fi;
                    assert(0 <= j < m && pending[j].group == gi && pending[j].frame == fi);
                    assert(slot_placed(pending, m, gi, fi));
                }
            }
            assert(!(p.group == gi && p.frame == fi)) by {
                if p.group == gi && p.frame == fi {
                    assert(slot_placed(pending, m, gi, fi));
                }
            }
            assert(cur[gi].frames[fi] == prev[gi].frames[fi]);
        }
    }
}

/// True when one of the first `m` pending entries points at frame `fi` of
/// group `gi`.
pub open spec fn slot_placed(pending: Seq<PendingView>, m: int, gi: int, fi: int) -> bool {
    exists|j: int| 0 <= j < m && (#[trigger] pending[j]).group == gi && pending[j].frame == fi
}


/// True when one of the first `m` placements covers the canvas point
/// `(cx, cy)`.
pub open spec fn point_covered(
    pending: Seq<PendingView>,
    pls: Seq<(int, int)>,
    m: int,
    cx: int,
    cy: int,
) -> bool {
    exists|k: int| 0 <= k < m
        && (#[trigger] pls[k]).0 <= cx < pls[k].0 + pending[k].bitmap.width
        && pls[k].1 <= cy < pls[k].1 + pending[k].bitmap.height
}

/// Painting disjoint, in-bounds bitmaps onto a canvas leaves each bitmap's
/// pixels intact at its placement and every uncovered pixel unchanged.
proof fn lemma_canvas_fold_pixels(
    c0: BitmapView,
    pending: Seq<PendingView>,
    pls: Seq<(int, int)>,
    m: int,
)
    requires
        0 <= m <= pending.len(),
        forall|k: int| 0 <= k < pending.len() ==> (#[trigger] pending[k]).bitmap.wf(),
        forall|k: int| 0 <= k < pending.len() ==> 0 <= (#[trigger] pls[k]).0
            && 0 <= pls[k].1
            && pls[k].0 + pending[k].bitmap.width <= c0.width
            && pls[k].1 + pending[k].bitmap.height <= c0.height,
        forall|k1: int, k2: int| 0 <= k1 < k2 < pending.len() ==> rects_disjoint(
            (#[trigger] pls[k1]).0, pls[k1].1,
            pending[k1].bitmap.width, pending[k1].bitmap.height,
            (#[trigger] pls[k2]).0, pls[k2].1,
            pending[k2].bitmap.width, pending[k2].bitmap.height,
        ),
    ensures
        canvas_fold(c0, pending, pls, m).width == c0.width,
        canvas_fold(c0, pending, pls, m).height == c0.height,
        forall|k: int, x: int, y: int| #![trigger pending[k].bitmap.pix(x, y), pls[k]]
            0 <= k < m
            && 0 <= x < pending[k].bitmap.width
            && 0 <= y < pending[k].bitmap.height
            ==> canvas_fold(c0, pending, pls, m).pix(pls[k].0 + x, pls[k].1 + y)
                == pending[k].bitmap.pix(x, y),
        forall|cx: int, cy: int| 0 <= cx < c0.width && 0 <= cy < c0.height
            && !point_covered(pending, pls, m, cx, cy)
            ==> #[trigger] canvas_fold(c0, pending, pls, m).pix(cx, cy) == c0.pix(cx, cy),
    decreases m,
{
    if m > 0 {
        lemma_canvas_fold_pixels(c0, pending, pls, m - 1);
        let prev = canvas_fold(c0, pending, pls, m - 1);
        let cur = canvas_fold(c0, pending, pls, m);
        let p = pls[m - 1];
        let bm = pending[m - 1].bitmap;
        assert(cur == blit_spec(prev, p.0, p.1, bm));
        assert forall|k: int, x: int, y: int| #![trigger pending[k].bitmap.pix(x, y), pls[k]]
            0 <= k < m
            && 0 <= x < pending[k].bitmap.width
            && 0 <= y < pending[k].bitmap.height
            implies cur.pix(pls[k].0 + x, pls[k].1 + y) == pending[k].bitmap.pix(x, y) by {
            let cx = pls[k].0 + x;
            let cy = pls[k].1 + y;
            if k == m - 1 {
                assert(cur.pix(cx, cy) == bm.pix(cx - p.0, cy - p.1));
            } else {
                assert(rects_disjoint(
                    pls[k].0, pls[k].1, pending[k].bitmap.width, pending[k].bitmap.height,
                    p.0, p.1, bm.width, bm.height,
                ));
                assert(!(p.0 <= cx < p.0 + bm.width && p.1 <= cy < p.1 + bm.height));
                assert(cur.pix(cx, cy) == prev.pix(cx, cy));
            }
        }
        assert forall|cx: int, cy: int| 0 <= cx < c0.width && 0 <= cy < c0.height
            && !point_covered(pending, pls, m, cx, cy)
            implies #[trigger] cur.pix(cx, cy) == c0.pix(cx, cy) by {
            assert(!(p.0 <= cx < p.0 + bm.width && p.1 <= cy < p.1 + bm.height)) by {
                if p.0 <= cx < p.0 + bm.width && p.1 <= cy < p.1 + bm.height {
                    assert(point_covered(pending, pls, m, cx, cy));
                }
            }
            assert(!point_covered(pending, pls, m - 1, cx, cy)) by {
                if point_covered(pending, pls, m - 1, cx, cy) {
                    let k = choose|k: int| 0 <= k < m - 1
                        && (#[trigger] pls[k]).0 <= cx < pls[k].0 + pending[k].bitmap.width
                        && pls[k].1 <= cy < pls[k].1 + pending[k].bitmap.height;
                    assert(point_covered(pending, pls, m, cx, cy));
                }
            }
            assert(cur.pix(cx, cy) == prev.pix(cx, cy));
        }
    }
}

/// Composition and saving fail in these ways.
#[derive(Clone, Copy, PartialEq, Eq, Structural, Debug)]
pub enum SaveError {
    /// The save path names a file (it has an extension), not a directory.
    PathHasExtension,
    /// The canvas grew beyond what the metadata and the machine can address.
    AtlasTooLarge,
}

/// The finished atlas: the metadata and the painted canvas.
pub struct ComposedAtlas {
    /// The finalized sheet metadata.
    pub sheet: SpriteSheet,
    /// The composed pixels.
    pub canvas: Bitmap,
}

impl View for ComposedAtlas {
    type V = ComposedView;

    open spec fn view(&self) -> ComposedView {
        ComposedView { sheet: self.sheet@, canvas: self.canvas@ }
    }
}

impl SpriteSheetBuilder {
    /// Packs all pending sprites, writes each placement into its frame, and
    /// paints the atlas canvas. Every placed frame lies inside the atlas and
    /// no two frames overlap. Fails exactly when the canvas would outgrow
    /// `u32` dimensions or the machine's address space.
    #[verifier::loop_isolation(false)]
    #[verifier::rlimit(100)]
    pub fn compose(&self) -> (r: Result<ComposedAtlas, SaveError>)
        requires
            self.wf(),
        ensures
            r is Ok <==> (pack_fits(pending_dims(self@))
                && pack_spec(pending_dims(self@)).width * pack_spec(pending_dims(self@)).height
                    <= usize::MAX),
            match r {
                Ok(c) => {
                    &&& c@ == compose_spec(self@)
                    &&& c.canvas.valid()
                    &&& forall|k: int, x: int, y: int|
                        #![trigger self@.pending[k].bitmap.pix(x, y)]
                        0 <= k < self@.pending.len()
                        && 0 <= x < self@.pending[k].bitmap.width
                        && 0 <= y < self@.pending[k].bitmap.height
                        ==> c.canvas@.pix(
                                pack_spec(pending_dims(self@)).placements[k].0 + x,
                                pack_spec(pending_dims(self@)).placements[k].1 + y,
                            ) == self@.pending[k].bitmap.pix(x, y)
                    &&& forall|cx: int, cy: int| 0 <= cx < c.canvas@.width
                        && 0 <= cy < c.canvas@.height
                        && !point_covered(self@.pending,
                            pack_spec(pending_dims(self@)).placements,
                            self@.pending.len() as int, cx, cy)
                        ==> #[trigger] c.canvas@.pix(cx, cy)
                            == crate::bitmap::transparent_pixel()
                    &&& forall|gi: int, fi: int| #![trigger c.sheet@.sprites[gi].frames[fi]]
                        0 <= gi < c.sheet@.sprites.len()
                        && 0 <= fi < c.sheet@.sprites[gi].frames.len()
                        ==> frame_wf(c.sheet@.sprites[gi].frames[fi])
                            && c.sheet@.sprites[gi].frames[fi].x
                                + c.sheet@.sprites[gi].frames[fi].width <= c.sheet@.width
                            && c.sheet@.sprites[gi].frames[fi].y
                                + c.sheet@.sprites[gi].frames[fi].height <= c.sheet@.height
                    &&& forall|g1: int, f1: int, g2: int, f2: int|
                        #![trigger c.sheet@.sprites[g1].frames[f1], c.sheet@.sprites[g2].frames[f2]]
                        0 <= g1 < c.sheet@.sprites.len()
                        && 0 <= f1 < c.sheet@.sprites[g1].frames.len()
                        && 0 <= g2 < c.sheet@.sprites.len()
                        && 0 <= f2 < c.sheet@.sprites[g2].frames.len()
                        && !(g1 == g2 && f1 == f2)
                        ==> frames_disjoint(c.sheet@.sprites[g1].frames[f1],
                                c.sheet@.sprites[g2].frames[f2])
                },
                Err(e) => e == SaveError::AtlasTooLarge,
            },
    {
        let n = self.pending.len();

        let mut dims: Vec<SpriteDim> = Vec::new();
        let mut k: usize = 0;
        while k < n
            invariant
                k <= n,
                dims@.len() == k,
                forall|j: int| 0 <= j < k ==> #[trigger] dims@[j] == pending_dims(self@)[j],
            decreases n - k,
        {
            let w = self.pending[k].bitmap.width();
            let h = self.pending[k].bitmap.height();
            dims.push(SpriteDim { width: w, height: h });
            k = k + 1;
        }
        proof {
            assert(dims@ =~= pending_dims(self@));
        }

        let packing = match pack(&dims) {
            Ok(p) => p,
            Err(_) => {
                return Err(SaveError::AtlasTooLarge);
            },
        };
        let ghost pk = pack_spec(pending_dims(self@));
        let ghost pls = pk.placements;
        proof {
            assert(placements_ints(packing.placements@) == pls);
            assert forall|j: int| 0 <= j < n implies (#[trigger] packing.placements@[j]).x as int
                == pls[j].0 && packing.placements@[j].y as int == pls[j].1 by {
                assert(placements_ints(packing.placements@)[j] == pls[j]);
            }
        }

        proof {
            assert((packing.width as int) * (packing.height as int) <= u64::MAX)
                by (nonlinear_arith)
                requires
                    packing.width <= u32::MAX,
                    packing.height <= u32::MAX;
        }
        if (packing.width as u64) * (packing.height as u64) > (usize::MAX as u64) {
            return Err(SaveError::AtlasTooLarge);
        }

        let mut canvas = Bitmap::new(packing.width, packing.height);
        let mut k2: usize = 0;
        while k2 < n
            invariant
                k2 <= n,
                canvas.valid(),
                canvas@.wf(),
                canvas@.width == pk.width,
                canvas@.height == pk.height,
                canvas@ == canvas_fold(BitmapView::transparent(pk.width, pk.height),
                    self@.pending, pls, k2 as int),
            decreases n - k2,
        {
            let px = packing.placements[k2].x;
            let py = packing.placements[k2].y;
            canvas.blit(px, py, &self.pending[k2].bitmap);
            k2 = k2 + 1;
        }

        let mut sprites: Vec<SpriteGroup> = Vec::new();
        let gn = self.sheet.sprites.len();
        let mut gi: usize = 0;
        while gi < gn
            invariant
                gi <= gn,
                sprites@.len() == gi,
                forall|j: int| 0 <= j < gi ==> #[trigger] sprites@[j]@ == self@.groups[j],
            decreases gn - gi,
        {
            let src = &self.sheet.sprites[gi];
            let key = src.key.clone();
            let fn_count = src.frames.len();
            let mut frames: Vec<Frame> = Vec::new();
            let mut fi: usize = 0;
            while fi < fn_count
                invariant
                    fi <= fn_count,
                    fn_count == src.frames@.len(),
                    frames@.len() == fi,
                    forall|j: int| 0 <= j < fi ==> #[trigger] frames@[j] == src.frames@[j],
                decreases fn_count - fi,
            {
                frames.push(src.frames[fi]);
                fi = fi + 1;
            }
            proof {
                assert(frames@ =~= src.frames@);
            }
            sprites.push(SpriteGroup { key, frames });
            proof {
                assert(sprites@[gi as int]@ =~~= self@.groups[gi as int]);
            }
            gi = gi + 1;
        }

        let mut k3: usize = 0;
        while k3 < n
            invariant
                k3 <= n,
                sprites@.len() == self@.groups.len(),
                forall|j: int| 0 <= j < sprites@.len() ==> #[trigger] sprites@[j]@
                    == apply_placements(self@.groups, self@.pending, pls, k3 as int)[j],
            decreases n - k3,
        {
            proof {
                lemma_apply_placements_props(self@.groups, self@.pending, pls, k3 as int);
                let p = self@.pending[k3 as int];
                assert(0 <= p.group < self@.groups.len());
                assert(0 <= p.frame < self@.groups[p.group].frames.len());
                assert(apply_placements(self@.groups, self@.pending, pls, k3 as int)[p.group]
                    .frames.len() == self@.groups[p.group].frames.len());
            }
            let pg = self.pending[k3].group;
            let pf = self.pending[k3].frame;
            proof {
                assert(pg as int == self@.pending[k3 as int].group);
                assert(pf as int == self@.pending[k3 as int].frame);
                assert(sprites@[pg as int]@
                    == apply_placements(self@.groups, self@.pending, pls, k3 as int)[pg as int]);
                assert(sprites@[pg as int]@.frames.len()
                    == self@.groups[pg as int].frames.len());
            }
            let px = packing.placements[k3].x;
            let py = packing.placements[k3].y;
            let mut g = sprites.remove(pg);
            let mut fr = g.frames[pf];
            fr.x = px;
            fr.y = py;
            g.frames.set(pf, fr);
            sprites.insert(pg, g);
            proof {
                let prev = apply_placements(self@.groups, self@.pending, pls, k3 as int);
                let cur = apply_placements(self@.groups, self@.pending, pls, k3 as int + 1);
                let p = self@.pending[k3 as int];
                assert forall|j: int| 0 <= j < sprites@.len() implies #[trigger] sprites@[j]@
                    == cur[j] by {
                    if j == p.group {
                        assert(sprites@[j]@.frames =~= cur[j].frames);
                        assert(sprites@[j]@ =~~= cur[j]);
                    } else {
                        assert(sprites@[j]@ =~~= prev[j]);
                        assert(cur[j] == prev[j]);
                    }
                }
            }
            k3 = k3 + 1;
        }

        let sheet = SpriteSheet {
            width: packing.width,
            height: packing.height,
            name: self.sheet.name.clone(),
            sprites,
        };
        let result = ComposedAtlas { sheet, canvas };
        proof {
            let c0 = BitmapView::transparent(pk.width, pk.height);
            assert forall|k: int| 0 <= k < self@.pending.len() implies
                0 <= (#[trigger] pls[k]).0
                && 0 <= pls[k].1
                && pls[k].0 + self@.pending[k].bitmap.width <= c0.width
                && pls[k].1 + self@.pending[k].bitmap.height <= c0.height by {
                assert(placements_ints(packing.placements@)[k] == pls[k]);
                assert(packing.placements@[k].x + pending_dims(self@)[k].width <= packing.width);
                assert(packing.placements@[k].y + pending_dims(self@)[k].height <= packing.height);
            }
            assert forall|k1: int, k2: int| 0 <= k1 < k2 < self@.pending.len() implies
                crate::pack::rects_disjoint(
                    (#[trigger] pls[k1]).0, pls[k1].1,
                    self@.pending[k1].bitmap.width, self@.pending[k1].bitmap.height,
                    (#[trigger] pls[k2]).0, pls[k2].1,
                    self@.pending[k2].bitmap.width, self@.pending[k2].bitmap.height,
                ) by {
                assert(placements_ints(packing.placements@)[k1] == pls[k1]);
                assert(placements_ints(packing.placements@)[k2] == pls[k2]);
                assert(rects_disjoint(
                    packing.placements@[k1].x as int, packing.placements@[k1].y as int,
                    pending_dims(self@)[k1].width as int, pending_dims(self@)[k1].height as int,
                    packing.placements@[k2].x as int, packing.placements@[k2].y as int,
                    pending_dims(self@)[k2].width as int, pending_dims(self@)[k2].height as int,
                ));
            }
            lemma_canvas_fold_pixels(c0, self@.pending, pls, n as int);
            assert(result.canvas@ == canvas_fold(c0, self@.pending, pls, n as int));

            lemma_apply_placements_props(self@.groups, self@.pending, pls, n as int);
            assert(result@.sheet.sprites =~=
                apply_placements(self@.groups, self@.pending, pls, n as int));
            assert(result@ =~~= compose_spec(self@));

            let sps = result@.sheet.sprites;
            assert forall|gix: int, fi: int| #![trigger sps[gix].frames[fi]]
                0 <= gix < sps.len() && 0 <= fi < sps[gix].frames.len()
                implies frame_wf(sps[gix].frames[fi])
                    && sps[gix].frames[fi].x + sps[gix].frames[fi].width <= result@.sheet.width
                    && sps[gix].frames[fi].y + sps[gix].frames[fi].height <= result@.sheet.height
                by {
                assert(slot_covered(self@, gix, fi));
                let j = choose|j: int| 0 <= j < self@.pending.len()
                    && (#[trigger] self@.pending[j]).group == gix && self@.pending[j].frame == fi;
                assert(sps[gix].frames[fi]
                    == place_frame(self@.groups[gix].frames[fi], pls[j]));
                assert(packing.placements@[j].x + pending_dims(self@)[j].width <= packing.width);
                assert(packing.placements@[j].y + pending_dims(self@)[j].height <= packing.height);
            }
            assert forall|g1: int, f1: int, g2: int, f2: int|
                #![trigger sps[g1].frames[f1], sps[g2].frames[f2]]
                0 <= g1 < sps.len() && 0 <= f1 < sps[g1].frames.len()
                && 0 <= g2 < sps.len() && 0 <= f2 < sps[g2].frames.len()
                && !(g1 == g2 && f1 == f2)
                implies frames_disjoint(sps[g1].frames[f1], sps[g2].frames[f2]) by {
                assert(slot_covered(self@, g1, f1));
                assert(slot_covered(self@, g2, f2));
                let j1 = choose|j: int| 0 <= j < self@.pending.len()
                    && (#[trigger] self@.pending[j]).group == g1 && self@.pending[j].frame == f1;
                let j2 = choose|j: int| 0 <= j < self@.pending.len()
                    && (#[trigger] self@.pending[j]).group == g2 && self@.pending[j].frame == f2;
                assert(j1 != j2);
                assert(sps[g1].frames[f1] == place_frame(self@.groups[g1].frames[f1], pls[j1]));
                assert(sps[g2].frames[f2] == place_frame(self@.groups[g2].frames[f2], pls[j2]));
                assert(rects_disjoint(
                    packing.placements@[j1].x as int, packing.placements@[j1].y as int,
                    pending_dims(self@)[j1].width as int, pending_dims(self@)[j1].height as int,
                    packing.placements@[j2].x as int, packing.placements@[j2].y as int,
                    pending_dims(self@)[j2].width as int, pending_dims(self@)[j2].height as int,
                ));
            }
        }
        Ok(result)
    }
}


impl SpriteSheetBuilder {
    /// Validates the save path and composes the atlas: a path with a file
    /// extension is rejected before any work is done, exactly as saving to
    /// it would create files under a directory of that name.
    pub fn save_plan(&self, path: &str) -> (r: Result<ComposedAtlas, SaveError>)
        requires
            self.wf(),
        ensures
            r is Ok <==> (!crate::paths::path_has_extension_spec(path@)
                && pack_fits(pending_dims(self@))
                && pack_spec(pending_dims(self@)).width * pack_spec(pending_dims(self@)).height
                    <= usize::MAX),
            match r {
                Ok(c) => c@ == compose_spec(self@),
                Err(e) => match e {
                    SaveError::PathHasExtension => crate::paths::path_has_extension_spec(path@),
                    SaveError::AtlasTooLarge => !crate::paths::path_has_extension_spec(path@),
                },
            },
    {
        if crate::paths::path_has_extension(path) {
            return Err(SaveError::PathHasExtension);
        }
        self.compose()
    }
}

/// Composing is a pure function of the builder state, and the builder state
/// is a pure function of the sheet name and the sequence of `add_sprite`
/// calls: with the contracts of `new`, `add_sprite` and `compose`, two runs
/// that make identical calls produce identical metadata and identical
/// pixels.
pub open spec fn replay(name: Seq<char>, calls: Seq<(Seq<char>, BitmapView)>) -> BuilderView
    decreases calls.len(),
{
    if calls.len() == 0 {
        BuilderView { name, groups: Seq::empty(), pending: Seq::empty() }
    } else {
        add_sprite_spec(replay(name, calls.drop_last()), calls.last().0, calls.last().1)
    }
}

/// Determinism of the pipeline: identical sheet names and identical
/// sequences of `add_sprite` arguments yield identical composed atlases —
/// the same metadata and the same pixels.
pub proof fn lemma_compose_deterministic(
    name1: Seq<char>,
    calls1: Seq<(Seq<char>, BitmapView)>,
    name2: Seq<char>,
    calls2: Seq<(Seq<char>, BitmapView)>,
)
    requires
        name1 == name2,
        calls1 == calls2,
    ensures
        replay(name1, calls1) == replay(name2, calls2),
        compose_spec(replay(name1, calls1)) == compose_spec(replay(name2, calls2)),
{
}

} // verus!



