//! Every generated triangle is complete and names vertices of its own piece.

use vstd::prelude::*;
use crate::growth::algorithm::BranchModel;
use super::branch::{band, lemma_band};
use super::generator::{
    adaptive, bands, fan, lemma_mapped_slot, lemma_rings_len, lemma_tip_offset_grows,
    lemma_tip_rings_len, lemma_tip_segments, lemma_tip_shrinks, mapped_slot, stitch,
    stitched, tip_bands, tip_offset, tip_segments, MeshParams, JOINT_RINGS, TIP_RINGS,
};

verus! {

/// `s` is a list of whole triangles over the vertices `lo..hi`.
pub open spec fn sound(s: Seq<u32>, lo: int, hi: int) -> bool {
    &&& s.len() % 3 == 0
    &&& forall|k: int| 0 <= k < s.len() ==> lo <= #[trigger] s[k] < hi
}

/// Sound lists stay sound when joined.
pub proof fn lemma_sound_concat(a: Seq<u32>, b: Seq<u32>, lo: int, hi: int)
    requires
        sound(a, lo, hi),
        sound(b, lo, hi),
    ensures
        sound(a + b, lo, hi),
{
    assert forall|k: int| 0 <= k < (a + b).len() implies lo <= #[trigger] (a + b)[k] < hi by {
        if k < a.len() {
            assert((a + b)[k] == a[k]);
        } else {
            assert((a + b)[k] == b[k - a.len()]);
        }
    }
}

/// A band between two rings inside `lo..hi` is sound there.
pub proof fn lemma_band_sound(ring1: u32, ring2: u32, segments: usize, lo: int, hi: int)
    requires
        lo <= ring1,
        lo <= ring2,
        ring1 + segments <= hi,
        ring2 + segments <= hi,
        hi <= 0x1_0000_0000,
    ensures
        sound(band(ring1, ring2, segments, segments as nat), lo, hi),
{
    lemma_band(ring1, ring2, segments, segments as nat);
}

/// The bands of a stack of rings are sound over the vertices of the stack.
pub proof fn lemma_bands_sound(base: u32, levels: nat, segments: usize)
    requires
        base + levels * segments <= 0x1_0000_0000,
    ensures
        sound(bands(base, levels, segments), base as int, base + levels * segments),
    decreases levels,
{
    let hi = base + levels * segments;
    if levels > 1 {
        assert((levels - 1) * segments + segments == levels * segments) by (nonlinear_arith);
        assert((levels - 2) * segments + segments == (levels - 1) * segments) by (nonlinear_arith);
        assert(0 <= (levels - 2) * segments) by (nonlinear_arith)
            requires
                levels >= 2,
        ;
        lemma_bands_sound(base, (levels - 1) as nat, segments);
        let lower = (base + (levels - 2) * segments) as u32;
        let upper = (base + (levels - 1) * segments) as u32;
        lemma_band_sound(lower, upper, segments, base as int, hi);
        lemma_sound_concat(
            bands(base, (levels - 1) as nat, segments),
            band(lower, upper, segments, segments as nat),
            base as int,
            hi,
        );
    }
}

/// A fan from a ring inside `lo..hi` to an apex inside `lo..hi` is sound there.
pub proof fn lemma_fan_sound(
    ring_start: u32,
    segments: usize,
    apex: u32,
    upto: nat,
    lo: int,
    hi: int,
)
    requires
        upto <= segments,
        lo <= ring_start,
        ring_start + segments <= hi,
        lo <= apex < hi,
        hi <= 0x1_0000_0000,
    ensures
        sound(fan(ring_start, segments, apex, upto), lo, hi),
        fan(ring_start, segments, apex, upto).len() == 3 * upto,
    decreases upto,
{
    if upto > 0 {
        lemma_fan_sound(ring_start, segments, apex, (upto - 1) as nat, lo, hi);
        let next = (upto as int) % (segments as int);
        assert(0 <= next < segments);
    }
}

/// Number of primitives that are quads in the stitching of two unequal
/// rings: all of them, unless one ring is a single vertex.
pub open spec fn stitch_len(seg1: usize, seg2: usize) -> nat {
    if seg1 != 1 && seg2 != 1 {
        6
    } else if seg1 != 1 || seg2 != 1 {
        3
    } else {
        0
    }
}

/// Every step of the stitching of two unequal rings emits one primitive, a
/// quad or, where one ring is a single vertex, a triangle; its indices lie on
/// the two rings.
pub proof fn lemma_stitch(ring1: u32, ring2: u32, seg1: usize, seg2: usize, i: int)
    requires
        seg1 != seg2,
        seg1 >= 1,
        seg2 >= 1,
        0 <= i < (if seg1 >= seg2 { seg1 } else { seg2 }),
        ring1 + seg1 <= 0x1_0000_0000,
        ring2 + seg2 <= 0x1_0000_0000,
    ensures
        stitch(ring1, ring2, seg1, seg2, i).len() == stitch_len(seg1, seg2),
        stitch_len(seg1, seg2) >= 3,
        forall|k: int|
            0 <= k < stitch(ring1, ring2, seg1, seg2, i).len() ==> {
                let x = #[trigger] stitch(ring1, ring2, seg1, seg2, i)[k];
                (ring1 <= x < ring1 + seg1) || (ring2 <= x < ring2 + seg2)
            },
{
    let max_seg = if seg1 >= seg2 { seg1 } else { seg2 };
    lemma_mapped_slot(i, seg1, max_seg);
    lemma_mapped_slot(i, seg2, max_seg);
    lemma_next_slot(mapped_slot(i, seg1, max_seg), seg1);
    lemma_next_slot(mapped_slot(i, seg2, max_seg), seg2);
}

/// The successor of a slot around a ring is another slot of the ring, and a
/// different one unless the ring is a single vertex.
pub proof fn lemma_next_slot(slot: int, segments: usize)
    requires
        0 <= slot < segments,
    ensures
        0 <= (slot + 1) % (segments as int) < segments,
        segments != 1 ==> (slot + 1) % (segments as int) != slot,
        segments == 1 ==> (slot + 1) % (segments as int) == slot,
{
    if slot + 1 < segments {
        vstd::arithmetic::div_mod::lemma_small_mod((slot + 1) as nat, segments as nat);
    } else {
        vstd::arithmetic::div_mod::lemma_mod_self_0(segments as int);
    }
}

/// The stitching of two unequal rings emits one primitive per slot of the
/// larger ring, and is sound over any range that holds both rings.
pub proof fn lemma_stitched(
    ring1: u32,
    ring2: u32,
    seg1: usize,
    seg2: usize,
    upto: nat,
    lo: int,
    hi: int,
)
    requires
        seg1 != seg2,
        seg1 >= 1,
        seg2 >= 1,
        upto <= (if seg1 >= seg2 { seg1 } else { seg2 }),
        lo <= ring1,
        lo <= ring2,
        ring1 + seg1 <= hi,
        ring2 + seg2 <= hi,
        hi <= 0x1_0000_0000,
    ensures
        stitched(ring1, ring2, seg1, seg2, upto).len() == upto * stitch_len(seg1, seg2),
        sound(stitched(ring1, ring2, seg1, seg2, upto), lo, hi),
    decreases upto,
{
    if upto > 0 {
        lemma_stitched(ring1, ring2, seg1, seg2, (upto - 1) as nat, lo, hi);
        lemma_stitch(ring1, ring2, seg1, seg2, upto - 1);
        let n = stitch_len(seg1, seg2);
        assert((upto - 1) * n + n == upto * n) by (nonlinear_arith);
        let prev = stitched(ring1, ring2, seg1, seg2, (upto - 1) as nat);
        let step = stitch(ring1, ring2, seg1, seg2, upto - 1);
        assert(sound(step, lo, hi)) by {
            assert forall|k: int| 0 <= k < step.len() implies lo <= #[trigger] step[k] < hi by {
                let x = stitch(ring1, ring2, seg1, seg2, upto - 1)[k];
                assert((ring1 <= x < ring1 + seg1) || (ring2 <= x < ring2 + seg2));
            }
        }
        assert(((upto - 1) * n) % 3 == 0 && (upto * n) % 3 == 0) by (nonlinear_arith)
            requires
                n == 3 || n == 6,
                upto >= 1,
        ;
        lemma_sound_concat(prev, step, lo, hi);
    } else {
        assert(upto * stitch_len(seg1, seg2) == 0) by (nonlinear_arith)
            requires
                upto == 0,
        ;
    }
}

/// Triangle `k` of the list `s` has three different vertices.
pub open spec fn proper_at(s: Seq<u32>, k: int) -> bool {
    s[3 * k] != s[3 * k + 1] && s[3 * k + 1] != s[3 * k + 2] && s[3 * k] != s[3 * k + 2]
}

/// Every triangle of the list `s` has three different vertices.
pub open spec fn proper(s: Seq<u32>) -> bool {
    forall|k: int| 0 <= k && 3 * k + 2 < s.len() ==> #[trigger] proper_at(s, k)
}

/// Between two unequal rings that share no vertex, the stitching emits no
/// degenerate triangle: where one ring is a single vertex it emits
/// triangles in place of quads.
pub proof fn lemma_stitched_proper(ring1: u32, ring2: u32, seg1: usize, seg2: usize, upto: nat)
    requires
        seg1 != seg2,
        seg1 >= 1,
        seg2 >= 1,
        upto <= (if seg1 >= seg2 { seg1 } else { seg2 }),
        ring1 + seg1 <= ring2 || ring2 + seg2 <= ring1,
        ring1 + seg1 <= 0x1_0000_0000,
        ring2 + seg2 <= 0x1_0000_0000,
    ensures
        proper(stitched(ring1, ring2, seg1, seg2, upto)),
    decreases upto,
{
    if upto > 0 {
        let n = stitch_len(seg1, seg2);
        let prev = stitched(ring1, ring2, seg1, seg2, (upto - 1) as nat);
        let step = stitch(ring1, ring2, seg1, seg2, upto - 1);
        let all = stitched(ring1, ring2, seg1, seg2, upto);
        lemma_stitched_proper(ring1, ring2, seg1, seg2, (upto - 1) as nat);
        lemma_stitched(ring1, ring2, seg1, seg2, (upto - 1) as nat, 0, 0x1_0000_0000);
        lemma_stitch(ring1, ring2, seg1, seg2, upto - 1);
        let max_seg = if seg1 >= seg2 { seg1 } else { seg2 };
        let i1 = mapped_slot(upto - 1, seg1, max_seg);
        let i2 = mapped_slot(upto - 1, seg2, max_seg);
        lemma_mapped_slot(upto - 1, seg1, max_seg);
        lemma_mapped_slot(upto - 1, seg2, max_seg);
        lemma_next_slot(i1, seg1);
        lemma_next_slot(i2, seg2);
        let m = (upto - 1) * (n / 3);
        assert(prev.len() == 3 * m) by (nonlinear_arith)
            requires
                prev.len() == (upto - 1) * n,
                n == 3 || n == 6,
                m == (upto - 1) * (n / 3),
        ;
        assert forall|k: int| 0 <= k && 3 * k + 2 < all.len() implies #[trigger] proper_at(
            all,
            k,
        ) by {
            if k < m {
                assert(proper_at(prev, k));
                assert(all[3 * k] == prev[3 * k]);
                assert(all[3 * k + 1] == prev[3 * k + 1]);
                assert(all[3 * k + 2] == prev[3 * k + 2]);
            } else {
                let j = k - m;
                assert(all[3 * k] == step[3 * j]);
                assert(all[3 * k + 1] == step[3 * j + 1]);
                assert(all[3 * k + 2] == step[3 * j + 2]);
                assert(j == 0 || j == 1);
            }
        }
    }
}

/// Joining two rings, equal or not, is sound over any range that holds both.
pub proof fn lemma_adaptive_sound(
    ring1: u32,
    ring2: u32,
    seg1: usize,
    seg2: usize,
    lo: int,
    hi: int,
)
    requires
        seg1 == seg2 || (seg1 >= 1 && seg2 >= 1),
        lo <= ring1,
        lo <= ring2,
        ring1 + seg1 <= hi,
        ring2 + seg2 <= hi,
        hi <= 0x1_0000_0000,
    ensures
        sound(adaptive(ring1, ring2, seg1, seg2), lo, hi),
{
    if seg1 == seg2 {
        lemma_band_sound(ring1, ring2, seg1, lo, hi);
    } else {
        lemma_stitched(
            ring1,
            ring2,
            seg1,
            seg2,
            (if seg1 >= seg2 { seg1 } else { seg2 }) as nat,
            lo,
            hi,
        );
    }
}

/// The stitching of a tip is sound over the vertices of its rings.
pub proof fn lemma_tip_bands_sound(base: u32, radial: usize, upto: nat)
    requires
        upto <= TIP_RINGS,
        base + tip_offset(radial, TIP_RINGS as nat) <= 0x1_0000_0000,
    ensures
        sound(tip_bands(base, radial, upto), base as int, base + tip_offset(radial, upto)),
    decreases upto,
{
    if upto > 1 {
        lemma_tip_offset_grows(radial, upto, TIP_RINGS as nat);
        lemma_tip_segments(radial, upto - 2);
        lemma_tip_segments(radial, upto - 1);
        lemma_tip_bands_sound(base, radial, (upto - 1) as nat);
        let lower = (base + tip_offset(radial, (upto - 2) as nat)) as u32;
        let upper = (base + tip_offset(radial, (upto - 1) as nat)) as u32;
        let hi = base + tip_offset(radial, upto);
        lemma_adaptive_sound(
            lower,
            upper,
            tip_segments(radial, upto - 2),
            tip_segments(radial, upto - 1),
            base as int,
            hi,
        );
        lemma_sound_concat(
            tip_bands(base, radial, (upto - 1) as nat),
            adaptive(
                lower,
                upper,
                tip_segments(radial, upto - 2),
                tip_segments(radial, upto - 1),
            ),
            base as int,
            hi,
        );
    }
}

/// The bands of a stack of rings hold six indices per slot and gap.
pub proof fn lemma_bands_len(base: u32, levels: nat, segments: usize)
    requires
        levels >= 1,
        base + levels * segments <= 0x1_0000_0000,
    ensures
        bands(base, levels, segments).len() == 6 * segments * (levels - 1),
    decreases levels,
{
    if levels > 1 {
        assert((levels - 1) * segments + segments == levels * segments) by (nonlinear_arith);
        assert((levels - 2) * segments + segments == (levels - 1) * segments) by (nonlinear_arith);
        assert(0 <= (levels - 2) * segments) by (nonlinear_arith)
            requires
                levels >= 2,
        ;
        lemma_bands_len(base, (levels - 1) as nat, segments);
        lemma_band(
            (base + (levels - 2) * segments) as u32,
            (base + (levels - 1) * segments) as u32,
            segments,
            segments as nat,
        );
        assert(6 * segments * (levels - 2) + 6 * segments == 6 * segments * (levels - 1))
            by (nonlinear_arith);
    } else {
        assert(6 * segments * (levels - 1) == 0) by (nonlinear_arith)
            requires
                levels == 1,
        ;
    }
}

/// Joining a ring to one that is no larger takes six indices for each
/// vertex of the first, where the second has two vertices or more.
pub proof fn lemma_adaptive_len(ring1: u32, ring2: u32, seg1: usize, seg2: usize)
    requires
        seg1 >= seg2 >= 2,
        ring1 + seg1 <= 0x1_0000_0000,
        ring2 + seg2 <= 0x1_0000_0000,
    ensures
        adaptive(ring1, ring2, seg1, seg2).len() == 6 * seg1,
{
    if seg1 == seg2 {
        lemma_band(ring1, ring2, seg1, seg1 as nat);
    } else {
        lemma_stitched(ring1, ring2, seg1, seg2, seg1 as nat, 0, 0x1_0000_0000);
    }
}

/// The stitching of the first `upto` rings of a tip takes six indices for
/// each vertex below the last of them.
pub proof fn lemma_tip_bands_len(base: u32, radial: usize, upto: nat)
    requires
        1 <= upto <= TIP_RINGS,
        base + tip_offset(radial, TIP_RINGS as nat) <= 0x1_0000_0000,
    ensures
        tip_bands(base, radial, upto).len() == 6 * tip_offset(radial, (upto - 1) as nat),
    decreases upto,
{
    if upto > 1 {
        lemma_tip_bands_len(base, radial, (upto - 1) as nat);
        lemma_tip_offset_grows(radial, upto, TIP_RINGS as nat);
        lemma_tip_segments(radial, upto - 1);
        lemma_tip_shrinks(radial, upto - 2, upto - 1);
        lemma_adaptive_len(
            (base + tip_offset(radial, (upto - 2) as nat)) as u32,
            (base + tip_offset(radial, (upto - 1) as nat)) as u32,
            tip_segments(radial, upto - 2),
            tip_segments(radial, upto - 1),
        );
    }
}

impl MeshParams {
    /// The triangles of a shaft are sound over its vertices.
    pub proof fn lemma_shaft_sound(self, base: u32)
        requires
            base + self.shaft_len() <= 0x1_0000_0000,
        ensures
            sound(self.shaft_indices(base), base as int, base + self.shaft_len()),
    {
        lemma_bands_sound(base, self.length_segments as nat, self.radial_segments);
    }

    /// The triangles of a cap are sound over its vertices.
    pub proof fn lemma_cap_sound(self, base: u32, leaf: bool)
        requires
            base + self.cap_len(leaf) <= 0x1_0000_0000,
        ensures
            sound(self.cap_indices(base, leaf), base as int, base + self.cap_len(leaf)),
    {
        let radial = self.radial_segments;
        let hi = base + self.cap_len(leaf);
        if leaf {
            lemma_tip_offset_grows(radial, (TIP_RINGS - 1) as nat, TIP_RINGS as nat);
            let last = tip_segments(radial, TIP_RINGS - 1);
            lemma_tip_bands_sound(base, radial, TIP_RINGS as nat);
            lemma_fan_sound(
                (base + tip_offset(radial, (TIP_RINGS - 1) as nat)) as u32,
                last,
                (base + tip_offset(radial, TIP_RINGS as nat)) as u32,
                last as nat,
                base as int,
                hi,
            );
            lemma_sound_concat(
                tip_bands(base, radial, TIP_RINGS as nat),
                fan(
                    (base + tip_offset(radial, (TIP_RINGS - 1) as nat)) as u32,
                    last,
                    (base + tip_offset(radial, TIP_RINGS as nat)) as u32,
                    last as nat,
                ),
                base as int,
                hi,
            );
        } else {
            lemma_bands_sound(base, JOINT_RINGS as nat, radial);
            lemma_fan_sound(
                (base + (JOINT_RINGS - 1) * radial) as u32,
                radial,
                (base + JOINT_RINGS * radial) as u32,
                radial as nat,
                base as int,
                hi,
            );
            lemma_sound_concat(
                bands(base, JOINT_RINGS as nat, radial),
                fan(
                    (base + (JOINT_RINGS - 1) * radial) as u32,
                    radial,
                    (base + JOINT_RINGS * radial) as u32,
                    radial as nat,
                ),
                base as int,
                hi,
            );
        }
    }

    /// The triangles of a subtree are whole and name only vertices of that
    /// subtree.
    pub proof fn lemma_tree_sound(self, node: BranchModel, base: nat)
        requires
            base + self.vertex_total(node) <= 0x1_0000_0000,
        ensures
            sound(
                self.tree_indices(node, base),
                base as int,
                (base + self.vertex_total(node)) as int,
            ),
        decreases node, node.children.len() + 1,
    {
        let len = node.children.len();
        let hi = base + self.vertex_total(node);
        let leaf = len == 0;
        let after_kids = base + self.shaft_len() + self.kids_vertex_total(node, len);
        self.lemma_shaft_sound(base as u32);
        self.lemma_kids_sound(node, base + self.shaft_len(), len);
        self.lemma_cap_sound(after_kids as u32, leaf);
        let a = self.shaft_indices(base as u32);
        let b = self.kids_indices(node, base + self.shaft_len(), len);
        let c = self.cap_indices(after_kids as u32, leaf);
        assert(sound(a, base as int, hi as int));
        assert(sound(b, base as int, hi as int));
        assert(sound(c, base as int, hi as int));
        lemma_sound_concat(a, b, base as int, hi as int);
        lemma_sound_concat(a + b, c, base as int, hi as int);
    }

    /// The triangles of the first `upto` children's subtrees are whole and
    /// name only vertices of those subtrees.
    pub proof fn lemma_kids_sound(self, node: BranchModel, base: nat, upto: nat)
        requires
            upto <= node.children.len(),
            base + self.kids_vertex_total(node, upto) <= 0x1_0000_0000,
        ensures
            sound(
                self.kids_indices(node, base, upto),
                base as int,
                (base + self.kids_vertex_total(node, upto)) as int,
            ),
        decreases node, upto,
    {
        if upto > 0 {
            let hi = base + self.kids_vertex_total(node, upto);
            let before = base + self.kids_vertex_total(node, (upto - 1) as nat);
            self.lemma_kids_sound(node, base, (upto - 1) as nat);
            self.lemma_tree_sound(node.children[upto - 1], before);
            let a = self.kids_indices(node, base, (upto - 1) as nat);
            let b = self.tree_indices(node.children[upto - 1], before);
            assert(sound(a, base as int, hi as int));
            assert(sound(b, base as int, hi as int));
            lemma_sound_concat(a, b, base as int, hi as int);
        }
    }

    /// A cap has as many indices as its rings and fan count.
    pub proof fn lemma_cap_indices_len(self, base: u32, leaf: bool)
        requires
            base + self.cap_len(leaf) <= 0x1_0000_0000,
        ensures
            self.cap_indices(base, leaf).len() == self.cap_index_len(leaf),
    {
        let radial = self.radial_segments;
        if leaf {
            let last = tip_segments(radial, TIP_RINGS - 1);
            lemma_tip_offset_grows(radial, (TIP_RINGS - 1) as nat, TIP_RINGS as nat);
            lemma_tip_bands_len(base, radial, TIP_RINGS as nat);
            lemma_fan_sound(
                (base + tip_offset(radial, (TIP_RINGS - 1) as nat)) as u32,
                last,
                (base + tip_offset(radial, TIP_RINGS as nat)) as u32,
                last as nat,
                0,
                0x1_0000_0000,
            );
        } else {
            lemma_bands_len(base, JOINT_RINGS as nat, radial);
            lemma_fan_sound(
                (base + (JOINT_RINGS - 1) * radial) as u32,
                radial,
                (base + JOINT_RINGS * radial) as u32,
                radial as nat,
                0,
                0x1_0000_0000,
            );
        }
    }

    /// A subtree has as many indices as its pieces count.
    pub proof fn lemma_tree_indices_len(self, node: BranchModel, base: nat)
        requires
            self.length_segments >= 1,
            base + self.vertex_total(node) <= 0x1_0000_0000,
        ensures
            self.tree_indices(node, base).len() == self.index_total(node),
        decreases node, node.children.len() + 1,
    {
        let len = node.children.len();
        let after_shaft = base + self.shaft_len();
        let after_kids = after_shaft + self.kids_vertex_total(node, len);
        lemma_bands_len(base as u32, self.length_segments as nat, self.radial_segments);
        self.lemma_kids_indices_len(node, after_shaft, len);
        self.lemma_cap_indices_len(after_kids as u32, len == 0);
    }

    /// The first `upto` children's subtrees have as many indices as their pieces count.
    pub proof fn lemma_kids_indices_len(self, node: BranchModel, base: nat, upto: nat)
        requires
            self.length_segments >= 1,
            upto <= node.children.len(),
            base + self.kids_vertex_total(node, upto) <= 0x1_0000_0000,
        ensures
            self.kids_indices(node, base, upto).len() == self.kids_index_total(node, upto),
        decreases node, upto,
    {
        if upto > 0 {
            self.lemma_kids_indices_len(node, base, (upto - 1) as nat);
            self.lemma_tree_indices_len(
                node.children[upto - 1],
                base + self.kids_vertex_total(node, (upto - 1) as nat),
            );
        }
    }

    /// A subtree has as many vertices as its pieces count.
    pub proof fn lemma_tree_vertices_len(self, node: BranchModel, branch: nat)
        ensures
            self.tree_vertices(node, branch).len() == self.vertex_total(node),
        decreases node, node.children.len() + 1,
    {
        let b = branch as usize;
        lemma_rings_len(b, super::branch::Part::Shaft, self.length_segments as nat, self.radial_segments);
        lemma_rings_len(b, super::branch::Part::Joint, JOINT_RINGS as nat, self.radial_segments);
        lemma_tip_rings_len(b, self.radial_segments, TIP_RINGS as nat);
        self.lemma_kids_vertices_len(node, branch + 1, node.children.len());
    }

    /// The first `upto` children's subtrees have as many vertices as their pieces count.
    pub proof fn lemma_kids_vertices_len(self, node: BranchModel, first: nat, upto: nat)
        requires
            upto <= node.children.len(),
        ensures
            self.kids_vertices(node, first, upto).len() == self.kids_vertex_total(node, upto),
        decreases node, upto,
    {
        if upto > 0 {
            self.lemma_kids_vertices_len(node, first, (upto - 1) as nat);
            self.lemma_tree_vertices_len(
                node.children[upto - 1],
                first + node.kids_count((upto - 1) as nat),
            );
        }
    }
}

} // verus!
