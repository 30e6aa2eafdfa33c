//! No vertex is left out: every vertex of a stitched surface is a corner of
//! some triangle.

use vstd::prelude::*;
use crate::growth::algorithm::BranchModel;
use super::branch::{band, band_quad, names};
use super::generator::{
    adaptive, bands, fan, lemma_mapped_slot, lemma_tip_offset_grows, lemma_tip_segments,
    mapped_slot, stitch, stitched, tip_bands, tip_offset, tip_segments, MeshParams, JOINT_RINGS,
    TIP_RINGS,
};
use super::validity::lemma_stitch;

verus! {

/// Every slot of a ring is the proportional image of some slot of a ring
/// that is at least as large.
pub proof fn lemma_mapped_slot_onto(slot: int, seg: usize, max_seg: usize) -> (i: int)
    requires
        0 <= slot < seg,
        seg <= max_seg,
    ensures
        0 <= i < max_seg,
        mapped_slot(i, seg, max_seg) == slot,
{
    let s = seg as int;
    let m = max_seg as int;
    let i = (slot * m + s - 1) / s;
    assert(0 <= slot * m) by (nonlinear_arith)
        requires
            0 <= slot,
            0 <= m,
    ;
    assert(slot * m <= (s - 1) * m) by (nonlinear_arith)
        requires
            slot <= s - 1,
            0 <= m,
    ;
    assert((s - 1) * m == s * m - m) by (nonlinear_arith);
    let top = slot * m + s - 1;
    assert(top == i * s + top % s && 0 <= top % s < s && 0 <= i) by {
        vstd::arithmetic::div_mod::lemma_fundamental_div_mod(top, s);
        vstd::arithmetic::div_mod::lemma_mod_bound(top, s);
        vstd::arithmetic::div_mod::lemma_div_pos_is_pos(top, s);
        assert(s * (top / s) == (top / s) * s) by (nonlinear_arith);
    }
    let x = i * s;
    assert(slot * m <= x < slot * m + m);
    assert(x < s * m);
    assert(i < m) by (nonlinear_arith)
        requires
            i * s < s * m,
            s > 0,
    ;
    assert(x / m == slot) by (nonlinear_arith)
        requires
            slot * m <= x < slot * m + m,
            m > 0,
    ;
    i
}

/// What a step of the stitching names, the whole stitching names.
pub proof fn lemma_stitched_keeps(
    ring1: u32,
    ring2: u32,
    seg1: usize,
    seg2: usize,
    i: int,
    upto: nat,
    x: int,
)
    requires
        0 <= i < upto,
        names(stitch(ring1, ring2, seg1, seg2, i), x),
    ensures
        names(stitched(ring1, ring2, seg1, seg2, upto), x),
    decreases upto,
{
    let prev = stitched(ring1, ring2, seg1, seg2, (upto - 1) as nat);
    let step = stitch(ring1, ring2, seg1, seg2, upto - 1);
    let all = stitched(ring1, ring2, seg1, seg2, upto);
    if i == upto - 1 {
        let k = choose|k: int| 0 <= k < step.len() && #[trigger] step[k] == x;
        assert(all[prev.len() + k] == x);
    } else {
        lemma_stitched_keeps(ring1, ring2, seg1, seg2, i, (upto - 1) as nat, x);
        let k = choose|k: int| 0 <= k < prev.len() && #[trigger] prev[k] == x;
        assert(all[k] == x);
    }
}

/// The stitching of two unequal rings leaves no vertex of either ring out.
pub proof fn lemma_stitched_covers(ring1: u32, ring2: u32, seg1: usize, seg2: usize, x: int)
    requires
        seg1 != seg2,
        seg1 >= 1,
        seg2 >= 1,
        ring1 + seg1 <= 0x1_0000_0000,
        ring2 + seg2 <= 0x1_0000_0000,
        ring1 <= x < ring1 + seg1 || ring2 <= x < ring2 + seg2,
    ensures
        names(
            stitched(ring1, ring2, seg1, seg2, (if seg1 >= seg2 { seg1 } else { seg2 }) as nat),
            x,
        ),
{
    let max_seg = if seg1 >= seg2 { seg1 } else { seg2 };
    let first = ring1 <= x < ring1 + seg1;
    let i = if first {
        lemma_mapped_slot_onto(x - ring1, seg1, max_seg)
    } else {
        lemma_mapped_slot_onto(x - ring2, seg2, max_seg)
    };
    let step = stitch(ring1, ring2, seg1, seg2, i);
    lemma_stitch(ring1, ring2, seg1, seg2, i);
    lemma_mapped_slot(i, seg1, max_seg);
    lemma_mapped_slot(i, seg2, max_seg);
    if first {
        assert(step[0] == x);
    } else {
        assert(step[1] == x);
    }
    lemma_stitched_keeps(ring1, ring2, seg1, seg2, i, max_seg as nat, x);
}

/// What one of two joined lists names, the joined list names.
pub proof fn lemma_names_concat(a: Seq<u32>, b: Seq<u32>, x: int)
    requires
        names(a, x) || names(b, x),
    ensures
        names(a + b, x),
{
    if names(a, x) {
        let k = choose|k: int| 0 <= k < a.len() && #[trigger] a[k] == x;
        assert((a + b)[k] == x);
    } else {
        let k = choose|k: int| 0 <= k < b.len() && #[trigger] b[k] == x;
        assert((a + b)[a.len() + k] == x);
    }
}

/// Every vertex `lo..hi` is a corner of some triangle of `s`.
pub open spec fn covers(s: Seq<u32>, lo: int, hi: int) -> bool {
    forall|x: int| lo <= x < hi ==> names(s, x)
}

/// A band leaves no vertex of either ring out.
pub proof fn lemma_band_covers(ring1: u32, ring2: u32, segments: usize, upto: nat, x: int)
    requires
        upto <= segments,
        ring1 + segments <= 0x1_0000_0000,
        ring2 + segments <= 0x1_0000_0000,
        ring1 <= x < ring1 + upto || ring2 <= x < ring2 + upto,
    ensures
        names(band(ring1, ring2, segments, upto), x),
    decreases upto,
{
    let prev = band(ring1, ring2, segments, (upto - 1) as nat);
    let step = band_quad(ring1, ring2, segments, upto - 1);
    if x == ring1 + upto - 1 {
        assert(step[0] == x);
        lemma_names_concat(prev, step, x);
    } else if x == ring2 + upto - 1 {
        assert(step[1] == x);
        lemma_names_concat(prev, step, x);
    } else {
        lemma_band_covers(ring1, ring2, segments, (upto - 1) as nat, x);
        lemma_names_concat(prev, step, x);
    }
}

/// Joining two rings, equal or not, leaves no vertex of either ring out.
pub proof fn lemma_adaptive_covers(ring1: u32, ring2: u32, seg1: usize, seg2: usize, x: int)
    requires
        seg1 == seg2 || (seg1 >= 1 && seg2 >= 1),
        ring1 + seg1 <= 0x1_0000_0000,
        ring2 + seg2 <= 0x1_0000_0000,
        ring1 <= x < ring1 + seg1 || ring2 <= x < ring2 + seg2,
    ensures
        names(adaptive(ring1, ring2, seg1, seg2), x),
{
    if seg1 == seg2 {
        lemma_band_covers(ring1, ring2, seg1, seg1 as nat, x);
    } else {
        lemma_stitched_covers(ring1, ring2, seg1, seg2, x);
    }
}

/// The bands of a stack of two or more rings leave no vertex of the stack out.
pub proof fn lemma_bands_cover(base: u32, levels: nat, segments: usize, x: int)
    requires
        levels >= 2,
        base + levels * segments <= 0x1_0000_0000,
        base <= x < base + levels * segments,
    ensures
        names(bands(base, levels, segments), x),
    decreases levels,
{
    assert((levels - 1) * segments + segments == levels * segments) by (nonlinear_arith);
    assert((levels - 2) * segments + segments == (levels - 1) * segments) by (nonlinear_arith);
    assert(0 <= (levels - 2) * segments) by (nonlinear_arith)
        requires
            levels >= 2,
    ;
    let lower = (base + (levels - 2) * segments) as u32;
    let upper = (base + (levels - 1) * segments) as u32;
    let prev = bands(base, (levels - 1) as nat, segments);
    let last = band(lower, upper, segments, segments as nat);
    if x >= lower {
        lemma_band_covers(lower, upper, segments, segments as nat, x);
    } else {
        lemma_bands_cover(base, (levels - 1) as nat, segments, x);
    }
    lemma_names_concat(prev, last, x);
}

/// A fan leaves out neither a vertex of its ring nor its apex.
pub proof fn lemma_fan_covers(ring_start: u32, segments: usize, apex: u32, upto: nat, x: int)
    requires
        1 <= upto <= segments,
        ring_start + segments <= 0x1_0000_0000,
        ring_start <= x < ring_start + upto || x == apex,
    ensures
        names(fan(ring_start, segments, apex, upto), x),
    decreases upto,
{
    let prev = fan(ring_start, segments, apex, (upto - 1) as nat);
    let step = seq![
        (ring_start + (upto - 1)) as u32,
        (ring_start + (upto as int) % (segments as int)) as u32,
        apex,
    ];
    if x == apex {
        assert(step[2] == x);
    } else if x == ring_start + upto - 1 {
        assert(step[0] == x);
    } else {
        lemma_fan_covers(ring_start, segments, apex, (upto - 1) as nat, x);
    }
    lemma_names_concat(prev, step, x);
}

/// The stitching of the first two or more rings of a tip leaves none of
/// their vertices out.
pub proof fn lemma_tip_bands_cover(base: u32, radial: usize, upto: nat, x: int)
    requires
        2 <= upto <= TIP_RINGS,
        base + tip_offset(radial, TIP_RINGS as nat) <= 0x1_0000_0000,
        base <= x < base + tip_offset(radial, upto),
    ensures
        names(tip_bands(base, radial, upto), x),
    decreases upto,
{
    lemma_tip_offset_grows(radial, upto, TIP_RINGS as nat);
    lemma_tip_segments(radial, upto - 2);
    lemma_tip_segments(radial, upto - 1);
    let lower = (base + tip_offset(radial, (upto - 2) as nat)) as u32;
    let upper = (base + tip_offset(radial, (upto - 1) as nat)) as u32;
    let prev = tip_bands(base, radial, (upto - 1) as nat);
    let last = adaptive(
        lower,
        upper,
        tip_segments(radial, upto - 2),
        tip_segments(radial, upto - 1),
    );
    if x >= lower {
        lemma_adaptive_covers(
            lower,
            upper,
            tip_segments(radial, upto - 2),
            tip_segments(radial, upto - 1),
            x,
        );
    } else {
        lemma_tip_bands_cover(base, radial, (upto - 1) as nat, x);
    }
    lemma_names_concat(prev, last, x);
}

impl MeshParams {
    /// The surface is closed wherever it has vertices: a branch has two
    /// rings or more, and a ring has a vertex.
    pub open spec fn closes(self) -> bool {
        self.length_segments >= 2 && self.radial_segments >= 1
    }

    /// The tip of a leaf leaves none of its vertices out.
    pub proof fn lemma_tip_covers(self, base: u32, x: int)
        requires
            base + self.cap_len(true) <= 0x1_0000_0000,
            base <= x < base + self.cap_len(true),
        ensures
            names(self.cap_indices(base, true), x),
    {
        let radial = self.radial_segments;
        let last = tip_segments(radial, TIP_RINGS - 1);
        let ring = (base + tip_offset(radial, (TIP_RINGS - 1) as nat)) as u32;
        let apex = (base + tip_offset(radial, TIP_RINGS as nat)) as u32;
        lemma_tip_offset_grows(radial, (TIP_RINGS - 1) as nat, TIP_RINGS as nat);
        lemma_tip_segments(radial, TIP_RINGS - 1);
        if x == apex {
            lemma_fan_covers(ring, last, apex, last as nat, x);
        } else {
            lemma_tip_bands_cover(base, radial, TIP_RINGS as nat, x);
        }
        lemma_names_concat(
            tip_bands(base, radial, TIP_RINGS as nat),
            fan(ring, last, apex, last as nat),
            x,
        );
    }

    /// The cap of a branch leaves none of its vertices out.
    pub proof fn lemma_cap_covers(self, base: u32, leaf: bool, x: int)
        requires
            leaf || self.radial_segments >= 1,
            base + self.cap_len(leaf) <= 0x1_0000_0000,
            base <= x < base + self.cap_len(leaf),
        ensures
            names(self.cap_indices(base, leaf), x),
    {
        if leaf {
            self.lemma_tip_covers(base, x);
        } else {
            let radial = self.radial_segments;
            let ring = (base + (JOINT_RINGS - 1) * radial) as u32;
            let apex = (base + JOINT_RINGS * radial) as u32;
            if x == apex {
                lemma_fan_covers(ring, radial, apex, radial as nat, x);
            } else {
                lemma_bands_cover(base, JOINT_RINGS as nat, radial, x);
            }
            lemma_names_concat(
                bands(base, JOINT_RINGS as nat, radial),
                fan(ring, radial, apex, radial as nat),
                x,
            );
        }
    }

    /// A closed surface leaves no vertex of a subtree out.
    pub proof fn lemma_tree_covers(self, node: BranchModel, base: nat, x: int)
        requires
            self.closes(),
            base + self.vertex_total(node) <= 0x1_0000_0000,
            base <= x < base + self.vertex_total(node),
        ensures
            names(self.tree_indices(node, base), x),
        decreases node, node.children.len() + 1,
    {
        let len = node.children.len();
        let leaf = len == 0;
        let after_shaft = base + self.shaft_len();
        let after_kids = after_shaft + self.kids_vertex_total(node, len);
        let a = self.shaft_indices(base as u32);
        let b = self.kids_indices(node, after_shaft, len);
        let c = self.cap_indices(after_kids as u32, leaf);
        if x < after_shaft {
            lemma_bands_cover(base as u32, self.length_segments as nat, self.radial_segments, x);
            lemma_names_concat(a, b, x);
        } else if x < after_kids {
            self.lemma_kids_cover(node, after_shaft, len, x);
            lemma_names_concat(a, b, x);
        } else {
            self.lemma_cap_covers(after_kids as u32, leaf, x);
        }
        lemma_names_concat(a + b, c, x);
    }

    /// A closed surface leaves no vertex of the first `upto` children's
    /// subtrees out.
    pub proof fn lemma_kids_cover(self, node: BranchModel, base: nat, upto: nat, x: int)
        requires
            self.closes(),
            upto <= node.children.len(),
            base + self.kids_vertex_total(node, upto) <= 0x1_0000_0000,
            base <= x < base + self.kids_vertex_total(node, upto),
        ensures
            names(self.kids_indices(node, base, upto), x),
        decreases node, upto,
    {
        if upto > 0 {
            let before = base + self.kids_vertex_total(node, (upto - 1) as nat);
            let a = self.kids_indices(node, base, (upto - 1) as nat);
            let b = self.tree_indices(node.children[upto - 1], before);
            if x < before {
                self.lemma_kids_cover(node, base, (upto - 1) as nat, x);
            } else {
                self.lemma_tree_covers(node.children[upto - 1], before, x);
            }
            lemma_names_concat(a, b, x);
        }
    }
}

} // verus!
