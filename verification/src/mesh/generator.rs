//! Stitching of unequal rings and the surface of a whole branch tree.

use vstd::prelude::*;
use crate::growth::algorithm::{BranchModel, BranchNode};
use super::branch::{
    band, connect_rings, create_ring, names, quad, ring, Mesh, Part, Vertex,
};

verus! {

/// Resolution of the generated surface.
#[derive(Clone, Copy, Debug)]
pub struct MeshParams {
    /// Vertices around each ring of a branch.
    pub radial_segments: usize,
    /// Rings along each branch, at least one.
    pub length_segments: usize,
    /// Seed of the bark texture.
    pub seed: u32,
}

impl Default for MeshParams {
    fn default() -> (params: Self)
        ensures
            params.radial_segments == 12,
            params.length_segments == 8,
            params.seed == 42,
    {
        MeshParams { radial_segments: 12, length_segments: 8, seed: 42 }
    }
}

/// Slot `i` of the larger ring, carried proportionally onto a ring of `seg` slots.
pub open spec fn mapped_slot(i: int, seg: usize, max_seg: usize) -> int {
    (i * seg) / (max_seg as int)
}

/// The primitive that step `i` of the stitching emits between two unequal
/// rings: a quad, or a triangle where one ring has a single vertex.
pub open spec fn stitch(ring1: u32, ring2: u32, seg1: usize, seg2: usize, i: int) -> Seq<u32> {
    let max_seg = if seg1 >= seg2 { seg1 } else { seg2 };
    let i1 = mapped_slot(i, seg1, max_seg);
    let i2 = mapped_slot(i, seg2, max_seg);
    let a = (ring1 + i1) as u32;
    let b = (ring1 + (i1 + 1) % (seg1 as int)) as u32;
    let c = (ring2 + (i2 + 1) % (seg2 as int)) as u32;
    let d = (ring2 + i2) as u32;
    if a != b && c != d {
        quad(a, d, c, b)
    } else if a != b {
        seq![a, d, b]
    } else if c != d {
        seq![a, d, c]
    } else {
        Seq::empty()
    }
}

/// The primitives of the first `upto` steps of the stitching.
pub open spec fn stitched(ring1: u32, ring2: u32, seg1: usize, seg2: usize, upto: nat) -> Seq<u32>
    decreases upto,
{
    if upto == 0 {
        Seq::empty()
    } else {
        stitched(ring1, ring2, seg1, seg2, (upto - 1) as nat) + stitch(
            ring1,
            ring2,
            seg1,
            seg2,
            upto - 1,
        )
    }
}

/// The indices that join a ring of `seg1` vertices to one of `seg2`.
pub open spec fn adaptive(ring1: u32, ring2: u32, seg1: usize, seg2: usize) -> Seq<u32> {
    if seg1 == seg2 {
        band(ring1, ring2, seg1, seg1 as nat)
    } else {
        stitched(ring1, ring2, seg1, seg2, (if seg1 >= seg2 { seg1 } else { seg2 }) as nat)
    }
}

/// A proportionally mapped slot lies on its ring, and the larger ring maps onto itself.
pub proof fn lemma_mapped_slot(i: int, seg: usize, max_seg: usize)
    requires
        0 <= i < max_seg,
        1 <= seg <= max_seg,
    ensures
        0 <= mapped_slot(i, seg, max_seg) < seg,
        seg == max_seg ==> mapped_slot(i, seg, max_seg) == i,
{
    let m = max_seg as int;
    let s = seg as int;
    assert(0 <= i * s) by (nonlinear_arith)
        requires
            0 <= i,
            0 <= s,
    ;
    assert(i * s < s * m) by (nonlinear_arith)
        requires
            0 <= i < m,
            1 <= s,
    ;
    assert((i * s) / m < s && 0 <= (i * s) / m) by (nonlinear_arith)
        requires
            0 <= i * s < s * m,
            m > 0,
    ;
    if seg == max_seg {
        assert((i * m) / m == i) by (nonlinear_arith)
            requires
                m > 0,
        ;
    }
}

fn map_slot(i: usize, seg: usize, max_seg: usize) -> (slot: usize)
    requires
        i < max_seg,
        1 <= seg <= max_seg,
        max_seg <= 0x1_0000_0000,
    ensures
        slot == mapped_slot(i as int, seg, max_seg),
        slot < seg,
{
    proof {
        lemma_mapped_slot(i as int, seg, max_seg);
        assert(i * seg <= 0xffff_ffff * 0x1_0000_0000) by (nonlinear_arith)
            requires
                0 <= i <= 0xffff_ffff,
                0 <= seg <= 0x1_0000_0000,
        ;
    }
    let wide: u64 = (i as u64) * (seg as u64) / (max_seg as u64);
    wide as usize
}

/// Joins two rings whose vertex counts may differ. Equal rings are joined
/// slot by slot; otherwise each slot of the larger ring is joined to the
/// proportional slot of the smaller one.
pub fn connect_rings_adaptive(
    mesh: &mut Mesh,
    ring1_start: u32,
    ring2_start: u32,
    seg1: usize,
    seg2: usize,
)
    requires
        ring1_start + seg1 <= 0x1_0000_0000,
        ring2_start + seg2 <= 0x1_0000_0000,
        seg1 == seg2 || (seg1 >= 1 && seg2 >= 1),
    ensures
        final(mesh).indices@ == old(mesh).indices@ + adaptive(ring1_start, ring2_start, seg1, seg2),
        final(mesh).vertices@ == old(mesh).vertices@,
{
    if seg1 == seg2 {
        connect_rings(mesh, ring1_start, ring2_start, seg1);
        return ;
    }
    let max_seg = if seg1 >= seg2 { seg1 } else { seg2 };
    let mut i: usize = 0;
    while i < max_seg
        invariant
            i <= max_seg,
            seg1 != seg2,
            seg1 >= 1,
            seg2 >= 1,
            max_seg == (if seg1 >= seg2 { seg1 } else { seg2 }),
            ring1_start + seg1 <= 0x1_0000_0000,
            ring2_start + seg2 <= 0x1_0000_0000,
            mesh.indices@ == old(mesh).indices@ + stitched(
                ring1_start,
                ring2_start,
                seg1,
                seg2,
                i as nat,
            ),
            mesh.vertices@ == old(mesh).vertices@,
        decreases max_seg - i,
    {
        let i1 = map_slot(i, seg1, max_seg);
        let i1_next = (i1 + 1) % seg1;
        let i2 = map_slot(i, seg2, max_seg);
        let i2_next = (i2 + 1) % seg2;
        let a = ring1_start + i1 as u32;
        let b = ring1_start + i1_next as u32;
        let c = ring2_start + i2_next as u32;
        let d = ring2_start + i2 as u32;
        if a != b && c != d {
            mesh.add_quad(a, d, c, b);
        } else if a != b {
            mesh.add_triangle(a, d, b);
        } else if c != d {
            mesh.add_triangle(a, d, c);
        }
        i += 1;
    }
}

/// Number of rings in the dome that closes a branch with children.
pub const JOINT_RINGS: usize = 4;

/// Number of rings in the tip that closes a leaf branch.
pub const TIP_RINGS: usize = 4;

/// `levels` rings of `segments` vertices each, stacked from level 0 upward.
pub open spec fn rings(branch: usize, part: Part, levels: nat, segments: usize) -> Seq<Vertex>
    decreases levels,
{
    if levels == 0 {
        Seq::empty()
    } else {
        rings(branch, part, (levels - 1) as nat, segments) + ring(
            branch,
            part,
            (levels - 1) as usize,
            segments,
        )
    }
}

/// The bands between consecutive rings of a stack whose first vertex is `base`.
pub open spec fn bands(base: u32, levels: nat, segments: usize) -> Seq<u32>
    decreases levels,
{
    if levels <= 1 {
        Seq::empty()
    } else {
        bands(base, (levels - 1) as nat, segments) + band(
            (base + (levels - 2) * segments) as u32,
            (base + (levels - 1) * segments) as u32,
            segments,
            segments as nat,
        )
    }
}

/// The first `upto` triangles of the fan from a ring to the vertex `apex`.
pub open spec fn fan(ring_start: u32, segments: usize, apex: u32, upto: nat) -> Seq<u32>
    decreases upto,
{
    if upto == 0 {
        Seq::empty()
    } else {
        fan(ring_start, segments, apex, (upto - 1) as nat) + seq![
            (ring_start + (upto - 1)) as u32,
            (ring_start + (upto as int) % (segments as int)) as u32,
            apex,
        ]
    }
}

/// A stack of rings has `levels * segments` vertices.
pub proof fn lemma_rings_len(branch: usize, part: Part, levels: nat, segments: usize)
    ensures
        rings(branch, part, levels, segments).len() == levels * segments,
    decreases levels,
{
    if levels > 0 {
        lemma_rings_len(branch, part, (levels - 1) as nat, segments);
        assert((levels - 1) * segments + segments == levels * segments) by (nonlinear_arith);
    } else {
        assert(levels * segments == 0) by (nonlinear_arith)
            requires
                levels == 0,
        ;
    }
}

/// Fifty-fourths of the full ring kept at each level of a tip: the smooth
/// taper `1 - t*t*(3 - 2t)` at `t = level / 3`, halved and lifted by a half.
pub open spec fn tip_taper(level: int) -> int {
    if level <= 0 {
        54
    } else if level == 1 {
        47
    } else if level == 2 {
        34
    } else {
        27
    }
}

/// Vertices in ring `level` of a tip: the tapered share of `radial`, at least 4.
#[verifier::opaque]
pub open spec fn tip_segments(radial: usize, level: int) -> usize {
    let scaled = (radial * tip_taper(level)) / 54;
    if scaled < 4 {
        4
    } else {
        scaled as usize
    }
}

/// Vertices in the tip rings below `level`.
pub open spec fn tip_offset(radial: usize, level: nat) -> nat
    decreases level,
{
    if level == 0 {
        0
    } else {
        tip_offset(radial, (level - 1) as nat) + tip_segments(radial, level - 1) as nat
    }
}

/// The first `upto` rings of a tip.
pub open spec fn tip_rings(branch: usize, radial: usize, upto: nat) -> Seq<Vertex>
    decreases upto,
{
    if upto == 0 {
        Seq::empty()
    } else {
        tip_rings(branch, radial, (upto - 1) as nat) + ring(
            branch,
            Part::Tip,
            (upto - 1) as usize,
            tip_segments(radial, upto - 1),
        )
    }
}

/// The stitching between the first `upto` rings of a tip whose first vertex is `base`.
pub open spec fn tip_bands(base: u32, radial: usize, upto: nat) -> Seq<u32>
    decreases upto,
{
    if upto <= 1 {
        Seq::empty()
    } else {
        tip_bands(base, radial, (upto - 1) as nat) + adaptive(
            (base + tip_offset(radial, (upto - 2) as nat)) as u32,
            (base + tip_offset(radial, (upto - 1) as nat)) as u32,
            tip_segments(radial, upto - 2),
            tip_segments(radial, upto - 1),
        )
    }
}

/// A tip ring is never larger than the full ring, unless that has fewer than 4 vertices.
pub proof fn lemma_tip_segments(radial: usize, level: int)
    ensures
        4 <= tip_segments(radial, level),
        tip_segments(radial, level) <= radial || tip_segments(radial, level) == 4,
{
    reveal(tip_segments);
}

/// The rings of a tip do not grow toward the apex.
pub proof fn lemma_tip_shrinks(radial: usize, lower: int, upper: int)
    requires
        0 <= lower <= upper,
    ensures
        tip_segments(radial, upper) <= tip_segments(radial, lower),
{
    reveal(tip_segments);
    let a = tip_taper(lower);
    let b = tip_taper(upper);
    assert(radial * b <= radial * a) by (nonlinear_arith)
        requires
            0 <= b <= a,
            0 <= radial,
    ;
}

/// Higher levels of a tip start at later vertices.
pub proof fn lemma_tip_offset_grows(radial: usize, i: nat, j: nat)
    requires
        i <= j,
    ensures
        tip_offset(radial, i) <= tip_offset(radial, j),
    decreases j,
{
    if i < j {
        lemma_tip_offset_grows(radial, i, (j - 1) as nat);
    }
}

/// The first `upto` rings of a tip hold `tip_offset` vertices.
pub proof fn lemma_tip_rings_len(branch: usize, radial: usize, upto: nat)
    ensures
        tip_rings(branch, radial, upto).len() == tip_offset(radial, upto),
    decreases upto,
{
    if upto > 0 {
        lemma_tip_rings_len(branch, radial, (upto - 1) as nat);
    }
}

/// The apex vertex that closes the part `part` of a branch.
pub open spec fn apex(branch: usize, part: Part, level: usize) -> Vertex {
    Vertex { branch, part, level, slot: 0, segments: 1 }
}

impl MeshParams {
    /// Vertices of one branch shaft.
    pub open spec fn shaft_len(self) -> nat {
        (self.length_segments * self.radial_segments) as nat
    }

    /// Vertices of the cap of a branch: a tip on a leaf, a joint otherwise.
    pub open spec fn cap_len(self, leaf: bool) -> nat {
        if leaf {
            tip_offset(self.radial_segments, TIP_RINGS as nat) + 1
        } else {
            (JOINT_RINGS * self.radial_segments + 1) as nat
        }
    }

    /// The vertices of the shaft of branch number `branch`.
    pub open spec fn shaft_vertices(self, branch: usize) -> Seq<Vertex> {
        rings(branch, Part::Shaft, self.length_segments as nat, self.radial_segments)
    }

    /// The triangles of a shaft whose first vertex has index `base`.
    pub open spec fn shaft_indices(self, base: u32) -> Seq<u32> {
        bands(base, self.length_segments as nat, self.radial_segments)
    }

    /// The vertices of the cap of branch number `branch`: the rings of a
    /// tip or of a joint, then the apex.
    pub open spec fn cap_vertices(self, branch: usize, leaf: bool) -> Seq<Vertex> {
        if leaf {
            tip_rings(branch, self.radial_segments, TIP_RINGS as nat) + seq![
                apex(branch, Part::TipApex, TIP_RINGS),
            ]
        } else {
            rings(branch, Part::Joint, JOINT_RINGS as nat, self.radial_segments) + seq![
                apex(branch, Part::JointApex, JOINT_RINGS),
            ]
        }
    }

    /// The triangles of a cap whose first vertex has index `base`: the
    /// stitching of its rings, then the fan from the last ring to the apex.
    pub open spec fn cap_indices(self, base: u32, leaf: bool) -> Seq<u32> {
        if leaf {
            let last = tip_segments(self.radial_segments, TIP_RINGS - 1);
            tip_bands(base, self.radial_segments, TIP_RINGS as nat) + fan(
                (base + tip_offset(self.radial_segments, (TIP_RINGS - 1) as nat)) as u32,
                last,
                (base + tip_offset(self.radial_segments, TIP_RINGS as nat)) as u32,
                last as nat,
            )
        } else {
            bands(base, JOINT_RINGS as nat, self.radial_segments) + fan(
                (base + (JOINT_RINGS - 1) * self.radial_segments) as u32,
                self.radial_segments,
                (base + JOINT_RINGS * self.radial_segments) as u32,
                self.radial_segments as nat,
            )
        }
    }
}

/// Appends a stack of equal rings, each joined to the one below it, and
/// returns the index of the first vertex of the topmost ring.
fn emit_rings(mesh: &mut Mesh, branch: usize, part: Part, levels: usize, segments: usize) -> (last: u32)
    requires
        old(mesh).vertices@.len() + levels * segments <= u32::MAX,
    ensures
        final(mesh).vertices@ == old(mesh).vertices@ + rings(branch, part, levels as nat, segments),
        final(mesh).indices@ == old(mesh).indices@ + bands(
            old(mesh).vertices@.len() as u32,
            levels as nat,
            segments,
        ),
        final(mesh).vertices@.len() == old(mesh).vertices@.len() + levels * segments,
        levels > 0 ==> last == old(mesh).vertices@.len() + (levels - 1) * segments,
{
    let ghost base = old(mesh).vertices@.len();
    let mut prev: u32 = 0;
    let mut l: usize = 0;
    while l < levels
        invariant
            l <= levels,
            base == old(mesh).vertices@.len(),
            base + levels * segments <= u32::MAX,
            mesh.vertices@ == old(mesh).vertices@ + rings(branch, part, l as nat, segments),
            mesh.indices@ == old(mesh).indices@ + bands(base as u32, l as nat, segments),
            mesh.vertices@.len() == base + l * segments,
            l > 0 ==> prev == base + (l - 1) * segments,
        decreases levels - l,
    {
        proof {
            assert((l + 1) * segments <= levels * segments) by (nonlinear_arith)
                requires
                    l + 1 <= levels,
                    0 <= segments,
            ;
            assert((l + 1) * segments == l * segments + segments) by (nonlinear_arith);
            assert(l > 0 ==> (l - 1) * segments + segments == l * segments) by (nonlinear_arith);
        }
        let verts = create_ring(branch, part, l, segments);
        let start = mesh.add_vertices(verts);
        if l > 0 {
            connect_rings(mesh, prev, start, segments);
        }
        prev = start;
        l += 1;
        proof {
            assert(mesh.vertices@ =~= old(mesh).vertices@ + rings(
                branch,
                part,
                l as nat,
                segments,
            ));
            assert(mesh.indices@ =~= old(mesh).indices@ + bands(base as u32, l as nat, segments));
        }
    }
    prev
}

/// Closes a ring with one triangle per slot to the vertex `apex`.
fn cap_fan(mesh: &mut Mesh, ring_start: u32, segments: usize, apex: u32)
    requires
        ring_start + segments <= 0x1_0000_0000,
    ensures
        final(mesh).indices@ == old(mesh).indices@ + fan(ring_start, segments, apex, segments as nat),
        final(mesh).vertices@ == old(mesh).vertices@,
{
    let mut i: usize = 0;
    while i < segments
        invariant
            i <= segments,
            ring_start + segments <= 0x1_0000_0000,
            mesh.indices@ == old(mesh).indices@ + fan(ring_start, segments, apex, i as nat),
            mesh.vertices@ == old(mesh).vertices@,
        decreases segments - i,
    {
        let next = (i + 1) % segments;
        mesh.add_triangle(ring_start + i as u32, ring_start + next as u32, apex);
        i += 1;
    }
}

/// Vertices in ring `level` of the tip of a branch with `radial` vertices per ring.
pub fn tip_ring_segments(radial: usize, level: usize) -> (segments: usize)
    ensures
        segments == tip_segments(radial, level as int),
{
    reveal(tip_segments);
    let whole = radial / 54;
    let rest = radial % 54;
    let scaled = if level == 0 {
        radial
    } else if level == 1 {
        whole * 47 + rest * 47 / 54
    } else if level == 2 {
        whole * 34 + rest * 34 / 54
    } else {
        whole * 27 + rest * 27 / 54
    };
    if scaled < 4 {
        4
    } else {
        scaled
    }
}

impl MeshParams {
    /// Vertices in the subtree below `node`, caps included.
    pub open spec fn vertex_total(self, node: BranchModel) -> nat
        decreases node, node.children.len() + 1,
    {
        self.shaft_len() + self.kids_vertex_total(node, node.children.len()) + self.cap_len(
            node.children.len() == 0,
        )
    }

    /// Vertices in the subtrees of the first `upto` children of `node`.
    pub open spec fn kids_vertex_total(self, node: BranchModel, upto: nat) -> nat
        decreases node, upto,
    {
        if upto == 0 || upto > node.children.len() {
            0
        } else {
            self.kids_vertex_total(node, (upto - 1) as nat) + self.vertex_total(
                node.children[upto - 1],
            )
        }
    }

    /// The vertices of the subtree below `node`, whose root is branch number
    /// `branch`: the shaft, then each child's subtree, then the cap.
    pub open spec fn tree_vertices(self, node: BranchModel, branch: nat) -> Seq<Vertex>
        decreases node, node.children.len() + 1,
    {
        self.shaft_vertices(branch as usize) + self.kids_vertices(
            node,
            branch + 1,
            node.children.len(),
        ) + self.cap_vertices(branch as usize, node.children.len() == 0)
    }

    /// The vertices of the subtrees of the first `upto` children of `node`,
    /// the first of which is branch number `first`.
    pub open spec fn kids_vertices(self, node: BranchModel, first: nat, upto: nat) -> Seq<Vertex>
        decreases node, upto,
    {
        if upto == 0 || upto > node.children.len() {
            Seq::empty()
        } else {
            self.kids_vertices(node, first, (upto - 1) as nat) + self.tree_vertices(
                node.children[upto - 1],
                first + node.kids_count((upto - 1) as nat),
            )
        }
    }

    /// The triangles of the subtree below `node`, whose first vertex has index `base`.
    pub open spec fn tree_indices(self, node: BranchModel, base: nat) -> Seq<u32>
        decreases node, node.children.len() + 1,
    {
        self.shaft_indices(base as u32) + self.kids_indices(
            node,
            base + self.shaft_len(),
            node.children.len(),
        ) + self.cap_indices(
            (base + self.shaft_len() + self.kids_vertex_total(node, node.children.len())) as u32,
            node.children.len() == 0,
        )
    }

    /// The triangles of the subtrees of the first `upto` children of `node`,
    /// the first vertex of the first of which has index `base`.
    pub open spec fn kids_indices(self, node: BranchModel, base: nat, upto: nat) -> Seq<u32>
        decreases node, upto,
    {
        if upto == 0 || upto > node.children.len() {
            Seq::empty()
        } else {
            self.kids_indices(node, base, (upto - 1) as nat) + self.tree_indices(
                node.children[upto - 1],
                base + self.kids_vertex_total(node, (upto - 1) as nat),
            )
        }
    }

    /// The surface of `node` can be generated: there is a ring along each
    /// branch, and every vertex index fits in 32 bits.
    pub open spec fn admits(self, node: BranchModel) -> bool {
        self.length_segments >= 1 && self.vertex_total(node) <= u32::MAX
    }

    /// More children mean more vertices.
    pub proof fn lemma_kids_vertex_total_grows(self, node: BranchModel, i: nat, j: nat)
        requires
            i <= j <= node.children.len(),
        ensures
            self.kids_vertex_total(node, i) <= self.kids_vertex_total(node, j),
        decreases j,
    {
        if i < j {
            self.lemma_kids_vertex_total_grows(node, i, (j - 1) as nat);
        }
    }

    /// Every branch has at least one vertex.
    pub proof fn lemma_count_le_vertex_total(self, node: BranchModel)
        ensures
            node.count() <= self.vertex_total(node),
        decreases node, node.children.len() + 1,
    {
        self.lemma_kids_count_le_vertex_total(node, node.children.len());
    }

    /// The first `upto` children's subtrees have at least one vertex for each branch.
    pub proof fn lemma_kids_count_le_vertex_total(self, node: BranchModel, upto: nat)
        requires
            upto <= node.children.len(),
        ensures
            node.kids_count(upto) <= self.kids_vertex_total(node, upto),
        decreases node, upto,
    {
        if upto > 0 {
            self.lemma_kids_count_le_vertex_total(node, (upto - 1) as nat);
            self.lemma_count_le_vertex_total(node.children[upto - 1]);
        }
    }
}

/// The bits of the bark texture at ring `index`: the index times the
/// seed plus 12345, wrapping at 32 bits, mixed by two rounds of xor with a
/// right shift around a multiplication.
pub open spec fn bark_bits(index: usize, seed: u32) -> u32 {
    let x = (index as u32).wrapping_mul(seed).wrapping_add(12345);
    let x = x ^ (x >> 16);
    let x = x.wrapping_mul(0x85ebca6b);
    x ^ (x >> 13)
}

/// Generates the surface of a branch tree.
pub struct MeshGenerator {
    params: MeshParams,
}

impl MeshGenerator {
    /// The resolution this generator was made with.
    pub closed spec fn params(&self) -> MeshParams {
        self.params
    }

    /// A generator of surfaces of the resolution `params`.
    pub fn new(params: MeshParams) -> (generator: Self)
        ensures
            generator.params() == params,
    {
        MeshGenerator { params }
    }

    /// The bits from which the bark displacement of ring `index` is taken.
    pub fn bark_noise(&self, index: usize, seed: u32) -> (bits: u32)
        ensures
            bits == bark_bits(index, seed),
    {
        let x = (index as u32).wrapping_mul(seed).wrapping_add(12345);
        let x = x ^ (x >> 16);
        let x = x.wrapping_mul(0x85ebca6b);
        x ^ (x >> 13)
    }

    /// The rings along branch number `branch`, each joined to the one before.
    fn generate_branch_segment(&self, branch: usize, mesh: &mut Mesh)
        requires
            old(mesh).vertices@.len() + self.params().shaft_len() <= u32::MAX,
        ensures
            final(mesh).vertices@ == old(mesh).vertices@ + self.params().shaft_vertices(branch),
            final(mesh).indices@ == old(mesh).indices@ + self.params().shaft_indices(
                old(mesh).vertices@.len() as u32,
            ),
            final(mesh).vertices@.len() == old(mesh).vertices@.len() + self.params().shaft_len(),
    {
        emit_rings(
            mesh,
            branch,
            Part::Shaft,
            self.params.length_segments,
            self.params.radial_segments,
        );
    }

    /// The dome that closes branch number `branch` where its children leave
    /// it: four rings, then a fan to an apex vertex.
    fn generate_joint(&self, branch: usize, mesh: &mut Mesh)
        requires
            old(mesh).vertices@.len() + self.params().cap_len(false) <= u32::MAX,
        ensures
            final(mesh).vertices@ == old(mesh).vertices@ + self.params().cap_vertices(
                branch,
                false,
            ),
            final(mesh).indices@ == old(mesh).indices@ + self.params().cap_indices(
                old(mesh).vertices@.len() as u32,
                false,
            ),
            final(mesh).vertices@.len() == old(mesh).vertices@.len() + self.params().cap_len(
                false,
            ),
    {
        let segments = self.params.radial_segments;
        let last_ring = emit_rings(mesh, branch, Part::Joint, JOINT_RINGS, segments);
        let tip = Vertex::new(branch, Part::JointApex, JOINT_RINGS, 0, 1);
        let tip_idx = mesh.add_vertices(vec![tip]);
        cap_fan(mesh, last_ring, segments, tip_idx);
        proof {
            assert(mesh.vertices@ =~= old(mesh).vertices@ + self.params().cap_vertices(
                branch,
                false,
            ));
            assert(mesh.indices@ =~= old(mesh).indices@ + self.params().cap_indices(
                old(mesh).vertices@.len() as u32,
                false,
            ));
        }
    }

    /// The tapered tip that closes leaf branch number `branch`: four rings
    /// of shrinking vertex count, stitched adaptively, then a fan to an apex
    /// vertex.
    #[verifier::rlimit(40)]
    fn generate_organic_tip(&self, branch: usize, mesh: &mut Mesh)
        requires
            old(mesh).vertices@.len() + self.params().cap_len(true) <= u32::MAX,
        ensures
            final(mesh).vertices@ == old(mesh).vertices@ + self.params().cap_vertices(branch, true),
            final(mesh).indices@ == old(mesh).indices@ + self.params().cap_indices(
                old(mesh).vertices@.len() as u32,
                true,
            ),
            final(mesh).vertices@.len() == old(mesh).vertices@.len() + self.params().cap_len(true),
    {
        let radial = self.params.radial_segments;
        let ghost base = old(mesh).vertices@.len();
        let mut prev_start: u32 = 0;
        let mut prev_seg: usize = 0;
        let mut i: usize = 0;
        while i < TIP_RINGS
            invariant
                i <= TIP_RINGS,
                radial == self.params().radial_segments,
                base == old(mesh).vertices@.len(),
                base + tip_offset(radial, TIP_RINGS as nat) + 1 <= u32::MAX,
                mesh.vertices@ == old(mesh).vertices@ + tip_rings(branch, radial, i as nat),
                mesh.indices@ == old(mesh).indices@ + tip_bands(base as u32, radial, i as nat),
                mesh.vertices@.len() == base + tip_offset(radial, i as nat),
                i > 0 ==> prev_start == base + tip_offset(radial, (i - 1) as nat),
                i > 0 ==> prev_seg == tip_segments(radial, i - 1),
            decreases TIP_RINGS - i,
        {
            proof {
                lemma_tip_offset_grows(radial, (i + 1) as nat, TIP_RINGS as nat);
                lemma_tip_segments(radial, i as int);
                lemma_tip_segments(radial, i - 1);
            }
            let seg_count = tip_ring_segments(radial, i);
            let verts = create_ring(branch, Part::Tip, i, seg_count);
            let ring_start = mesh.add_vertices(verts);
            if i > 0 {
                connect_rings_adaptive(mesh, prev_start, ring_start, prev_seg, seg_count);
            }
            prev_start = ring_start;
            prev_seg = seg_count;
            i += 1;
            proof {
                assert(mesh.vertices@ =~= old(mesh).vertices@ + tip_rings(
                    branch,
                    radial,
                    i as nat,
                ));
                assert(mesh.indices@ =~= old(mesh).indices@ + tip_bands(
                    base as u32,
                    radial,
                    i as nat,
                ));
            }
        }
        let tip = Vertex::new(branch, Part::TipApex, TIP_RINGS, 0, 1);
        let tip_idx = mesh.add_vertices(vec![tip]);
        cap_fan(mesh, prev_start, prev_seg, tip_idx);
        proof {
            assert(mesh.vertices@ =~= old(mesh).vertices@ + self.params().cap_vertices(
                branch,
                true,
            ));
            assert(mesh.indices@ =~= old(mesh).indices@ + self.params().cap_indices(
                base as u32,
                true,
            ));
        }
    }
}

/// Adds two vertex counts, as long as the sum is a valid vertex index.
fn bounded_add(a: u64, b: u64) -> (sum: Option<u64>)
    requires
        a <= u32::MAX,
        b <= u32::MAX,
    ensures
        sum == (if a + b <= u32::MAX {
            Some((a + b) as u64)
        } else {
            None
        }),
{
    let total = a + b;
    if total <= 0xffff_ffff {
        Some(total)
    } else {
        None
    }
}

/// A vertex count as a 64-bit number, as long as it is a valid vertex index.
fn bounded(n: usize) -> (m: Option<u64>)
    ensures
        m == (if n <= u32::MAX {
            Some(n as u64)
        } else {
            None
        }),
{
    if n <= 0xffff_ffff {
        Some(n as u64)
    } else {
        None
    }
}

impl MeshGenerator {
    fn shaft_demand(&self) -> (demand: Option<u64>)
        ensures
            demand == (if self.params().shaft_len() <= u32::MAX {
                Some(self.params().shaft_len() as u64)
            } else {
                None
            }),
    {
        match self.params.length_segments.checked_mul(self.params.radial_segments) {
            Some(n) => bounded(n),
            None => None,
        }
    }

    fn cap_demand(&self, leaf: bool) -> (demand: Option<u64>)
        ensures
            demand == (if self.params().cap_len(leaf) <= u32::MAX {
                Some(self.params().cap_len(leaf) as u64)
            } else {
                None
            }),
    {
        let radial = self.params.radial_segments;
        if leaf {
            let mut total: u64 = 1;
            let mut i: usize = 0;
            while i < TIP_RINGS
                invariant
                    i <= TIP_RINGS,
                    leaf,
                    radial == self.params().radial_segments,
                    total == tip_offset(radial, i as nat) + 1,
                    total <= u32::MAX,
                decreases TIP_RINGS - i,
            {
                proof {
                    lemma_tip_offset_grows(radial, (i + 1) as nat, TIP_RINGS as nat);
                }
                let seg = match bounded(tip_ring_segments(radial, i)) {
                    Some(seg) => seg,
                    None => {
                        return None;
                    },
                };
                total = match bounded_add(total, seg) {
                    Some(total) => total,
                    None => {
                        return None;
                    },
                };
                i += 1;
            }
            Some(total)
        } else {
            match radial.checked_mul(JOINT_RINGS) {
                Some(n) => match bounded(n) {
                    Some(n) => bounded_add(n, 1),
                    None => None,
                },
                None => None,
            }
        }
    }

    /// Counts the vertices of the subtree below `node`, as long as they can
    /// all be indexed.
    pub fn vertex_demand(&self, node: &BranchNode) -> (demand: Option<u64>)
        ensures
            demand == (if self.params().vertex_total(node@) <= u32::MAX {
                Some(self.params().vertex_total(node@) as u64)
            } else {
                None
            }),
        decreases node,
    {
        let ghost len = node@.children.len();
        proof {
            node.lemma_view();
        }
        let shaft = match self.shaft_demand() {
            Some(n) => n,
            None => {
                return None;
            },
        };
        let cap = match self.cap_demand(node.children.len() == 0) {
            Some(n) => n,
            None => {
                return None;
            },
        };
        let mut total: u64 = match bounded_add(shaft, cap) {
            Some(n) => n,
            None => {
                return None;
            },
        };
        let mut i: usize = 0;
        while i < node.children.len()
            invariant
                i <= node.children@.len(),
                len == node.children@.len(),
                len == node@.children.len(),
                total == self.params().shaft_len() + self.params().cap_len(len == 0)
                    + self.params().kids_vertex_total(node@, i as nat),
                total <= u32::MAX,
            decreases node.children@.len() - i,
        {
            proof {
                node.lemma_view();
                self.params().lemma_kids_vertex_total_grows(node@, (i + 1) as nat, len);
                assert(node@.children[i as int] == node.children@[i as int]@);
            }
            let child = match self.vertex_demand(&node.children[i]) {
                Some(n) => n,
                None => {
                    return None;
                },
            };
            total = match bounded_add(total, child) {
                Some(n) => n,
                None => {
                    return None;
                },
            };
            i += 1;
        }
        Some(total)
    }

    /// Whether the surface of `root` can be generated.
    pub fn fits(&self, root: &BranchNode) -> (ok: bool)
        ensures
            ok == self.params().admits(root@),
    {
        self.params.length_segments >= 1 && self.vertex_demand(root).is_some()
    }

    #[verifier::rlimit(40)]
    fn generate_branch_recursive(&self, node: &BranchNode, mesh: &mut Mesh, branch: usize) -> (next:
        usize)
        requires
            old(mesh).vertices@.len() + self.params().vertex_total(node@) <= u32::MAX,
            branch + node@.count() <= usize::MAX,
        ensures
            final(mesh).vertices@ == old(mesh).vertices@ + self.params().tree_vertices(
                node@,
                branch as nat,
            ),
            final(mesh).indices@ == old(mesh).indices@ + self.params().tree_indices(
                node@,
                old(mesh).vertices@.len(),
            ),
            final(mesh).vertices@.len() == old(mesh).vertices@.len() + self.params().vertex_total(
                node@,
            ),
            next == branch + node@.count(),
        decreases node,
    {
        let ghost p = self.params();
        let ghost base = old(mesh).vertices@.len();
        let ghost len = node@.children.len();
        proof {
            node.lemma_view();
            p.lemma_kids_vertex_total_grows(node@, 0, len);
        }
        self.generate_branch_segment(branch, mesh);

        let mut next = branch + 1;
        let mut i: usize = 0;
        while i < node.children.len()
            invariant
                i <= node.children@.len(),
                p == self.params(),
                len == node.children@.len(),
                len == node@.children.len(),
                base == old(mesh).vertices@.len(),
                base + p.vertex_total(node@) <= u32::MAX,
                branch + node@.count() <= usize::MAX,
                next == branch + 1 + node@.kids_count(i as nat),
                mesh.vertices@ == old(mesh).vertices@ + p.shaft_vertices(branch) + p.kids_vertices(
                    node@,
                    (branch + 1) as nat,
                    i as nat,
                ),
                mesh.indices@ == old(mesh).indices@ + p.shaft_indices(base as u32)
                    + p.kids_indices(node@, base + p.shaft_len(), i as nat),
                mesh.vertices@.len() == base + p.shaft_len() + p.kids_vertex_total(
                    node@,
                    i as nat,
                ),
            decreases node.children@.len() - i,
        {
            proof {
                p.lemma_kids_vertex_total_grows(node@, (i + 1) as nat, len);
                node.lemma_view();
                node@.lemma_kids_count_grows((i + 1) as nat, len);
                assert(node@.children[i as int] == node.children@[i as int]@);
            }
            next = self.generate_branch_recursive(&node.children[i], mesh, next);
            i += 1;
            proof {
                assert(mesh.vertices@ =~= old(mesh).vertices@ + p.shaft_vertices(branch)
                    + p.kids_vertices(node@, (branch + 1) as nat, i as nat));
                assert(mesh.indices@ =~= old(mesh).indices@ + p.shaft_indices(base as u32)
                    + p.kids_indices(node@, base + p.shaft_len(), i as nat));
            }
        }

        if node.children.len() > 0 {
            self.generate_joint(branch, mesh);
        } else {
            self.generate_organic_tip(branch, mesh);
        }
        proof {
            assert(mesh.vertices@ =~= old(mesh).vertices@ + p.tree_vertices(node@, branch as nat));
            assert(mesh.indices@ =~= old(mesh).indices@ + p.tree_indices(node@, base));
        }
        next
    }

    /// Generates the surface of the whole tree below `root`: for each
    /// branch its shaft, then its children, then its cap.
    pub fn generate_tree(&self, root: &BranchNode) -> (mesh: Mesh)
        requires
            self.params().admits(root@),
        ensures
            mesh.vertices@ == self.params().tree_vertices(root@, 0),
            mesh.indices@ == self.params().tree_indices(root@, 0),
            mesh.vertices@.len() == self.params().vertex_total(root@),
            mesh.indexed(),
            self.params().closes() ==> mesh.closed(),
    {
        let mut mesh = Mesh::new();
        proof {
            self.params().lemma_count_le_vertex_total(root@);
            self.params().lemma_tree_sound(root@, 0);
            if self.params().closes() {
                assert forall|v: int| 0 <= v < self.params().vertex_total(root@) implies names(
                    self.params().tree_indices(root@, 0),
                    v,
                ) by {
                    self.params().lemma_tree_covers(root@, 0, v);
                }
            }
        }
        self.generate_branch_recursive(root, &mut mesh, 0);
        proof {
            assert(mesh.vertices@ =~= self.params().tree_vertices(root@, 0));
            assert(mesh.indices@ =~= self.params().tree_indices(root@, 0));
        }
        mesh
    }
}

/// Where the shaft of one branch lies in a tracked mesh.
#[derive(Clone, Debug)]
pub struct BranchMeshInfo {
    pub person_id: String,
    /// Index of the first vertex of the shaft.
    pub vertex_start: u32,
    pub vertex_count: u32,
    /// Position of the first index of the shaft in the index list.
    pub index_start: u32,
    pub index_count: u32,
}

/// Bytes of one vertex in a vertex buffer: eleven 32-bit numbers, three of
/// position, three of normal, two of texture coordinates, and glow,
/// luminance and hue.
pub const VERTEX_BYTES: u64 = 44;

/// Bytes of one index in an index buffer.
pub const INDEX_BYTES: u64 = 4;

impl BranchMeshInfo {
    /// Where the vertices of the shaft lie in the vertex buffer: the offset
    /// of the first byte, and the number of bytes.
    pub fn vertex_bytes(&self) -> (range: (u64, u64))
        ensures
            range.0 == self.vertex_start * VERTEX_BYTES,
            range.1 == self.vertex_count * VERTEX_BYTES,
    {
        (self.vertex_start as u64 * VERTEX_BYTES, self.vertex_count as u64 * VERTEX_BYTES)
    }

    /// Where the indices of the shaft lie in the index buffer: the offset
    /// of the first byte, and the number of bytes.
    pub fn index_bytes(&self) -> (range: (u64, u64))
        ensures
            range.0 == self.index_start * INDEX_BYTES,
            range.1 == self.index_count * INDEX_BYTES,
    {
        (self.index_start as u64 * INDEX_BYTES, self.index_count as u64 * INDEX_BYTES)
    }
}

/// The mathematical value of a [`BranchMeshInfo`].
pub struct BranchMeshInfoView {
    pub person_id: Seq<char>,
    pub vertex_start: u32,
    pub vertex_count: u32,
    pub index_start: u32,
    pub index_count: u32,
}

impl View for BranchMeshInfo {
    type V = BranchMeshInfoView;

    open spec fn view(&self) -> BranchMeshInfoView {
        BranchMeshInfoView {
            person_id: self.person_id@,
            vertex_start: self.vertex_start,
            vertex_count: self.vertex_count,
            index_start: self.index_start,
            index_count: self.index_count,
        }
    }
}

/// The values of a list of records.
pub open spec fn info_views(infos: Seq<BranchMeshInfo>) -> Seq<BranchMeshInfoView> {
    Seq::new(infos.len(), |k: int| infos[k]@)
}

impl MeshParams {
    /// Indices of one branch shaft.
    pub open spec fn shaft_index_len(self) -> nat {
        (6 * self.radial_segments * (self.length_segments - 1)) as nat
    }

    /// Indices of the cap of a branch: six for each vertex below the last
    /// ring, and three for each vertex of the last ring.
    pub open spec fn cap_index_len(self, leaf: bool) -> nat {
        if leaf {
            (6 * tip_offset(self.radial_segments, (TIP_RINGS - 1) as nat) + 3 * tip_segments(
                self.radial_segments,
                TIP_RINGS - 1,
            )) as nat
        } else {
            (6 * self.radial_segments * (JOINT_RINGS - 1) + 3 * self.radial_segments) as nat
        }
    }

    /// Indices in the subtree below `node`, caps included.
    pub open spec fn index_total(self, node: BranchModel) -> nat
        decreases node, node.children.len() + 1,
    {
        self.shaft_index_len() + self.kids_index_total(node, node.children.len())
            + self.cap_index_len(node.children.len() == 0)
    }

    /// Indices in the subtrees of the first `upto` children of `node`.
    pub open spec fn kids_index_total(self, node: BranchModel, upto: nat) -> nat
        decreases node, upto,
    {
        if upto == 0 || upto > node.children.len() {
            0
        } else {
            self.kids_index_total(node, (upto - 1) as nat) + self.index_total(
                node.children[upto - 1],
            )
        }
    }

    /// The record of the branch `node` whose shaft begins at vertex
    /// `vertex_base` and at position `index_base` of the index list.
    pub open spec fn record(
        self,
        node: BranchModel,
        vertex_base: nat,
        index_base: nat,
    ) -> BranchMeshInfoView {
        BranchMeshInfoView {
            person_id: node.person_id,
            vertex_start: vertex_base as u32,
            vertex_count: self.shaft_len() as u32,
            index_start: index_base as u32,
            index_count: self.shaft_index_len() as u32,
        }
    }

    /// The records of the subtree below `node`, in pre-order, where the
    /// subtree's first vertex is `vertex_base` and its first index stands at
    /// position `index_base`: each branch is recorded where its shaft lies
    /// in the surface of the whole tree, before its children and its cap.
    pub open spec fn tree_records(
        self,
        node: BranchModel,
        vertex_base: nat,
        index_base: nat,
    ) -> Seq<BranchMeshInfoView>
        decreases node, node.children.len() + 1,
    {
        seq![self.record(node, vertex_base, index_base)] + self.kids_records(
            node,
            vertex_base + self.shaft_len(),
            index_base + self.shaft_index_len(),
            node.children.len(),
        )
    }

    /// The records of the subtrees of the first `upto` children of `node`,
    /// the first of which begins at `vertex_base` and `index_base`.
    pub open spec fn kids_records(
        self,
        node: BranchModel,
        vertex_base: nat,
        index_base: nat,
        upto: nat,
    ) -> Seq<BranchMeshInfoView>
        decreases node, upto,
    {
        if upto == 0 || upto > node.children.len() {
            Seq::empty()
        } else {
            self.kids_records(node, vertex_base, index_base, (upto - 1) as nat)
                + self.tree_records(
                node.children[upto - 1],
                vertex_base + self.kids_vertex_total(node, (upto - 1) as nat),
                index_base + self.kids_index_total(node, (upto - 1) as nat),
            )
        }
    }

    /// The tracked surface of `node` can be generated: there is a ring
    /// along each branch, and every vertex index and every position in the
    /// index list fits in 32 bits.
    pub open spec fn admits_tracked(self, node: BranchModel) -> bool {
        &&& self.length_segments >= 1
        &&& self.vertex_total(node) <= u32::MAX
        &&& self.index_total(node) <= u32::MAX
    }

    /// More children mean more indices.
    pub proof fn lemma_kids_index_total_grows(self, node: BranchModel, i: nat, j: nat)
        requires
            i <= j <= node.children.len(),
        ensures
            self.kids_index_total(node, i) <= self.kids_index_total(node, j),
        decreases j,
    {
        if i < j {
            self.lemma_kids_index_total_grows(node, i, (j - 1) as nat);
        }
    }
}

/// Generates the surface of a branch tree and records where the shaft of
/// each branch lies in it.
pub struct TrackedMeshGenerator {
    generator: MeshGenerator,
}

impl MeshGenerator {
    fn shaft_index_count(&self) -> (n: u64)
        requires
            self.params().length_segments >= 1,
            self.params().shaft_len() <= u32::MAX,
        ensures
            n == self.params().shaft_index_len(),
    {
        let radial = self.params.radial_segments;
        let gaps = self.params.length_segments - 1;
        proof {
            assert(radial * gaps <= radial * (gaps + 1)) by (nonlinear_arith)
                requires
                    0 <= radial,
                    0 <= gaps,
            ;
            assert(radial * (gaps + 1) == (gaps + 1) * radial) by (nonlinear_arith);
            assert(6 * radial * gaps == 6 * (radial * gaps)) by (nonlinear_arith);
            assert(0 <= radial * gaps) by (nonlinear_arith)
                requires
                    0 <= radial,
                    0 <= gaps,
            ;
            assert(radial > 0 ==> gaps <= radial * gaps) by (nonlinear_arith)
                requires
                    0 <= gaps,
            ;
        }
        if radial == 0 {
            0
        } else {
            6 * ((radial as u64) * (gaps as u64))
        }
    }

    fn cap_index_count(&self, leaf: bool) -> (n: u64)
        requires
            self.params().cap_len(leaf) <= u32::MAX,
        ensures
            n == self.params().cap_index_len(leaf),
    {
        let radial = self.params.radial_segments;
        if leaf {
            let mut below: u64 = 0;
            let mut i: usize = 0;
            while i < TIP_RINGS - 1
                invariant
                    i <= TIP_RINGS - 1,
                    radial == self.params().radial_segments,
                    tip_offset(radial, TIP_RINGS as nat) + 1 <= u32::MAX,
                    below == tip_offset(radial, i as nat),
                decreases TIP_RINGS - 1 - i,
            {
                proof {
                    lemma_tip_offset_grows(radial, (i + 1) as nat, TIP_RINGS as nat);
                }
                below = below + tip_ring_segments(radial, i) as u64;
                i += 1;
            }
            proof {
                lemma_tip_offset_grows(radial, (TIP_RINGS - 1) as nat, TIP_RINGS as nat);
            }
            6 * below + 3 * (tip_ring_segments(radial, TIP_RINGS - 1) as u64)
        } else {
            proof {
                assert(6 * radial * (JOINT_RINGS - 1) == 18 * radial) by (nonlinear_arith);
            }
            18 * (radial as u64) + 3 * (radial as u64)
        }
    }

    /// Counts the indices of the subtree below `node`, as long as their
    /// positions in the index list fit in 32 bits.
    pub fn index_demand(&self, node: &BranchNode) -> (demand: Option<u64>)
        requires
            self.params().length_segments >= 1,
            self.params().vertex_total(node@) <= u32::MAX,
        ensures
            demand == (if self.params().index_total(node@) <= u32::MAX {
                Some(self.params().index_total(node@) as u64)
            } else {
                None
            }),
        decreases node,
    {
        let ghost p = self.params();
        let ghost len = node@.children.len();
        proof {
            node.lemma_view();
            p.lemma_kids_vertex_total_grows(node@, 0, len);
            p.lemma_kids_index_total_grows(node@, 0, len);
        }
        let shaft = self.shaft_index_count();
        let cap = self.cap_index_count(node.children.len() == 0);
        if shaft > 0xffff_ffff || cap > 0xffff_ffff {
            return None;
        }
        let mut total: u64 = match bounded_add(shaft, cap) {
            Some(n) => n,
            None => {
                return None;
            },
        };
        let mut i: usize = 0;
        while i < node.children.len()
            invariant
                i <= node.children@.len(),
                p == self.params(),
                p.length_segments >= 1,
                p.vertex_total(node@) <= u32::MAX,
                len == node.children@.len(),
                len == node@.children.len(),
                total == p.shaft_index_len() + p.cap_index_len(len == 0) + p.kids_index_total(
                    node@,
                    i as nat,
                ),
                total <= u32::MAX,
            decreases node.children@.len() - i,
        {
            proof {
                node.lemma_view();
                p.lemma_kids_vertex_total_grows(node@, (i + 1) as nat, len);
                p.lemma_kids_index_total_grows(node@, (i + 1) as nat, len);
                assert(node@.children[i as int] == node.children@[i as int]@);
            }
            let child = match self.index_demand(&node.children[i]) {
                Some(n) => n,
                None => {
                    return None;
                },
            };
            total = match bounded_add(total, child) {
                Some(n) => n,
                None => {
                    return None;
                },
            };
            i += 1;
        }
        Some(total)
    }
}

impl TrackedMeshGenerator {
    /// The resolution this generator was made with.
    pub closed spec fn params(&self) -> MeshParams {
        self.generator.params()
    }

    /// A generator of tracked surfaces of the resolution `params`.
    pub fn new(params: MeshParams) -> (made: Self)
        ensures
            made.params() == params,
    {
        TrackedMeshGenerator { generator: MeshGenerator::new(params) }
    }

    /// Whether the tracked surface of `root` can be generated.
    pub fn fits(&self, root: &BranchNode) -> (ok: bool)
        ensures
            ok == self.params().admits_tracked(root@),
    {
        self.generator.params.length_segments >= 1 && self.generator.vertex_demand(root).is_some()
            && self.generator.index_demand(root).is_some()
    }

    #[verifier::rlimit(60)]
    fn generate_branch_tracked(
        &self,
        node: &BranchNode,
        mesh: &mut Mesh,
        infos: &mut Vec<BranchMeshInfo>,
        branch: usize,
    ) -> (next: usize)
        requires
            self.params().length_segments >= 1,
            old(mesh).vertices@.len() + self.params().vertex_total(node@) <= u32::MAX,
            old(mesh).indices@.len() + self.params().index_total(node@) <= u32::MAX,
            branch + node@.count() <= usize::MAX,
        ensures
            final(mesh).vertices@ == old(mesh).vertices@ + self.params().tree_vertices(
                node@,
                branch as nat,
            ),
            final(mesh).indices@ == old(mesh).indices@ + self.params().tree_indices(
                node@,
                old(mesh).vertices@.len(),
            ),
            final(mesh).vertices@.len() == old(mesh).vertices@.len() + self.params().vertex_total(
                node@,
            ),
            final(mesh).indices@.len() == old(mesh).indices@.len() + self.params().index_total(
                node@,
            ),
            next == branch + node@.count(),
            info_views(final(infos)@) == info_views(old(infos)@) + self.params().tree_records(
                node@,
                old(mesh).vertices@.len(),
                old(mesh).indices@.len(),
            ),
        decreases node,
    {
        let ghost p = self.params();
        let ghost base = old(mesh).vertices@.len();
        let ghost spot = old(mesh).indices@.len();
        let ghost len = node@.children.len();
        proof {
            node.lemma_view();
            p.lemma_kids_vertex_total_grows(node@, 0, len);
            p.lemma_kids_index_total_grows(node@, 0, len);
            super::validity::lemma_bands_len(
                base as u32,
                p.length_segments as nat,
                p.radial_segments,
            );
        }
        let vertex_start = mesh.vertices.len() as u32;
        let index_start = mesh.indices.len() as u32;

        self.generator.generate_branch_segment(branch, mesh);

        let vertex_count = mesh.vertices.len() as u32 - vertex_start;
        let index_count = mesh.indices.len() as u32 - index_start;
        let info = BranchMeshInfo {
            person_id: node.person_id.clone(),
            vertex_start,
            vertex_count,
            index_start,
            index_count,
        };
        assert(info@ == p.record(node@, base, spot));
        infos.push(info);
        assert(info_views(infos@) =~= info_views(old(infos)@) + seq![p.record(node@, base, spot)]);

        let mut next = branch + 1;
        let mut i: usize = 0;
        while i < node.children.len()
            invariant
                i <= node.children@.len(),
                p == self.params(),
                p.length_segments >= 1,
                len == node.children@.len(),
                len == node@.children.len(),
                base == old(mesh).vertices@.len(),
                spot == old(mesh).indices@.len(),
                base + p.vertex_total(node@) <= u32::MAX,
                spot + p.index_total(node@) <= u32::MAX,
                branch + node@.count() <= usize::MAX,
                next == branch + 1 + node@.kids_count(i as nat),
                mesh.vertices@ == old(mesh).vertices@ + p.shaft_vertices(branch) + p.kids_vertices(
                    node@,
                    (branch + 1) as nat,
                    i as nat,
                ),
                mesh.indices@ == old(mesh).indices@ + p.shaft_indices(base as u32)
                    + p.kids_indices(node@, base + p.shaft_len(), i as nat),
                mesh.vertices@.len() == base + p.shaft_len() + p.kids_vertex_total(
                    node@,
                    i as nat,
                ),
                mesh.indices@.len() == spot + p.shaft_index_len() + p.kids_index_total(
                    node@,
                    i as nat,
                ),
                info_views(infos@) == info_views(old(infos)@) + seq![p.record(node@, base, spot)]
                    + p.kids_records(
                    node@,
                    base + p.shaft_len(),
                    spot + p.shaft_index_len(),
                    i as nat,
                ),
            decreases node.children@.len() - i,
        {
            proof {
                node.lemma_view();
                p.lemma_kids_vertex_total_grows(node@, (i + 1) as nat, len);
                p.lemma_kids_index_total_grows(node@, (i + 1) as nat, len);
                node@.lemma_kids_count_grows((i + 1) as nat, len);
                assert(node@.children[i as int] == node.children@[i as int]@);
            }
            next = self.generate_branch_tracked(&node.children[i], mesh, infos, next);
            i += 1;
            proof {
                assert(mesh.vertices@ =~= old(mesh).vertices@ + p.shaft_vertices(branch)
                    + p.kids_vertices(node@, (branch + 1) as nat, i as nat));
                assert(mesh.indices@ =~= old(mesh).indices@ + p.shaft_indices(base as u32)
                    + p.kids_indices(node@, base + p.shaft_len(), i as nat));
                assert(info_views(infos@) =~= info_views(old(infos)@) + seq![
                    p.record(node@, base, spot),
                ] + p.kids_records(
                    node@,
                    base + p.shaft_len(),
                    spot + p.shaft_index_len(),
                    i as nat,
                ));
            }
        }

        proof {
            p.lemma_cap_indices_len(
                (base + p.shaft_len() + p.kids_vertex_total(node@, len)) as u32,
                len == 0,
            );
        }
        if node.children.len() > 0 {
            self.generator.generate_joint(branch, mesh);
        } else {
            self.generator.generate_organic_tip(branch, mesh);
        }
        proof {
            assert(mesh.vertices@ =~= old(mesh).vertices@ + p.tree_vertices(node@, branch as nat));
            assert(mesh.indices@ =~= old(mesh).indices@ + p.tree_indices(node@, base));
            assert(info_views(infos@) =~= info_views(old(infos)@) + p.tree_records(
                node@,
                base,
                spot,
            ));
        }
        next
    }

    /// Generates the surface of the whole tree below `root`, shafts and
    /// caps as [`MeshGenerator::generate_tree`] does, and one record for
    /// each branch, in pre-order, that says where its shaft lies in it.
    pub fn generate_tree_tracked(&self, root: &BranchNode) -> (result: (Mesh, Vec<BranchMeshInfo>))
        requires
            self.params().admits_tracked(root@),
        ensures
            result.0.vertices@ == self.params().tree_vertices(root@, 0),
            result.0.indices@ == self.params().tree_indices(root@, 0),
            result.0.vertices@.len() == self.params().vertex_total(root@),
            result.0.indexed(),
            self.params().closes() ==> result.0.closed(),
            info_views(result.1@) == self.params().tree_records(root@, 0, 0),
            result.1@.len() == root@.count(),
    {
        let mut mesh = Mesh::new();
        let mut branch_infos: Vec<BranchMeshInfo> = Vec::new();
        proof {
            self.params().lemma_count_le_vertex_total(root@);
            self.params().lemma_tree_sound(root@, 0);
            if self.params().closes() {
                assert forall|v: int| 0 <= v < self.params().vertex_total(root@) implies names(
                    self.params().tree_indices(root@, 0),
                    v,
                ) by {
                    self.params().lemma_tree_covers(root@, 0, v);
                }
            }
        }
        self.generate_branch_tracked(root, &mut mesh, &mut branch_infos, 0);
        proof {
            assert(mesh.vertices@ =~= self.params().tree_vertices(root@, 0));
            assert(mesh.indices@ =~= self.params().tree_indices(root@, 0));
            assert(info_views(branch_infos@) =~= self.params().tree_records(root@, 0, 0));
            self.params().lemma_tree_records_ids(root@, 0, 0);
            assert(info_views(branch_infos@).len() == branch_infos@.len());
        }
        (mesh, branch_infos)
    }
}

} // verus!
