//! Vertices, the mesh buffer and the stitching of equal rings.
//!
//! A vertex is identified by its logical place on the tree: the branch it
//! belongs to, the part of that branch, the ring level along the part and the
//! slot around the ring. Placing it in space is left to the caller.

use vstd::prelude::*;

verus! {

/// The part of a branch surface a vertex belongs to.
#[derive(Clone, Copy, Debug, PartialEq, Eq, Structural)]
pub enum Part {
    /// A ring along the branch segment itself.
    Shaft,
    /// A ring of the dome that closes a branch with children.
    Joint,
    /// The apex of that dome.
    JointApex,
    /// A ring of the tapered tip that closes a leaf branch.
    Tip,
    /// The apex of that tip.
    TipApex,
}

/// A mesh vertex, named by its logical coordinates on the tree.
#[derive(Clone, Copy, Debug, PartialEq, Eq, Structural)]
pub struct Vertex {
    /// Pre-order number of the branch.
    pub branch: usize,
    pub part: Part,
    /// Ring number along the part, counted from the branch outward.
    pub level: usize,
    /// Position around the ring, `0 <= slot < segments`.
    pub slot: usize,
    /// Number of vertices in the ring this vertex belongs to.
    pub segments: usize,
}

impl Vertex {
    /// The vertex with the given logical coordinates.
    pub fn new(branch: usize, part: Part, level: usize, slot: usize, segments: usize) -> (v: Vertex)
        ensures
            v == (Vertex { branch, part, level, slot, segments }),
    {
        Vertex { branch, part, level, slot, segments }
    }
}

/// The vertices of one ring, in slot order.
pub open spec fn ring(branch: usize, part: Part, level: usize, segments: usize) -> Seq<Vertex> {
    Seq::new(
        segments as nat,
        |j: int| Vertex { branch, part, level, slot: j as usize, segments },
    )
}

/// The two triangles of a quad `a b c d`: `a b c` and `a c d`.
pub open spec fn quad(a: u32, b: u32, c: u32, d: u32) -> Seq<u32> {
    seq![a, b, c, a, c, d]
}

/// The quad joining slot `i` and its successor on two rings of equal size.
pub open spec fn band_quad(ring1: u32, ring2: u32, segments: usize, i: int) -> Seq<u32> {
    let next = (i + 1) % (segments as int);
    quad((ring1 + i) as u32, (ring2 + i) as u32, (ring2 + next) as u32, (ring1 + next) as u32)
}

/// The indices joining the first `upto` slots of two rings of equal size.
pub open spec fn band(ring1: u32, ring2: u32, segments: usize, upto: nat) -> Seq<u32>
    decreases upto,
{
    if upto == 0 {
        Seq::empty()
    } else {
        band(ring1, ring2, segments, (upto - 1) as nat) + band_quad(
            ring1,
            ring2,
            segments,
            upto - 1,
        )
    }
}

/// Every index in `s` lies in one of the two rings.
pub open spec fn within_rings(s: Seq<u32>, ring1: u32, seg1: usize, ring2: u32, seg2: usize) -> bool {
    forall|k: int|
        0 <= k < s.len() ==> (ring1 <= #[trigger] s[k] < ring1 + seg1) || (ring2 <= s[k] < ring2
            + seg2)
}

/// A band holds six indices per slot, all of them on the two rings.
pub proof fn lemma_band(ring1: u32, ring2: u32, segments: usize, upto: nat)
    requires
        upto <= segments,
        ring1 + segments <= 0x1_0000_0000,
        ring2 + segments <= 0x1_0000_0000,
    ensures
        band(ring1, ring2, segments, upto).len() == 6 * upto,
        within_rings(band(ring1, ring2, segments, upto), ring1, segments, ring2, segments),
    decreases upto,
{
    if upto > 0 {
        lemma_band(ring1, ring2, segments, (upto - 1) as nat);
        let next = (upto as int) % (segments as int);
        assert(0 <= next < segments);
    }
}

/// Some triangle of the list `s` has the vertex `x` as a corner.
pub open spec fn names(s: Seq<u32>, x: int) -> bool {
    exists|k: int| 0 <= k < s.len() && #[trigger] s[k] == x
}

/// A growing buffer of vertices and of triangles over them.
#[derive(Clone, Debug)]
pub struct Mesh {
    pub vertices: Vec<Vertex>,
    /// Three consecutive entries form one triangle.
    pub indices: Vec<u32>,
}

impl Default for Mesh {
    fn default() -> (mesh: Mesh)
        ensures
            mesh.vertices@.len() == 0,
            mesh.indices@.len() == 0,
    {
        Mesh::new()
    }
}

impl Mesh {
    /// Every triangle is complete and names existing vertices.
    pub open spec fn indexed(&self) -> bool {
        &&& self.indices@.len() % 3 == 0
        &&& forall|k: int|
            0 <= k < self.indices@.len() ==> (#[trigger] self.indices@[k]) < self.vertices@.len()
    }

    /// No vertex is left out: every vertex is a corner of some triangle.
    /// This says nothing of the rim of a surface; that rings are capped is
    /// said by the vertices and triangles themselves.
    pub open spec fn closed(&self) -> bool {
        forall|v: int| 0 <= v < self.vertices@.len() ==> #[trigger] names(self.indices@, v)
    }

    /// A mesh without vertices and triangles.
    pub fn new() -> (mesh: Mesh)
        ensures
            mesh.vertices@.len() == 0,
            mesh.indices@.len() == 0,
    {
        Mesh { vertices: Vec::new(), indices: Vec::new() }
    }

    /// Appends `verts` and returns the index of the first of them.
    pub fn add_vertices(&mut self, verts: Vec<Vertex>) -> (start: u32)
        ensures
            final(self).vertices@ == old(self).vertices@ + verts@,
            final(self).indices@ == old(self).indices@,
            start == old(self).vertices@.len() as u32,
    {
        let start = self.vertices.len() as u32;
        let mut verts = verts;
        self.vertices.append(&mut verts);
        start
    }

    /// Appends the triangle `a b c`.
    pub fn add_triangle(&mut self, a: u32, b: u32, c: u32)
        ensures
            final(self).indices@ == old(self).indices@ + seq![a, b, c],
            final(self).vertices@ == old(self).vertices@,
    {
        self.indices.push(a);
        self.indices.push(b);
        self.indices.push(c);
    }

    /// Appends the quad `a b c d` as the triangles `a b c` and `a c d`.
    pub fn add_quad(&mut self, a: u32, b: u32, c: u32, d: u32)
        ensures
            final(self).indices@ == old(self).indices@ + quad(a, b, c, d),
            final(self).vertices@ == old(self).vertices@,
    {
        self.add_triangle(a, b, c);
        self.add_triangle(a, c, d);
    }

    /// The indices of `s`, each moved up by `offset`.
    pub open spec fn shifted(s: Seq<u32>, offset: u32) -> Seq<u32> {
        Seq::new(s.len(), |k: int| (s[k] + offset) as u32)
    }

    /// Appends the vertices of `other`, and its triangles over them.
    pub fn merge(&mut self, other: &Mesh)
        requires
            forall|k: int|
                0 <= k < other.indices@.len() ==> (#[trigger] other.indices@[k]) + (old(
                    self,
                ).vertices@.len() as u32) <= u32::MAX,
        ensures
            final(self).vertices@ == old(self).vertices@ + other.vertices@,
            final(self).indices@ == old(self).indices@ + Self::shifted(
                other.indices@,
                old(self).vertices@.len() as u32,
            ),
    {
        let offset = self.vertices.len() as u32;
        let mut i: usize = 0;
        while i < other.vertices.len()
            invariant
                i <= other.vertices@.len(),
                self.vertices@ == old(self).vertices@ + other.vertices@.take(i as int),
                self.indices@ == old(self).indices@,
            decreases other.vertices@.len() - i,
        {
            self.vertices.push(other.vertices[i]);
            i += 1;
            assert(self.vertices@ =~= old(self).vertices@ + other.vertices@.take(i as int));
        }
        assert(other.vertices@.take(i as int) =~= other.vertices@);
        let mut k: usize = 0;
        while k < other.indices.len()
            invariant
                k <= other.indices@.len(),
                offset == old(self).vertices@.len() as u32,
                forall|j: int|
                    0 <= j < other.indices@.len() ==> (#[trigger] other.indices@[j]) + offset
                        <= u32::MAX,
                self.vertices@ == old(self).vertices@ + other.vertices@,
                self.indices@ == old(self).indices@ + Self::shifted(other.indices@, offset).take(
                    k as int,
                ),
            decreases other.indices@.len() - k,
        {
            self.indices.push(other.indices[k] + offset);
            k += 1;
            assert(self.indices@ =~= old(self).indices@ + Self::shifted(
                other.indices@,
                offset,
            ).take(k as int));
        }
        assert(Self::shifted(other.indices@, offset).take(k as int) =~= Self::shifted(
            other.indices@,
            offset,
        ));
    }

    /// Number of vertices.
    pub fn vertex_count(&self) -> (n: usize)
        ensures
            n == self.vertices@.len(),
    {
        self.vertices.len()
    }

    /// Number of whole triangles.
    pub fn triangle_count(&self) -> (n: usize)
        ensures
            n == self.indices@.len() / 3,
    {
        self.indices.len() / 3
    }

    /// The triangle list as it goes to an index buffer.
    pub fn index_data(&self) -> (data: &[u32])
        ensures
            data@ == self.indices@,
    {
        self.indices.as_slice()
    }
}

/// Creates the vertices of one ring, in slot order.
pub fn create_ring(branch: usize, part: Part, level: usize, segments: usize) -> (verts: Vec<Vertex>)
    ensures
        verts@ == ring(branch, part, level, segments),
{
    let mut verts: Vec<Vertex> = Vec::new();
    let mut j: usize = 0;
    while j < segments
        invariant
            j <= segments,
            verts@ == ring(branch, part, level, segments).take(j as int),
        decreases segments - j,
    {
        verts.push(Vertex { branch, part, level, slot: j, segments });
        j += 1;
        assert(verts@ =~= ring(branch, part, level, segments).take(j as int));
    }
    assert(verts@ =~= ring(branch, part, level, segments));
    verts
}

/// Joins two rings of `segments` vertices each by one quad per slot.
pub fn connect_rings(mesh: &mut Mesh, ring1_start: u32, ring2_start: u32, segments: usize)
    requires
        ring1_start + segments <= 0x1_0000_0000,
        ring2_start + segments <= 0x1_0000_0000,
    ensures
        final(mesh).indices@ == old(mesh).indices@ + band(
            ring1_start,
            ring2_start,
            segments,
            segments as nat,
        ),
        final(mesh).vertices@ == old(mesh).vertices@,
{
    let mut i: usize = 0;
    while i < segments
        invariant
            i <= segments,
            ring1_start + segments <= 0x1_0000_0000,
            ring2_start + segments <= 0x1_0000_0000,
            mesh.indices@ == old(mesh).indices@ + band(ring1_start, ring2_start, segments, i as nat),
            mesh.vertices@ == old(mesh).vertices@,
        decreases segments - i,
    {
        let i_next = (i + 1) % segments;
        let a = ring1_start + i as u32;
        let b = ring1_start + i_next as u32;
        let c = ring2_start + i_next as u32;
        let d = ring2_start + i as u32;
        mesh.add_quad(a, d, c, b);
        i += 1;
    }
}

} // verus!
