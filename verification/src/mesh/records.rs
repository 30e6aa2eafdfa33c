//! What the records of a tracked surface say: each names its branch, in
//! pre-order, and the range it gives holds the shaft of that branch.

use vstd::prelude::*;
use crate::growth::algorithm::BranchModel;
use super::branch::Part;
use super::generator::{lemma_rings_len, BranchMeshInfoView, MeshParams};
use super::validity::lemma_bands_len;

verus! {

/// The identifiers that a list of records names.
pub open spec fn record_ids(records: Seq<BranchMeshInfoView>) -> Seq<Seq<char>> {
    Seq::new(records.len(), |k: int| records[k].person_id)
}

/// The identifiers of a list of branches.
pub open spec fn branch_ids(nodes: Seq<BranchModel>) -> Seq<Seq<char>> {
    Seq::new(nodes.len(), |k: int| nodes[k].person_id)
}

impl MeshParams {
    /// The records of a subtree name its branches in pre-order.
    pub proof fn lemma_tree_records_ids(self, node: BranchModel, vertex_base: nat, index_base: nat)
        ensures
            record_ids(self.tree_records(node, vertex_base, index_base)) == branch_ids(
                node.preorder(),
            ),
            self.tree_records(node, vertex_base, index_base).len() == node.count(),
        decreases node, node.children.len() + 1,
    {
        let len = node.children.len();
        let kids = self.kids_records(
            node,
            vertex_base + self.shaft_len(),
            index_base + self.shaft_index_len(),
            len,
        );
        self.lemma_kids_records_ids(
            node,
            vertex_base + self.shaft_len(),
            index_base + self.shaft_index_len(),
            len,
        );
        node.lemma_preorder_len();
        node.lemma_kids_preorder_len(len);
        assert(record_ids(self.tree_records(node, vertex_base, index_base)) =~= seq![
            node.person_id,
        ] + record_ids(kids));
        assert(branch_ids(node.preorder()) =~= seq![node.person_id] + branch_ids(
            node.kids_preorder(len),
        ));
        assert(record_ids(kids).len() == kids.len());
    }

    /// The records of the first `upto` children's subtrees name their
    /// branches in pre-order.
    pub proof fn lemma_kids_records_ids(
        self,
        node: BranchModel,
        vertex_base: nat,
        index_base: nat,
        upto: nat,
    )
        requires
            upto <= node.children.len(),
        ensures
            record_ids(self.kids_records(node, vertex_base, index_base, upto)) == branch_ids(
                node.kids_preorder(upto),
            ),
            self.kids_records(node, vertex_base, index_base, upto).len() == node.kids_count(upto),
        decreases node, upto,
    {
        if upto > 0 {
            let before = self.kids_records(node, vertex_base, index_base, (upto - 1) as nat);
            let child = node.children[upto - 1];
            let own = self.tree_records(
                child,
                vertex_base + self.kids_vertex_total(node, (upto - 1) as nat),
                index_base + self.kids_index_total(node, (upto - 1) as nat),
            );
            self.lemma_kids_records_ids(node, vertex_base, index_base, (upto - 1) as nat);
            self.lemma_tree_records_ids(
                child,
                vertex_base + self.kids_vertex_total(node, (upto - 1) as nat),
                index_base + self.kids_index_total(node, (upto - 1) as nat),
            );
            assert(record_ids(before + own) =~= record_ids(before) + record_ids(own));
            assert(branch_ids(node.kids_preorder((upto - 1) as nat) + child.preorder())
                =~= branch_ids(node.kids_preorder((upto - 1) as nat)) + branch_ids(
                child.preorder(),
            ));
        } else {
            assert(record_ids(self.kids_records(node, vertex_base, index_base, upto))
                =~= branch_ids(node.kids_preorder(upto)));
        }
    }

    /// Record `k` of a subtree gives the range of vertices and the range
    /// of indices in which the shaft of branch `k` of the subtree lies.
    pub proof fn lemma_record_holds_shaft(
        self,
        node: BranchModel,
        branch: nat,
        vertex_base: nat,
        index_base: nat,
        k: int,
    )
        requires
            self.length_segments >= 1,
            vertex_base + self.vertex_total(node) <= u32::MAX,
            index_base + self.index_total(node) <= u32::MAX,
            branch + node.count() <= usize::MAX,
            0 <= k < node.count(),
        ensures
            ({
                let r = self.tree_records(node, vertex_base, index_base)[k];
                let v = r.vertex_start - vertex_base;
                let x = r.index_start - index_base;
                &&& r.vertex_count == self.shaft_len()
                &&& r.index_count == self.shaft_index_len()
                &&& 0 <= v && v + self.shaft_len() <= self.vertex_total(node)
                &&& 0 <= x && x + self.shaft_index_len() <= self.index_total(node)
                &&& self.tree_vertices(node, branch).subrange(v, v + self.shaft_len())
                    == self.shaft_vertices((branch + k) as usize)
                &&& self.tree_indices(node, vertex_base).subrange(x, x + self.shaft_index_len())
                    == self.shaft_indices(r.vertex_start)
            }),
        decreases node, node.children.len() + 1,
    {
        let len = node.children.len();
        let shaft_v = self.shaft_vertices(branch as usize);
        let shaft_x = self.shaft_indices(vertex_base as u32);
        let kids_v = self.kids_vertices(node, branch + 1, len);
        let kids_x = self.kids_indices(node, vertex_base + self.shaft_len(), len);
        let cap_v = self.cap_vertices(branch as usize, len == 0);
        let cap_x = self.cap_indices(
            (vertex_base + self.shaft_len() + self.kids_vertex_total(node, len)) as u32,
            len == 0,
        );
        lemma_rings_len(
            branch as usize,
            Part::Shaft,
            self.length_segments as nat,
            self.radial_segments,
        );
        lemma_bands_len(vertex_base as u32, self.length_segments as nat, self.radial_segments);
        self.lemma_kids_vertices_len(node, branch + 1, len);
        self.lemma_kids_indices_len(node, vertex_base + self.shaft_len(), len);
        self.lemma_kids_records_ids(
            node,
            vertex_base + self.shaft_len(),
            index_base + self.shaft_index_len(),
            len,
        );
        let all_v = self.tree_vertices(node, branch);
        let all_x = self.tree_indices(node, vertex_base);
        assert(all_v == shaft_v + kids_v + cap_v);
        assert(all_x == shaft_x + kids_x + cap_x);
        if k == 0 {
            assert(all_v.subrange(0, self.shaft_len() as int) =~= shaft_v);
            assert(all_x.subrange(0, self.shaft_index_len() as int) =~= shaft_x);
        } else {
            self.lemma_kids_record_holds_shaft(
                node,
                branch + 1,
                vertex_base + self.shaft_len(),
                index_base + self.shaft_index_len(),
                len,
                k - 1,
            );
            let r = self.kids_records(
                node,
                vertex_base + self.shaft_len(),
                index_base + self.shaft_index_len(),
                len,
            )[k - 1];
            assert(self.tree_records(node, vertex_base, index_base)[k] == r);
            let v = r.vertex_start - vertex_base - self.shaft_len();
            let x = r.index_start - index_base - self.shaft_index_len();
            assert(all_v.subrange(v + self.shaft_len(), v + self.shaft_len() + self.shaft_len())
                =~= kids_v.subrange(v, v + self.shaft_len()));
            assert(all_x.subrange(
                x + self.shaft_index_len(),
                x + self.shaft_index_len() + self.shaft_index_len(),
            ) =~= kids_x.subrange(x, x + self.shaft_index_len()));
        }
    }

    /// Record `k` of the first `upto` children's subtrees gives the ranges
    /// in which the shaft of their branch `k` lies.
    pub proof fn lemma_kids_record_holds_shaft(
        self,
        node: BranchModel,
        first: nat,
        vertex_base: nat,
        index_base: nat,
        upto: nat,
        k: int,
    )
        requires
            self.length_segments >= 1,
            upto <= node.children.len(),
            vertex_base + self.kids_vertex_total(node, upto) <= u32::MAX,
            index_base + self.kids_index_total(node, upto) <= u32::MAX,
            first + node.kids_count(upto) <= usize::MAX,
            0 <= k < node.kids_count(upto),
        ensures
            ({
                let r = self.kids_records(node, vertex_base, index_base, upto)[k];
                let v = r.vertex_start - vertex_base;
                let x = r.index_start - index_base;
                &&& r.vertex_count == self.shaft_len()
                &&& r.index_count == self.shaft_index_len()
                &&& 0 <= v && v + self.shaft_len() <= self.kids_vertex_total(node, upto)
                &&& 0 <= x && x + self.shaft_index_len() <= self.kids_index_total(node, upto)
                &&& self.kids_vertices(node, first, upto).subrange(v, v + self.shaft_len())
                    == self.shaft_vertices((first + k) as usize)
                &&& self.kids_indices(node, vertex_base, upto).subrange(
                    x,
                    x + self.shaft_index_len(),
                ) == self.shaft_indices(r.vertex_start)
            }),
        decreases node, upto,
    {
        let done = (upto - 1) as nat;
        let child = node.children[upto - 1];
        let before_v = self.kids_vertices(node, first, done);
        let before_x = self.kids_indices(node, vertex_base, done);
        let before_r = self.kids_records(node, vertex_base, index_base, done);
        let child_vb = vertex_base + self.kids_vertex_total(node, done);
        let child_ib = index_base + self.kids_index_total(node, done);
        let child_branch = first + node.kids_count(done);
        let own_v = self.tree_vertices(child, child_branch);
        let own_x = self.tree_indices(child, child_vb);
        let own_r = self.tree_records(child, child_vb, child_ib);
        self.lemma_kids_records_ids(node, vertex_base, index_base, done);
        self.lemma_tree_records_ids(child, child_vb, child_ib);
        self.lemma_kids_vertices_len(node, first, done);
        self.lemma_kids_indices_len(node, vertex_base, done);
        self.lemma_tree_vertices_len(child, child_branch);
        self.lemma_tree_indices_len(child, child_vb);
        let all_v = self.kids_vertices(node, first, upto);
        let all_x = self.kids_indices(node, vertex_base, upto);
        assert(all_v == before_v + own_v);
        assert(all_x == before_x + own_x);
        if k < node.kids_count(done) {
            self.lemma_kids_record_holds_shaft(node, first, vertex_base, index_base, done, k);
            let r = before_r[k];
            assert(self.kids_records(node, vertex_base, index_base, upto)[k] == r);
            let v = r.vertex_start - vertex_base;
            let x = r.index_start - index_base;
            assert(all_v.subrange(v, v + self.shaft_len()) =~= before_v.subrange(
                v,
                v + self.shaft_len(),
            ));
            assert(all_x.subrange(x, x + self.shaft_index_len()) =~= before_x.subrange(
                x,
                x + self.shaft_index_len(),
            ));
        } else {
            let j = k - node.kids_count(done);
            self.lemma_record_holds_shaft(child, child_branch, child_vb, child_ib, j);
            let r = own_r[j];
            assert(self.kids_records(node, vertex_base, index_base, upto)[k] == r);
            let v = r.vertex_start - child_vb;
            let x = r.index_start - child_ib;
            let dv = self.kids_vertex_total(node, done) as int;
            let dx = self.kids_index_total(node, done) as int;
            assert(all_v.subrange(dv + v, dv + v + self.shaft_len()) =~= own_v.subrange(
                v,
                v + self.shaft_len(),
            ));
            assert(all_x.subrange(dx + x, dx + x + self.shaft_index_len()) =~= own_x.subrange(
                x,
                x + self.shaft_index_len(),
            ));
        }
    }
}

} // verus!
