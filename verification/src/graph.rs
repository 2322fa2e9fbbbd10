//! The heap snapshot as plain arrays: flat node and edge records, the field
//! layout, the string table, and the per-node first-edge index.

use vstd::prelude::*;
use crate::types::{first_position, has_field, EdgeFieldOffsets, Error, NodeFieldOffsets, SnapshotMeta};

verus! {

/// `n * width + off` addresses a field inside the first `count` records.
pub proof fn lemma_record_index(n: int, count: int, width: int, off: int)
    requires
        0 <= n < count,
        0 <= off < width,
    ensures
        0 <= n * width + off < count * width,
        n * width + off + 1 <= count * width,
{
    assert(0 <= n * width + off < count * width) by (nonlinear_arith)
        requires
            0 <= n < count,
            0 <= off < width,
    ;
}

/// Sum of the edge-count fields (at offset `off`) of the first `n` records.
pub open spec fn prefix_edges(nodes: Seq<u32>, nfc: int, off: int, n: int) -> int
    decreases n,
{
    if n <= 0 {
        0
    } else {
        prefix_edges(nodes, nfc, off, n - 1) + nodes[(n - 1) * nfc + off]
    }
}

/// The header names every node and edge field the analyses read.
pub open spec fn header_fields_ok(meta: SnapshotMeta) -> bool {
    let nf = meta.meta.node_fields@;
    let ef = meta.meta.edge_fields@;
    &&& has_field(nf, "type"@) && has_field(nf, "name"@) && has_field(nf, "self_size"@) && has_field(nf, "id"@)
        && has_field(nf, "edge_count"@)
    &&& has_field(ef, "type"@) && has_field(ef, "name_or_index"@) && has_field(ef, "to_node"@)
}

/// Position of the `edge_count` node field.
pub open spec fn edge_count_field(meta: SnapshotMeta) -> int {
    choose|i: int| first_position(meta.meta.node_fields@, "edge_count"@, i)
}

/// The arrays hold what the header announces: fewer than 2^32 - 1 nodes,
/// all their records present, an edge total that fits in `u32`, and all
/// the edge records.
pub open spec fn arrays_fit(meta: SnapshotMeta, nodes: Seq<u32>, edges: Seq<u32>) -> bool {
    let nfc = meta.meta.node_fields@.len() as int;
    let efc = meta.meta.edge_fields@.len() as int;
    let total = prefix_edges(nodes, nfc, edge_count_field(meta), meta.node_count as int);
    &&& meta.node_count < 0xffff_ffff
    &&& meta.node_count <= nodes.len() as int / nfc
    &&& total <= u32::MAX
    &&& total <= edges.len() as int / efc
}

/// A field has one first position.
pub proof fn lemma_first_position_unique(fields: Seq<String>, key: Seq<char>, i: int, j: int)
    requires
        first_position(fields, key, i),
        first_position(fields, key, j),
    ensures
        i == j,
{
    if i < j {
        assert(fields[i]@ == key);
    } else if j < i {
        assert(fields[j]@ == key);
    }
}

/// A parsed heap snapshot: node records `nodes[n * node_field_count ..]`,
/// edge records `edges[e * edge_field_count ..]`, the node's outgoing edges
/// being the `edge_count` records that follow those of the nodes before it.
pub struct SnapshotGraph {
    pub node_count: usize,
    pub nodes: Vec<u32>,
    pub edges: Vec<u32>,
    pub node_field_count: usize,
    pub edge_field_count: usize,
    pub node_offsets: NodeFieldOffsets,
    pub edge_offsets: EdgeFieldOffsets,
    pub node_types: Vec<String>,
    pub edge_types: Vec<String>,
    pub strings: Vec<String>,
    /// `edge_starts[n]` is the index of node `n`'s first edge record;
    /// `edge_starts[node_count]` is the total edge count.
    pub edge_starts: Vec<u32>,
}

impl SnapshotGraph {
    pub open spec fn nfc(self) -> int {
        self.node_field_count as int
    }

    pub open spec fn efc(self) -> int {
        self.edge_field_count as int
    }

    /// Field `off` of node record `n`.
    pub open spec fn nf(self, n: int, off: int) -> u32 {
        self.nodes@[n * self.nfc() + off]
    }

    pub open spec fn type_idx(self, n: int) -> u32 {
        self.nf(n, self.node_offsets.type_ as int)
    }

    pub open spec fn name_idx(self, n: int) -> u32 {
        self.nf(n, self.node_offsets.name as int)
    }

    pub open spec fn self_size(self, n: int) -> u32 {
        self.nf(n, self.node_offsets.self_size as int)
    }

    pub open spec fn id(self, n: int) -> u32 {
        self.nf(n, self.node_offsets.id as int)
    }

    pub open spec fn edge_count(self, n: int) -> u32 {
        self.nf(n, self.node_offsets.edge_count as int)
    }

    /// Index of the first edge record of node `n` (sum of the edge counts before it).
    pub open spec fn first_edge(self, n: int) -> int {
        prefix_edges(self.nodes@, self.nfc(), self.node_offsets.edge_count as int, n)
    }

    /// Total number of edge records owned by the nodes.
    pub open spec fn total_edges(self) -> int {
        self.first_edge(self.node_count as int)
    }

    /// Field `off` of edge record `e`.
    pub open spec fn ef(self, e: int, off: int) -> u32 {
        self.edges@[e * self.efc() + off]
    }

    pub open spec fn edge_type_idx(self, e: int) -> u32 {
        self.ef(e, self.edge_offsets.type_ as int)
    }

    pub open spec fn edge_name_idx(self, e: int) -> u32 {
        self.ef(e, self.edge_offsets.name_or_index as int)
    }

    /// Record index of the node that edge `e` points to.
    pub open spec fn target(self, e: int) -> int {
        self.ef(e, self.edge_offsets.to_node as int) as int / self.nfc()
    }

    /// Edge `e` belongs to node `n`.
    pub open spec fn owns(self, n: int, e: int) -> bool {
        0 <= n < self.node_count && self.first_edge(n) <= e < self.first_edge(n + 1)
    }

    /// `b` is a node that some edge of node `a` points to.
    pub open spec fn succ(self, a: int, b: int) -> bool {
        0 <= b < self.node_count && exists|e: int| #[trigger] self.owns(a, e) && self.target(e) == b
    }

    pub open spec fn wf(self) -> bool {
        &&& self.node_field_count >= 1
        &&& self.edge_field_count >= 1
        &&& self.node_offsets.type_ < self.node_field_count
        &&& self.node_offsets.name < self.node_field_count
        &&& self.node_offsets.self_size < self.node_field_count
        &&& self.node_offsets.id < self.node_field_count
        &&& self.node_offsets.edge_count < self.node_field_count
        &&& self.edge_offsets.type_ < self.edge_field_count
        &&& self.edge_offsets.name_or_index < self.edge_field_count
        &&& self.edge_offsets.to_node < self.edge_field_count
        &&& self.node_count < u32::MAX
        &&& self.node_count * self.nfc() <= self.nodes@.len()
        &&& self.total_edges() <= u32::MAX
        &&& self.total_edges() * self.efc() <= self.edges@.len()
        &&& self.edge_starts@.len() == self.node_count + 1
        &&& forall|n: int|
            0 <= n <= self.node_count ==> #[trigger] self.edge_starts@[n] == self.first_edge(n)
    }

    /// The first-edge index grows with the node index.
    pub proof fn lemma_first_edge_mono(self, a: int, b: int)
        requires
            a <= b,
        ensures
            self.first_edge(a) <= self.first_edge(b),
        decreases b - a,
    {
        if a < b {
            self.lemma_first_edge_mono(a, b - 1);
        }
    }

    /// Each node's edges follow those of the node before it.
    pub proof fn lemma_first_edge_step(self, n: int)
        requires
            n >= 0,
        ensures
            self.first_edge(n + 1) == self.first_edge(n) + self.edge_count(n),
    {
    }

    /// Field `off` of node `n`.
    pub fn node_field(&self, n: usize, off: usize) -> (v: u32)
        requires
            self.wf(),
            n < self.node_count,
            off < self.node_field_count,
        ensures
            v == self.nf(n as int, off as int),
    {
        let len = self.nodes.len();
        proof {
            lemma_record_index(n as int, self.node_count as int, self.nfc(), off as int);
        }
        self.nodes[n * self.node_field_count + off]
    }

    /// Field `off` of edge record `e`.
    pub fn edge_field(&self, e: usize, off: usize) -> (v: u32)
        requires
            self.wf(),
            e < self.total_edges(),
            off < self.edge_field_count,
        ensures
            v == self.ef(e as int, off as int),
    {
        let len = self.edges.len();
        proof {
            lemma_record_index(e as int, self.total_edges(), self.efc(), off as int);
        }
        self.edges[e * self.edge_field_count + off]
    }

    /// Record index of the node that edge `e` points to.
    pub fn edge_target(&self, e: usize) -> (t: usize)
        requires
            self.wf(),
            e < self.total_edges(),
        ensures
            t == self.target(e as int),
    {
        let raw = self.edge_field(e, self.edge_offsets.to_node);
        raw as usize / self.node_field_count
    }

    /// First and one-past-last edge record of node `n`.
    pub fn edge_range(&self, n: usize) -> (r: (usize, usize))
        requires
            self.wf(),
            n < self.node_count,
        ensures
            r.0 == self.first_edge(n as int),
            r.1 == self.first_edge(n + 1),
            r.0 <= r.1 <= self.total_edges(),
    {
        proof {
            self.lemma_first_edge_mono(n + 1, self.node_count as int);
        }
        (self.edge_starts[n] as usize, self.edge_starts[n + 1] as usize)
    }

    /// Builds the snapshot from its header, its node and edge arrays and its
    /// string table: the field offsets are located in the header (a missing
    /// field is an unsupported layout), the node and edge type names are the
    /// first entry of the header's type lists, and the per-node first-edge
    /// index is accumulated from the edge counts. Arrays shorter than the
    /// header announces, or an edge total beyond `u32`, are malformed.
    pub fn from_parts(
        meta: &SnapshotMeta,
        nodes: Vec<u32>,
        edges: Vec<u32>,
        strings: Vec<String>,
    ) -> (res: Result<SnapshotGraph, Error>)
        ensures
            match res {
                Ok(g) => {
                    &&& g.wf()
                    &&& g.node_count == meta.node_count
                    &&& g.nodes@ == nodes@
                    &&& g.edges@ == edges@
                    &&& g.strings@ == strings@
                    &&& g.node_field_count == meta.meta.node_fields@.len()
                    &&& g.edge_field_count == meta.meta.edge_fields@.len()
                    &&& g.node_types@ == (if meta.meta.node_types@.len() > 0 {
                        meta.meta.node_types@[0]@
                    } else {
                        Seq::empty()
                    })
                    &&& g.edge_types@ == (if meta.meta.edge_types@.len() > 0 {
                        meta.meta.edge_types@[0]@
                    } else {
                        Seq::empty()
                    })
                },
                Err(e) => if header_fields_ok(*meta) {
                    e == Error::Malformed
                } else {
                    e == Error::UnsupportedLayout
                },
            },
            res is Ok <==> header_fields_ok(*meta) && arrays_fit(*meta, nodes@, edges@),
    {
        let node_offsets = match NodeFieldOffsets::from_fields(meta.meta.node_fields.as_slice()) {
            Ok(o) => o,
            Err(e) => return Err(e),
        };
        let edge_offsets = match EdgeFieldOffsets::from_fields(meta.meta.edge_fields.as_slice()) {
            Ok(o) => o,
            Err(e) => return Err(e),
        };
        proof {
            assert(header_fields_ok(*meta)) by {
                assert(meta.meta.node_fields@[node_offsets.type_ as int]@ == "type"@);
                assert(meta.meta.node_fields@[node_offsets.name as int]@ == "name"@);
                assert(meta.meta.node_fields@[node_offsets.self_size as int]@ == "self_size"@);
                assert(meta.meta.node_fields@[node_offsets.id as int]@ == "id"@);
                assert(meta.meta.node_fields@[node_offsets.edge_count as int]@ == "edge_count"@);
                assert(meta.meta.edge_fields@[edge_offsets.type_ as int]@ == "type"@);
                assert(meta.meta.edge_fields@[edge_offsets.name_or_index as int]@ == "name_or_index"@);
                assert(meta.meta.edge_fields@[edge_offsets.to_node as int]@ == "to_node"@);
            }
            let ec = edge_count_field(*meta);
            assert(first_position(meta.meta.node_fields@, "edge_count"@, node_offsets.edge_count as int));
            lemma_first_position_unique(meta.meta.node_fields@, "edge_count"@, ec, node_offsets.edge_count as int);
        }
        let node_types = if meta.meta.node_types.len() > 0 {
            clone_strings(&meta.meta.node_types[0])
        } else {
            Vec::new()
        };
        let edge_types = if meta.meta.edge_types.len() > 0 {
            clone_strings(&meta.meta.edge_types[0])
        } else {
            Vec::new()
        };
        let nfc = meta.meta.node_fields.len();
        let efc = meta.meta.edge_fields.len();
        let node_count = meta.node_count;
        proof {
            assert(first_position(meta.meta.node_fields@, "type"@, node_offsets.type_ as int));
            assert(first_position(meta.meta.edge_fields@, "type"@, edge_offsets.type_ as int));
        }
        if node_count >= 0xffff_ffff || node_count > nodes.len() / nfc {
            proof {
                assert(!arrays_fit(*meta, nodes@, edges@));
            }
            return Err(Error::Malformed);
        }
        proof {
            let nl = nodes@.len() as int;
            let c = node_count as int;
            let w = nfc as int;
            assert(c * w <= nl) by (nonlinear_arith)
                requires
                    c <= nl / w,
                    w >= 1,
            ;
        }
        let mut g = SnapshotGraph {
            node_count,
            nodes,
            edges,
            node_field_count: nfc,
            edge_field_count: efc,
            node_offsets,
            edge_offsets,
            node_types,
            edge_types,
            strings,
            edge_starts: Vec::new(),
        };
        let mut starts: Vec<u32> = Vec::new();
        let mut offset: u32 = 0;
        let mut i: usize = 0;
        while i < node_count
            invariant
                i <= node_count,
                g.node_count == node_count,
                g.node_field_count == nfc,
                nfc >= 1,
                node_count < u32::MAX,
                node_count * nfc <= g.nodes@.len(),
                g.node_offsets == node_offsets,
                node_offsets.edge_count < nfc,
                starts@.len() == i,
                offset == g.first_edge(i as int),
                forall|n: int| 0 <= n < i ==> #[trigger] starts@[n] == g.first_edge(n),
                g.nodes@ == nodes@,
                g.edges@ == edges@,
                node_offsets.edge_count == edge_count_field(*meta),
                header_fields_ok(*meta),
                node_count == meta.node_count,
                nfc == meta.meta.node_fields@.len(),
            decreases node_count - i,
        {
            proof {
                lemma_record_index(i as int, node_count as int, nfc as int, node_offsets.edge_count as int);
            }
            starts.push(offset);
            let len = g.nodes.len();
            let c = g.nodes[i * nfc + node_offsets.edge_count];
            if c > 0xffff_ffff - offset {
                proof {
                    g.lemma_first_edge_step(i as int);
                    g.lemma_first_edge_mono(i + 1, node_count as int);
                    assert(!arrays_fit(*meta, nodes@, edges@));
                }
                return Err(Error::Malformed);
            }
            offset = offset + c;
            i += 1;
        }
        starts.push(offset);
        assert(forall|n: int| 0 <= n <= node_count ==> #[trigger] starts@[n] == g.first_edge(n));
        if offset as usize > g.edges.len() / efc {
            proof {
                assert(!arrays_fit(*meta, nodes@, edges@));
            }
            return Err(Error::Malformed);
        }
        proof {
            let el = g.edges@.len() as int;
            let o = offset as int;
            let w = efc as int;
            assert(o * w <= el) by (nonlinear_arith)
                requires
                    o <= el / w,
                    w >= 1,
            ;
        }
        g.edge_starts = starts;
        assert(g.edge_starts@.len() == node_count + 1);
        assert(forall|n: int| 0 <= n <= g.node_count ==> #[trigger] g.edge_starts@[n] == g.first_edge(n));
        assert(g.wf());
        Ok(g)
    }
}

/// Copies of the strings in `v`, in order.
pub fn clone_strings(v: &Vec<String>) -> (out: Vec<String>)
    ensures
        out@ == v@,
{
    let mut out: Vec<String> = Vec::new();
    let mut i: usize = 0;
    while i < v.len()
        invariant
            i <= v.len(),
            out@ == v@.take(i as int),
        decreases v.len() - i,
    {
        out.push(v[i].clone());
        assert(out@ =~= v@.take(i + 1));
        i += 1;
    }
    assert(v@.take(v.len() as int) =~= v@);
    out
}

} // verus!
