//! Who keeps a node alive: every incoming edge, and the first-parent
//! ("owner") chain built from each node's first incoming edge.

use vstd::prelude::*;
use crate::graph::SnapshotGraph;
use crate::labels::{edge_label, edge_type, node_type, resolve_or, resolve_or_empty, resolved_or_empty};
use crate::types::Error;

verus! {

/// Edge records before `e` (in edge order) that point to node `t`.
pub open spec fn hits_upto(g: SnapshotGraph, t: int, e: int) -> Seq<int>
    decreases e,
{
    if e <= 0 {
        Seq::empty()
    } else if g.target(e - 1) == t {
        hits_upto(g, t, e - 1).push(e - 1)
    } else {
        hits_upto(g, t, e - 1)
    }
}

/// An incoming edge: its source node, type and label.
#[derive(Debug, Clone)]
pub struct RetainerRef {
    pub source: usize,
    pub edge_type: String,
    pub name: String,
}

/// Every incoming edge of a node, in edge order (`[i]` labels for element
/// edges); an index at or past the node count is not found.
pub fn get_retainers(g: &SnapshotGraph, node_index: usize) -> (res: Result<Vec<RetainerRef>, Error>)
    requires
        g.wf(),
    ensures
        match res {
            Ok(out) => {
                let h = hits_upto(*g, node_index as int, g.total_edges());
                &&& node_index < g.node_count
                &&& out@.len() == h.len()
                &&& forall|i: int| 0 <= i < out@.len() ==> {
                    &&& g.owns((#[trigger] out@[i]).source as int, h[i])
                    &&& out@[i].edge_type@ == edge_type(*g, h[i])
                    &&& out@[i].name@ == edge_label(*g, h[i])
                }
            },
            Err(e) => node_index >= g.node_count && e == Error::NodeNotFound(node_index),
        },
{
    if node_index >= g.node_count {
        return Err(Error::NodeNotFound(node_index));
    }
    let mut out: Vec<RetainerRef> = Vec::new();
    let mut n: usize = 0;
    proof {
        g.lemma_first_edge_mono(0, 0);
    }
    while n < g.node_count
        invariant
            g.wf(),
            node_index < g.node_count,
            n <= g.node_count,
            out@.len() == hits_upto(*g, node_index as int, g.first_edge(n as int)).len(),
            forall|i: int| 0 <= i < out@.len() ==> {
                let h = hits_upto(*g, node_index as int, g.first_edge(n as int));
                &&& g.owns((#[trigger] out@[i]).source as int, h[i])
                &&& out@[i].edge_type@ == edge_type(*g, h[i])
                &&& out@[i].name@ == edge_label(*g, h[i])
            },
        decreases g.node_count - n,
    {
        let (start, end) = g.edge_range(n);
        let mut e = start;
        while e < end
            invariant
                g.wf(),
                node_index < g.node_count,
                n < g.node_count,
                start == g.first_edge(n as int),
                end == g.first_edge(n + 1),
                start <= e <= end,
                end <= g.total_edges(),
                out@.len() == hits_upto(*g, node_index as int, e as int).len(),
                forall|i: int| 0 <= i < out@.len() ==> {
                    let h = hits_upto(*g, node_index as int, e as int);
                    &&& g.owns((#[trigger] out@[i]).source as int, h[i])
                    &&& out@[i].edge_type@ == edge_type(*g, h[i])
                    &&& out@[i].name@ == edge_label(*g, h[i])
                },
            decreases end - e,
        {
            let ghost h0 = hits_upto(*g, node_index as int, e as int);
            if g.edge_target(e) == node_index {
                let r = RetainerRef { source: n, edge_type: g.edge_type_of(e), name: g.edge_label_of(e) };
                out.push(r);
                proof {
                    let h1 = hits_upto(*g, node_index as int, e + 1);
                    assert(h1 == h0.push(e as int));
                    assert forall|i: int| 0 <= i < out@.len() implies {
                        &&& g.owns((#[trigger] out@[i]).source as int, h1[i])
                        &&& out@[i].edge_type@ == edge_type(*g, h1[i])
                        &&& out@[i].name@ == edge_label(*g, h1[i])
                    } by {
                        if i < h0.len() {
                            assert(h1[i] == h0[i]);
                        }
                    }
                }
            }
            e += 1;
        }
        proof {
            g.lemma_first_edge_step(n as int);
        }
        n += 1;
    }
    Ok(out)
}

/// `e` is the first edge record (in edge order) that points to node `t`.
pub open spec fn first_incoming(g: SnapshotGraph, t: int, e: int) -> bool {
    &&& 0 <= e < g.total_edges()
    &&& g.target(e) == t
    &&& forall|f: int| 0 <= f < e ==> #[trigger] g.target(f) != t
}

/// First incoming edge per node (the "owner" edge).
pub struct ParentMap {
    /// source node of the first edge into each node (`u32::MAX` when none)
    pub index: Vec<u32>,
    /// type index of that edge
    pub edge_type: Vec<u32>,
    /// name-or-index field of that edge
    pub edge_name_or_index: Vec<u32>,
}

impl ParentMap {
    /// Entry `t` describes the first edge into `t`, or is `u32::MAX` when
    /// no edge points to `t`.
    pub open spec fn of(self, g: SnapshotGraph) -> bool {
        let n = g.node_count as int;
        &&& self.index@.len() == n
        &&& self.edge_type@.len() == n
        &&& self.edge_name_or_index@.len() == n
        &&& forall|t: int| 0 <= t < n ==> {
            if #[trigger] self.index@[t] == u32::MAX {
                forall|f: int| 0 <= f < g.total_edges() ==> #[trigger] g.target(f) != t
            } else {
                exists|e: int| #[trigger] first_incoming(g, t, e) && g.owns(self.index@[t] as int, e)
                    && self.edge_type@[t] == g.edge_type_idx(e) && self.edge_name_or_index@[t] == g.edge_name_idx(e)
            }
        }
    }
}

/// One pass over the edges in order; the first edge into a node wins.
pub fn build_parent_map(g: &SnapshotGraph) -> (pm: ParentMap)
    requires
        g.wf(),
    ensures
        pm.of(*g),
{
    let n = g.node_count;
    let mut index: Vec<u32> = Vec::new();
    let mut et: Vec<u32> = Vec::new();
    let mut en: Vec<u32> = Vec::new();
    let mut i: usize = 0;
    while i < n
        invariant
            i <= n,
            index@.len() == i,
            et@.len() == i,
            en@.len() == i,
            forall|t: int| 0 <= t < i ==> #[trigger] index@[t] == u32::MAX,
        decreases n - i,
    {
        index.push(u32::MAX);
        et.push(u32::MAX);
        en.push(u32::MAX);
        i += 1;
    }
    let mut v: usize = 0;
    proof {
        g.lemma_first_edge_mono(0, 0);
    }
    while v < n
        invariant
            g.wf(),
            n == g.node_count,
            v <= n,
            index@.len() == n,
            et@.len() == n,
            en@.len() == n,
            forall|t: int| 0 <= t < n ==> {
                if #[trigger] index@[t] == u32::MAX {
                    forall|f: int| 0 <= f < g.first_edge(v as int) ==> #[trigger] g.target(f) != t
                } else {
                    exists|e: int| #[trigger] first_incoming(*g, t, e) && e < g.first_edge(v as int) && g.owns(index@[t] as int, e)
                        && et@[t] == g.edge_type_idx(e) && en@[t] == g.edge_name_idx(e)
                }
            },
        decreases n - v,
    {
        let (start, end) = g.edge_range(v);
        let mut e = start;
        while e < end
            invariant
                g.wf(),
                n == g.node_count,
                v < n,
                start == g.first_edge(v as int),
                end == g.first_edge(v + 1),
                start <= e <= end,
                end <= g.total_edges(),
                index@.len() == n,
                et@.len() == n,
                en@.len() == n,
                forall|t: int| 0 <= t < n ==> {
                    if #[trigger] index@[t] == u32::MAX {
                        forall|f: int| 0 <= f < e ==> #[trigger] g.target(f) != t
                    } else {
                        exists|e2: int| #[trigger] first_incoming(*g, t, e2) && e2 < e && g.owns(index@[t] as int, e2)
                            && et@[t] == g.edge_type_idx(e2) && en@[t] == g.edge_name_idx(e2)
                    }
                },
            decreases end - e,
        {
            let t = g.edge_target(e);
            if t < n && index[t] == u32::MAX {
                let ty = g.edge_field(e, g.edge_offsets.type_);
                let nm = g.edge_field(e, g.edge_offsets.name_or_index);
                index.set(t, v as u32);
                et.set(t, ty);
                en.set(t, nm);
                proof {
                    assert(first_incoming(*g, t as int, e as int));
                    assert(g.owns(v as int, e as int));
                }
            }
            e += 1;
        }
        proof {
            g.lemma_first_edge_step(v as int);
        }
        v += 1;
    }
    ParentMap { index, edge_type: et, edge_name_or_index: en }
}

} // verus!

verus! {

/// One hop of an owner chain: the node and the edge through which its
/// owner holds it.
#[derive(Debug, Clone)]
pub struct RetainerChainNode {
    pub node_index: usize,
    pub id: usize,
    pub name: String,
    pub type_: String,
    pub self_size: usize,
    pub edge_count: usize,
    pub edge_type: String,
    pub edge_name: String,
    pub cycle: bool,
}

/// Type name of the owner edge of `n` (empty when `n` has no owner).
pub open spec fn owner_edge_type(g: SnapshotGraph, pm: ParentMap, n: int) -> Seq<char> {
    if pm.index@[n] == u32::MAX {
        Seq::empty()
    } else {
        crate::labels::resolved(g.edge_types@, pm.edge_type@[n] as int, Seq::empty(), Seq::empty())
    }
}

/// Label of the owner edge of `n` (empty when `n` has no owner).
pub open spec fn owner_edge_name(g: SnapshotGraph, pm: ParentMap, n: int) -> Seq<char> {
    if pm.index@[n] == u32::MAX {
        Seq::empty()
    } else if owner_edge_type(g, pm, n) == "element"@ {
        "["@ + crate::text::decimal(pm.edge_name_or_index@[n] as nat) + "]"@
    } else {
        crate::labels::resolved(g.strings@, pm.edge_name_or_index@[n] as int, "#"@, Seq::empty())
    }
}

/// `c` is the chain entry of node `n`.
pub open spec fn chain_entry(g: SnapshotGraph, pm: ParentMap, n: int, c: RetainerChainNode) -> bool {
    &&& c.node_index == n
    &&& c.id == g.id(n)
    &&& c.name@ == resolved_or_empty(g.strings@, g.name_idx(n) as int)
    &&& c.type_@ == node_type(g, n)
    &&& c.self_size == g.self_size(n)
    &&& c.edge_count == g.edge_count(n)
    &&& c.edge_type@ == owner_edge_type(g, pm, n)
    &&& c.edge_name@ == owner_edge_name(g, pm, n)
}

fn chain_entry_of(g: &SnapshotGraph, pm: &ParentMap, n: usize) -> (c: RetainerChainNode)
    requires
        g.wf(),
        pm.of(*g),
        n < g.node_count,
    ensures
        chain_entry(*g, *pm, n as int, c),
        !c.cycle,
{
    let parent = pm.index[n];
    proof {
        reveal_strlit("");
    }
    let (edge_type, edge_name) = if parent == u32::MAX {
        (String::new(), String::new())
    } else {
        let t = resolve_or(&g.edge_types, pm.edge_type[n], "", "");
        let idx = pm.edge_name_or_index[n];
        let name = if crate::labels::is_element(&t) {
            let mut s = String::new();
            s.append("[");
            crate::text::push_decimal(&mut s, idx as u64);
            s.append("]");
            proof {
                assert(Seq::<char>::empty() + "["@ =~= "["@);
            }
            s
        } else {
            resolve_or(&g.strings, idx, "#", "")
        };
        (t, name)
    };
    RetainerChainNode {
        node_index: n,
        id: g.node_field(n, g.node_offsets.id) as usize,
        name: resolve_or_empty(&g.strings, g.node_field(n, g.node_offsets.name)),
        type_: g.type_of(n),
        self_size: g.node_field(n, g.node_offsets.self_size) as usize,
        edge_count: g.node_field(n, g.node_offsets.edge_count) as usize,
        edge_type,
        edge_name,
        cycle: false,
    }
}

/// `chain` holds node `m` at some position.
pub open spec fn chain_has(chain: Seq<RetainerChainNode>, m: int) -> bool {
    exists|i: int| 0 <= i < chain.len() && #[trigger] chain[i].node_index == m
}

/// `chain` is the owner chain of `node_index`, target first, walked at most
/// `max_depth` hops (so at most `max_depth + 1` entries; none when
/// `max_depth` is 0): it stops at a node without owner, after `max_depth`
/// hops, or when the next owner is already in the chain (then the last
/// entry is marked as a cycle).
pub open spec fn is_retainer_chain(g: SnapshotGraph, pm: ParentMap, node_index: usize, max_depth: usize, chain: Seq<RetainerChainNode>) -> bool {
    &&& max_depth == 0 ==> chain.len() == 0
    &&& max_depth > 0 ==> {
        let last = chain.last().node_index as int;
        let up = pm.index@[last];
        &&& 1 <= chain.len() <= max_depth + 1
        &&& chain[0].node_index == node_index
        &&& forall|i: int| 0 <= i < chain.len() ==> (#[trigger] chain[i].node_index as int) < g.node_count
            && chain_entry(g, pm, chain[i].node_index as int, chain[i])
        &&& forall|i: int| 0 <= i < chain.len() - 1 ==> #[trigger] chain[i + 1].node_index == pm.index@[chain[i].node_index as int] && !chain[i].cycle
        &&& forall|i: int, j: int| 0 <= i < j < chain.len() ==> #[trigger] chain[i].node_index != #[trigger] chain[j].node_index
        &&& up == u32::MAX || chain.len() == max_depth + 1 || chain_has(chain, up as int)
        &&& chain.last().cycle == (up != u32::MAX && chain.len() < max_depth + 1 && chain_has(chain, up as int))
    }
}

/// Walks the owner (first-parent) chain from `node_index`, target first,
/// for at most `max_depth` hops; it stops at a node without owner, after
/// `max_depth` hops, or when the next owner is already in the chain (then
/// the last entry is marked as a cycle).
pub fn retainer_chain(g: &SnapshotGraph, pm: &ParentMap, node_index: usize, max_depth: usize) -> (res: Result<Vec<RetainerChainNode>, Error>)
    requires
        g.wf(),
        pm.of(*g),
    ensures
        match res {
            Err(e) => node_index >= g.node_count && e == Error::NodeNotFound(node_index),
            Ok(chain) => node_index < g.node_count && is_retainer_chain(*g, *pm, node_index, max_depth, chain@),
        },
{
    if node_index >= g.node_count {
        return Err(Error::NodeNotFound(node_index));
    }
    let mut chain: Vec<RetainerChainNode> = Vec::new();
    if max_depth == 0 {
        return Ok(chain);
    }
    let mut cur = node_index;
    chain.push(chain_entry_of(g, pm, cur));
    let mut hops: usize = 0;
    loop
        invariant_except_break
            !chain@.last().cycle,
        invariant
            g.wf(),
            pm.of(*g),
            max_depth > 0,
            cur < g.node_count,
            chain@.len() == hops + 1,
            hops <= max_depth,
            chain@[0].node_index == node_index,
            chain@.last().node_index == cur,
            forall|i: int| 0 <= i < chain@.len() ==> (#[trigger] chain@[i].node_index as int) < g.node_count
                && chain_entry(*g, *pm, chain@[i].node_index as int, chain@[i]),
            forall|i: int| 0 <= i < chain@.len() - 1 ==> #[trigger] chain@[i + 1].node_index == pm.index@[chain@[i].node_index as int] && !chain@[i].cycle,
            forall|i: int, j: int| 0 <= i < j < chain@.len() ==> #[trigger] chain@[i].node_index != #[trigger] chain@[j].node_index,
        ensures
            1 <= chain@.len() <= max_depth + 1,
            chain@[0].node_index == node_index,
            forall|i: int| 0 <= i < chain@.len() ==> (#[trigger] chain@[i].node_index as int) < g.node_count
                && chain_entry(*g, *pm, chain@[i].node_index as int, chain@[i]),
            forall|i: int| 0 <= i < chain@.len() - 1 ==> #[trigger] chain@[i + 1].node_index == pm.index@[chain@[i].node_index as int] && !chain@[i].cycle,
            forall|i: int, j: int| 0 <= i < j < chain@.len() ==> #[trigger] chain@[i].node_index != #[trigger] chain@[j].node_index,
            ({
                let up = pm.index@[chain@.last().node_index as int];
                &&& up == u32::MAX || chain@.len() == max_depth + 1 || chain_has(chain@, up as int)
                &&& chain@.last().cycle == (up != u32::MAX && chain@.len() < max_depth + 1 && chain_has(chain@, up as int))
            }),
        decreases max_depth - hops + 1,
    {
        let parent = pm.index[cur];
        if parent == u32::MAX {
            break;
        }
        proof {
            let e = choose|e: int| #[trigger] first_incoming(*g, cur as int, e) && g.owns(parent as int, e)
                && pm.edge_type@[cur as int] == g.edge_type_idx(e) && pm.edge_name_or_index@[cur as int] == g.edge_name_idx(e);
        }
        if hops >= max_depth {
            break;
        }
        // cycle check on the next hop
        let mut seen = false;
        let mut k: usize = 0;
        while k < chain.len()
            invariant
                k <= chain@.len(),
                seen == exists|i: int| 0 <= i < k && #[trigger] chain@[i].node_index == parent as int,
            decreases chain@.len() - k,
        {
            if chain[k].node_index == parent as usize {
                seen = true;
            }
            k += 1;
        }
        if seen {
            let ghost before = chain@;
            let mut entry = chain.pop().unwrap();
            entry.cycle = true;
            chain.push(entry);
            proof {
                assert forall|i: int| 0 <= i < chain@.len() - 1 implies chain@[i] == before[i] by {}
                assert(chain@.last().node_index == before.last().node_index);
                assert forall|i: int| 0 <= i < chain@.len() - 1 implies #[trigger] chain@[i + 1].node_index == pm.index@[chain@[i].node_index as int] && !chain@[i].cycle by {
                    assert(chain@[i] == before[i]);
                    if i + 1 < chain@.len() - 1 {
                        assert(chain@[i + 1] == before[i + 1]);
                    }
                }
                assert(chain_has(chain@, parent as int)) by {
                    let i = choose|i: int| 0 <= i < chain@.len() && #[trigger] before[i].node_index == parent as int;
                    assert(chain@[i].node_index == parent as int);
                }
            }
            break;
        }
        let ghost before = chain@;
        cur = parent as usize;
        chain.push(chain_entry_of(g, pm, cur));
        hops += 1;
        proof {
            assert forall|i: int| 0 <= i < chain@.len() - 1 implies #[trigger] chain@[i + 1].node_index == pm.index@[chain@[i].node_index as int] && !chain@[i].cycle by {
                assert(chain@[i] == before[i]);
                if i + 1 < chain@.len() - 1 {
                    assert(chain@[i + 1] == before[i + 1]);
                }
            }
            assert forall|i: int, j: int| 0 <= i < j < chain@.len() implies #[trigger] chain@[i].node_index != #[trigger] chain@[j].node_index by {
                if j == chain@.len() - 1 {
                    assert(chain@[i] == before[i]);
                    assert(!(exists|q: int| 0 <= q < before.len() && #[trigger] before[q].node_index == parent as int));
                } else {
                    assert(chain@[i] == before[i]);
                    assert(chain@[j] == before[j]);
                }
            }
        }
    }
    Ok(chain)
}

} // verus!
