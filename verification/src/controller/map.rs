//! Mesh map: graph data for the embedded dashboard.
//!
//! Cluster members sit on a ring, spokes radiate out, edges are colored by
//! quality class and broken links drawn red/dashed. Registered agents appear
//! even before their first measurement so spokes do not vanish while
//! momentarily silent.

use crate::controller::kv::{KvView, LwwStore};
use crate::controller::model::{probe_state_name, quality_name, LinkKeyView, Metrics, QualityRecord};
use crate::controller::worker::opt_string_view;
use crate::text::{lemma_text_lt_total, lemma_text_lt_transitive, text_less, text_lt};
use vstd::prelude::*;

verus! {

/// A node in the map.
#[derive(Debug)]
pub struct GraphNode {
    pub id: String,
    pub label: String,
    /// "hub" for cluster members, "spoke" otherwise.
    pub group: String,
}

/// A directional link (agent -> peer tunnel) with the latest measurement.
#[derive(Debug)]
pub struct GraphLink<D> {
    pub from: String,
    pub to: String,
    pub interface: String,
    pub rtt_ms: Option<D>,
    pub loss_pct: Option<D>,
    pub rr_tps: Option<D>,
    pub util_mbps: D,
    pub state: String,
    pub quality: Option<String>,
    pub ospf_cost: Option<u32>,
    /// Unix seconds of the last probe.
    pub ts: u64,
}

/// Whether `id` names a cluster member.
pub open spec fn is_member(members: Seq<Seq<char>>, id: Seq<char>) -> bool {
    members.contains(id)
}

/// The group of a node: members are hubs, everything else a spoke.
pub open spec fn group_of(members: Seq<Seq<char>>, id: Seq<char>) -> Seq<char> {
    if is_member(members, id) {
        "hub"@
    } else {
        "spoke"@
    }
}

/// Whether `id` is a node of the map: a member, or an end of a recorded link.
pub open spec fn on_map<D>(members: Seq<Seq<char>>, kv: KvView<Metrics<D>>, id: Seq<char>) -> bool {
    is_member(members, id) || exists|k: LinkKeyView| #[trigger] kv.contains_key(k) && (k.0 == id || k.1 == id)
}

/// A link of the map for the record of link `k`.
pub open spec fn link_matches<D>(l: GraphLink<D>, k: LinkKeyView, rec: QualityRecord<Metrics<D>>) -> bool {
    &&& (l.from@, l.to@, l.interface@) == k
    &&& l.rtt_ms == rec.metrics.rtt_ms
    &&& l.loss_pct == rec.metrics.loss_pct
    &&& l.rr_tps == rec.metrics.rr_tps
    &&& l.util_mbps == rec.metrics.util_mbps
    &&& l.state@ == probe_state_name(rec.state)
    &&& opt_string_view(l.quality) == (match rec.quality {
        Some(q) => Some(quality_name(q)),
        None => None,
    })
    &&& l.ospf_cost == rec.ospf_cost
    &&& l.ts == rec.ts
}

fn contains_name(members: &Vec<String>, id: &String) -> (r: bool)
    ensures
        r == is_member(members@.map_values(|m: String| m@), id@),
{
    let ghost mv = members@.map_values(|m: String| m@);
    let mut i: usize = 0;
    while i < members.len()
        invariant
            i <= members@.len(),
            mv == members@.map_values(|m: String| m@),
            forall|j: int| 0 <= j < i ==> mv[j] != id@,
        decreases members@.len() - i,
    {
        if members[i] == *id {
            proof {
                assert(mv[i as int] == id@);
            }
            return true;
        }
        i = i + 1;
    }
    false
}

/// Whether some node has id `s`.
pub open spec fn has_id(nodes: Seq<GraphNode>, s: Seq<char>) -> bool {
    exists|i: int| 0 <= i < nodes.len() && (#[trigger] nodes[i]).id@ == s
}

/// Nodes sorted by id, each id once, label = id, group by membership.
pub open spec fn nodes_ok(nodes: Seq<GraphNode>, members: Seq<Seq<char>>) -> bool {
    &&& forall|i: int, j: int| 0 <= i < j < nodes.len() ==> text_lt((#[trigger] nodes[i]).id@, (#[trigger] nodes[j]).id@)
    &&& forall|i: int| 0 <= i < nodes.len() ==> (#[trigger] nodes[i]).label@ == nodes[i].id@ && nodes[i].group@ == group_of(members, nodes[i].id@)
}

/// Add node `id` to the sorted node list unless it is there already.
fn add_node(nodes: &mut Vec<GraphNode>, id: &String, members: &Vec<String>, Ghost(mv): Ghost<Seq<Seq<char>>>)
    requires
        mv == members@.map_values(|m: String| m@),
        nodes_ok(old(nodes)@, mv),
    ensures
        nodes_ok(final(nodes)@, mv),
        forall|s: Seq<char>| #[trigger] has_id(final(nodes)@, s)
            <==> (s == id@ || has_id(old(nodes)@, s)),
{
    let mut k: usize = 0;
    while k < nodes.len()
        invariant
            k <= nodes@.len(),
            nodes == old(nodes),
            forall|t: int| 0 <= t < k ==> text_lt((#[trigger] nodes@[t]).id@, id@),
        ensures
            k <= nodes@.len(),
            nodes == old(nodes),
            forall|t: int| 0 <= t < k ==> text_lt((#[trigger] nodes@[t]).id@, id@),
            k < nodes@.len() ==> !text_lt(nodes@[k as int].id@, id@),
        decreases nodes@.len() - k,
    {
        if !text_less(nodes[k].id.as_str(), id.as_str()) {
            break;
        }
        k = k + 1;
    }
    if k < nodes.len() && nodes[k].id == *id {
        return;
    }
    proof {
        if k < nodes@.len() {
            lemma_text_lt_total(nodes@[k as int].id@, id@);
            assert(text_lt(id@, nodes@[k as int].id@));
            assert forall|t: int| k <= t < nodes@.len() implies text_lt(id@, (#[trigger] nodes@[t]).id@) by {
                if t > k {
                    lemma_text_lt_transitive(id@, nodes@[k as int].id@, nodes@[t].id@);
                }
            }
        }
    }
    let is_hub = contains_name(members, id);
    let group = if is_hub {
        String::from_str("hub")
    } else {
        String::from_str("spoke")
    };
    let ghost before = nodes@;
    nodes.insert(k, GraphNode { id: id.clone(), label: id.clone(), group });
    proof {
        let after = nodes@;
        assert(after =~= before.subrange(0, k as int).push(after[k as int]) + before.subrange(k as int, before.len() as int));
        assert forall|i: int, j: int| 0 <= i < j < after.len() implies text_lt((#[trigger] after[i]).id@, (#[trigger] after[j]).id@) by {
            if j < k {
            } else if j == k {
            } else if i < k {
                assert(after[j] == before[j - 1]);
                lemma_text_lt_transitive(after[i].id@, id@, before[j - 1].id@);
            } else if i == k {
                assert(after[j] == before[j - 1]);
            } else {
                assert(after[i] == before[i - 1]);
                assert(after[j] == before[j - 1]);
            }
        }
        assert forall|s: Seq<char>| #[trigger] has_id(after, s)
            <==> (s == id@ || has_id(before, s)) by {
            if has_id(after, s) {
                let i = choose|i: int| 0 <= i < after.len() && (#[trigger] after[i]).id@ == s;
                if i < k {
                    assert(before[i] == after[i]);
                } else if i > k {
                    assert(before[i - 1] == after[i]);
                }
            }
            if has_id(before, s) {
                let i = choose|i: int| 0 <= i < before.len() && (#[trigger] before[i]).id@ == s;
                if i < k {
                    assert(before[i] == after[i]);
                } else {
                    assert(before[i] == after[i + 1]);
                }
            }
            if s == id@ {
                assert(after[k as int].id@ == s);
            }
        }
    }
}

/// Build the graph: nodes = cluster members + every from/to seen in the KV,
/// sorted by id; links = one per quality record.
pub fn graph_part<D: Copy>(members: &Vec<String>, kv: &LwwStore<Metrics<D>>) -> (r: (Vec<GraphNode>, Vec<GraphLink<D>>))
    requires
        kv.wf(),
    ensures
        nodes_ok(r.0@, members@.map_values(|m: String| m@)),
        forall|s: Seq<char>| #[trigger] has_id(r.0@, s)
            <==> on_map(members@.map_values(|m: String| m@), kv@, s),
        r.1@.len() == kv.spec_len(),
        forall|i: int| 0 <= i < r.1@.len() ==> {
            let l = #[trigger] r.1@[i];
            kv@.contains_key((l.from@, l.to@, l.interface@)) && link_matches(l, (l.from@, l.to@, l.interface@), kv@[(l.from@, l.to@, l.interface@)])
        },
        forall|k: LinkKeyView| #[trigger] kv@.contains_key(k) ==> exists|i: int| 0 <= i < r.1@.len() && (#[trigger] r.1@[i]).from@ == k.0
            && r.1@[i].to@ == k.1 && r.1@[i].interface@ == k.2,
        forall|i: int, j: int|
            0 <= i < j < r.1@.len() ==> ((#[trigger] r.1@[i]).from@, r.1@[i].to@, r.1@[i].interface@) != (
            (#[trigger] r.1@[j]).from@,
            r.1@[j].to@,
            r.1@[j].interface@,
            ),
{
    let ghost mv = members@.map_values(|m: String| m@);
    let mut nodes: Vec<GraphNode> = Vec::new();
    let mut m: usize = 0;
    while m < members.len()
        invariant
            m <= members@.len(),
            mv == members@.map_values(|m: String| m@),
            nodes_ok(nodes@, mv),
            forall|s: Seq<char>| #[trigger] has_id(nodes@, s)
                <==> mv.take(m as int).contains(s),
        decreases members@.len() - m,
    {
        add_node(&mut nodes, &members[m], members, Ghost(mv));
        proof {
            let t1 = mv.take(m + 1);
            let t0 = mv.take(m as int);
            assert(t1 =~= t0.push(mv[m as int]));
            assert(members@[m as int]@ == mv[m as int]);
            assert forall|s: Seq<char>| #[trigger] has_id(nodes@, s) <==> t1.contains(s) by {
                if s == mv[m as int] {
                    assert(t1[m as int] == s);
                }
                if t1.contains(s) {
                    let j = choose|j: int| 0 <= j < t1.len() && t1[j] == s;
                    if j < m {
                        assert(t0[j] == s);
                    }
                }
                if t0.contains(s) {
                    let j = choose|j: int| 0 <= j < t0.len() && t0[j] == s;
                    assert(t1[j] == s);
                }
            }
        }
        m = m + 1;
    }
    proof {
        assert(mv.take(m as int) =~= mv);
    }
    let all = kv.all();
    proof {
        assert forall|t: int| 0 <= t < all@.len() implies #[trigger] kv@.contains_key(all@[t].0@) && kv@[all@[t].0@] == all@[t].1 by {
            assert(kv@.contains_key(all@[t].0@));
        }
    }
    let mut links: Vec<GraphLink<D>> = Vec::new();
    let mut i: usize = 0;
    while i < all.len()
        invariant
            kv.wf(),
            i <= all@.len(),
            mv == members@.map_values(|m: String| m@),
            nodes_ok(nodes@, mv),
            forall|t: int| 0 <= t < all@.len() ==> #[trigger] kv@.contains_key(all@[t].0@) && kv@[all@[t].0@] == all@[t].1,
            forall|s: Seq<char>| #[trigger] has_id(nodes@, s)
                <==> (mv.contains(s) || exists|t: int| 0 <= t < i && ((#[trigger] all@[t]).0@.0 == s || all@[t].0@.1 == s)),
            links@.len() == i,
            forall|t: int| 0 <= t < i ==> (#[trigger] links@[t]).from@ == all@[t].0@.0 && links@[t].to@ == all@[t].0@.1
                && links@[t].interface@ == all@[t].0@.2 && link_matches(links@[t], all@[t].0@, all@[t].1),
        decreases all@.len() - i,
    {
        let key = &all[i].0;
        let rec = all[i].1;
        add_node(&mut nodes, &key.from, members, Ghost(mv));
        add_node(&mut nodes, &key.to, members, Ghost(mv));
        links.push(GraphLink {
            from: key.from.clone(),
            to: key.to.clone(),
            interface: key.interface.clone(),
            rtt_ms: rec.metrics.rtt_ms,
            loss_pct: rec.metrics.loss_pct,
            rr_tps: rec.metrics.rr_tps,
            util_mbps: rec.metrics.util_mbps,
            state: String::from_str(rec.state.as_str()),
            quality: match rec.quality {
                Some(q) => Some(String::from_str(q.as_str())),
                None => None,
            },
            ospf_cost: rec.ospf_cost,
            ts: rec.ts,
        });
        proof {
            assert forall|s: Seq<char>| #[trigger] has_id(nodes@, s)
                <==> (mv.contains(s) || exists|t: int| 0 <= t < i + 1 && ((#[trigger] all@[t]).0@.0 == s || all@[t].0@.1 == s)) by {
                if exists|t: int| 0 <= t < i + 1 && ((#[trigger] all@[t]).0@.0 == s || all@[t].0@.1 == s) {
                    let t = choose|t: int| 0 <= t < i + 1 && ((#[trigger] all@[t]).0@.0 == s || all@[t].0@.1 == s);
                    if t < i {
                    }
                }
            }
        }
        i = i + 1;
    }
    proof {
        assert forall|s: Seq<char>| #[trigger] has_id(nodes@, s)
            <==> on_map(mv, kv@, s) by {
            if on_map(mv, kv@, s) && !mv.contains(s) {
                let k = choose|k: LinkKeyView| #[trigger] kv@.contains_key(k) && (k.0 == s || k.1 == s);
                let t = choose|t: int| 0 <= t < all@.len() && #[trigger] all@[t].0@ == k;
                assert(all@[t].0@.0 == s || all@[t].0@.1 == s);
            }
            if exists|t: int| 0 <= t < all@.len() && ((#[trigger] all@[t]).0@.0 == s || all@[t].0@.1 == s) {
                let t = choose|t: int| 0 <= t < all@.len() && ((#[trigger] all@[t]).0@.0 == s || all@[t].0@.1 == s);
                assert(kv@.contains_key(all@[t].0@));
            }
        }
        assert forall|k: LinkKeyView| #[trigger] kv@.contains_key(k) implies exists|t: int| 0 <= t < links@.len() && (#[trigger] links@[t]).from@ == k.0
            && links@[t].to@ == k.1 && links@[t].interface@ == k.2 by {
            let t = choose|t: int| 0 <= t < all@.len() && #[trigger] all@[t].0@ == k;
            assert(links@[t].from@ == k.0);
        }
        assert forall|a: int, b: int| 0 <= a < b < links@.len() implies ((#[trigger] links@[a]).from@, links@[a].to@, links@[a].interface@) != (
            (#[trigger] links@[b]).from@,
            links@[b].to@,
            links@[b].interface@,
        ) by {
            assert(all@[a].0@ != all@[b].0@);
        }
    }
    (nodes, links)
}

} // verus!
