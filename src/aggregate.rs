//! Merging the snapshots that remote nodes report into one node-keyed view.

use vstd::prelude::*;
use crate::connection::Connection;
use crate::locator::string_views;
use crate::text::{chars_of, split_chars, split_on, split_words, string_from_chars, trim, trim_chars, views, words};

verus! {

/// What one node reported: its own name, if it gave one, and its snapshot.
pub struct NodeReport {
    pub node_name: Option<String>,
    pub connections: Vec<Connection>,
}

/// One node's entry in the aggregate.
pub struct NodeEntry {
    pub node: String,
    pub connections: Vec<Connection>,
}

pub open spec fn entry_view(e: NodeEntry) -> (Seq<char>, Seq<Connection>) {
    (e.node@, e.connections@)
}

pub open spec fn entry_views(es: Seq<NodeEntry>) -> Seq<(Seq<char>, Seq<Connection>)> {
    es.map_values(|e: NodeEntry| entry_view(e))
}

/// The map that inserting the pairs in order builds; a later pair replaces an
/// earlier one with the same key.
pub open spec fn entries_map(es: Seq<(Seq<char>, Seq<Connection>)>) -> Map<Seq<char>, Seq<Connection>>
    decreases es.len(),
{
    if es.len() == 0 {
        Map::empty()
    } else {
        entries_map(es.drop_last()).insert(es.last().0, es.last().1)
    }
}

pub open spec fn keys_unique(es: Seq<(Seq<char>, Seq<Connection>)>) -> bool {
    forall|i: int, j: int| 0 <= i < j < es.len() ==> (#[trigger] es[i]).0 != (#[trigger] es[j]).0
}

proof fn lemma_entries_domain(es: Seq<(Seq<char>, Seq<Connection>)>, k: Seq<char>)
    ensures
        entries_map(es).contains_key(k) <==> exists|i: int| 0 <= i < es.len() && (#[trigger] es[i]).0 == k,
    decreases es.len(),
{
    if es.len() > 0 {
        let d = es.drop_last();
        lemma_entries_domain(d, k);
        if exists|i: int| 0 <= i < d.len() && (#[trigger] d[i]).0 == k {
            let i = choose|i: int| 0 <= i < d.len() && (#[trigger] d[i]).0 == k;
            assert(es[i].0 == k);
        }
        if exists|i: int| 0 <= i < es.len() && (#[trigger] es[i]).0 == k {
            let i = choose|i: int| 0 <= i < es.len() && (#[trigger] es[i]).0 == k;
            if i < es.len() - 1 {
                assert(d[i].0 == k);
            }
        }
    }
}

proof fn lemma_entries_update(es: Seq<(Seq<char>, Seq<Connection>)>, j: int, v: Seq<Connection>)
    requires
        keys_unique(es),
        0 <= j < es.len(),
    ensures
        entries_map(es.update(j, (es[j].0, v))) == entries_map(es).insert(es[j].0, v),
    decreases es.len(),
{
    let k = es[j].0;
    let u = es.update(j, (k, v));
    let d = es.drop_last();
    if j == es.len() - 1 {
        assert(u.drop_last() =~= d);
        assert(entries_map(u) =~= entries_map(es).insert(k, v));
    } else {
        assert(u.drop_last() =~= d.update(j, (k, v)));
        lemma_entries_update(d, j, v);
        assert(es[j].0 != es[es.len() - 1].0);
        assert(entries_map(u) =~= entries_map(es).insert(k, v));
    }
}

/// The node-keyed view of one collection cycle. Keys are unique.
pub struct NodeAggregate {
    pub entries: Vec<NodeEntry>,
}

impl View for NodeAggregate {
    type V = Map<Seq<char>, Seq<Connection>>;

    open spec fn view(&self) -> Map<Seq<char>, Seq<Connection>> {
        entries_map(entry_views(self.entries@))
    }
}

impl NodeAggregate {
    pub open spec fn wf(&self) -> bool {
        keys_unique(entry_views(self.entries@))
    }

    pub fn new() -> (r: NodeAggregate)
        ensures
            r.wf(),
            r@ == Map::<Seq<char>, Seq<Connection>>::empty(),
    {
        NodeAggregate { entries: Vec::new() }
    }

    /// Sets the snapshot of `node`, replacing any earlier one.
    pub fn insert(&mut self, node: String, connections: Vec<Connection>)
        requires
            old(self).wf(),
        ensures
            final(self).wf(),
            final(self)@ == old(self)@.insert(node@, connections@),
    {
        let ghost es = entry_views(self.entries@);
        let mut j: usize = 0;
        while j < self.entries.len()
            invariant
                j <= self.entries@.len(),
                es == entry_views(self.entries@),
                es == entry_views(old(self).entries@),
                keys_unique(es),
                forall|i: int| 0 <= i < j ==> (#[trigger] es[i]).0 != node@,
            decreases self.entries@.len() - j,
        {
            if self.entries[j].node == node {
                let ghost nv = connections@;
                assert(es[j as int].0 == node@);
                self.entries.set(j, NodeEntry { node, connections });
                proof {
                    lemma_entries_update(es, j as int, nv);
                    let ne = entry_views(self.entries@);
                    assert(ne =~= es.update(j as int, (es[j as int].0, nv)));
                    assert forall|a: int, b: int| 0 <= a < b < ne.len() implies (#[trigger] ne[a]).0
                        != (#[trigger] ne[b]).0 by {
                        assert(ne[a].0 == es[a].0);
                        assert(ne[b].0 == es[b].0);
                    }
                }
                return;
            }
            j = j + 1;
        }
        let ghost nk = node@;
        let ghost nv = connections@;
        self.entries.push(NodeEntry { node, connections });
        proof {
            let ne = entry_views(self.entries@);
            assert(ne =~= es.push((nk, nv)));
            assert(ne.drop_last() =~= es);
        }
    }

    /// The snapshot recorded for `node`, if any.
    pub fn get(&self, node: &String) -> (r: Option<&Vec<Connection>>)
        requires
            self.wf(),
        ensures
            r is Some <==> self@.contains_key(node@),
            r is Some ==> r->0@ == self@[node@],
    {
        let ghost es = entry_views(self.entries@);
        proof {
            lemma_entries_domain(es, node@);
        }
        let mut j: usize = 0;
        while j < self.entries.len()
            invariant
                self.wf(),
                j <= self.entries@.len(),
                es == entry_views(self.entries@),
                forall|i: int| 0 <= i < j ==> (#[trigger] es[i]).0 != node@,
            decreases self.entries@.len() - j,
        {
            if self.entries[j].node == *node {
                proof {
                    lemma_entries_lookup(es, j as int);
                }
                return Some(&self.entries[j].connections);
            }
            j = j + 1;
        }
        None
    }

    /// The number of nodes in the view.
    pub fn len(&self) -> (r: usize)
        requires
            self.wf(),
        ensures
            r == self@.len(),
    {
        proof {
            lemma_entries_len(entry_views(self.entries@));
        }
        self.entries.len()
    }
}

proof fn lemma_entries_lookup(es: Seq<(Seq<char>, Seq<Connection>)>, j: int)
    requires
        keys_unique(es),
        0 <= j < es.len(),
    ensures
        entries_map(es).contains_key(es[j].0),
        entries_map(es)[es[j].0] == es[j].1,
    decreases es.len(),
{
    if j < es.len() - 1 {
        lemma_entries_lookup(es.drop_last(), j);
        assert(es[j].0 != es[es.len() - 1].0);
    }
}

proof fn lemma_entries_len(es: Seq<(Seq<char>, Seq<Connection>)>)
    requires
        keys_unique(es),
    ensures
        entries_map(es).dom().finite(),
        entries_map(es).len() == es.len(),
    decreases es.len(),
{
    if es.len() > 0 {
        let d = es.drop_last();
        lemma_entries_len(d);
        lemma_entries_domain(d, es.last().0);
        if entries_map(d).contains_key(es.last().0) {
            let i = choose|i: int| 0 <= i < d.len() && (#[trigger] d[i]).0 == es.last().0;
            assert(es[i].0 == es[es.len() - 1].0);
        }
    }
}

/// The key and snapshot that one node contributes to a cycle, or nothing
/// where its fetch failed. The key is the node's own name where it reported
/// one, else the identifier it was reached by.
pub open spec fn contribution(id: Seq<char>, report: Option<NodeReport>) -> Option<(Seq<char>, Seq<Connection>)> {
    match report {
        Some(r) => Some(
            (
                match r.node_name {
                    Some(n) => n@,
                    None => id,
                },
                r.connections@,
            ),
        ),
        None => None,
    }
}

pub open spec fn contributions(ids: Seq<String>, reports: Seq<Option<NodeReport>>) -> Seq<Option<(Seq<char>, Seq<Connection>)>> {
    Seq::new(ids.len(), |i: int| contribution(ids[i]@, reports[i]))
}

/// The view that one cycle builds: the contributions inserted in node order,
/// failed nodes skipped.
pub open spec fn merged(cs: Seq<Option<(Seq<char>, Seq<Connection>)>>) -> Map<Seq<char>, Seq<Connection>>
    decreases cs.len(),
{
    if cs.len() == 0 {
        Map::empty()
    } else {
        match cs.last() {
            Some(kv) => merged(cs.drop_last()).insert(kv.0, kv.1),
            None => merged(cs.drop_last()),
        }
    }
}

/// Builds the view of one cycle from what each node returned. `reports[i]`
/// is the outcome of fetching the node known as `ids[i]`: `None` where the
/// fetch failed.
pub fn merge_cycle(ids: &Vec<String>, reports: &Vec<Option<NodeReport>>) -> (r: NodeAggregate)
    requires
        ids@.len() == reports@.len(),
    ensures
        r.wf(),
        r@ == merged(contributions(ids@, reports@)),
{
    let ghost cs = contributions(ids@, reports@);
    let mut agg = NodeAggregate::new();
    let mut i: usize = 0;
    while i < ids.len()
        invariant
            i <= ids@.len(),
            ids@.len() == reports@.len(),
            cs == contributions(ids@, reports@),
            agg.wf(),
            agg@ == merged(cs.take(i as int)),
        decreases ids@.len() - i,
    {
        assert(cs.take(i + 1).drop_last() =~= cs.take(i as int));
        assert(cs.take(i + 1).last() == contribution(ids@[i as int]@, reports@[i as int]));
        match &reports[i] {
            Some(rep) => {
                let key = match &rep.node_name {
                    Some(n) => n.clone(),
                    None => ids[i].clone(),
                };
                agg.insert(key, rep.connections.clone());
            },
            None => {},
        }
        i = i + 1;
    }
    assert(cs.take(i as int) =~= cs);
    agg
}

/// A node whose fetch failed leaves no trace: the cycle's view is the one
/// that the other nodes alone would have built, in the same order.
pub proof fn lemma_failed_node_omitted(cs: Seq<Option<(Seq<char>, Seq<Connection>)>>, k: int)
    requires
        0 <= k < cs.len(),
        cs[k] is None,
    ensures
        merged(cs) == merged(cs.remove(k)),
    decreases cs.len(),
{
    if k == cs.len() - 1 {
        assert(cs.remove(k) =~= cs.drop_last());
    } else {
        assert(cs.remove(k).drop_last() =~= cs.drop_last().remove(k));
        assert(cs.remove(k).last() == cs.last());
        lemma_failed_node_omitted(cs.drop_last(), k);
    }
}

pub open spec fn contrib_key(c: Option<(Seq<char>, Seq<Connection>)>) -> Seq<char> {
    match c {
        Some((k, _)) => k,
        None => Seq::empty(),
    }
}

pub open spec fn contrib_conns(c: Option<(Seq<char>, Seq<Connection>)>) -> Seq<Connection> {
    match c {
        Some((_, v)) => v,
        None => Seq::empty(),
    }
}

/// A node that succeeded and whose key no later node reports keeps its
/// snapshot in the cycle's view, whatever the other nodes did.
pub proof fn lemma_successful_node_kept(cs: Seq<Option<(Seq<char>, Seq<Connection>)>>, k: int)
    requires
        0 <= k < cs.len(),
        cs[k] is Some,
        forall|j: int| k < j < cs.len() && (#[trigger] cs[j]) is Some ==> contrib_key(cs[j]) != contrib_key(cs[k]),
    ensures
        merged(cs).contains_key(contrib_key(cs[k])),
        merged(cs)[contrib_key(cs[k])] == contrib_conns(cs[k]),
    decreases cs.len(),
{
    if k < cs.len() - 1 {
        lemma_successful_node_kept(cs.drop_last(), k);
    }
}

/// The local port of the tunnel to the node at `index`: the base port plus
/// the index, or `None` where that passes the largest port.
pub fn tunnel_port(base: u16, index: usize) -> (r: Option<u16>)
    ensures
        r is Some <==> base + index <= 65535,
        r is Some ==> r->0 == base + index,
{
    if index > 65535 || (base as usize) + index > 65535 {
        None
    } else {
        Some((base as usize + index) as u16)
    }
}

/// The endpoints of a comma-separated list, each trimmed of whitespace.
pub open spec fn endpoints_spec(s: Seq<char>) -> Seq<Seq<char>> {
    split_on(s, ',').map_values(|p: Seq<char>| trim(p))
}

/// Reads a statically configured endpoint list.
pub fn parse_endpoints(s: &str) -> (r: Vec<String>)
    ensures
        string_views(r@) == endpoints_spec(s@),
{
    let cs = chars_of(s);
    let parts = split_chars(&cs, ',');
    let ghost ps = views(parts@);
    let mut r: Vec<String> = Vec::new();
    let mut i: usize = 0;
    while i < parts.len()
        invariant
            i <= parts@.len(),
            ps == views(parts@),
            ps == split_on(s@, ','),
            string_views(r@) == endpoints_spec(s@).take(i as int),
        decreases parts@.len() - i,
    {
        assert(ps[i as int] == parts@[i as int]@);
        let ghost old_r = string_views(r@);
        let t = trim_chars(&parts[i]);
        r.push(string_from_chars(&t));
        assert(string_views(r@) =~= old_r.push(trim(ps[i as int])));
        i = i + 1;
        assert(string_views(r@) =~= endpoints_spec(s@).take(i as int));
    }
    assert(string_views(r@) =~= endpoints_spec(s@));
    r
}

/// The pod names in the cluster tool's output: its whitespace-separated words.
pub fn pod_names(out: &str) -> (r: Vec<String>)
    ensures
        string_views(r@) == words(out@),
{
    let cs = chars_of(out);
    let ws = split_words(&cs);
    let mut r: Vec<String> = Vec::new();
    let mut i: usize = 0;
    while i < ws.len()
        invariant
            i <= ws@.len(),
            views(ws@) == words(out@),
            string_views(r@) == words(out@).take(i as int),
        decreases ws@.len() - i,
    {
        assert(views(ws@)[i as int] == ws@[i as int]@);
        let ghost old_r = string_views(r@);
        r.push(string_from_chars(&ws[i]));
        assert(string_views(r@) =~= old_r.push(ws@[i as int]@));
        i = i + 1;
        assert(string_views(r@) =~= words(out@).take(i as int));
    }
    assert(string_views(r@) =~= words(out@));
    r
}

} // verus!
