//! The link between the canvas and the flowsheet: the wires the canvas holds
//! between its nodes, and the connections the flowsheet stores.

use vstd::prelude::*;

use std::collections::HashMap;

use crate::model::Connection;
use crate::report::{contains_string, strings_view};

verus! {

broadcast use vstd::std_specs::hash::group_hash_axioms;

/// A wire of the canvas: from output `out_slot` of canvas node `out_node` to
/// input `in_slot` of canvas node `in_node`.
#[derive(Clone, Copy, Debug, PartialEq, Eq, Structural)]
pub struct Wire {
    pub out_node: usize,
    pub out_slot: usize,
    pub in_node: usize,
    pub in_slot: usize,
}

/// The flowsheet identifier of a canvas node; the nil identifier (zero) for
/// a canvas node the flowsheet does not know.
pub open spec fn id_or_nil(ids: Map<usize, u128>, canvas_node: usize) -> u128 {
    if ids.contains_key(canvas_node) {
        ids[canvas_node]
    } else {
        0
    }
}

/// Position `i` holds the first name given to wire `w`.
pub open spec fn first_name_at(names: Seq<(Wire, String)>, w: Wire, i: int) -> bool {
    &&& 0 <= i < names.len()
    &&& names[i].0 == w
    &&& forall|j: int| 0 <= j < i ==> (#[trigger] names[j]).0 != w
}

/// The name given to a wire: the first entry for it, if there is one.
pub open spec fn wire_name(names: Seq<(Wire, String)>, w: Wire) -> Option<String> {
    if exists|i: int| first_name_at(names, w, i) {
        Some(names[choose|i: int| first_name_at(names, w, i)].1)
    } else {
        None
    }
}

/// The connection a wire becomes, under identifier `id`, with the stream
/// name given to the wire.
pub open spec fn wire_connection(w: Wire, ids: Map<usize, u128>, id: u128, names: Seq<(Wire, String)>) -> Connection {
    Connection {
        id,
        origin_node: id_or_nil(ids, w.out_node),
        origin_slot: w.out_slot,
        target_node: id_or_nil(ids, w.in_node),
        target_slot: w.in_slot,
        stream_name: wire_name(names, w),
    }
}

/// The name given to a wire, looked up among the named wires.
pub fn name_of_wire(names: &Vec<(Wire, String)>, w: Wire) -> (r: Option<String>)
    ensures
        r == wire_name(names@, w),
{
    let n = names.len();
    for i in 0..n
        invariant
            n == names@.len(),
            forall|j: int| 0 <= j < i ==> (#[trigger] names@[j]).0 != w,
    {
        if names[i].0 == w {
            proof {
                assert(first_name_at(names@, w, i as int));
                let k = choose|k: int| first_name_at(names@, w, k);
                if k < i {
                    assert(names@[k].0 != w);
                } else if k > i {
                    assert(names@[i as int].0 != w);
                }
                assert(k == i);
            }
            return Some(names[i].1.clone());
        }
    }
    assert(!exists|k: int| first_name_at(names@, w, k)) by {
        if exists|k: int| first_name_at(names@, w, k) {
            let k = choose|k: int| first_name_at(names@, w, k);
            assert(names@[k].0 != w);
        }
    }
    None
}

/// No wire is named twice: the names form a map from wires to names.
pub open spec fn names_unique(names: Seq<(Wire, String)>) -> bool {
    forall|i: int, j: int| 0 <= i < j < names.len() ==> (#[trigger] names[i]).0 != (#[trigger] names[j]).0
}

/// In names without repeated wires, the entry for a wire gives its name.
pub proof fn lemma_unique_name(names: Seq<(Wire, String)>, w: Wire, i: int)
    requires
        names_unique(names),
        0 <= i < names.len(),
        names[i].0 == w,
    ensures
        wire_name(names, w) == Some(names[i].1),
{
    assert forall|j: int| 0 <= j < i implies (#[trigger] names[j]).0 != w by {
        assert(names[j].0 != names[i].0);
    }
    assert(first_name_at(names, w, i));
    let k = choose|k: int| first_name_at(names, w, k);
    if k < i {
        assert(names[k].0 != w);
    } else if k > i {
        assert(names[i].0 != w);
    }
}

/// A wire without an entry has no name.
pub proof fn lemma_absent_name(names: Seq<(Wire, String)>, w: Wire)
    requires
        forall|i: int| 0 <= i < names.len() ==> (#[trigger] names[i]).0 != w,
    ensures
        wire_name(names, w) is None,
{
    if exists|k: int| first_name_at(names, w, k) {
        let k = choose|k: int| first_name_at(names, w, k);
        assert(names[k].0 != w);
    }
}

/// Whether no wire is named twice.
pub fn wire_names_unique(names: &Vec<(Wire, String)>) -> (b: bool)
    ensures
        b == names_unique(names@),
{
    let n = names.len();
    for j in 0..n
        invariant
            n == names@.len(),
            forall|a: int, b: int| 0 <= a < b < j ==> (#[trigger] names@[a]).0 != (#[trigger] names@[b]).0,
    {
        for i in 0..j
            invariant
                n == names@.len(),
                j < n,
                forall|a: int, b: int| 0 <= a < b < j ==> (#[trigger] names@[a]).0 != (#[trigger] names@[b]).0,
                forall|a: int| 0 <= a < i ==> (#[trigger] names@[a]).0 != names@[j as int].0,
        {
            if names[i].0 == names[j].0 {
                assert(names@[i as int].0 == names@[j as int].0);
                return false;
            }
        }
    }
    true
}

/// Gives a wire a name, in place of the name it had: the other wires keep
/// theirs.
pub fn set_wire_name(names: &mut Vec<(Wire, String)>, w: Wire, name: String)
    requires
        names_unique(old(names)@),
    ensures
        names_unique(final(names)@),
        wire_name(final(names)@, w) == Some(name),
        forall|v: Wire| v != w ==> #[trigger] wire_name(final(names)@, v) == wire_name(old(names)@, v),
{
    let ghost before = names@;
    let n = names.len();
    let mut found: Option<usize> = None;
    for i in 0..n
        invariant
            n == names@.len(),
            names@ == before,
            found is None ==> forall|j: int| 0 <= j < i ==> (#[trigger] names@[j]).0 != w,
            found matches Some(k) ==> k < n && names@[k as int].0 == w,
    {
        if found.is_none() && names[i].0 == w {
            found = Some(i);
        }
    }
    match found {
        Some(k) => {
            names.set(k, (w, name));
            proof {
                let after = names@;
                assert forall|a: int, b: int| 0 <= a < b < after.len() implies (#[trigger] after[a]).0 != (#[trigger] after[b]).0 by {
                    assert(before[a].0 != before[b].0);
                }
                lemma_unique_name(after, w, k as int);
                assert forall|v: Wire| v != w implies #[trigger] wire_name(after, v) == wire_name(before, v) by {
                    if exists|j: int| 0 <= j < before.len() && before[j].0 == v {
                        let j = choose|j: int| 0 <= j < before.len() && before[j].0 == v;
                        assert(j != k);
                        assert(after[j] == before[j]);
                        lemma_unique_name(before, v, j);
                        lemma_unique_name(after, v, j);
                    } else {
                        lemma_absent_name(before, v);
                        assert forall|j: int| 0 <= j < after.len() implies (#[trigger] after[j]).0 != v by {
                            if j != k {
                                assert(after[j] == before[j]);
                            }
                        }
                        lemma_absent_name(after, v);
                    }
                }
            }
        },
        None => {
            names.push((w, name));
            proof {
                let after = names@;
                assert forall|a: int, b: int| 0 <= a < b < after.len() implies (#[trigger] after[a]).0 != (#[trigger] after[b]).0 by {
                    if b < before.len() {
                        assert(before[a].0 != before[b].0);
                    } else {
                        assert(after[a] == before[a]);
                    }
                }
                lemma_unique_name(after, w, n as int);
                assert forall|v: Wire| v != w implies #[trigger] wire_name(after, v) == wire_name(before, v) by {
                    if exists|j: int| 0 <= j < before.len() && before[j].0 == v {
                        let j = choose|j: int| 0 <= j < before.len() && before[j].0 == v;
                        assert(after[j] == before[j]);
                        lemma_unique_name(before, v, j);
                        lemma_unique_name(after, v, j);
                    } else {
                        lemma_absent_name(before, v);
                        assert forall|j: int| 0 <= j < after.len() implies (#[trigger] after[j]).0 != v by {
                            if j < before.len() {
                                assert(after[j] == before[j]);
                            }
                        }
                        lemma_absent_name(after, v);
                    }
                }
            }
        },
    }
}

/// The wire touches this canvas node.
pub open spec fn wire_touches(w: Wire, node: usize) -> bool {
    w.out_node == node || w.in_node == node
}

/// Forgets the names of the wires that touch a canvas node that is removed;
/// the other wires keep theirs.
pub fn remove_node_wire_names(names: &mut Vec<(Wire, String)>, node: usize)
    requires
        names_unique(old(names)@),
    ensures
        names_unique(final(names)@),
        forall|v: Wire|
            #[trigger] wire_name(final(names)@, v) == if wire_touches(v, node) {
                None
            } else {
                wire_name(old(names)@, v)
            },
{
    let ghost before = names@;
    let mut kept: Vec<(Wire, String)> = Vec::new();
    let ghost mut src: Seq<int> = Seq::empty();
    let n = names.len();
    for i in 0..n
        invariant
            n == names@.len(),
            names@ == before,
            names_unique(before),
            src.len() == kept@.len(),
            forall|k: int| 0 <= k < src.len() ==> 0 <= #[trigger] src[k] < i && kept@[k] == before[src[k]] && !wire_touches(before[src[k]].0, node),
            forall|a: int, b: int| 0 <= a < b < src.len() ==> #[trigger] src[a] < #[trigger] src[b],
            forall|j: int| 0 <= j < i && !wire_touches(#[trigger] before[j].0, node) ==> exists|k: int| 0 <= k < src.len() && src[k] == j,
    {
        let ghost old_src = src;
        if !(names[i].0.out_node == node || names[i].0.in_node == node) {
            let e = (names[i].0, names[i].1.clone());
            kept.push(e);
            proof {
                src = src.push(i as int);
                assert(src[src.len() - 1] == i);
            }
        }
        proof {
            assert forall|j: int| 0 <= j < i + 1 && !wire_touches(#[trigger] before[j].0, node) implies exists|k: int|
                0 <= k < src.len() && src[k] == j by {
                if j < i {
                    let k = choose|k: int| 0 <= k < old_src.len() && old_src[k] == j;
                    assert(src[k] == old_src[k]);
                } else {
                    assert(src[src.len() - 1] == j);
                }
            }
        }
    }
    proof {
        let after = kept@;
        assert forall|a: int, b: int| 0 <= a < b < after.len() implies (#[trigger] after[a]).0 != (#[trigger] after[b]).0 by {
            assert(src[a] < src[b]);
            assert(before[src[a]].0 != before[src[b]].0);
        }
        assert forall|v: Wire| #[trigger] wire_name(after, v) == if wire_touches(v, node) {
            None
        } else {
            wire_name(before, v)
        } by {
            if wire_touches(v, node) {
                assert forall|k: int| 0 <= k < after.len() implies (#[trigger] after[k]).0 != v by {
                    assert(!wire_touches(before[src[k]].0, node));
                }
                lemma_absent_name(after, v);
            } else if exists|j: int| 0 <= j < before.len() && before[j].0 == v {
                let j = choose|j: int| 0 <= j < before.len() && before[j].0 == v;
                let k = choose|k: int| 0 <= k < src.len() && src[k] == j;
                lemma_unique_name(before, v, j);
                lemma_unique_name(after, v, k);
            } else {
                lemma_absent_name(before, v);
                assert forall|k: int| 0 <= k < after.len() implies (#[trigger] after[k]).0 != v by {
                    assert(after[k] == before[src[k]]);
                }
                lemma_absent_name(after, v);
            }
        }
    }
    *names = kept;
}

fn lookup_or_nil(ids: &HashMap<usize, u128>, canvas_node: usize) -> (id: u128)
    ensures
        id == id_or_nil(ids@, canvas_node),
{
    match ids.get(&canvas_node) {
        Some(id) => *id,
        None => 0,
    }
}

/// The connections of the flowsheet for the wires of the canvas, in order,
/// each under the fresh identifier at its position and with the stream name
/// given to its wire.
pub fn wires_to_connections(
    wires: &Vec<Wire>,
    ids: &HashMap<usize, u128>,
    connection_ids: &Vec<u128>,
    names: &Vec<(Wire, String)>,
) -> (r: Vec<Connection>)
    requires
        connection_ids@.len() == wires@.len(),
        names_unique(names@),
    ensures
        r@.len() == wires@.len(),
        forall|i: int| 0 <= i < r@.len() ==> #[trigger] r@[i] == wire_connection(wires@[i], ids@, connection_ids@[i], names@),
{
    let mut r: Vec<Connection> = Vec::new();
    let n = wires.len();
    for i in 0..n
        invariant
            n == wires@.len(),
            n == connection_ids@.len(),
            r@.len() == i,
            forall|k: int| 0 <= k < i ==> #[trigger] r@[k] == wire_connection(wires@[k], ids@, connection_ids@[k], names@),
    {
        let w = wires[i];
        r.push(Connection {
            id: connection_ids[i],
            origin_node: lookup_or_nil(ids, w.out_node),
            origin_slot: w.out_slot,
            target_node: lookup_or_nil(ids, w.in_node),
            target_slot: w.in_slot,
            stream_name: name_of_wire(names, w),
        });
    }
    r
}

/// Some canvas node carries this flowsheet identifier.
pub open spec fn on_canvas(ids: Map<usize, u128>, id: u128) -> bool {
    exists|k: usize| #[trigger] ids.contains_key(k) && ids[k] == id
}

/// Finds a canvas node carrying this flowsheet identifier (any one, where
/// several do).
pub fn find_canvas_node(ids: &HashMap<usize, u128>, id: u128) -> (r: Option<usize>)
    ensures
        r is Some <==> on_canvas(ids@, id),
        r matches Some(k) ==> ids@.contains_key(k) && ids@[k] == id,
{
    for (k, v) in it: ids.iter()
        invariant
            forall|j: int| 0 <= j < it.index() ==> *(#[trigger] it.seq()[j]).1 != id,
    {
        if *v == id {
            assert(ids@.contains_key(*k) && ids@[*k] == *v);
            return Some(*k);
        }
    }
    None
}

/// No two canvas nodes carry the same flowsheet identifier.
pub open spec fn ids_injective(ids: Map<usize, u128>) -> bool {
    forall|a: usize, b: usize| #[trigger] ids.contains_key(a) && #[trigger] ids.contains_key(b) && ids[a] == ids[b] ==> a == b
}

/// The canvas node carrying this identifier.
pub open spec fn canvas_node_of(ids: Map<usize, u128>, id: u128) -> usize {
    choose|k: usize| #[trigger] ids.contains_key(k) && ids[k] == id
}

/// The wires for stored connections, where each identifier is on at most
/// one canvas node: one per connection whose two nodes are on the canvas.
pub open spec fn wires_for(conns: Seq<Connection>, ids: Map<usize, u128>) -> Seq<Wire>
    decreases conns.len(),
{
    if conns.len() == 0 {
        Seq::empty()
    } else {
        let prev = wires_for(conns.drop_last(), ids);
        let c = conns.last();
        if on_canvas(ids, c.origin_node) && on_canvas(ids, c.target_node) {
            prev.push(
                Wire {
                    out_node: canvas_node_of(ids, c.origin_node),
                    out_slot: c.origin_slot,
                    in_node: canvas_node_of(ids, c.target_node),
                    in_slot: c.target_slot,
                },
            )
        } else {
            prev
        }
    }
}

/// Storing the wires of a canvas whose nodes all carry distinct flowsheet
/// identifiers, then drawing the stored connections again, gives back the
/// same wires.
pub proof fn lemma_wires_round_trip(wires: Seq<Wire>, ids: Map<usize, u128>, connection_ids: Seq<u128>, names: Seq<(Wire, String)>)
    requires
        ids_injective(ids),
        connection_ids.len() == wires.len(),
        forall|i: int| 0 <= i < wires.len() ==> ids.contains_key((#[trigger] wires[i]).out_node) && ids.contains_key(wires[i].in_node),
    ensures
        wires_for(Seq::new(wires.len(), |i: int| wire_connection(wires[i], ids, connection_ids[i], names)), ids) == wires,
    decreases wires.len(),
{
    let conns = Seq::new(wires.len(), |i: int| wire_connection(wires[i], ids, connection_ids[i], names));
    if wires.len() > 0 {
        let pw = wires.drop_last();
        let pc = connection_ids.drop_last();
        lemma_wires_round_trip(pw, ids, pc, names);
        assert(conns.drop_last() =~= Seq::new(pw.len(), |i: int| wire_connection(pw[i], ids, pc[i], names)));
        let w = wires.last();
        assert(w == wires[wires.len() - 1]);
        let c = conns.last();
        assert(c.origin_node == ids[w.out_node]);
        assert(on_canvas(ids, c.origin_node));
        assert(on_canvas(ids, c.target_node));
        assert(canvas_node_of(ids, c.origin_node) == w.out_node);
        assert(canvas_node_of(ids, c.target_node) == w.in_node);
        assert(wires_for(conns, ids) =~= wires);
    }
}

/// The positions of the connections whose two nodes are on the canvas, in
/// order.
pub open spec fn wired_positions(conns: Seq<Connection>, ids: Map<usize, u128>) -> Seq<int>
    decreases conns.len(),
{
    if conns.len() == 0 {
        Seq::empty()
    } else {
        let prev = wired_positions(conns.drop_last(), ids);
        let c = conns.last();
        if on_canvas(ids, c.origin_node) && on_canvas(ids, c.target_node) {
            prev.push(conns.len() - 1)
        } else {
            prev
        }
    }
}

/// The wire joins canvas nodes that carry the connection's two endpoints,
/// at the connection's slots.
pub open spec fn wire_carries(w: Wire, c: Connection, ids: Map<usize, u128>) -> bool {
    &&& ids.contains_key(w.out_node)
    &&& ids.contains_key(w.in_node)
    &&& ids[w.out_node] == c.origin_node
    &&& ids[w.in_node] == c.target_node
    &&& w.out_slot == c.origin_slot
    &&& w.in_slot == c.target_slot
}

proof fn lemma_wired_positions_bounds(conns: Seq<Connection>, ids: Map<usize, u128>)
    ensures
        forall|i: int| 0 <= i < wired_positions(conns, ids).len() ==> 0 <= #[trigger] wired_positions(conns, ids)[i] < conns.len(),
    decreases conns.len(),
{
    if conns.len() > 0 {
        let prev = wired_positions(conns.drop_last(), ids);
        lemma_wired_positions_bounds(conns.drop_last(), ids);
        assert forall|i: int| 0 <= i < wired_positions(conns, ids).len() implies 0 <= #[trigger] wired_positions(conns, ids)[i] < conns.len() by {
            if i < prev.len() {
                assert(wired_positions(conns, ids)[i] == prev[i]);
            }
        }
    }
}

/// The wires the canvas draws for stored connections: one per connection
/// whose two nodes are on the canvas, in order, joining canvas nodes that
/// carry its endpoints (any one, where several carry an identifier); the
/// other connections are skipped.
pub fn connections_to_wires(connections: &Vec<Connection>, ids: &HashMap<usize, u128>) -> (r: Vec<Wire>)
    ensures
        r@.len() == wired_positions(connections@, ids@).len(),
        forall|i: int|
            0 <= i < r@.len() ==> wire_carries(#[trigger] r@[i], connections@[wired_positions(connections@, ids@)[i]], ids@),
        ids_injective(ids@) ==> r@ == wires_for(connections@, ids@),
{
    let mut r: Vec<Wire> = Vec::new();
    let m = connections.len();
    for j in 0..m
        invariant
            m == connections@.len(),
            r@.len() == wired_positions(connections@.take(j as int), ids@).len(),
            forall|i: int|
                0 <= i < r@.len() ==> wire_carries(#[trigger] r@[i], connections@[wired_positions(connections@.take(j as int), ids@)[i]], ids@),
            ids_injective(ids@) ==> r@ == wires_for(connections@.take(j as int), ids@),
    {
        let c = &connections[j];
        let ghost pre = connections@.take(j as int);
        let ghost cur = connections@.take(j + 1);
        assert(cur.drop_last() =~= pre);
        proof {
            lemma_wired_positions_bounds(pre, ids@);
            assert forall|i: int| 0 <= i < wired_positions(pre, ids@).len() implies connections@[#[trigger] wired_positions(pre, ids@)[i]] == pre[wired_positions(pre, ids@)[i]] by {}
        }
        let origin = find_canvas_node(ids, c.origin_node);
        let target = find_canvas_node(ids, c.target_node);
        match (origin, target) {
            (Some(o), Some(t)) => {
                let w = Wire { out_node: o, out_slot: c.origin_slot, in_node: t, in_slot: c.target_slot };
                r.push(w);
                proof {
                    assert(wired_positions(cur, ids@) == wired_positions(pre, ids@).push(j as int));
                    assert(connections@[j as int] == cur.last());
                }
            },
            _ => {
                assert(wired_positions(cur, ids@) == wired_positions(pre, ids@));
            },
        }
    }
    assert(connections@.take(m as int) =~= connections@);
    r
}

/// The wire the canvas draws for a connection between two of its nodes.
pub open spec fn connection_wire(c: Connection, ids: Map<usize, u128>) -> Wire {
    Wire {
        out_node: canvas_node_of(ids, c.origin_node),
        out_slot: c.origin_slot,
        in_node: canvas_node_of(ids, c.target_node),
        in_slot: c.target_slot,
    }
}

/// The stream names of stored connections, where each identifier is on at
/// most one canvas node: for each named connection whose two nodes are on
/// the canvas, in order, its wire takes its name (a later name replaces an
/// earlier one).
pub open spec fn named_wire_map(conns: Seq<Connection>, ids: Map<usize, u128>) -> Map<Wire, String>
    decreases conns.len(),
{
    if conns.len() == 0 {
        Map::empty()
    } else {
        let prev = named_wire_map(conns.drop_last(), ids);
        let c = conns.last();
        if on_canvas(ids, c.origin_node) && on_canvas(ids, c.target_node) && c.stream_name is Some {
            prev.insert(connection_wire(c, ids), c.stream_name->Some_0)
        } else {
            prev
        }
    }
}

/// The name a map gives a wire.
pub open spec fn map_name(m: Map<Wire, String>, w: Wire) -> Option<String> {
    if m.contains_key(w) {
        Some(m[w])
    } else {
        None
    }
}

/// The stream names of stored connections, as names of the wires the canvas
/// draws for them, no wire named twice. Every name comes from a named
/// connection whose endpoints the wire's canvas nodes carry, and every named
/// connection with both nodes on the canvas gives such a wire a name; where
/// each identifier is on at most one canvas node, the names are exactly
/// those of `named_wire_map`.
pub fn connection_wire_names(connections: &Vec<Connection>, ids: &HashMap<usize, u128>) -> (r: Vec<(Wire, String)>)
    ensures
        names_unique(r@),
        forall|w: Wire|
            #[trigger] wire_name(r@, w) is Some ==> exists|j: int|
                0 <= j < connections@.len() && wire_carries(w, #[trigger] connections@[j], ids@) && connections@[j].stream_name
                    == wire_name(r@, w),
        forall|j: int|
            0 <= j < connections@.len() && on_canvas(ids@, (#[trigger] connections@[j]).origin_node) && on_canvas(
                ids@,
                connections@[j].target_node,
            ) && connections@[j].stream_name is Some ==> exists|w: Wire| wire_carries(w, connections@[j], ids@) && #[trigger] wire_name(r@, w) is Some,
        ids_injective(ids@) ==> forall|w: Wire| #[trigger] wire_name(r@, w) == map_name(named_wire_map(connections@, ids@), w),
{
    let mut r: Vec<(Wire, String)> = Vec::new();
    let m = connections.len();
    for j in 0..m
        invariant
            m == connections@.len(),
            names_unique(r@),
            forall|w: Wire|
                #[trigger] wire_name(r@, w) is Some ==> exists|jj: int|
                    0 <= jj < j && wire_carries(w, #[trigger] connections@[jj], ids@) && connections@[jj].stream_name
                        == wire_name(r@, w),
            forall|jj: int|
                0 <= jj < j && on_canvas(ids@, (#[trigger] connections@[jj]).origin_node) && on_canvas(
                    ids@,
                    connections@[jj].target_node,
                ) && connections@[jj].stream_name is Some ==> exists|w: Wire| wire_carries(w, connections@[jj], ids@) && #[trigger] wire_name(r@, w) is Some,
            ids_injective(ids@) ==> forall|w: Wire| #[trigger] wire_name(r@, w) == map_name(named_wire_map(connections@.take(j as int), ids@), w),
    {
        let c = &connections[j];
        let ghost pre = connections@.take(j as int);
        let ghost cur = connections@.take(j + 1);
        assert(cur.drop_last() =~= pre);
        assert(cur.last() == connections@[j as int]);
        let ghost before = r@;
        let origin = find_canvas_node(ids, c.origin_node);
        let target = find_canvas_node(ids, c.target_node);
        match (origin, target, &c.stream_name) {
            (Some(o), Some(t), Some(name)) => {
                let w = Wire { out_node: o, out_slot: c.origin_slot, in_node: t, in_slot: c.target_slot };
                set_wire_name(&mut r, w, name.clone());
                proof {
                    assert(wire_carries(w, connections@[j as int], ids@));
                    assert forall|v: Wire| #[trigger] wire_name(r@, v) is Some implies exists|jj: int|
                        0 <= jj < j + 1 && wire_carries(v, #[trigger] connections@[jj], ids@) && connections@[jj].stream_name
                            == wire_name(r@, v) by {
                        if v == w {
                            assert(connections@[j as int].stream_name == wire_name(r@, v));
                        } else {
                            assert(wire_name(before, v) is Some);
                            let jj = choose|jj: int|
                                0 <= jj < j && wire_carries(v, #[trigger] connections@[jj], ids@) && connections@[jj].stream_name
                                    == wire_name(before, v);
                        }
                    }
                    assert forall|jj: int|
                        0 <= jj < j + 1 && on_canvas(ids@, (#[trigger] connections@[jj]).origin_node) && on_canvas(
                            ids@,
                            connections@[jj].target_node,
                        ) && connections@[jj].stream_name is Some implies exists|v: Wire| wire_carries(v, connections@[jj], ids@) && #[trigger] wire_name(r@, v) is Some by {
                        if jj < j {
                            let v = choose|v: Wire| wire_carries(v, connections@[jj], ids@) && #[trigger] wire_name(before, v) is Some;
                            if v != w {
                                assert(wire_name(r@, v) == wire_name(before, v));
                            }
                        } else {
                            assert(wire_name(r@, w) is Some);
                        }
                    }
                    if ids_injective(ids@) {
                        assert(canvas_node_of(ids@, c.origin_node) == o);
                        assert(canvas_node_of(ids@, c.target_node) == t);
                        assert(connection_wire(*c, ids@) == w);
                        assert(named_wire_map(cur, ids@) == named_wire_map(pre, ids@).insert(w, *name));
                        assert forall|v: Wire| #[trigger] wire_name(r@, v) == map_name(named_wire_map(cur, ids@), v) by {
                            if v != w {
                                assert(wire_name(r@, v) == wire_name(before, v));
                            }
                        }
                    }
                }
            },
            _ => {
                proof {
                    if ids_injective(ids@) {
                        assert(named_wire_map(cur, ids@) == named_wire_map(pre, ids@));
                    }
                }
            },
        }
    }
    assert(connections@.take(m as int) =~= connections@);
    r
}

proof fn lemma_named_map_of_wires(wires: Seq<Wire>, ids: Map<usize, u128>, connection_ids: Seq<u128>, names: Seq<(Wire, String)>)
    requires
        ids_injective(ids),
        wires.no_duplicates(),
        connection_ids.len() == wires.len(),
        forall|i: int| 0 <= i < wires.len() ==> ids.contains_key((#[trigger] wires[i]).out_node) && ids.contains_key(wires[i].in_node),
    ensures
        ({
            let stored = named_wire_map(
                Seq::new(wires.len(), |i: int| wire_connection(wires[i], ids, connection_ids[i], names)),
                ids,
            );
            &&& forall|w: Wire| #[trigger] stored.contains_key(w) ==> exists|i: int| 0 <= i < wires.len() && wires[i] == w
            &&& forall|i: int| 0 <= i < wires.len() ==> map_name(stored, #[trigger] wires[i]) == wire_name(names, wires[i])
        }),
    decreases wires.len(),
{
    let conns = Seq::new(wires.len(), |i: int| wire_connection(wires[i], ids, connection_ids[i], names));
    let stored = named_wire_map(conns, ids);
    if wires.len() > 0 {
        let pw = wires.drop_last();
        let pc = connection_ids.drop_last();
        assert(pw.no_duplicates()) by {
            assert forall|a: int, b: int| 0 <= a < pw.len() && 0 <= b < pw.len() && a != b implies pw[a] != pw[b] by {
                assert(pw[a] == wires[a] && pw[b] == wires[b]);
            }
        }
        lemma_named_map_of_wires(pw, ids, pc, names);
        let pconns = Seq::new(pw.len(), |i: int| wire_connection(pw[i], ids, pc[i], names));
        assert(conns.drop_last() =~= pconns);
        let prev = named_wire_map(pconns, ids);
        let last = wires.len() - 1;
        let w = wires[last];
        let c = conns.last();
        assert(c == wire_connection(w, ids, connection_ids[last], names));
        assert(on_canvas(ids, c.origin_node));
        assert(on_canvas(ids, c.target_node));
        assert(canvas_node_of(ids, c.origin_node) == w.out_node);
        assert(canvas_node_of(ids, c.target_node) == w.in_node);
        assert(connection_wire(c, ids) == w);
        assert(!prev.contains_key(w)) by {
            if prev.contains_key(w) {
                let i = choose|i: int| 0 <= i < pw.len() && pw[i] == w;
                assert(wires[i] == wires[last]);
            }
        }
        assert forall|x: Wire| #[trigger] stored.contains_key(x) implies exists|i: int| 0 <= i < wires.len() && wires[i] == x by {
            if x != w {
                assert(prev.contains_key(x));
                let i = choose|i: int| 0 <= i < pw.len() && pw[i] == x;
                assert(wires[i] == x);
            }
        }
        assert forall|i: int| 0 <= i < wires.len() implies map_name(stored, #[trigger] wires[i]) == wire_name(names, wires[i]) by {
            if i < last {
                assert(wires[i] == pw[i]);
                assert(wires[i] != w);
                assert(map_name(prev, pw[i]) == wire_name(names, pw[i]));
            }
        }
    }
}

/// Storing the wires of a canvas whose nodes all carry distinct flowsheet
/// identifiers, no two wires alike, with the names given to them, then
/// reading the names back from the stored connections, gives each wire the
/// name it had.
pub proof fn lemma_stream_names_round_trip(wires: Seq<Wire>, ids: Map<usize, u128>, connection_ids: Seq<u128>, names: Seq<(Wire, String)>)
    requires
        ids_injective(ids),
        wires.no_duplicates(),
        connection_ids.len() == wires.len(),
        forall|i: int| 0 <= i < wires.len() ==> ids.contains_key((#[trigger] wires[i]).out_node) && ids.contains_key(wires[i].in_node),
    ensures
        forall|i: int|
            0 <= i < wires.len() ==> map_name(
                named_wire_map(Seq::new(wires.len(), |j: int| wire_connection(wires[j], ids, connection_ids[j], names)), ids),
                #[trigger] wires[i],
            ) == wire_name(names, wires[i]),
{
    lemma_named_map_of_wires(wires, ids, connection_ids, names);
}

/// Whether a component, by its CAS number, is not yet in the project.
pub fn is_new_component(project_cas: &Vec<String>, cas: &String) -> (b: bool)
    ensures
        b == !strings_view(project_cas@).contains(cas@),
{
    !contains_string(project_cas, cas)
}

/// The positions of the reactions that name a key component, in order.
pub open spec fn keyed_positions(keys: Seq<Seq<char>>) -> Seq<usize>
    decreases keys.len(),
{
    if keys.len() == 0 {
        Seq::empty()
    } else {
        let prev = keyed_positions(keys.drop_last());
        if keys.last().len() != 0 {
            prev.push((keys.len() - 1) as usize)
        } else {
            prev
        }
    }
}

/// The kept reactions are, in increasing order, exactly the positions
/// whose key component is not empty; repeated key components are all kept.
pub proof fn lemma_keyed_positions(keys: Seq<Seq<char>>)
    requires
        keys.len() <= usize::MAX,
    ensures
        forall|a: int, b: int| 0 <= a < b < keyed_positions(keys).len() ==> #[trigger] keyed_positions(keys)[a] < #[trigger] keyed_positions(keys)[b],
        forall|a: int| 0 <= a < keyed_positions(keys).len() ==> #[trigger] keyed_positions(keys)[a] < keys.len() && keys[keyed_positions(keys)[a] as int].len() != 0,
        forall|i: int| 0 <= i < keys.len() && (#[trigger] keys[i]).len() != 0 ==> keyed_positions(keys).contains(i as usize),
    decreases keys.len(),
{
    if keys.len() > 0 {
        let prev = keyed_positions(keys.drop_last());
        lemma_keyed_positions(keys.drop_last());
        let kp = keyed_positions(keys);
        assert forall|a: int| 0 <= a < prev.len() implies kp[a] == prev[a] && #[trigger] prev[a] < keys.len() - 1 by {
            assert(keys.drop_last()[prev[a] as int].len() != 0);
        }
        assert forall|a: int| 0 <= a < kp.len() implies #[trigger] kp[a] < keys.len() && keys[kp[a] as int].len() != 0 by {
            if a < prev.len() {
                assert(keys.drop_last()[prev[a] as int] == keys[prev[a] as int]);
            } else {
                assert(kp[a] == (keys.len() - 1) as usize);
            }
        }
        assert forall|a: int, b: int| 0 <= a < b < kp.len() implies #[trigger] kp[a] < #[trigger] kp[b] by {
            if b < prev.len() {
                assert(prev[a] < prev[b]);
            } else {
                assert(kp[b] == (keys.len() - 1) as usize);
                assert(prev[a] < keys.len() - 1);
            }
        }
        assert forall|i: int| 0 <= i < keys.len() && (#[trigger] keys[i]).len() != 0 implies kp.contains(i as usize) by {
            if i < keys.len() - 1 {
                assert(keys.drop_last()[i] == keys[i]);
                assert(prev.contains(i as usize));
                let a = choose|a: int| 0 <= a < prev.len() && prev[a] == i as usize;
                assert(kp[a] == i as usize);
            } else {
                assert(kp[kp.len() - 1] == i as usize);
            }
        }
    }
}

/// The reactions a reactor computes, given their key components: those
/// whose key component is chosen, in order.
pub fn keyed_reactions(keys: &Vec<String>) -> (r: Vec<usize>)
    ensures
        r@ == keyed_positions(strings_view(keys@)),
        forall|a: int, b: int| 0 <= a < b < r@.len() ==> #[trigger] r@[a] < #[trigger] r@[b],
        forall|a: int| 0 <= a < r@.len() ==> #[trigger] r@[a] < keys@.len() && keys@[r@[a] as int]@.len() != 0,
        forall|i: int| 0 <= i < keys@.len() && (#[trigger] keys@[i])@.len() != 0 ==> r@.contains(i as usize),
{
    let total = keys.len();
    proof {
        assert(strings_view(keys@).len() == total);
        lemma_keyed_positions(strings_view(keys@));
        assert forall|i: int| 0 <= i < keys@.len() implies #[trigger] strings_view(keys@)[i] == keys@[i]@ by {}
        assert forall|i: int| 0 <= i < keys@.len() && (#[trigger] keys@[i])@.len() != 0 implies keyed_positions(strings_view(keys@)).contains(i as usize) by {
            assert(strings_view(keys@)[i].len() != 0);
        }
    }
    let mut r: Vec<usize> = Vec::new();
    let n = keys.len();
    for i in 0..n
        invariant
            n == keys@.len(),
            r@ == keyed_positions(strings_view(keys@).take(i as int)),
    {
        assert(strings_view(keys@).take(i + 1).drop_last() =~= strings_view(keys@).take(i as int));
        assert(strings_view(keys@).take(i + 1).last() == keys@[i as int]@);
        if keys[i].unicode_len() != 0 {
            r.push(i);
        }
    }
    assert(strings_view(keys@).take(n as int) =~= strings_view(keys@));
    r
}

} // verus!
