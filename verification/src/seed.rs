//! The seed of the random generator of a routing call. It depends on the
//! edges and the nodes of the call, but not on their order.

use vstd::prelude::*;
use std::collections::hash_map::DefaultHasher;
use std::hash::Hasher;
use vstd::bytes::{spec_u32_to_le_bytes, spec_u64_to_le_bytes, u32_to_le_bytes, u64_to_le_bytes};
use vstd::std_specs::hash::DefaultHasherAdditionalSpecFns;
use crate::geometry::PlacedRectangularNode;
use crate::ripup::EdgeRequest;

verus! {

/// What stands for an edge or a node in the seed: six numbers.
pub type SeedKey = (i32, i32, i32, i32, i32, i32);

/// The key `a` comes no later than the key `b` when the keys are compared
/// number by number.
pub open spec fn key_le(a: SeedKey, b: SeedKey) -> bool {
    if a.0 != b.0 {
        a.0 < b.0
    } else if a.1 != b.1 {
        a.1 < b.1
    } else if a.2 != b.2 {
        a.2 < b.2
    } else if a.3 != b.3 {
        a.3 < b.3
    } else if a.4 != b.4 {
        a.4 < b.4
    } else {
        a.5 <= b.5
    }
}

/// No key comes later than one that follows it.
pub open spec fn keys_sorted(keys: Seq<SeedKey>) -> bool {
    forall|a: int, b: int| 0 <= a < b < keys.len() ==> key_le(#[trigger] keys[a], #[trigger] keys[b])
}

/// `sorted` holds the keys of `keys`, each as often, in rising order.
pub open spec fn is_sorting_of(sorted: Seq<SeedKey>, keys: Seq<SeedKey>) -> bool {
    keys_sorted(sorted) && sorted.to_multiset() == keys.to_multiset()
}

/// The key of an edge: place and direction of its start, then of its end.
pub open spec fn edge_seed_key(edge: EdgeRequest) -> SeedKey {
    (
        edge.2.x,
        edge.2.y,
        edge.2.direction.spec_code(),
        edge.3.x,
        edge.3.y,
        edge.3.direction.spec_code(),
    )
}

/// The key of a node: its centre, then its size.
pub open spec fn node_seed_key(node: PlacedRectangularNode) -> SeedKey {
    (node.center.x, node.center.y, node.node.size.width, node.node.size.height, 0i32, 0i32)
}

/// The four bytes of a number, the lowest first; a negative number counts
/// as the unsigned number with the same bits.
pub open spec fn number_bytes(v: i32) -> Seq<u8> {
    spec_u32_to_le_bytes(
        if v >= 0 {
            v as u32
        } else {
            (v + 0x1_0000_0000) as u32
        },
    )
}

/// The writes that the first `parts` numbers of each key make.
pub open spec fn key_writes(keys: Seq<SeedKey>, parts: int) -> Seq<Seq<u8>>
    decreases keys.len(),
{
    if keys.len() == 0 {
        Seq::<Seq<u8>>::empty()
    } else {
        let k = keys.last();
        let numbers = seq![
            number_bytes(k.0),
            number_bytes(k.1),
            number_bytes(k.2),
            number_bytes(k.3),
            number_bytes(k.4),
            number_bytes(k.5),
        ];
        key_writes(keys.drop_last(), parts) + numbers.subrange(0, parts)
    }
}

/// All that is written to the hasher for a batch with the given sorted
/// keys: the number of edges, the edge keys, the number of nodes, and the
/// first four numbers of each node key.
pub open spec fn seed_writes(edge_keys: Seq<SeedKey>, node_keys: Seq<SeedKey>) -> Seq<Seq<u8>> {
    seq![spec_u64_to_le_bytes(edge_keys.len() as u64)] + key_writes(edge_keys, 6)
        + seq![spec_u64_to_le_bytes(node_keys.len() as u64)] + key_writes(node_keys, 4)
}

fn key_less_or_equal(a: &SeedKey, b: &SeedKey) -> (r: bool)
    ensures
        r == key_le(*a, *b),
{
    if a.0 != b.0 {
        a.0 < b.0
    } else if a.1 != b.1 {
        a.1 < b.1
    } else if a.2 != b.2 {
        a.2 < b.2
    } else if a.3 != b.3 {
        a.3 < b.3
    } else if a.4 != b.4 {
        a.4 < b.4
    } else {
        a.5 <= b.5
    }
}

/// The keys in rising order.
pub fn sort_keys(keys: &Vec<SeedKey>) -> (sorted: Vec<SeedKey>)
    ensures
        is_sorting_of(sorted@, keys@),
        sorted.len() == keys.len(),
{
    let mut sorted: Vec<SeedKey> = Vec::new();
    let mut i: usize = 0;
    proof {
        assert(keys@.subrange(0, 0) =~= sorted@);
    }
    while i < keys.len()
        invariant
            i <= keys.len(),
            sorted.len() == i,
            keys_sorted(sorted@),
            sorted@.to_multiset() == keys@.subrange(0, i as int).to_multiset(),
        decreases keys.len() - i,
    {
        let key = keys[i];
        let mut p: usize = 0;
        while p < sorted.len() && key_less_or_equal(&sorted[p], &key)
            invariant
                p <= sorted.len(),
                forall|k: int| 0 <= k < p ==> key_le(#[trigger] sorted[k], key),
            decreases sorted.len() - p,
        {
            p += 1;
        }
        let ghost before = sorted@;
        sorted.insert(p, key);
        proof {
            let after = sorted@;
            vstd::seq_lib::to_multiset_insert(before, p as int, key);
            let prefix = keys@.subrange(0, i as int);
            assert(keys@.subrange(0, i as int + 1) =~= prefix.push(key));
            prefix.to_multiset_ensures();
            assert forall|a: int, b: int| 0 <= a < b < after.len() implies key_le(
                #[trigger] after[a],
                #[trigger] after[b],
            ) by {
                if b < p {
                    assert(after[a] == before[a] && after[b] == before[b]);
                } else if b == p {
                    assert(after[a] == before[a]);
                } else if a < p {
                    assert(after[a] == before[a] && after[b] == before[b - 1]);
                } else if a == p {
                    assert(after[b] == before[b - 1]);
                    assert(!key_le(before[p as int], key));
                    if b - 1 > p {
                        assert(key_le(before[p as int], before[b - 1]));
                    }
                } else {
                    assert(after[a] == before[a - 1] && after[b] == before[b - 1]);
                }
            }
        }
        i += 1;
    }
    proof {
        assert(keys@.subrange(0, keys.len() as int) =~= keys@);
    }
    sorted
}

fn write_number(hasher: &mut DefaultHasher, v: i32)
    ensures
        final(hasher)@ == old(hasher)@.push(number_bytes(v)),
{
    let unsigned: u32 = if v >= 0 {
        v as u32
    } else {
        (v as i64 + 0x1_0000_0000) as u32
    };
    let bytes = u32_to_le_bytes(unsigned);
    hasher.write(bytes.as_slice());
}

fn write_keys(hasher: &mut DefaultHasher, keys: &Vec<SeedKey>, parts: usize)
    requires
        parts == 4 || parts == 6,
    ensures
        final(hasher)@ == old(hasher)@ + key_writes(keys@, parts as int),
{
    let ghost before = hasher@;
    let mut i: usize = 0;
    proof {
        assert(before + key_writes(keys@.subrange(0, 0), parts as int) =~= before);
    }
    while i < keys.len()
        invariant
            parts == 4 || parts == 6,
            i <= keys.len(),
            hasher@ == before + key_writes(keys@.subrange(0, i as int), parts as int),
        decreases keys.len() - i,
    {
        let key = keys[i];
        let ghost written = hasher@;
        write_number(hasher, key.0);
        write_number(hasher, key.1);
        write_number(hasher, key.2);
        write_number(hasher, key.3);
        if parts == 6 {
            write_number(hasher, key.4);
            write_number(hasher, key.5);
        }
        proof {
            let longer = keys@.subrange(0, i as int + 1);
            assert(longer.drop_last() =~= keys@.subrange(0, i as int));
            assert(longer.last() == key);
            let numbers = seq![
                number_bytes(key.0),
                number_bytes(key.1),
                number_bytes(key.2),
                number_bytes(key.3),
                number_bytes(key.4),
                number_bytes(key.5),
            ];
            assert(hasher@ =~= written + numbers.subrange(0, parts as int));
            assert(hasher@ =~= before + key_writes(longer, parts as int));
        }
        i += 1;
    }
    proof {
        assert(keys@.subrange(0, keys.len() as int) =~= keys@);
    }
}

/// The keys of the edges of a batch, in the order of the batch.
pub fn edge_keys(edges: &Vec<EdgeRequest>) -> (keys: Vec<SeedKey>)
    ensures
        keys@ == edges@.map_values(|e: EdgeRequest| edge_seed_key(e)),
{
    let mut keys: Vec<SeedKey> = Vec::new();
    let mut i: usize = 0;
    while i < edges.len()
        invariant
            i <= edges.len(),
            keys.len() == i,
            forall|k: int| 0 <= k < i ==> #[trigger] keys[k] == edge_seed_key(edges[k]),
        decreases edges.len() - i,
    {
        let edge = edges[i];
        let start = edge.2;
        let end = edge.3;
        keys.push((start.x, start.y, start.direction.code(), end.x, end.y, end.direction.code()));
        i += 1;
    }
    proof {
        assert(keys@ =~= edges@.map_values(|e: EdgeRequest| edge_seed_key(e)));
    }
    keys
}

/// The keys of the nodes, in the order given.
pub fn node_keys(nodes: &Vec<PlacedRectangularNode>) -> (keys: Vec<SeedKey>)
    ensures
        keys@ == nodes@.map_values(|n: PlacedRectangularNode| node_seed_key(n)),
{
    let mut keys: Vec<SeedKey> = Vec::new();
    let mut i: usize = 0;
    while i < nodes.len()
        invariant
            i <= nodes.len(),
            keys.len() == i,
            forall|k: int| 0 <= k < i ==> #[trigger] keys[k] == node_seed_key(nodes[k]),
        decreases nodes.len() - i,
    {
        let node = nodes[i];
        keys.push((node.center.x, node.center.y, node.node.size.width, node.node.size.height, 0, 0));
        i += 1;
    }
    proof {
        assert(keys@ =~= nodes@.map_values(|n: PlacedRectangularNode| node_seed_key(n)));
    }
    keys
}

/// The seed is the hash of the sorted keys of the edges and the nodes.
pub open spec fn is_seed_of(
    seed: u64,
    edges: Seq<EdgeRequest>,
    nodes: Seq<PlacedRectangularNode>,
) -> bool {
    exists|sorted_edges: Seq<SeedKey>, sorted_nodes: Seq<SeedKey>|
        #![trigger seed_writes(sorted_edges, sorted_nodes)]
        is_sorting_of(sorted_edges, edges.map_values(|e: EdgeRequest| edge_seed_key(e)))
            && is_sorting_of(
            sorted_nodes,
            nodes.map_values(|n: PlacedRectangularNode| node_seed_key(n)),
        ) && seed == DefaultHasher::spec_finish(seed_writes(sorted_edges, sorted_nodes))
}

/// The seed of the random generator for a batch of edges and the placed
/// nodes.
pub fn routing_seed(edges: &Vec<EdgeRequest>, nodes: &Vec<PlacedRectangularNode>) -> (seed: u64)
    ensures
        is_seed_of(seed, edges@, nodes@),
{
    let mut hasher = DefaultHasher::new();
    let sorted_edges = sort_keys(&edge_keys(edges));
    let sorted_nodes = sort_keys(&node_keys(nodes));
    let edge_count = u64_to_le_bytes(edges.len() as u64);
    hasher.write(edge_count.as_slice());
    write_keys(&mut hasher, &sorted_edges, 6);
    let node_count = u64_to_le_bytes(nodes.len() as u64);
    hasher.write(node_count.as_slice());
    write_keys(&mut hasher, &sorted_nodes, 4);
    proof {
        assert(hasher@ =~= seed_writes(sorted_edges@, sorted_nodes@));
    }
    hasher.finish()
}

/// Two sortings of the same keys are the same sequence.
pub proof fn lemma_sorting_unique(a: Seq<SeedKey>, b: Seq<SeedKey>)
    requires
        keys_sorted(a),
        keys_sorted(b),
        a.to_multiset() == b.to_multiset(),
    ensures
        a == b,
    decreases a.len(),
{
    a.to_multiset_ensures();
    b.to_multiset_ensures();
    assert(a.len() == b.len());
    if a.len() == 0 {
        assert(a =~= b);
    } else {
        let x = a.last();
        let y = b.last();
        assert(a.contains(x)) by {
            assert(a[a.len() - 1] == x);
        }
        assert(b.contains(y)) by {
            assert(b[b.len() - 1] == y);
        }
        assert(b.to_multiset().count(x) > 0);
        assert(b.contains(x));
        assert(a.to_multiset().count(y) > 0);
        assert(a.contains(y));
        let i = choose|i: int| 0 <= i < b.len() && b[i] == x;
        let j = choose|j: int| 0 <= j < a.len() && a[j] == y;
        if i < b.len() - 1 {
            assert(key_le(b[i], b[b.len() - 1]));
        }
        if j < a.len() - 1 {
            assert(key_le(a[j], a[a.len() - 1]));
        }
        assert(key_le(x, y) && key_le(y, x));
        assert(x == y);
        let a1 = a.drop_last();
        let b1 = b.drop_last();
        assert(a.remove(a.len() - 1) =~= a1);
        assert(b.remove(b.len() - 1) =~= b1);
        assert(a1.to_multiset() =~= a.to_multiset().remove(x));
        assert(b1.to_multiset() =~= b.to_multiset().remove(y));
        assert forall|p: int, q: int| 0 <= p < q < a1.len() implies key_le(
            #[trigger] a1[p],
            #[trigger] a1[q],
        ) by {
            assert(key_le(a[p], a[q]));
        }
        assert forall|p: int, q: int| 0 <= p < q < b1.len() implies key_le(
            #[trigger] b1[p],
            #[trigger] b1[q],
        ) by {
            assert(key_le(b[p], b[q]));
        }
        lemma_sorting_unique(a1, b1);
        assert(a =~= a1.push(x));
        assert(b =~= b1.push(y));
    }
}

/// The seed depends on nothing but the keys of the edges and of the nodes,
/// each with the number of times it occurs: two batches with the same keys
/// in any order have the same seed.
pub proof fn lemma_seed_ignores_order(
    seed: u64,
    other: u64,
    edges: Seq<EdgeRequest>,
    nodes: Seq<PlacedRectangularNode>,
    reordered_edges: Seq<EdgeRequest>,
    reordered_nodes: Seq<PlacedRectangularNode>,
)
    requires
        is_seed_of(seed, edges, nodes),
        is_seed_of(other, reordered_edges, reordered_nodes),
        edges.map_values(|e: EdgeRequest| edge_seed_key(e)).to_multiset()
            == reordered_edges.map_values(|e: EdgeRequest| edge_seed_key(e)).to_multiset(),
        nodes.map_values(|n: PlacedRectangularNode| node_seed_key(n)).to_multiset()
            == reordered_nodes.map_values(
            |n: PlacedRectangularNode| node_seed_key(n),
        ).to_multiset(),
    ensures
        seed == other,
{
    let (se, sn) = choose|sorted_edges: Seq<SeedKey>, sorted_nodes: Seq<SeedKey>|
        #![trigger seed_writes(sorted_edges, sorted_nodes)]
        is_sorting_of(sorted_edges, edges.map_values(|e: EdgeRequest| edge_seed_key(e)))
            && is_sorting_of(
            sorted_nodes,
            nodes.map_values(|n: PlacedRectangularNode| node_seed_key(n)),
        ) && seed == DefaultHasher::spec_finish(seed_writes(sorted_edges, sorted_nodes));
    let (oe, on) = choose|sorted_edges: Seq<SeedKey>, sorted_nodes: Seq<SeedKey>|
        #![trigger seed_writes(sorted_edges, sorted_nodes)]
        is_sorting_of(
            sorted_edges,
            reordered_edges.map_values(|e: EdgeRequest| edge_seed_key(e)),
        ) && is_sorting_of(
            sorted_nodes,
            reordered_nodes.map_values(|n: PlacedRectangularNode| node_seed_key(n)),
        ) && other == DefaultHasher::spec_finish(seed_writes(sorted_edges, sorted_nodes));
    lemma_sorting_unique(se, oe);
    lemma_sorting_unique(sn, on);
}

} // verus!
