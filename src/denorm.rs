use vstd::prelude::*;
use std::collections::HashMap;

verus! {

broadcast use vstd::std_specs::hash::group_hash_axioms;

/// A position in units of 1e-7 degree: longitude, latitude.
pub type Pos = (i32, i32);

/// `id` once for each time `r` appears in `refs`.
pub open spec fn occ_in(refs: Seq<i64>, id: i64, r: i64) -> Seq<i64>
    decreases refs.len(),
{
    if refs.len() == 0 {
        Seq::empty()
    } else if refs.last() == r {
        occ_in(refs.drop_last(), id, r).push(id)
    } else {
        occ_in(refs.drop_last(), id, r)
    }
}

/// The ids of the items of `items` that refer to `r`, once per reference, in
/// order.
pub open spec fn occurrences(items: Seq<(i64, Vec<i64>)>, r: i64) -> Seq<i64>
    decreases items.len(),
{
    if items.len() == 0 {
        Seq::empty()
    } else {
        occurrences(items.drop_last(), r) + occ_in(items.last().1@, items.last().0, r)
    }
}

/// What a table of references holds under `x`: nothing when `x` is absent.
pub open spec fn lookup(m: Map<i64, Vec<i64>>, x: i64) -> Seq<i64> {
    if m.contains_key(x) {
        m[x]@
    } else {
        Seq::empty()
    }
}

/// `new` is `old` with the references of `items` added: under each id, the
/// items that refer to it.
pub open spec fn refs_added(old: Map<i64, Vec<i64>>, new: Map<i64, Vec<i64>>, items: Seq<(i64, Vec<i64>)>) -> bool {
    &&& forall|x: i64| #[trigger] lookup(new, x) == lookup(old, x) + occurrences(items, x)
    &&& forall|x: i64| #[trigger] new.contains_key(x) <==> old.contains_key(x) || occurrences(items, x).len() > 0
}

/// Adds to `table`, under each id that an item of `items` refers to, the
/// item's id, once per reference.
fn add_refs(table: &mut HashMap<i64, Vec<i64>>, items: &Vec<(i64, Vec<i64>)>)
    ensures
        refs_added(old(table)@, final(table)@, items@),
{
    let mut i: usize = 0;
    assert forall|x: i64| #[trigger] lookup(table@, x) == lookup(old(table)@, x) + occurrences(items@.take(0), x) by {
        assert(items@.take(0) =~= Seq::<(i64, Vec<i64>)>::empty());
        assert(lookup(old(table)@, x) + Seq::<i64>::empty() =~= lookup(old(table)@, x));
    }
    while i < items.len()
        invariant
            i <= items@.len(),
            forall|x: i64| #[trigger] lookup(table@, x) == lookup(old(table)@, x) + occurrences(items@.take(i as int), x),
            forall|x: i64| #[trigger] table@.contains_key(x) <==> old(table)@.contains_key(x) || occurrences(items@.take(i as int), x).len() > 0,
        decreases items@.len() - i,
    {
        let id = items[i].0;
        let refs = &items[i].1;
        let ghost before = items@.take(i as int);
        let ghost base = table@;
        let mut j: usize = 0;
        assert forall|x: i64| #[trigger] lookup(table@, x) == lookup(base, x) + occ_in(refs@.take(0), id, x) by {
            assert(refs@.take(0) =~= Seq::<i64>::empty());
            assert(lookup(base, x) + Seq::<i64>::empty() =~= lookup(base, x));
        }
        while j < refs.len()
            invariant
                j <= refs@.len(),
                forall|x: i64| #[trigger] lookup(table@, x) == lookup(base, x) + occ_in(refs@.take(j as int), id, x),
                forall|x: i64| #[trigger] table@.contains_key(x) <==> base.contains_key(x) || occ_in(refs@.take(j as int), id, x).len() > 0,
            decreases refs@.len() - j,
        {
            let r = refs[j];
            let ghost t0 = table@;
            let mut ids = match table.remove(&r) {
                Some(v) => v,
                None => Vec::new(),
            };
            ids.push(id);
            table.insert(r, ids);
            proof {
                assert(refs@.take(j + 1).drop_last() =~= refs@.take(j as int));
                assert(refs@.take(j + 1).last() == r);
                assert forall|x: i64| #[trigger] lookup(table@, x) == lookup(base, x) + occ_in(refs@.take(j + 1), id, x) by {
                    if x == r {
                        assert(lookup(table@, x) == lookup(t0, x).push(id));
                        assert(lookup(base, x) + occ_in(refs@.take(j as int), id, x).push(id) =~= (lookup(base, x) + occ_in(refs@.take(j as int), id, x)).push(id));
                    } else {
                        assert(lookup(table@, x) == lookup(t0, x));
                    }
                }
                assert forall|x: i64| #[trigger] table@.contains_key(x) <==> base.contains_key(x) || occ_in(refs@.take(j + 1), id, x).len() > 0 by {
                    if x != r {
                        assert(table@.contains_key(x) == t0.contains_key(x));
                    }
                }
            }
            j = j + 1;
        }
        proof {
            assert(refs@.take(j as int) =~= refs@);
            assert(items@.take(i + 1).drop_last() =~= before);
            assert(items@.take(i + 1).last() == items@[i as int]);
            assert forall|x: i64| #[trigger] lookup(table@, x) == lookup(old(table)@, x) + occurrences(items@.take(i + 1), x) by {
                assert(lookup(old(table)@, x) + occurrences(before, x) + occ_in(refs@, id, x) =~= lookup(old(table)@, x) + (occurrences(before, x) + occ_in(refs@, id, x)));
            }
            assert forall|x: i64| #[trigger] table@.contains_key(x) <==> old(table)@.contains_key(x) || occurrences(items@.take(i + 1), x).len() > 0 by {
                assert(occurrences(items@.take(i + 1), x) == occurrences(before, x) + occ_in(refs@, id, x));
            }
        }
        i = i + 1;
    }
    assert(items@.take(i as int) =~= items@);
}

/// For ways given as `(way_id, node refs)`: under each node id, the ways that
/// refer to it, once per reference, in order.
pub fn way_ref_table(ways: &Vec<(i64, Vec<i64>)>) -> (r: HashMap<i64, Vec<i64>>)
    ensures
        refs_added(Map::empty(), r@, ways@),
{
    let mut table: HashMap<i64, Vec<i64>> = HashMap::new();
    add_refs(&mut table, ways);
    table
}

/// For relations given as `(relation_id, member ids)`: under each member id,
/// the relations that have it, once per membership, in order.
pub fn relation_ref_table(relations: &Vec<(i64, Vec<i64>)>) -> (r: HashMap<i64, Vec<i64>>)
    ensures
        refs_added(Map::empty(), r@, relations@),
{
    let mut table: HashMap<i64, Vec<i64>> = HashMap::new();
    add_refs(&mut table, relations);
    table
}

/// `m` after reading the nodes of `nodes` in order, keeping under its id the
/// position of each node whose id is in `wanted`.
pub open spec fn absorbed(m: Map<i64, Pos>, wanted: Set<i64>, nodes: Seq<(i64, Pos)>) -> Map<i64, Pos>
    decreases nodes.len(),
{
    if nodes.len() == 0 {
        m
    } else {
        let m1 = absorbed(m, wanted, nodes.drop_last());
        if wanted.contains(nodes.last().0) {
            m1.insert(nodes.last().0, nodes.last().1)
        } else {
            m1
        }
    }
}

/// Reads one chunk of nodes into `deps`: the position of each node that
/// `ref_table` names.
pub fn absorb_nodes(
    deps: &mut HashMap<i64, Pos>,
    ref_table: &HashMap<i64, Vec<i64>>,
    nodes: &Vec<(i64, Pos)>,
)
    ensures
        final(deps)@ == absorbed(old(deps)@, ref_table@.dom(), nodes@),
{
    let mut i: usize = 0;
    while i < nodes.len()
        invariant
            i <= nodes@.len(),
            deps@ == absorbed(old(deps)@, ref_table@.dom(), nodes@.take(i as int)),
        decreases nodes@.len() - i,
    {
        let (id, pos) = nodes[i];
        proof {
            assert(nodes@.take(i + 1).drop_last() =~= nodes@.take(i as int));
        }
        if ref_table.contains_key(&id) {
            deps.insert(id, pos);
        }
        i = i + 1;
    }
    assert(nodes@.take(i as int) =~= nodes@);
}

/// The positions, from the node chunks `chunks` read in order, of the nodes
/// that `ref_table` names.
pub open spec fn absorbed_all(m: Map<i64, Pos>, wanted: Set<i64>, chunks: Seq<Vec<(i64, Pos)>>) -> Map<i64, Pos>
    decreases chunks.len(),
{
    if chunks.len() == 0 {
        m
    } else {
        absorbed(absorbed_all(m, wanted, chunks.drop_last()), wanted, chunks.last()@)
    }
}

/// Collects, from the node chunks in the order they came, the position of
/// every node that a way of `ref_table` refers to.
pub fn denormalize_ways(ref_table: &HashMap<i64, Vec<i64>>, chunks: &Vec<Vec<(i64, Pos)>>) -> (r: HashMap<i64, Pos>)
    ensures
        r@ == absorbed_all(Map::empty(), ref_table@.dom(), chunks@),
{
    let mut deps: HashMap<i64, Pos> = HashMap::new();
    let mut i: usize = 0;
    while i < chunks.len()
        invariant
            i <= chunks@.len(),
            deps@ == absorbed_all(Map::empty(), ref_table@.dom(), chunks@.take(i as int)),
        decreases chunks@.len() - i,
    {
        proof {
            assert(chunks@.take(i + 1).drop_last() =~= chunks@.take(i as int));
        }
        absorb_nodes(&mut deps, ref_table, &chunks[i]);
        i = i + 1;
    }
    assert(chunks@.take(i as int) =~= chunks@);
    deps
}

/// A node read in some chunk, whose id a way refers to, has a position in the
/// result, and it is the position of the last such node read.
pub proof fn lemma_absorbed_has(m: Map<i64, Pos>, wanted: Set<i64>, nodes: Seq<(i64, Pos)>, k: int)
    requires
        0 <= k < nodes.len(),
        wanted.contains(nodes[k].0),
    ensures
        absorbed(m, wanted, nodes).contains_key(nodes[k].0),
    decreases nodes.len(),
{
    if k < nodes.len() - 1 {
        lemma_absorbed_has(m, wanted, nodes.drop_last(), k);
    }
}

/// After all chunks are read, every node that a way refers to and that came
/// in some chunk has a position.
pub proof fn lemma_denormalize_complete(
    m: Map<i64, Pos>,
    wanted: Set<i64>,
    chunks: Seq<Vec<(i64, Pos)>>,
    c: int,
    k: int,
)
    requires
        0 <= c < chunks.len(),
        0 <= k < chunks[c]@.len(),
        wanted.contains(chunks[c]@[k].0),
    ensures
        absorbed_all(m, wanted, chunks).contains_key(chunks[c]@[k].0),
    decreases chunks.len(),
{
    if c == chunks.len() - 1 {
        lemma_absorbed_has(absorbed_all(m, wanted, chunks.drop_last()), wanted, chunks[c]@, k);
    } else {
        lemma_denormalize_complete(m, wanted, chunks.drop_last(), c, k);
        lemma_absorbed_keeps(absorbed_all(m, wanted, chunks.drop_last()), wanted, chunks.last()@, chunks[c]@[k].0);
    }
}

/// After `denormalize_ways` over the table of a batch of ways, every node
/// that one of those ways refers to and that came in some node chunk has a
/// position.
pub proof fn lemma_way_refs_resolved(
    ways: Seq<(i64, Vec<i64>)>,
    table: Map<i64, Vec<i64>>,
    chunks: Seq<Vec<(i64, Pos)>>,
    c: int,
    k: int,
)
    requires
        refs_added(Map::empty(), table, ways),
        0 <= c < chunks.len(),
        0 <= k < chunks[c]@.len(),
        occurrences(ways, chunks[c]@[k].0).len() > 0,
    ensures
        absorbed_all(Map::empty(), table.dom(), chunks).contains_key(chunks[c]@[k].0),
{
    let id = chunks[c]@[k].0;
    assert(table.contains_key(id));
    lemma_denormalize_complete(Map::empty(), table.dom(), chunks, c, k);
}

proof fn lemma_absorbed_keeps(m: Map<i64, Pos>, wanted: Set<i64>, nodes: Seq<(i64, Pos)>, x: i64)
    requires
        m.contains_key(x),
    ensures
        absorbed(m, wanted, nodes).contains_key(x),
    decreases nodes.len(),
{
    if nodes.len() > 0 {
        lemma_absorbed_keeps(m, wanted, nodes.drop_last(), x);
    }
}

/// A copy of a list of ids.
fn copy_ids(v: &Vec<i64>) -> (r: Vec<i64>)
    ensures
        r@ == v@,
{
    let mut out: Vec<i64> = Vec::new();
    let mut i: usize = 0;
    while i < v.len()
        invariant
            i <= v@.len(),
            out@ == v@.take(i as int),
        decreases v@.len() - i,
    {
        out.push(v[i]);
        assert(v@.take(i + 1) =~= v@.take(i as int).push(v@[i as int]));
        i = i + 1;
    }
    assert(v@.take(i as int) =~= v@);
    out
}

/// The refs of each way in a table of ways.
pub open spec fn refs_view(m: Map<i64, Vec<i64>>) -> Map<i64, Seq<i64>> {
    Map::new(|k: i64| m.contains_key(k), |k: i64| m[k]@)
}

/// `m` after reading the ways of `ways` in order, keeping under its id the
/// refs of each way whose id is in `wanted`.
pub open spec fn kept_ways(m: Map<i64, Seq<i64>>, wanted: Set<i64>, ways: Seq<(i64, Vec<i64>)>) -> Map<i64, Seq<i64>>
    decreases ways.len(),
{
    if ways.len() == 0 {
        m
    } else {
        let m1 = kept_ways(m, wanted, ways.drop_last());
        if wanted.contains(ways.last().0) {
            m1.insert(ways.last().0, ways.last().1@)
        } else {
            m1
        }
    }
}

/// Reads one chunk of ways: adds their node references to `way_refs`, and
/// keeps in `way_deps` the refs of each way that a relation of
/// `relation_ref_table` has as a member.
pub fn absorb_ways(
    way_refs: &mut HashMap<i64, Vec<i64>>,
    way_deps: &mut HashMap<i64, Vec<i64>>,
    relation_ref_table: &HashMap<i64, Vec<i64>>,
    ways: &Vec<(i64, Vec<i64>)>,
)
    ensures
        refs_added(old(way_refs)@, final(way_refs)@, ways@),
        refs_view(final(way_deps)@) == kept_ways(refs_view(old(way_deps)@), relation_ref_table@.dom(), ways@),
{
    add_refs(way_refs, ways);
    let mut i: usize = 0;
    while i < ways.len()
        invariant
            i <= ways@.len(),
            refs_view(way_deps@) == kept_ways(refs_view(old(way_deps)@), relation_ref_table@.dom(), ways@.take(i as int)),
        decreases ways@.len() - i,
    {
        let id = ways[i].0;
        proof {
            assert(ways@.take(i + 1).drop_last() =~= ways@.take(i as int));
        }
        if relation_ref_table.contains_key(&id) {
            let refs = copy_ids(&ways[i].1);
            let ghost before = way_deps@;
            way_deps.insert(id, refs);
            proof {
                assert(refs_view(way_deps@) =~= refs_view(before).insert(id, ways@[i as int].1@));
            }
        }
        i = i + 1;
    }
    assert(ways@.take(i as int) =~= ways@);
}

/// The items of all chunks, one chunk after the other.
pub open spec fn flat(chunks: Seq<Vec<(i64, Vec<i64>)>>) -> Seq<(i64, Vec<i64>)>
    decreases chunks.len(),
{
    if chunks.len() == 0 {
        Seq::empty()
    } else {
        flat(chunks.drop_last()) + chunks.last()@
    }
}

proof fn lemma_occurrences_concat(a: Seq<(i64, Vec<i64>)>, b: Seq<(i64, Vec<i64>)>, x: i64)
    ensures
        occurrences(a + b, x) == occurrences(a, x) + occurrences(b, x),
    decreases b.len(),
{
    if b.len() == 0 {
        assert(a + b =~= a);
        assert(occurrences(a, x) + Seq::<i64>::empty() =~= occurrences(a, x));
    } else {
        assert((a + b).drop_last() =~= a + b.drop_last());
        lemma_occurrences_concat(a, b.drop_last(), x);
        let l = b.last();
        assert(occurrences(a, x) + occurrences(b.drop_last(), x) + occ_in(l.1@, l.0, x) =~= occurrences(a, x)
            + (occurrences(b.drop_last(), x) + occ_in(l.1@, l.0, x)));
    }
}

proof fn lemma_refs_added_concat(
    mid: Map<i64, Vec<i64>>,
    new: Map<i64, Vec<i64>>,
    a: Seq<(i64, Vec<i64>)>,
    b: Seq<(i64, Vec<i64>)>,
)
    requires
        refs_added(Map::empty(), mid, a),
        refs_added(mid, new, b),
    ensures
        refs_added(Map::empty(), new, a + b),
{
    assert forall|x: i64| #[trigger] lookup(new, x) == lookup(Map::empty(), x) + occurrences(a + b, x) by {
        lemma_occurrences_concat(a, b, x);
        assert(lookup(mid, x) == lookup(Map::<i64, Vec<i64>>::empty(), x) + occurrences(a, x));
        assert(Seq::<i64>::empty() + occurrences(a, x) =~= occurrences(a, x));
        assert(Seq::<i64>::empty() + occurrences(a + b, x) =~= occurrences(a + b, x));
    }
    assert forall|x: i64| #[trigger] new.contains_key(x) <==> Map::<i64, Vec<i64>>::empty().contains_key(x) || occurrences(a + b, x).len() > 0 by {
        lemma_occurrences_concat(a, b, x);
        assert(mid.contains_key(x) <==> occurrences(a, x).len() > 0);
    }
}

/// The ids that some item of `items` refers to.
pub open spec fn referenced(items: Seq<(i64, Vec<i64>)>) -> Set<i64> {
    Set::new(|x: i64| occurrences(items, x).len() > 0)
}

/// The kept ways over all way chunks.
pub open spec fn kept_all(m: Map<i64, Seq<i64>>, wanted: Set<i64>, chunks: Seq<Vec<(i64, Vec<i64>)>>) -> Map<i64, Seq<i64>>
    decreases chunks.len(),
{
    if chunks.len() == 0 {
        m
    } else {
        kept_ways(kept_all(m, wanted, chunks.drop_last()), wanted, chunks.last()@)
    }
}

/// Resolves the members of a batch of relations: reads the way chunks, keeping
/// the refs of each way that a relation of `relation_ref_table` has as a
/// member, then reads the node chunks, keeping the position of each node that
/// one of the ways read refers to. Gives the node positions and the kept ways.
pub fn denormalize_relations(
    relation_ref_table: &HashMap<i64, Vec<i64>>,
    way_chunks: &Vec<Vec<(i64, Vec<i64>)>>,
    node_chunks: &Vec<Vec<(i64, Pos)>>,
) -> (r: (HashMap<i64, Pos>, HashMap<i64, Vec<i64>>))
    ensures
        refs_view(r.1@) == kept_all(Map::empty(), relation_ref_table@.dom(), way_chunks@),
        r.0@ == absorbed_all(Map::empty(), referenced(flat(way_chunks@)), node_chunks@),
{
    let mut way_refs: HashMap<i64, Vec<i64>> = HashMap::new();
    let mut way_deps: HashMap<i64, Vec<i64>> = HashMap::new();
    assert(refs_view(way_deps@) =~= Map::<i64, Seq<i64>>::empty());
    let mut i: usize = 0;
    proof {
        assert(way_chunks@.take(0) =~= Seq::<Vec<(i64, Vec<i64>)>>::empty());
        assert forall|x: i64| #[trigger] lookup(way_refs@, x) == lookup(Map::empty(), x) + occurrences(flat(way_chunks@.take(0)), x) by {
            assert(Seq::<i64>::empty() + Seq::<i64>::empty() =~= Seq::<i64>::empty());
        }
    }
    while i < way_chunks.len()
        invariant
            i <= way_chunks@.len(),
            refs_added(Map::empty(), way_refs@, flat(way_chunks@.take(i as int))),
            refs_view(way_deps@) == kept_all(Map::empty(), relation_ref_table@.dom(), way_chunks@.take(i as int)),
        decreases way_chunks@.len() - i,
    {
        let ghost mid = way_refs@;
        proof {
            assert(way_chunks@.take(i + 1).drop_last() =~= way_chunks@.take(i as int));
        }
        absorb_ways(&mut way_refs, &mut way_deps, relation_ref_table, &way_chunks[i]);
        proof {
            lemma_refs_added_concat(mid, way_refs@, flat(way_chunks@.take(i as int)), way_chunks@[i as int]@);
        }
        i = i + 1;
    }
    assert(way_chunks@.take(i as int) =~= way_chunks@);
    assert(way_refs@.dom() =~= referenced(flat(way_chunks@)));
    let node_deps = denormalize_ways(&way_refs, node_chunks);
    (node_deps, way_deps)
}

} // verus!
