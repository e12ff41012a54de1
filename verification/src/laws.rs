//! Laws that relate several operations: once a mapping has materialized a
//! path, later non-destructive operations keep it resolved, every
//! intermediate component of a resolved path is a directory, and all paths
//! that reach one host path share one node and hence one inode.

use vstd::prelude::*;

use crate::dir::resolve;
use crate::tree::{
    child_lookup, edges_preserved, extends, lemma_child_lookup_is_entry, node_extends, Fs,
};

verus! {

/// A path once resolved stays resolved, with the same target node, under
/// any evolution that preserves directory entries — in particular under any
/// later `map`, `lookup` or `getattr` call, so every mapping established by
/// a sequence of non-conflicting `map` calls persists through the sequence.
pub proof fn lemma_resolve_stable(a: Fs, b: Fs, n: int, comps: Seq<Seq<char>>, t: int)
    requires
        a.wf(),
        a.valid(n),
        extends(a, b),
        edges_preserved(a, b),
        resolve(a, n, comps) == Some(t),
    ensures
        resolve(b, n, comps) == Some(t),
    decreases comps.len(),
{
    if comps.len() == 0 {
    } else {
        assert(a.is_dir(n));
        let e = a.child_of(n, comps[0])->Some_0;
        assert(child_lookup(a.children_of(n), comps[0]) == Some(e));
        assert(a.wf_node(n));
        lemma_child_lookup_is_entry(a.children_of(n), comps[0], e);
        assert(a.valid(e.node as int));
        assert(child_lookup(b.children_of(n), comps[0]) == Some(e));
        assert(node_extends(a.nodes@[n], b.nodes@[n]));
        assert(b.is_dir(n));
        lemma_resolve_stable(a, b, e.node as int, comps.drop_first(), t);
    }
}

/// Every proper prefix of a resolved path leads to a directory: the
/// intermediate components of an established mapping all materialize as
/// directories.
pub proof fn lemma_resolve_prefix(fs: Fs, n: int, comps: Seq<Seq<char>>, j: int)
    requires
        resolve(fs, n, comps) is Some,
        0 <= j <= comps.len(),
    ensures
        resolve(fs, n, comps.take(j)) is Some,
        j < comps.len() ==> (resolve(fs, n, comps.take(j)) matches Some(d) && fs.is_dir(d)),
    decreases j,
{
    if j == 0 {
        assert(comps.take(0) =~= Seq::<Seq<char>>::empty());
        if 0 < comps.len() {
            assert(fs.is_dir(n));
        }
    } else {
        assert(comps.len() > 0);
        assert(fs.is_dir(n));
        let e = fs.child_of(n, comps[0])->Some_0;
        assert(fs.child_of(n, comps[0]) == Some(e));
        lemma_resolve_prefix(fs, e.node as int, comps.drop_first(), j - 1);
        assert(comps.take(j)[0] == comps[0]);
        assert(comps.take(j).drop_first() =~= comps.drop_first().take(j - 1));
    }
}

/// The deduplication property: whatever node the cache held for a host path
/// before an evolution, the cache still holds after it — so two mapping or
/// resolution calls whose host paths coincide yield the same node, with the
/// same inode.
pub proof fn lemma_same_host_path_same_node(
    a: Fs,
    b: Fs,
    p: Seq<Seq<char>>,
    c1: usize,
    c2: usize,
)
    requires
        a.valid(c1 as int),
        extends(a, b),
        a.cache_get(p) == Some(c1),
        b.cache_get(p) == Some(c2),
    ensures
        c1 == c2,
        b.inode_of(c1 as int) == a.inode_of(c1 as int),
{
    assert(b.cache_get(p) == a.cache_get(p));
    assert(node_extends(a.nodes@[c1 as int], b.nodes@[c1 as int]));
}

} // verus!
