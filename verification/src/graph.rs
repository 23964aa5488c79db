use vstd::prelude::*;

use crate::models::InfoView;
use crate::refs::dep_key;
use crate::registry::distinct_keys;
use crate::registry::entry_of;
use crate::registry::has_key;

verus! {

/// One dependency step: some dependency reference of the entry keyed `a`
/// points at key `b`.
pub open spec fn edge(reg: Seq<InfoView>, a: Seq<char>, b: Seq<char>) -> bool {
    has_key(reg, a) && exists|j: int|
        0 <= j < entry_of(reg, a).dep_refs().len() && dep_key(
            #[trigger] entry_of(reg, a).dep_refs()[j],
        ) == Some(b)
}

/// A non-empty chain of keys whose consecutive keys are dependency steps.
pub open spec fn is_path(reg: Seq<InfoView>, p: Seq<Seq<char>>) -> bool {
    p.len() > 0 && forall|i: int| 0 < i < p.len() ==> edge(reg, p[i - 1], #[trigger] p[i])
}

/// `k` can be reached from `root` by following dependency references.
pub open spec fn reachable(reg: Seq<InfoView>, root: Seq<char>, k: Seq<char>) -> bool {
    exists|p: Seq<Seq<char>>| is_path(reg, p) && p.first() == root && p.last() == k
}

/// A dependency cycle lies among the keys reachable from `root`.
pub open spec fn has_cycle_from(reg: Seq<InfoView>, root: Seq<char>) -> bool {
    exists|p: Seq<Seq<char>>|
        is_path(reg, p) && p.len() >= 2 && p.first() == p.last() && reachable(reg, root, p.first())
}

/// Every key reachable from `root` has an entry, and every dependency
/// reference of a reachable entry parses into segments.
pub open spec fn well_referenced(reg: Seq<InfoView>, root: Seq<char>) -> bool {
    &&& forall|k: Seq<char>| #[trigger] reachable(reg, root, k) ==> has_key(reg, k)
    &&& forall|k: Seq<char>, j: int|
        reachable(reg, root, k) && 0 <= j < entry_of(reg, k).dep_refs().len() ==> dep_key(
            #[trigger] entry_of(reg, k).dep_refs()[j],
        ) is Some
}

/// A dependency graph on which resolution can run to completion from `root`:
/// every reachable key has an entry, every dependency reference of a reachable
/// entry parses, and no cycle is reachable.
pub open spec fn resolvable(reg: Seq<InfoView>, root: Seq<char>) -> bool {
    well_referenced(reg, root) && !has_cycle_from(reg, root)
}

/// Every key reaches itself.
pub proof fn lemma_reachable_self(reg: Seq<InfoView>, root: Seq<char>)
    ensures
        reachable(reg, root, root),
{
    let p: Seq<Seq<char>> = seq![root];
    assert(is_path(reg, p));
    assert(p.first() == root && p.last() == root);
}

/// Reachability extends along one dependency step.
pub proof fn lemma_reachable_step(reg: Seq<InfoView>, root: Seq<char>, a: Seq<char>, b: Seq<char>)
    requires
        reachable(reg, root, a),
        edge(reg, a, b),
    ensures
        reachable(reg, root, b),
{
    let p = choose|p: Seq<Seq<char>>| is_path(reg, p) && p.first() == root && p.last() == a;
    let q = p.push(b);
    assert(is_path(reg, q)) by {
        assert(forall|i: int| 0 < i < p.len() ==> edge(reg, q[i - 1], #[trigger] q[i]));
        assert(q[p.len() as int - 1] == a && q[p.len() as int] == b);
    }
    assert(q.first() == root && q.last() == b);
}

/// Every key along a path whose head is reachable is reachable too.
pub proof fn lemma_path_reachable(
    reg: Seq<InfoView>,
    root: Seq<char>,
    p: Seq<Seq<char>>,
    t: int,
)
    requires
        is_path(reg, p),
        reachable(reg, root, p.first()),
        0 <= t < p.len(),
    ensures
        reachable(reg, root, p[t]),
    decreases t,
{
    if t > 0 {
        lemma_path_reachable(reg, root, p, t - 1);
        lemma_reachable_step(reg, root, p[t - 1], p[t]);
    }
}

/// A set of entries that holds `root`, matches the registry, and holds every
/// parsed dependency key of its own members holds every key reachable from
/// `root`.
pub proof fn lemma_reachable_closed(reg: Seq<InfoView>, out: Seq<InfoView>, root: Seq<char>)
    requires
        has_key(out, root),
        forall|i: int|
            0 <= i < out.len() ==> has_key(reg, (#[trigger] out[i]).key()) && out[i] == entry_of(
                reg,
                out[i].key(),
            ),
        forall|i: int, j: int|
            0 <= i < out.len() && 0 <= j < out[i].dep_refs().len() ==> (dep_key(
                #[trigger] out[i].dep_refs()[j],
            ) matches Some(k) && has_key(out, k)),
    ensures
        forall|k: Seq<char>| #[trigger] reachable(reg, root, k) ==> has_key(out, k),
{
    assert forall|k: Seq<char>| #[trigger] reachable(reg, root, k) implies has_key(out, k) by {
        let p = choose|p: Seq<Seq<char>>| is_path(reg, p) && p.first() == root && p.last() == k;
        lemma_closed_path(reg, out, p);
    }
}

proof fn lemma_closed_path(reg: Seq<InfoView>, out: Seq<InfoView>, p: Seq<Seq<char>>)
    requires
        is_path(reg, p),
        has_key(out, p.first()),
        forall|i: int|
            0 <= i < out.len() ==> has_key(reg, (#[trigger] out[i]).key()) && out[i] == entry_of(
                reg,
                out[i].key(),
            ),
        forall|i: int, j: int|
            0 <= i < out.len() && 0 <= j < out[i].dep_refs().len() ==> (dep_key(
                #[trigger] out[i].dep_refs()[j],
            ) matches Some(k) && has_key(out, k)),
    ensures
        has_key(out, p.last()),
    decreases p.len(),
{
    if p.len() > 1 {
        let q = p.drop_last();
        assert(is_path(reg, q)) by {
            assert(forall|i: int| 0 < i < q.len() ==> edge(reg, q[i - 1], #[trigger] q[i]));
        }
        lemma_closed_path(reg, out, q);
        let a = q.last();
        assert(edge(reg, a, p.last()));
        let i = choose|i: int| 0 <= i < out.len() && out[i].key() == a;
        assert(out[i] == entry_of(reg, a));
        let j = choose|j: int|
            0 <= j < entry_of(reg, a).dep_refs().len() && dep_key(
                entry_of(reg, a).dep_refs()[j],
            ) == Some(p.last());
        assert(dep_key(out[i].dep_refs()[j]) == Some(p.last()));
    }
}

/// The position of the entry of `out` keyed `k`.
pub open spec fn index_of_key(out: Seq<InfoView>, k: Seq<char>) -> int {
    choose|i: int| 0 <= i < out.len() && out[i].key() == k
}

/// In a topologically ordered set of entries (every parsed dependency key of
/// a member sits strictly earlier), following a path only moves backwards.
proof fn lemma_topo_path(reg: Seq<InfoView>, out: Seq<InfoView>, p: Seq<Seq<char>>)
    requires
        is_path(reg, p),
        distinct_keys(out),
        forall|t: int| 0 <= t < p.len() ==> has_key(out, #[trigger] p[t]),
        forall|i: int|
            0 <= i < out.len() ==> has_key(reg, (#[trigger] out[i]).key()) && out[i] == entry_of(
                reg,
                out[i].key(),
            ),
        forall|i: int, j: int|
            0 <= i < out.len() && 0 <= j < out[i].dep_refs().len() ==> (dep_key(
                #[trigger] out[i].dep_refs()[j],
            ) matches Some(k) && has_key(out, k) && index_of_key(out, k) < i),
    ensures
        index_of_key(out, p.last()) <= index_of_key(out, p.first()) - (p.len() - 1),
    decreases p.len(),
{
    if p.len() > 1 {
        let q = p.drop_last();
        assert(is_path(reg, q)) by {
            assert(forall|i: int| 0 < i < q.len() ==> edge(reg, q[i - 1], #[trigger] q[i]));
        }
        lemma_topo_path(reg, out, q);
        let a = q.last();
        let b = p.last();
        assert(edge(reg, a, b));
        let ia = index_of_key(out, a);
        assert(0 <= ia < out.len() && out[ia].key() == a);
        assert(out[ia] == entry_of(reg, a));
        let j = choose|j: int|
            0 <= j < entry_of(reg, a).dep_refs().len() && dep_key(
                entry_of(reg, a).dep_refs()[j],
            ) == Some(b);
        assert(dep_key(out[ia].dep_refs()[j]) == Some(b));
        assert(index_of_key(out, b) < ia);
    }
}

/// A topologically ordered set of entries that matches the registry shows the
/// reachable part of the graph acyclic.
pub proof fn lemma_topo_no_cycle(reg: Seq<InfoView>, out: Seq<InfoView>, root: Seq<char>)
    requires
        distinct_keys(out),
        forall|k: Seq<char>| #[trigger] reachable(reg, root, k) ==> has_key(out, k),
        forall|i: int|
            0 <= i < out.len() ==> has_key(reg, (#[trigger] out[i]).key()) && out[i] == entry_of(
                reg,
                out[i].key(),
            ),
        forall|i: int, j: int|
            0 <= i < out.len() && 0 <= j < out[i].dep_refs().len() ==> (dep_key(
                #[trigger] out[i].dep_refs()[j],
            ) matches Some(k) && has_key(out, k) && index_of_key(out, k) < i),
    ensures
        !has_cycle_from(reg, root),
{
    if has_cycle_from(reg, root) {
        let p = choose|p: Seq<Seq<char>>|
            is_path(reg, p) && p.len() >= 2 && p.first() == p.last() && reachable(
                reg,
                root,
                p.first(),
            );
        assert forall|t: int| 0 <= t < p.len() implies has_key(out, #[trigger] p[t]) by {
            lemma_path_reachable(reg, root, p, t);
        }
        lemma_topo_path(reg, out, p);
    }
}

/// From a root entry without dependency references nothing but the root
/// itself is reachable, and resolution can run to completion.
pub proof fn lemma_no_deps(reg: Seq<InfoView>, root: Seq<char>)
    requires
        has_key(reg, root),
        entry_of(reg, root).dep_refs().len() == 0,
    ensures
        forall|k: Seq<char>| #[trigger] reachable(reg, root, k) <==> k == root,
        resolvable(reg, root),
{
    lemma_reachable_self(reg, root);
    assert forall|k: Seq<char>| #[trigger] reachable(reg, root, k) implies k == root by {
        let p = choose|p: Seq<Seq<char>>| is_path(reg, p) && p.first() == root && p.last() == k;
        lemma_no_deps_path(reg, root, p, p.len() - 1);
    }
    assert(!has_cycle_from(reg, root)) by {
        if has_cycle_from(reg, root) {
            let p = choose|p: Seq<Seq<char>>|
                is_path(reg, p) && p.len() >= 2 && p.first() == p.last() && reachable(
                    reg,
                    root,
                    p.first(),
                );
            lemma_no_deps_path(reg, root, p, 0);
            assert(edge(reg, p[0], p[1]));
        }
    }
}

proof fn lemma_no_deps_path(reg: Seq<InfoView>, root: Seq<char>, p: Seq<Seq<char>>, t: int)
    requires
        has_key(reg, root),
        entry_of(reg, root).dep_refs().len() == 0,
        is_path(reg, p),
        p.first() == root,
        0 <= t < p.len(),
    ensures
        p[t] == root,
    decreases t,
{
    if t > 0 {
        lemma_no_deps_path(reg, root, p, t - 1);
        assert(edge(reg, p[t - 1], p[t]));
    }
}

} // verus!
