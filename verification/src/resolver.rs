use vstd::prelude::*;

use crate::graph::edge;
use crate::graph::has_cycle_from;
use crate::graph::is_path;
use crate::graph::lemma_no_deps;
use crate::graph::lemma_reachable_closed;
use crate::graph::lemma_reachable_self;
use crate::graph::lemma_reachable_step;
use crate::graph::lemma_topo_no_cycle;
use crate::graph::index_of_key;
use crate::graph::reachable;
use crate::graph::resolvable;
use crate::graph::well_referenced;
use crate::models::info_views;
use crate::models::str_views;
use crate::models::InfoView;
use crate::models::PackageInfo;
use crate::refs::dep_key;
use crate::refs::dependency_key;
use crate::refs::lemma_parse_ref_author;
use crate::refs::parse_dependency_ref;
use crate::refs::parse_ref;
use crate::registry::distinct_keys;
use crate::registry::entry_of;
use crate::registry::has_key;
use crate::registry::lemma_entry_of;
use crate::registry::lemma_lookup_key;
use crate::registry::wf_entry;
use crate::registry::Registry;

verus! {

/// Why dependency resolution stopped.
#[derive(Debug)]
pub enum ResolveError {
    /// A dependency reference without any '-' has no author and name segments.
    MalformedReference(String),
    /// The registry has no entry for this author and package name.
    NotFound(String, String),
    /// This full name was reached again while it was still being visited: the
    /// dependency graph holds a cycle through it.
    DependencyCycle(String),
}

/// Work left to do: visit one dependency reference, or finish a package once
/// all its dependencies are done.
enum WorkItem {
    Visit(String),
    Finish(PackageInfo),
}

/// The keys of the finish items of a work stack, bottom to top.
spec fn finish_keys(s: Seq<WorkItem>) -> Seq<Seq<char>>
    decreases s.len(),
{
    if s.len() == 0 {
        Seq::empty()
    } else {
        match s.last() {
            WorkItem::Finish(p) => finish_keys(s.drop_last()).push(p@.key()),
            WorkItem::Visit(_) => finish_keys(s.drop_last()),
        }
    }
}

/// The key of the nearest finish item strictly below position `i`.
spec fn parent_key(s: Seq<WorkItem>, i: int) -> Option<Seq<char>>
    decreases i,
{
    if i <= 0 {
        None
    } else {
        match s[i - 1] {
            WorkItem::Finish(p) => Some(p@.key()),
            WorkItem::Visit(_) => parent_key(s, i - 1),
        }
    }
}

/// `parent_key` only reads the items below `i`.
proof fn lemma_parent_prefix(s1: Seq<WorkItem>, s2: Seq<WorkItem>, i: int)
    requires
        i <= s1.len(),
        i <= s2.len(),
        forall|j: int| 0 <= j < i ==> s1[j] == s2[j],
    ensures
        parent_key(s1, i) == parent_key(s2, i),
    decreases i,
{
    if i > 0 {
        lemma_parent_prefix(s1, s2, i - 1);
    }
}

/// The parent of position `i` is the last finish key below `i`.
proof fn lemma_parent_finish(s: Seq<WorkItem>, i: int)
    requires
        0 <= i <= s.len(),
    ensures
        match parent_key(s, i) {
            Some(pk) => finish_keys(s.subrange(0, i)).len() > 0 && finish_keys(
                s.subrange(0, i),
            ).last() == pk,
            None => finish_keys(s.subrange(0, i)).len() == 0,
        },
    decreases i,
{
    if i > 0 {
        let s0 = s.subrange(0, i);
        assert(s0.last() == s[i - 1]);
        assert(s0.drop_last() =~= s.subrange(0, i - 1));
        lemma_parent_finish(s, i - 1);
    }
}

/// The parent of every position in a block of visit items right above a
/// finish item is that finish item's key.
proof fn lemma_parent_block(s: Seq<WorkItem>, f: int, i: int)
    requires
        0 <= f < i <= s.len(),
        s[f] is Finish,
        forall|m: int| f < m < i ==> (#[trigger] s[m]) is Visit,
    ensures
        parent_key(s, i) == Some(s[f]->Finish_0@.key()),
    decreases i,
{
    if i - 1 > f {
        lemma_parent_block(s, f, i - 1);
    }
}

/// True when some entry of `v` has full name `key`.
fn vec_has_key(v: &Vec<PackageInfo>, key: &String) -> (r: bool)
    ensures
        r == has_key(info_views(v@), key@),
{
    let mut i: usize = 0;
    while i < v.len()
        invariant
            i <= v@.len(),
            info_views(v@).len() == v@.len(),
            forall|j: int| 0 <= j < i ==> info_views(v@)[j].key() != key@,
        decreases v@.len() - i,
    {
        if v[i].full_name.eq(key) {
            assert(info_views(v@)[i as int].key() == key@);
            return true;
        }
        i = i + 1;
    }
    false
}

/// The position of `key` among the currently visited full names, if any.
fn vis_position(v: &Vec<String>, key: &String) -> (r: Option<usize>)
    ensures
        match r {
            Some(t) => t < v@.len() && str_views(v@)[t as int] == key@,
            None => forall|m: int| 0 <= m < v@.len() ==> str_views(v@)[m] != key@,
        },
{
    let mut i: usize = 0;
    while i < v.len()
        invariant
            i <= v@.len(),
            str_views(v@).len() == v@.len(),
            forall|m: int| 0 <= m < i ==> str_views(v@)[m] != key@,
        decreases v@.len() - i,
    {
        if v[i].eq(key) {
            assert(str_views(v@)[i as int] == key@);
            return Some(i);
        }
        i = i + 1;
    }
    None
}

/// A duplicate-free sequence drawn from a duplicate-free pool is no longer
/// than the pool.
proof fn lemma_distinct_bound(s: Seq<Seq<char>>, t: Seq<Seq<char>>)
    requires
        s.no_duplicates(),
        t.no_duplicates(),
        forall|i: int| 0 <= i < s.len() ==> t.contains(#[trigger] s[i]),
    ensures
        s.len() <= t.len(),
{
    broadcast use vstd::seq_lib::seq_to_set_is_finite;

    s.unique_seq_to_set();
    t.unique_seq_to_set();
    assert(s.to_set().subset_of(t.to_set())) by {
        assert forall|x: Seq<char>| s.to_set().contains(x) implies t.to_set().contains(x) by {
            let i = choose|i: int| 0 <= i < s.len() && s[i] == x;
            assert(t.contains(s[i]));
        }
    }
    vstd::set_lib::lemma_len_subset(s.to_set(), t.to_set());
}

/// The keys of a sequence of entries.
spec fn keys_of(v: Seq<InfoView>) -> Seq<Seq<char>> {
    v.map_values(|e: InfoView| e.key())
}

/// Bounds the visited and resolved keys by the registry's size.
proof fn lemma_state_bound(reg: Seq<InfoView>, vis: Seq<Seq<char>>, outv: Seq<InfoView>)
    requires
        distinct_keys(reg),
        distinct_keys(outv),
        vis.no_duplicates(),
        forall|m: int| 0 <= m < vis.len() ==> !has_key(outv, #[trigger] vis[m]),
        forall|m: int| 0 <= m < vis.len() ==> has_key(reg, #[trigger] vis[m]),
        forall|i: int| 0 <= i < outv.len() ==> has_key(reg, (#[trigger] outv[i]).key()),
    ensures
        vis.len() + outv.len() <= reg.len(),
{
    let okeys = keys_of(outv);
    let rkeys = keys_of(reg);
    assert(okeys.no_duplicates());
    assert(rkeys.no_duplicates());
    assert forall|i: int, j: int|
        0 <= i < vis.len() && 0 <= j < okeys.len() implies vis[i] != okeys[j] by {
        assert(has_key(outv, outv[j].key()));
    }
    vstd::seq_lib::lemma_no_dup_in_concat(vis, okeys);
    let all = vis + okeys;
    assert forall|i: int| 0 <= i < all.len() implies rkeys.contains(#[trigger] all[i]) by {
        if i < vis.len() {
            let m = choose|m: int| 0 <= m < reg.len() && reg[m].key() == vis[i];
            assert(rkeys[m] == all[i]);
        } else {
            let k = outv[i - vis.len()].key();
            assert(all[i] == k);
            let m = choose|m: int| 0 <= m < reg.len() && reg[m].key() == k;
            assert(rkeys[m] == all[i]);
        }
    }
    lemma_distinct_bound(all, rkeys);
}

/// Pushes one visit item per dependency reference, last reference first, so
/// that the first reference is the next item processed.
fn push_dep_visits(stack: &mut Vec<WorkItem>, deps: &Vec<String>)
    ensures
        final(stack)@.len() == old(stack)@.len() + deps@.len(),
        forall|i: int| 0 <= i < old(stack)@.len() ==> final(stack)@[i] == old(stack)@[i],
        forall|m: int|
            0 <= m < deps@.len() ==> (#[trigger] final(stack)@[old(stack)@.len() + m])
                == WorkItem::Visit(deps@[deps@.len() - 1 - m]),
        finish_keys(final(stack)@) == finish_keys(old(stack)@),
{
    let ghost base = stack@;
    let mut dj = deps.len();
    while dj > 0
        invariant
            dj <= deps@.len(),
            stack@.len() == base.len() + (deps@.len() - dj),
            forall|i: int| 0 <= i < base.len() ==> stack@[i] == base[i],
            forall|m: int|
                0 <= m < deps@.len() - dj ==> (#[trigger] stack@[base.len() + m])
                    == WorkItem::Visit(deps@[deps@.len() - 1 - m]),
            finish_keys(stack@) == finish_keys(base),
        decreases dj,
    {
        dj = dj - 1;
        let ghost pre = stack@;
        stack.push(WorkItem::Visit(deps[dj].clone()));
        proof {
            assert(stack@.drop_last() =~= pre);
        }
    }
}

/// One dependency of a finish frame is done or still queued above the frame:
/// its reference parses to a key that is resolved or will be finished above,
/// or a visit item for it still sits above the frame.
spec fn dep_done(
    reg: Seq<InfoView>,
    stk: Seq<WorkItem>,
    outv: Seq<InfoView>,
    i: int,
    dj: int,
) -> bool {
    let rf = stk[i]->Finish_0@.dep_refs()[dj];
    ||| (dep_key(rf) matches Some(k) && (has_key(outv, k) || exists|m: int|
        i < m < stk.len() && ((#[trigger] stk[m]) matches WorkItem::Finish(q) && q@.key() == k)))
    ||| (exists|m: int|
        i < m < stk.len() && ((#[trigger] stk[m]) matches WorkItem::Visit(r) && r@ == rf))
}

/// A visit item's reference is a dependency of the nearest finish below it.
spec fn visit_ok(reg: Seq<InfoView>, stk: Seq<WorkItem>, i: int) -> bool {
    stk[i] is Visit ==> {
        let rf = stk[i]->Visit_0;
        let pko = parent_key(stk, i);
        &&& pko is Some
        &&& has_key(reg, pko->Some_0)
        &&& exists|j: int|
            0 <= j < entry_of(reg, pko->Some_0).dep_refs().len() && (#[trigger] entry_of(
                reg,
                pko->Some_0,
            ).dep_refs()[j]) == rf@
    }
}

/// One dependency of a resolved entry parses and sits strictly earlier in the
/// resolved sequence.
spec fn dep_placed(outv: Seq<InfoView>, i: int, dj: int) -> bool {
    dep_key(outv[i].dep_refs()[dj]) matches Some(k) && has_key(outv, k) && index_of_key(outv, k)
        < i
}

/// Everything resolution maintains: the visited names mirror the finish items
/// of the work stack and form a dependency path from the root; resolved
/// entries and visited names are registry entries, reachable from the root,
/// and mutually distinct; every dependency of a resolved entry is resolved
/// earlier; every dependency of a finish item is resolved or still queued
/// above it.
spec fn inv(
    reg: Seq<InfoView>,
    rootk: Seq<char>,
    stk: Seq<WorkItem>,
    vis: Seq<Seq<char>>,
    outv: Seq<InfoView>,
) -> bool {
    &&& vis == finish_keys(stk)
    &&& vis.no_duplicates()
    &&& distinct_keys(outv)
    &&& forall|m: int| 0 <= m < vis.len() ==> !has_key(outv, #[trigger] vis[m])
    &&& forall|i: int|
        0 <= i < outv.len() ==> has_key(reg, (#[trigger] outv[i]).key()) && outv[i] == entry_of(
            reg,
            outv[i].key(),
        )
    &&& forall|i: int|
        0 <= i < stk.len() ==> ((#[trigger] stk[i]) matches WorkItem::Finish(p) ==> has_key(
            reg,
            p@.key(),
        ) && p@ == entry_of(reg, p@.key()))
    &&& forall|m: int| 0 <= m < vis.len() ==> has_key(reg, #[trigger] vis[m])
    &&& forall|i: int|
        0 <= i < outv.len() ==> reachable(reg, rootk, (#[trigger] outv[i]).key())
    &&& forall|m: int| 0 <= m < vis.len() ==> reachable(reg, rootk, #[trigger] vis[m])
    &&& (vis.len() > 0 ==> is_path(reg, vis) && vis[0] == rootk)
    &&& (has_key(outv, rootk) || (vis.len() > 0 && vis[0] == rootk))
    &&& forall|i: int| 0 <= i < stk.len() ==> #[trigger] visit_ok(reg, stk, i)
    &&& forall|i: int, dj: int|
        (0 <= i < stk.len() && (stk[i] matches WorkItem::Finish(p) && 0 <= dj
            < p@.dep_refs().len())) ==> #[trigger] dep_done(reg, stk, outv, i, dj)
    &&& forall|i: int, dj: int|
        0 <= i < outv.len() && 0 <= dj < outv[i].dep_refs().len() ==> #[trigger] dep_placed(
            outv,
            i,
            dj,
        )
    &&& vis.len() + outv.len() <= reg.len()
}

/// When the top of the stack is a visit item, the deepest visited name is its
/// parent, and the reference is one of that entry's dependencies.
proof fn lemma_top_visit(
    reg: Seq<InfoView>,
    rootk: Seq<char>,
    stk: Seq<WorkItem>,
    vis: Seq<Seq<char>>,
    outv: Seq<InfoView>,
)
    requires
        inv(reg, rootk, stk, vis, outv),
        stk.len() > 0,
        stk.last() is Visit,
    ensures
        vis.len() > 0,
        has_key(reg, vis.last()),
        reachable(reg, rootk, vis.last()),
        exists|j: int|
            0 <= j < entry_of(reg, vis.last()).dep_refs().len() && (#[trigger] entry_of(
                reg,
                vis.last(),
            ).dep_refs()[j]) == stk.last()->Visit_0@,
        finish_keys(stk.drop_last()) == finish_keys(stk),
{
    let li = stk.len() - 1;
    assert(visit_ok(reg, stk, li));
    let s_new = stk.drop_last();
    assert(finish_keys(stk) == finish_keys(s_new));
    lemma_parent_prefix(stk, s_new, li);
    lemma_parent_finish(s_new, li);
    assert(s_new.subrange(0, li) =~= s_new);
    assert(vis.last() == parent_key(stk, li)->Some_0);
    assert(reachable(reg, rootk, vis[vis.len() - 1]));
}

/// A dependency step from the deepest visited name back onto the visited path
/// closes a reachable cycle.
proof fn lemma_cycle_found(
    reg: Seq<InfoView>,
    rootk: Seq<char>,
    vis: Seq<Seq<char>>,
    t: int,
    k: Seq<char>,
)
    requires
        is_path(reg, vis),
        0 <= t < vis.len(),
        vis[t] == k,
        edge(reg, vis.last(), k),
        reachable(reg, rootk, k),
    ensures
        has_cycle_from(reg, rootk),
{
    let c = vis.subrange(t, vis.len() as int).push(k);
    assert(c.len() >= 2);
    assert(c.first() == vis[t] && c.last() == k);
    assert(is_path(reg, c)) by {
        assert forall|i: int| 0 < i < c.len() implies edge(reg, c[i - 1], #[trigger] c[i]) by {
            if i < c.len() - 1 {
                assert(c[i] == vis[t + i] && c[i - 1] == vis[t + i - 1]);
            } else {
                assert(c[i - 1] == vis[vis.len() - 1] && c[i] == k);
            }
        }
    }
}

/// Popping a visit item whose key is already resolved keeps the invariant.
#[verifier::rlimit(100)]
proof fn lemma_step_skip(
    reg: Seq<InfoView>,
    rootk: Seq<char>,
    stk: Seq<WorkItem>,
    vis: Seq<Seq<char>>,
    outv: Seq<InfoView>,
    k: Seq<char>,
)
    requires
        inv(reg, rootk, stk, vis, outv),
        stk.len() > 0,
        stk.last() matches WorkItem::Visit(r) && dep_key(r@) == Some(k),
        has_key(outv, k),
    ensures
        inv(reg, rootk, stk.drop_last(), vis, outv),
{
    let s_new = stk.drop_last();
    let li = stk.len() - 1;
    assert(finish_keys(stk) == finish_keys(s_new));
    assert forall|i: int| 0 <= i < s_new.len() implies #[trigger] visit_ok(reg, s_new, i) by {
        assert(visit_ok(reg, stk, i));
        assert(s_new[i] == stk[i]);
        if s_new[i] is Visit {
            lemma_parent_prefix(stk, s_new, i);
        }
    }
    assert forall|i: int, dj: int|
        (0 <= i < s_new.len() && (s_new[i] matches WorkItem::Finish(p) && 0 <= dj
            < p@.dep_refs().len())) implies #[trigger] dep_done(reg, s_new, outv, i, dj) by {
        assert(s_new[i] == stk[i]);
        assert(dep_done(reg, stk, outv, i, dj));
        let rf = s_new[i]->Finish_0@.dep_refs()[dj];
        if exists|m: int|
            i < m < stk.len() && ((#[trigger] stk[m]) matches WorkItem::Visit(r) && r@ == rf) {
            let m = choose|m: int|
                i < m < stk.len() && ((#[trigger] stk[m]) matches WorkItem::Visit(r) && r@ == rf);
            if m < li {
                assert(s_new[m] == stk[m]);
                assert(s_new[m] matches WorkItem::Visit(r) && r@ == rf);
            } else {
                assert(stk[m] == stk.last());
                assert(dep_key(rf) == Some(k));
            }
        } else {
            let dk = dep_key(rf)->Some_0;
            if !has_key(outv, dk) {
                let m = choose|m: int|
                    i < m < stk.len() && ((#[trigger] stk[m]) matches WorkItem::Finish(q)
                        && q@.key() == dk);
                assert(m < li);
                assert(s_new[m] == stk[m]);
                assert(s_new[m] matches WorkItem::Finish(q) && q@.key() == dk);
            }
        }
    }
}

/// Expanding the top visit item into a finish item for its fetched package
/// plus visit items for that package's dependencies keeps the invariant.
#[verifier::rlimit(100)]
proof fn lemma_step_expand(
    reg: Seq<InfoView>,
    rootk: Seq<char>,
    stk: Seq<WorkItem>,
    s_fin: Seq<WorkItem>,
    vis: Seq<Seq<char>>,
    outv: Seq<InfoView>,
    pkgv: InfoView,
    deps: Seq<String>,
)
    requires
        inv(reg, rootk, stk, vis, outv),
        distinct_keys(reg),
        stk.len() > 0,
        stk.last() matches WorkItem::Visit(r) && dep_key(r@) == Some(pkgv.key()),
        s_fin.len() == stk.len() + deps.len(),
        forall|i: int| 0 <= i < stk.len() - 1 ==> s_fin[i] == stk[i],
        s_fin[stk.len() - 1] matches WorkItem::Finish(q) && q@ == pkgv,
        forall|m: int|
            0 <= m < deps.len() ==> ((#[trigger] s_fin[stk.len() + m]) matches WorkItem::Visit(r)
                && r == deps[deps.len() - 1 - m]),
        finish_keys(s_fin) == vis.push(pkgv.key()),
        pkgv.dep_refs() == str_views(deps),
        has_key(reg, pkgv.key()),
        entry_of(reg, pkgv.key()) == pkgv,
        !has_key(outv, pkgv.key()),
        forall|m: int| 0 <= m < vis.len() ==> #[trigger] vis[m] != pkgv.key(),
        reachable(reg, rootk, pkgv.key()),
        vis.len() > 0,
        edge(reg, vis.last(), pkgv.key()),
    ensures
        inv(reg, rootk, s_fin, vis.push(pkgv.key()), outv),
{
    let li = stk.len() - 1;
    let vis2 = vis.push(pkgv.key());
    assert(vis2.no_duplicates()) by {
        assert forall|i: int, j: int| 0 <= i < j < vis2.len() implies vis2[i] != vis2[j] by {
            if j < vis.len() {
                assert(vis[i] != vis[j]);
            } else {
                assert(vis2[j] == pkgv.key() && vis2[i] == vis[i]);
            }
        }
    }
    assert forall|m: int| 0 <= m < vis2.len() implies !has_key(outv, #[trigger] vis2[m]) by {
        if m < vis.len() {
            assert(vis2[m] == vis[m]);
        }
    }
    assert forall|i: int| 0 <= i < s_fin.len() implies ((#[trigger] s_fin[i])
        matches WorkItem::Finish(p) ==> has_key(reg, p@.key()) && p@ == entry_of(
        reg,
        p@.key(),
    )) by {
        if i < li {
            assert(s_fin[i] == stk[i]);
            assert(visit_ok(reg, stk, i));
        } else if i > li {
            let m = i - stk.len();
            assert(s_fin[stk.len() + m] matches WorkItem::Visit(r) && r == deps[deps.len() - 1
                - m]);
        }
    }
    assert forall|m: int| 0 <= m < vis2.len() implies has_key(reg, #[trigger] vis2[m])
        && reachable(reg, rootk, vis2[m]) by {
        if m < vis.len() {
            assert(vis2[m] == vis[m]);
            assert(has_key(reg, vis[m]) && reachable(reg, rootk, vis[m]));
        }
    }
    assert(is_path(reg, vis2)) by {
        assert forall|i: int| 0 < i < vis2.len() implies edge(reg, vis2[i - 1], #[trigger] vis2[i]) by {
            if i < vis.len() {
                assert(vis2[i] == vis[i] && vis2[i - 1] == vis[i - 1]);
            } else {
                assert(vis2[i - 1] == vis.last() && vis2[i] == pkgv.key());
            }
        }
    }
    assert(vis2[0] == vis[0]);
    assert forall|i: int| 0 <= i < s_fin.len() implies #[trigger] visit_ok(reg, s_fin, i) by {
        if i < li {
            assert(s_fin[i] == stk[i]);
            assert(visit_ok(reg, stk, i));
            if s_fin[i] is Visit {
                lemma_parent_prefix(stk, s_fin, i);
            }
        } else if i > li {
            assert forall|m: int| li < m < i implies (#[trigger] s_fin[m]) is Visit by {
                let mm = m - stk.len();
                assert(s_fin[stk.len() + mm] matches WorkItem::Visit(r) && r == deps[deps.len() - 1
                    - mm]);
            }
            lemma_parent_block(s_fin, li, i);
            assert(parent_key(s_fin, i) == Some(pkgv.key()));
            let m = i - li - 1;
            assert(s_fin[stk.len() + m] matches WorkItem::Visit(r) && r == deps[deps.len() - 1
                - m]);
            let j = deps.len() - 1 - m;
            let rf = s_fin[i]->Visit_0;
            assert(rf == deps[j]);
            assert(str_views(deps)[j] == deps[j]@);
            assert(entry_of(reg, pkgv.key()).dep_refs()[j] == rf@);
            let pko = parent_key(s_fin, i);
            assert(pko->Some_0 == pkgv.key());
            assert(exists|jj: int|
                0 <= jj < entry_of(reg, pko->Some_0).dep_refs().len() && (#[trigger] entry_of(
                    reg,
                    pko->Some_0,
                ).dep_refs()[jj]) == rf@) by {
                assert(entry_of(reg, pko->Some_0).dep_refs()[j] == rf@);
            }
            assert(visit_ok(reg, s_fin, i));
        }
    }
    assert forall|i: int, dj: int|
        (0 <= i < s_fin.len() && (s_fin[i] matches WorkItem::Finish(p) && 0 <= dj
            < p@.dep_refs().len())) implies #[trigger] dep_done(reg, s_fin, outv, i, dj) by {
        if i < li {
            assert(s_fin[i] == stk[i]);
            assert(dep_done(reg, stk, outv, i, dj));
            let rf = s_fin[i]->Finish_0@.dep_refs()[dj];
            if exists|m: int|
                i < m < stk.len() && ((#[trigger] stk[m]) matches WorkItem::Visit(r) && r@ == rf) {
                let m = choose|m: int|
                    i < m < stk.len() && ((#[trigger] stk[m]) matches WorkItem::Visit(r) && r@
                        == rf);
                if m < li {
                    assert(s_fin[m] == stk[m]);
                    assert(s_fin[m] matches WorkItem::Visit(r) && r@ == rf);
                } else {
                    assert(stk[m] == stk.last());
                    assert(dep_key(rf) == Some(pkgv.key()));
                    assert(s_fin[li] matches WorkItem::Finish(q) && q@.key() == pkgv.key());
                }
            } else {
                let dk = dep_key(rf)->Some_0;
                if !has_key(outv, dk) {
                    let m = choose|m: int|
                        i < m < stk.len() && ((#[trigger] stk[m]) matches WorkItem::Finish(q)
                            && q@.key() == dk);
                    assert(m < li);
                    assert(s_fin[m] == stk[m]);
                    assert(s_fin[m] matches WorkItem::Finish(q) && q@.key() == dk);
                }
            }
        } else if i == li {
            let rf = s_fin[i]->Finish_0@.dep_refs()[dj];
            let m = deps.len() - 1 - dj;
            assert(s_fin[stk.len() + m] matches WorkItem::Visit(r) && r == deps[dj]);
            assert(rf == str_views(deps)[dj]);
            assert(str_views(deps)[dj] == deps[dj]@);
        } else {
            let m = i - stk.len();
            assert(s_fin[stk.len() + m] matches WorkItem::Visit(r) && r == deps[deps.len() - 1
                - m]);
        }
    }
    assert(vis2.len() + outv.len() <= reg.len()) by {
        assert forall|i: int| 0 <= i < outv.len() implies has_key(
            reg,
            (#[trigger] outv[i]).key(),
        ) by {}
        lemma_state_bound(reg, vis2, outv);
    }
}

/// Popping a finish item moves its package, whose dependencies are all
/// resolved, from the visited path to the end of the resolved sequence, and
/// keeps the invariant.
#[verifier::rlimit(100)]
proof fn lemma_step_finish(
    reg: Seq<InfoView>,
    rootk: Seq<char>,
    stk: Seq<WorkItem>,
    vis: Seq<Seq<char>>,
    outv: Seq<InfoView>,
    pkgv: InfoView,
)
    requires
        inv(reg, rootk, stk, vis, outv),
        stk.len() > 0,
        stk.last() matches WorkItem::Finish(q) && q@ == pkgv,
    ensures
        vis.len() > 0 && vis.last() == pkgv.key(),
        vis.drop_last() == finish_keys(stk.drop_last()),
        inv(reg, rootk, stk.drop_last(), vis.drop_last(), outv.push(pkgv)),
{
    let s_new = stk.drop_last();
    let li = stk.len() - 1;
    assert(finish_keys(stk) == finish_keys(s_new).push(pkgv.key()));
    assert(vis.len() > 0 && vis.last() == pkgv.key());
    let vis2 = vis.drop_last();
    assert(vis2 =~= finish_keys(s_new));
    let out2 = outv.push(pkgv);
    assert(!has_key(outv, pkgv.key())) by {
        assert(!has_key(outv, vis[vis.len() - 1]));
    }
    assert forall|x: Seq<char>| #[trigger] has_key(out2, x) implies (has_key(outv, x) || x
        == pkgv.key()) by {
        let i = choose|i: int| 0 <= i < out2.len() && out2[i].key() == x;
        if i < outv.len() {
            assert(outv[i].key() == x);
        }
    }
    assert(has_key(out2, pkgv.key())) by {
        assert(out2[outv.len() as int].key() == pkgv.key());
    }
    assert forall|x: Seq<char>| has_key(outv, x) implies #[trigger] has_key(out2, x) by {
        let i = choose|i: int| 0 <= i < outv.len() && outv[i].key() == x;
        assert(out2[i].key() == x);
    }
    assert(distinct_keys(out2)) by {
        assert forall|i: int, j: int| 0 <= i < j < out2.len() implies out2[i].key()
            != out2[j].key() by {
            if j < outv.len() {
                assert(outv[i].key() != outv[j].key());
            } else {
                assert(out2[j].key() == pkgv.key() && out2[i] == outv[i]);
                if out2[i].key() == pkgv.key() {
                    assert(has_key(outv, pkgv.key()));
                }
            }
        }
    }
    assert forall|m: int| 0 <= m < vis2.len() implies !has_key(out2, #[trigger] vis2[m]) by {
        assert(vis2[m] == vis[m]);
        assert(!has_key(outv, vis[m]));
        assert(vis[m] != vis.last());
        if has_key(out2, vis2[m]) {
            assert(has_key(outv, vis2[m]) || vis2[m] == pkgv.key());
        }
    }
    assert(has_key(reg, pkgv.key()) && pkgv == entry_of(reg, pkgv.key())) by {
        assert(stk[li] matches WorkItem::Finish(p) ==> has_key(reg, p@.key()) && p@ == entry_of(
            reg,
            p@.key(),
        ));
    }
    assert forall|i: int| 0 <= i < out2.len() implies has_key(reg, (#[trigger] out2[i]).key())
        && out2[i] == entry_of(reg, out2[i].key()) && reachable(reg, rootk, out2[i].key()) by {
        if i < outv.len() {
            assert(out2[i] == outv[i]);
        } else {
            assert(out2[i] == pkgv);
            assert(reachable(reg, rootk, vis[vis.len() - 1]));
        }
    }
    assert(vis2.len() > 0 ==> is_path(reg, vis2) && vis2[0] == rootk) by {
        if vis2.len() > 0 {
            assert forall|i: int| 0 < i < vis2.len() implies edge(
                reg,
                vis2[i - 1],
                #[trigger] vis2[i],
            ) by {
                assert(vis2[i] == vis[i] && vis2[i - 1] == vis[i - 1]);
                assert(edge(reg, vis[i - 1], vis[i]));
            }
            assert(vis2[0] == vis[0]);
        }
    }
    assert(has_key(out2, rootk) || (vis2.len() > 0 && vis2[0] == rootk)) by {
        if vis2.len() == 0 {
            if !has_key(outv, rootk) {
                assert(vis[0] == rootk && vis.len() == 1);
                assert(pkgv.key() == rootk);
            }
        }
    }
    assert forall|i: int| 0 <= i < s_new.len() implies #[trigger] visit_ok(reg, s_new, i) by {
        assert(s_new[i] == stk[i]);
        assert(visit_ok(reg, stk, i));
        if s_new[i] is Visit {
            lemma_parent_prefix(stk, s_new, i);
        }
    }
    assert forall|i: int, dj: int|
        (0 <= i < s_new.len() && (s_new[i] matches WorkItem::Finish(p) && 0 <= dj
            < p@.dep_refs().len())) implies #[trigger] dep_done(reg, s_new, out2, i, dj) by {
        assert(s_new[i] == stk[i]);
        assert(dep_done(reg, stk, outv, i, dj));
        let rf = s_new[i]->Finish_0@.dep_refs()[dj];
        if exists|m: int|
            i < m < stk.len() && ((#[trigger] stk[m]) matches WorkItem::Visit(r) && r@ == rf) {
            let m = choose|m: int|
                i < m < stk.len() && ((#[trigger] stk[m]) matches WorkItem::Visit(r) && r@ == rf);
            assert(m < li);
            assert(s_new[m] == stk[m]);
            assert(s_new[m] matches WorkItem::Visit(r) && r@ == rf);
        } else {
            let dk = dep_key(rf)->Some_0;
            if has_key(outv, dk) {
                assert(has_key(out2, dk));
            } else {
                let m = choose|m: int|
                    i < m < stk.len() && ((#[trigger] stk[m]) matches WorkItem::Finish(q)
                        && q@.key() == dk);
                if m < li {
                    assert(s_new[m] == stk[m]);
                    assert(s_new[m] matches WorkItem::Finish(q) && q@.key() == dk);
                } else {
                    assert(stk[m] == stk.last());
                    assert(dk == pkgv.key());
                    assert(has_key(out2, dk));
                }
            }
        }
    }
    assert forall|i: int, dj: int|
        0 <= i < out2.len() && 0 <= dj < out2[i].dep_refs().len() implies #[trigger] dep_placed(
            out2,
            i,
            dj,
        ) by {
        if i < outv.len() {
            assert(out2[i] == outv[i]);
            assert(dep_placed(outv, i, dj));
            let dk = dep_key(outv[i].dep_refs()[dj])->Some_0;
            let io = index_of_key(outv, dk);
            assert(0 <= io < outv.len() && outv[io].key() == dk) by {
                assert(has_key(outv, dk));
            }
            assert(out2[io].key() == dk);
            assert(has_key(out2, dk));
            let ii = index_of_key(out2, dk);
            assert(0 <= ii < out2.len() && out2[ii].key() == dk);
            assert(ii == io);
        } else {
            assert(out2[i] == pkgv);
            let rf = pkgv.dep_refs()[dj];
            assert(dep_done(reg, stk, outv, li, dj)) by {
                assert(stk[li] matches WorkItem::Finish(p) && 0 <= dj < p@.dep_refs().len());
            }
            assert(dep_key(rf) matches Some(k) && has_key(outv, k)) by {
                if exists|m: int|
                    li < m < stk.len() && ((#[trigger] stk[m]) matches WorkItem::Visit(r) && r@
                        == rf) {
                    let m = choose|m: int|
                        li < m < stk.len() && ((#[trigger] stk[m]) matches WorkItem::Visit(r) && r@
                            == rf);
                    assert(false);
                }
                if dep_key(rf) is Some && !has_key(outv, dep_key(rf)->Some_0) {
                    let m = choose|m: int|
                        li < m < stk.len() && ((#[trigger] stk[m]) matches WorkItem::Finish(q)
                            && q@.key() == dep_key(rf)->Some_0);
                    assert(false);
                }
            }
            let dk = dep_key(rf)->Some_0;
            let io = index_of_key(outv, dk);
            assert(0 <= io < outv.len() && outv[io].key() == dk) by {
                assert(has_key(outv, dk));
            }
            assert(out2[io].key() == dk);
            assert(has_key(out2, dk));
            let ii = index_of_key(out2, dk);
            assert(0 <= ii < out2.len() && out2[ii].key() == dk);
            assert(ii == io);
            assert(dep_placed(out2, i, dj));
        }
    }
    assert(vis2.len() + out2.len() <= reg.len());
}

/// The starting state satisfies the invariant: the root's finish item at the
/// bottom, one visit item per root dependency above it, and the root's full
/// name as the only visited name.
#[verifier::rlimit(100)]
proof fn lemma_init(
    reg: Seq<InfoView>,
    rootk: Seq<char>,
    stk: Seq<WorkItem>,
    vis: Seq<Seq<char>>,
    outv: Seq<InfoView>,
    rootv: InfoView,
    deps: Seq<String>,
)
    requires
        has_key(reg, rootk),
        entry_of(reg, rootk) == rootv,
        rootk == rootv.key(),
        rootv.dep_refs() == str_views(deps),
        outv.len() == 0,
        vis == seq![rootk],
        stk.len() == 1 + deps.len(),
        stk[0] matches WorkItem::Finish(q) && q@ == rootv,
        forall|m: int|
            0 <= m < deps.len() ==> (#[trigger] stk[1 + m]) == WorkItem::Visit(
                deps[deps.len() - 1 - m],
            ),
        vis == finish_keys(stk),
    ensures
        inv(reg, rootk, stk, vis, outv),
{
    lemma_reachable_self(reg, rootk);
    assert(is_path(reg, vis));
    let dn = deps.len() as int;
    assert forall|i: int| 0 <= i < stk.len() implies #[trigger] visit_ok(reg, stk, i) by {
        if i >= 1 {
            assert(stk[1 + (i - 1)] == WorkItem::Visit(deps[dn - 1 - (i - 1)]));
            assert(stk[i] is Visit);
            assert forall|m: int| 0 < m < i implies (#[trigger] stk[m]) is Visit by {
                assert(stk[1 + (m - 1)] == WorkItem::Visit(deps[dn - 1 - (m - 1)]));
            }
            lemma_parent_block(stk, 0, i);
            let pko = parent_key(stk, i);
            assert(pko == Some(rootk));
            let j = dn - 1 - (i - 1);
            let rf = stk[i]->Visit_0;
            assert(rf == deps[j]);
            assert(entry_of(reg, pko->Some_0).dep_refs()[j] == rf@);
            assert(exists|jj: int|
                0 <= jj < entry_of(reg, pko->Some_0).dep_refs().len() && (#[trigger] entry_of(
                    reg,
                    pko->Some_0,
                ).dep_refs()[jj]) == rf@) by {
                assert(entry_of(reg, pko->Some_0).dep_refs()[j] == rf@);
            }
        }
    }
    assert forall|i: int, dj: int|
        (0 <= i < stk.len() && (stk[i] matches WorkItem::Finish(p) && 0 <= dj
            < p@.dep_refs().len())) implies #[trigger] dep_done(reg, stk, outv, i, dj) by {
        if i >= 1 {
            assert(stk[1 + (i - 1)] == WorkItem::Visit(deps[dn - 1 - (i - 1)]));
            assert(stk[i] is Visit);
        } else {
            let m = 1 + (dn - 1 - dj);
            assert(stk[1 + (dn - 1 - dj)] == WorkItem::Visit(deps[dj]));
            let rf = stk[0]->Finish_0@.dep_refs()[dj];
            assert(stk[m] matches WorkItem::Visit(r) && r@ == rf);
        }
    }
    assert forall|i: int| 0 <= i < stk.len() implies ((#[trigger] stk[i])
        matches WorkItem::Finish(p) ==> has_key(reg, p@.key()) && p@ == entry_of(
        reg,
        p@.key(),
    )) by {
        if i >= 1 {
            assert(stk[1 + (i - 1)] == WorkItem::Visit(deps[dn - 1 - (i - 1)]));
        }
    }
    assert(reg.len() >= 1);
}

/// When the work stack has emptied, the resolved entries are exactly the
/// reachable ones, in an order that puts dependencies first, and the graph
/// was resolvable; a root without dependencies resolved to itself alone.
#[verifier::rlimit(100)]
proof fn lemma_exit(
    reg: Seq<InfoView>,
    rootk: Seq<char>,
    stk: Seq<WorkItem>,
    vis: Seq<Seq<char>>,
    outv: Seq<InfoView>,
    rootv: InfoView,
)
    requires
        inv(reg, rootk, stk, vis, outv),
        stk.len() == 0,
        entry_of(reg, rootk) == rootv,
        rootk == rootv.key(),
    ensures
        has_key(outv, rootk),
        resolvable(reg, rootk),
        forall|k: Seq<char>| #[trigger] reachable(reg, rootk, k) ==> has_key(outv, k),
        forall|i: int, dj: int|
            0 <= i < outv.len() && 0 <= dj < outv[i].dep_refs().len() ==> (dep_key(
                #[trigger] outv[i].dep_refs()[dj],
            ) matches Some(k) && has_key(outv, k) && index_of_key(outv, k) < i),
        rootv.dep_refs().len() == 0 ==> outv == seq![rootv],
{
    assert(vis =~= finish_keys(stk));
    assert(vis.len() == 0);
    assert(has_key(outv, rootk));
    assert forall|i: int, dj: int|
        0 <= i < outv.len() && 0 <= dj < outv[i].dep_refs().len() implies (dep_key(
        #[trigger] outv[i].dep_refs()[dj],
    ) matches Some(k) && has_key(outv, k) && index_of_key(outv, k) < i) by {
        assert(dep_placed(outv, i, dj));
    }
    lemma_reachable_closed(reg, outv, rootk);
    lemma_topo_no_cycle(reg, outv, rootk);
    assert(well_referenced(reg, rootk)) by {
        assert forall|k: Seq<char>| #[trigger] reachable(reg, rootk, k) implies has_key(
            reg,
            k,
        ) by {
            let i = choose|i: int| 0 <= i < outv.len() && outv[i].key() == k;
            assert(has_key(reg, outv[i].key()));
        }
        assert forall|k: Seq<char>, j: int|
            reachable(reg, rootk, k) && 0 <= j < entry_of(reg, k).dep_refs().len() implies dep_key(
            #[trigger] entry_of(reg, k).dep_refs()[j],
        ) is Some by {
            let i = choose|i: int| 0 <= i < outv.len() && outv[i].key() == k;
            assert(outv[i] == entry_of(reg, k));
            assert(dep_placed(outv, i, j));
        }
    }
    if rootv.dep_refs().len() == 0 {
        lemma_no_deps(reg, rootk);
        assert(outv.len() <= 1) by {
            if outv.len() > 1 {
                assert(reachable(reg, rootk, outv[0].key()));
                assert(reachable(reg, rootk, outv[1].key()));
                assert(outv[0].key() == rootk && outv[1].key() == rootk);
            }
        }
        let i = choose|i: int| 0 <= i < outv.len() && outv[i].key() == rootk;
        assert(outv[i] == entry_of(reg, rootk));
        assert(outv =~= seq![rootv]);
    }
}

/// Computes the dependency closure of `root` against the registry snapshot:
/// exactly one entry per full name reachable from the root (the root itself
/// included), appended in depth-first post order. Fails on a dependency
/// reference without segments, on a missing entry, and on a dependency
/// cycle; it succeeds exactly on the graphs `resolvable` describes.
#[verifier::loop_isolation(false)]
#[verifier::rlimit(100)]
pub fn resolve(root: &PackageInfo, registry: &Registry) -> (r: Result<
    Vec<PackageInfo>,
    ResolveError,
>)
    requires
        registry.wf(),
        has_key(registry@, root@.key()),
        entry_of(registry@, root@.key()) == root@,
    ensures
        r is Ok <==> resolvable(registry@, root@.key()),
        r matches Ok(out) ==> {
            &&& distinct_keys(info_views(out@))
            &&& forall|i: int|
                0 <= i < out@.len() ==> has_key(registry@, (#[trigger] info_views(out@)[i]).key())
                    && info_views(out@)[i] == entry_of(registry@, info_views(out@)[i].key())
            &&& forall|k: Seq<char>|
                #[trigger] reachable(registry@, root@.key(), k) ==> has_key(info_views(out@), k)
            &&& forall|i: int|
                0 <= i < out@.len() ==> reachable(
                    registry@,
                    root@.key(),
                    (#[trigger] info_views(out@)[i]).key(),
                )
        },
        r matches Err(e) ==> {
            &&& (e matches ResolveError::MalformedReference(s) ==> dep_key(s@) is None)
            &&& (e matches ResolveError::NotFound(a, n) ==> !has_key(
                registry@,
                a@ + seq!['-'] + n@,
            ) && reachable(registry@, root@.key(), a@ + seq!['-'] + n@))
            &&& (e matches ResolveError::DependencyCycle(k) ==> has_cycle_from(
                registry@,
                root@.key(),
            ) && reachable(registry@, root@.key(), k@))
        },
        (well_referenced(registry@, root@.key()) && has_cycle_from(registry@, root@.key())) ==> (
        r matches Err(e) && e is DependencyCycle),
        r matches Ok(out) ==> forall|i: int, dj: int|
            0 <= i < out@.len() && 0 <= dj < info_views(out@)[i].dep_refs().len() ==> (dep_key(
                #[trigger] info_views(out@)[i].dep_refs()[dj],
            ) matches Some(k) && has_key(info_views(out@), k) && index_of_key(info_views(out@), k)
                < i),
        root@.dep_refs().len() == 0 ==> (r matches Ok(out) && info_views(out@) == seq![root@]),
{
    let ghost reg = registry@;
    let ghost rootk = root@.key();

    let mut out: Vec<PackageInfo> = Vec::new();
    let mut visiting: Vec<String> = Vec::new();
    let mut stack: Vec<WorkItem> = Vec::new();

    stack.push(WorkItem::Finish(root.clone()));
    proof {
        assert(stack@.drop_last() =~= Seq::<WorkItem>::empty());
        assert(finish_keys(Seq::<WorkItem>::empty()) =~= Seq::<Seq<char>>::empty());
        assert(stack@.last() matches WorkItem::Finish(q) && q@.key() == rootk);
        assert(finish_keys(stack@) =~= seq![rootk]);
    }
    let ghost s_base = stack@;
    push_dep_visits(&mut stack, &root.latest.dependencies);
    visiting.push(root.full_name.clone());
    proof {
        assert(str_views(visiting@) =~= seq![rootk]);
        assert(root@.dep_refs() =~= str_views(root.latest.dependencies@));
        assert(stack@[0] == s_base[0]);
        lemma_init(
            reg,
            rootk,
            stack@,
            str_views(visiting@),
            info_views(out@),
            root@,
            root.latest.dependencies@,
        );
    }

    while stack.len() != 0
        invariant
            inv(reg, rootk, stack@, str_views(visiting@), info_views(out@)),
        decreases reg.len() - visiting@.len() - out@.len(), stack@.len(),
    {
        let ghost s_old = stack@;
        let ghost out_v = info_views(out@);
        let ghost vv = str_views(visiting@);
        let item = stack.pop().unwrap();
        proof {
            assert(stack@ =~= s_old.drop_last());
            assert(item == s_old.last());
        }
        match item {
            WorkItem::Visit(refstr) => {
                proof {
                    lemma_top_visit(reg, rootk, s_old, vv, out_v);
                }
                let ghost pk = vv.last();
                match parse_dependency_ref(refstr.as_str()) {
                    None => {
                        proof {
                            assert(dep_key(refstr@) is None);
                            assert(!well_referenced(reg, rootk)) by {
                                if well_referenced(reg, rootk) {
                                    let j = choose|j: int|
                                        0 <= j < entry_of(reg, pk).dep_refs().len() && (
                                        #[trigger] entry_of(reg, pk).dep_refs()[j]) == refstr@;
                                    assert(dep_key(entry_of(reg, pk).dep_refs()[j]) is Some);
                                }
                            }
                            assert(!resolvable(reg, rootk));
                            if root@.dep_refs().len() == 0 {
                                lemma_no_deps(reg, rootk);
                            }
                        }
                        return Err(ResolveError::MalformedReference(refstr));
                    },
                    Some((author, name)) => {
                        let key = dependency_key(&author, &name);
                        proof {
                            assert(dep_key(refstr@) == Some(key@));
                            assert(edge(reg, pk, key@)) by {
                                let j = choose|j: int|
                                    0 <= j < entry_of(reg, pk).dep_refs().len() && (
                                    #[trigger] entry_of(reg, pk).dep_refs()[j]) == refstr@;
                                assert(dep_key(entry_of(reg, pk).dep_refs()[j]) == Some(key@));
                            }
                            lemma_reachable_step(reg, rootk, pk, key@);
                        }
                        if vec_has_key(&out, &key) {
                            proof {
                                lemma_step_skip(reg, rootk, s_old, vv, out_v, key@);
                            }
                        } else {
                            match vis_position(&visiting, &key) {
                                Some(_t) => {
                                    proof {
                                        lemma_cycle_found(reg, rootk, vv, _t as int, key@);
                                        assert(!resolvable(reg, rootk));
                                        if root@.dep_refs().len() == 0 {
                                            lemma_no_deps(reg, rootk);
                                        }
                                    }
                                    return Err(ResolveError::DependencyCycle(key));
                                },
                                None => {
                                    match registry.lookup(&author, &name) {
                                        None => {
                                            proof {
                                                lemma_parse_ref_author(refstr@);
                                                assert(parse_ref(refstr@)->Some_0.0 == author@);
                                                lemma_lookup_key(reg, author@, name@);
                                                assert(!has_key(reg, key@)) by {
                                                    if has_key(reg, key@) {
                                                        let i = choose|i: int|
                                                            0 <= i < reg.len() && reg[i].key()
                                                                == key@;
                                                        assert(reg[i].namespace == author@
                                                            && reg[i].name == name@);
                                                    }
                                                }
                                                assert(!well_referenced(reg, rootk));
                                                assert(!resolvable(reg, rootk));
                                                if root@.dep_refs().len() == 0 {
                                                    lemma_no_deps(reg, rootk);
                                                }
                                            }
                                            return Err(ResolveError::NotFound(author, name));
                                        },
                                        Some(i) => {
                                            proof {
                                                assert(wf_entry(reg[i as int]));
                                                assert(reg[i as int].key() =~= key@);
                                                lemma_entry_of(reg, i as int);
                                            }
                                            let pkg = registry.packages[i].clone();
                                            proof {
                                                assert(registry.packages@[i as int]@ == reg[
                                                    i as int]);
                                                assert(pkg@ == reg[i as int]);
                                            }
                                            let ghost s_new = stack@;
                                            stack.push(WorkItem::Finish(pkg));
                                            proof {
                                                assert(stack@.drop_last() =~= s_new);
                                                assert(finish_keys(stack@) == finish_keys(
                                                    s_new,
                                                ).push(key@));
                                            }
                                            let ghost s_mid = stack@;
                                            push_dep_visits(
                                                &mut stack,
                                                &registry.packages[i].latest.dependencies,
                                            );
                                            let ghost deps =
                                                registry.packages@[i as int].latest.dependencies@;
                                            visiting.push(key);
                                            proof {
                                                let pkgv = reg[i as int];
                                                assert(str_views(visiting@) =~= vv.push(
                                                    pkgv.key(),
                                                ));
                                                assert(pkgv.dep_refs() =~= str_views(deps));
                                                assert(finish_keys(stack@) == vv.push(
                                                    pkgv.key(),
                                                ));
                                                assert forall|m: int|
                                                    0 <= m < deps.len() implies ((
                                                #[trigger] stack@[s_old.len() + m])
                                                    matches WorkItem::Visit(r) && r == deps[
                                                    deps.len() - 1 - m]) by {
                                                    assert(stack@[s_mid.len() + m]
                                                        == WorkItem::Visit(deps[deps.len() - 1
                                                        - m]));
                                                }
                                                lemma_step_expand(
                                                    reg,
                                                    rootk,
                                                    s_old,
                                                    stack@,
                                                    vv,
                                                    out_v,
                                                    pkgv,
                                                    deps,
                                                );
                                            }
                                        },
                                    }
                                },
                            }
                        }
                    },
                }
            },
            WorkItem::Finish(pkg) => {
                proof {
                    assert(s_old.last() matches WorkItem::Finish(q) && q@ == pkg@);
                    lemma_step_finish(reg, rootk, s_old, vv, out_v, pkg@);
                }
                let _ = visiting.pop();
                out.push(pkg);
                proof {
                    assert(str_views(visiting@) =~= vv.drop_last());
                    assert(info_views(out@) =~= out_v.push(pkg@));
                }
            },
        }
    }
    proof {
        lemma_exit(reg, rootk, stack@, str_views(visiting@), info_views(out@), root@);
    }
    Ok(out)
}

/// Resolves the dependency closure of `package` into `all_infos`: afterwards
/// it holds exactly one entry per full name reachable from the package. On
/// failure nothing is kept: no partial results are returned.
pub fn process_info(
    all_infos: &mut Vec<PackageInfo>,
    package: PackageInfo,
    registry: &Registry,
) -> (r: Result<(), ResolveError>)
    requires
        registry.wf(),
        has_key(registry@, package@.key()),
        entry_of(registry@, package@.key()) == package@,
        old(all_infos)@ == Seq::<PackageInfo>::empty(),
    ensures
        r is Ok <==> resolvable(registry@, package@.key()),
        r is Ok ==> {
            &&& distinct_keys(info_views(final(all_infos)@))
            &&& forall|i: int|
                0 <= i < final(all_infos)@.len() ==> has_key(
                    registry@,
                    (#[trigger] info_views(final(all_infos)@)[i]).key(),
                ) && info_views(final(all_infos)@)[i] == entry_of(
                    registry@,
                    info_views(final(all_infos)@)[i].key(),
                )
            &&& forall|k: Seq<char>|
                #[trigger] reachable(registry@, package@.key(), k) ==> has_key(
                    info_views(final(all_infos)@),
                    k,
                )
            &&& forall|i: int|
                0 <= i < final(all_infos)@.len() ==> reachable(
                    registry@,
                    package@.key(),
                    (#[trigger] info_views(final(all_infos)@)[i]).key(),
                )
        },
        r is Err ==> final(all_infos)@ == old(all_infos)@,
        package@.dep_refs().len() == 0 ==> (r is Ok && info_views(final(all_infos)@) == seq![
            package@,
        ]),
{
    match resolve(&package, registry) {
        Ok(resolved) => {
            *all_infos = resolved;
            Ok(())
        },
        Err(e) => Err(e),
    }
}

} // verus!
