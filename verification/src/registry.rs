use vstd::prelude::*;

use crate::models::InfoView;
use crate::models::PackageInfo;
use crate::refs::dependency_key;
use crate::refs::find_dash;
use crate::refs::find_dash_exec;
use crate::refs::lemma_find_dash;
use crate::refs::lemma_key_injective;

verus! {

/// What a well-formed registry entry promises: the full name is
/// `namespace-name`, and the namespace itself holds no '-', so the full name
/// splits back into the pair it was built from.
pub open spec fn wf_entry(p: InfoView) -> bool {
    &&& p.full_name == p.namespace + seq!['-'] + p.name
    &&& forall|j: int| 0 <= j < p.namespace.len() ==> p.namespace[j] != '-'
}

/// No two entries share a full name.
pub open spec fn distinct_keys(reg: Seq<InfoView>) -> bool {
    forall|i: int, j: int| 0 <= i < j < reg.len() ==> reg[i].key() != reg[j].key()
}

/// Whether some entry of `reg` has full name `k`.
pub open spec fn has_key(reg: Seq<InfoView>, k: Seq<char>) -> bool {
    exists|i: int| 0 <= i < reg.len() && reg[i].key() == k
}

/// The entry of `reg` with full name `k`.
pub open spec fn entry_of(reg: Seq<InfoView>, k: Seq<char>) -> InfoView {
    reg[choose|i: int| 0 <= i < reg.len() && reg[i].key() == k]
}

/// With distinct full names, an entry is the one its own key looks up.
pub proof fn lemma_entry_of(reg: Seq<InfoView>, i: int)
    requires
        distinct_keys(reg),
        0 <= i < reg.len(),
    ensures
        has_key(reg, reg[i].key()),
        entry_of(reg, reg[i].key()) == reg[i],
{
    assert(has_key(reg, reg[i].key()));
    let j = choose|j: int| 0 <= j < reg.len() && reg[j].key() == reg[i].key();
    assert(j == i);
}

/// An in-memory snapshot of registry metadata: a collection of package
/// entries with pairwise distinct full names.
pub struct Registry {
    pub packages: Vec<PackageInfo>,
}

impl View for Registry {
    type V = Seq<InfoView>;

    open spec fn view(&self) -> Seq<InfoView> {
        self.packages@.map_values(|p: PackageInfo| p@)
    }
}

impl Registry {
    pub open spec fn wf(&self) -> bool {
        &&& distinct_keys(self@)
        &&& forall|i: int| 0 <= i < self@.len() ==> wf_entry(#[trigger] self@[i])
    }

    /// An empty registry snapshot.
    pub fn new() -> (r: Registry)
        ensures
            r@ == Seq::<InfoView>::empty(),
            r.wf(),
    {
        let r = Registry { packages: Vec::new() };
        proof {
            assert(r@ =~= Seq::<InfoView>::empty());
        }
        r
    }

    /// True when some entry already has full name `key`.
    pub fn contains_full_name(&self, key: &String) -> (r: bool)
        ensures
            r == has_key(self@, key@),
    {
        let mut i: usize = 0;
        while i < self.packages.len()
            invariant
                i <= self@.len(),
                self@.len() == self.packages@.len(),
                forall|j: int| 0 <= j < i ==> self@[j].key() != key@,
            decreases self@.len() - i,
        {
            if self.packages[i].full_name.eq(key) {
                assert(self@[i as int].key() == key@);
                return true;
            }
            i = i + 1;
        }
        false
    }

    /// Finds the entry whose namespace and name match the pair, if any.
    pub fn lookup(&self, author: &String, name: &String) -> (r: Option<usize>)
        ensures
            match r {
                Some(i) => i < self@.len() && self@[i as int].namespace == author@
                    && self@[i as int].name == name@,
                None => forall|i: int|
                    0 <= i < self@.len() ==> !(self@[i].namespace == author@ && self@[i].name
                        == name@),
            },
    {
        let mut i: usize = 0;
        while i < self.packages.len()
            invariant
                i <= self@.len(),
                self@.len() == self.packages@.len(),
                forall|j: int|
                    0 <= j < i ==> !(self@[j].namespace == author@ && self@[j].name == name@),
            decreases self@.len() - i,
        {
            if self.packages[i].namespace.eq(author) && self.packages[i].name.eq(name) {
                return Some(i);
            }
            i = i + 1;
        }
        None
    }

    /// Adds an entry, refusing one that is not well formed or whose full name
    /// is already present; says whether the entry went in.
    pub fn add(&mut self, p: PackageInfo) -> (r: bool)
        requires
            old(self).wf(),
        ensures
            final(self).wf(),
            r == (wf_entry(p@) && !has_key(old(self)@, p@.key())),
            r ==> final(self)@ == old(self)@.push(p@),
            !r ==> *final(self) == *old(self),
    {
        proof {
            lemma_find_dash(p.namespace@, 0);
        }
        if find_dash_exec(p.namespace.as_str(), 0).is_some() {
            return false;
        }
        let built = dependency_key(&p.namespace, &p.name);
        if !p.full_name.eq(&built) {
            return false;
        }
        if self.contains_full_name(&p.full_name) {
            return false;
        }
        let ghost old_view = self@;
        self.packages.push(p);
        proof {
            assert(self@ =~= old_view.push(p@));
            assert forall|i: int, j: int| 0 <= i < j < self@.len() implies self@[i].key()
                != self@[j].key() by {
                if j < old_view.len() {
                    assert(old_view[i].key() != old_view[j].key());
                }
            }
        }
        true
    }
}

/// Under well-formed entries, an author/name pair matches an entry exactly
/// when the entry's full name is the key `author-name`, provided the author
/// segment is dash-free.
pub proof fn lemma_lookup_key(reg: Seq<InfoView>, author: Seq<char>, name: Seq<char>)
    requires
        forall|i: int| 0 <= i < reg.len() ==> wf_entry(#[trigger] reg[i]),
        forall|j: int| 0 <= j < author.len() ==> author[j] != '-',
    ensures
        forall|i: int|
            0 <= i < reg.len() ==> ((#[trigger] reg[i].namespace == author && reg[i].name == name)
                <==> reg[i].key() == author + seq!['-'] + name),
{
    assert forall|i: int| 0 <= i < reg.len() implies ((reg[i].namespace == author && reg[i].name
        == name) <==> reg[i].key() == author + seq!['-'] + name) by {
        if reg[i].key() == author + seq!['-'] + name {
            lemma_key_injective(reg[i].namespace, reg[i].name, author, name);
        }
    }
}

} // verus!
