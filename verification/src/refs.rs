use vstd::prelude::*;

verus! {

/// Index of the first '-' at or after position `i` in `s`, if any.
pub open spec fn find_dash(s: Seq<char>, i: int) -> Option<int>
    decreases s.len() - i,
{
    if i < 0 || i >= s.len() {
        None
    } else if s[i] == '-' {
        Some(i)
    } else {
        find_dash(s, i + 1)
    }
}

pub proof fn lemma_find_dash(s: Seq<char>, i: int)
    requires
        0 <= i <= s.len(),
    ensures
        match find_dash(s, i) {
            Some(d) => i <= d < s.len() && s[d] == '-' && forall|j: int| i <= j < d ==> s[j] != '-',
            None => forall|j: int| i <= j < s.len() ==> s[j] != '-',
        },
    decreases s.len() - i,
{
    if i < s.len() && s[i] != '-' {
        lemma_find_dash(s, i + 1);
    }
}

/// The author and package-name segments of a dependency reference: the text
/// before the first '-', and the text between the first and the second '-'
/// (or the end of the reference, when there is no second '-'). A reference
/// without any '-' has no segments and is malformed.
pub open spec fn parse_ref(s: Seq<char>) -> Option<(Seq<char>, Seq<char>)> {
    match find_dash(s, 0) {
        None => None,
        Some(d1) => {
            let author = s.subrange(0, d1);
            match find_dash(s, d1 + 1) {
                None => Some((author, s.subrange(d1 + 1, s.len() as int))),
                Some(d2) => Some((author, s.subrange(d1 + 1, d2))),
            }
        },
    }
}

/// The dependency-graph key a reference points at: `author-name`.
pub open spec fn dep_key(s: Seq<char>) -> Option<Seq<char>> {
    match parse_ref(s) {
        None => None,
        Some((author, name)) => Some(author + seq!['-'] + name),
    }
}

/// The author segment of a parsed reference never holds a '-'.
pub proof fn lemma_parse_ref_author(s: Seq<char>)
    requires
        parse_ref(s) is Some,
    ensures
        forall|j: int|
            0 <= j < parse_ref(s)->Some_0.0.len() ==> parse_ref(s)->Some_0.0[j] != '-',
{
    lemma_find_dash(s, 0);
}

/// Keys built from dash-free authors tell author and name apart: equal keys
/// mean equal segments.
pub proof fn lemma_key_injective(a: Seq<char>, b: Seq<char>, c: Seq<char>, d: Seq<char>)
    requires
        forall|j: int| 0 <= j < a.len() ==> a[j] != '-',
        forall|j: int| 0 <= j < c.len() ==> c[j] != '-',
        a + seq!['-'] + b == c + seq!['-'] + d,
    ensures
        a == c,
        b == d,
{
    let s = a + seq!['-'] + b;
    let t = c + seq!['-'] + d;
    assert(s[a.len() as int] == '-');
    assert(t[c.len() as int] == '-');
    if a.len() < c.len() {
        assert(t[a.len() as int] == c[a.len() as int]);
        assert(false);
    }
    if c.len() < a.len() {
        assert(s[c.len() as int] == a[c.len() as int]);
        assert(false);
    }
    assert(a =~= c) by {
        assert(forall|j: int| 0 <= j < a.len() ==> a[j] == s[j] && c[j] == t[j]);
    }
    assert(s.len() == t.len());
    assert(b.len() == d.len());
    assert(b =~= d) by {
        assert(forall|j: int|
            0 <= j < b.len() ==> b[j] == s[j + a.len() + 1] && d[j] == t[j + c.len() + 1]);
    }
}

/// Finds the first '-' at or after character position `start` in `s`.
pub fn find_dash_exec(s: &str, start: usize) -> (r: Option<usize>)
    requires
        start <= s@.len(),
    ensures
        match r {
            Some(d) => find_dash(s@, start as int) == Some(d as int) && d < s@.len(),
            None => find_dash(s@, start as int) is None,
        },
{
    let n = s.unicode_len();
    let mut i = start;
    while i < n
        invariant
            start <= i <= n,
            n == s@.len(),
            find_dash(s@, start as int) == find_dash(s@, i as int),
        decreases n - i,
    {
        if s.get_char(i) == '-' {
            return Some(i);
        }
        i = i + 1;
    }
    None
}

/// Splits a dependency reference of the shape `author-name[-version...]` into
/// its author and name segments, discarding any trailing version segments.
/// Returns `None` when the reference holds no '-' at all.
pub fn parse_dependency_ref(s: &str) -> (r: Option<(String, String)>)
    ensures
        r is Some <==> parse_ref(s@) is Some,
        r matches Some(p) ==> parse_ref(s@) == Some((p.0@, p.1@)),
{
    let n = s.unicode_len();
    let d1 = match find_dash_exec(s, 0) {
        None => {
            return None;
        },
        Some(d) => d,
    };
    let author = s.substring_char(0, d1).to_owned();
    let name_end = match find_dash_exec(s, d1 + 1) {
        None => n,
        Some(d2) => {
            proof {
                lemma_find_dash(s@, d1 + 1);
            }
            d2
        },
    };
    let name = s.substring_char(d1 + 1, name_end).to_owned();
    Some((author, name))
}

/// Builds the dependency-graph key `author-name` for a parsed reference.
pub fn dependency_key(author: &String, name: &String) -> (r: String)
    ensures
        r@ == author@ + seq!['-'] + name@,
{
    let mut r = author.clone();
    r.append("-");
    r.append(name.as_str());
    proof {
        reveal_strlit("-");
        assert(r@ =~= author@ + seq!['-'] + name@);
    }
    r
}

} // verus!
