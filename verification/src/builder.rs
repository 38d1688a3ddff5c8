//! Bounded, cycle-safe derivation of a dependency subgraph from an
//! import map: roots are the keys matching an optional prefix, the
//! traversal is depth-first over an explicit stack, a visited set
//! guarantees each identity is expanded at most once, and an optional
//! depth bound stops expansion.  The loops carry `decreases` measures,
//! so termination holds on cyclic import maps as well.

use vstd::prelude::*;
use vstd::string::StrSliceExecFns;
use crate::module_map::ModuleMap;

verus! {

/// `p` is a textual prefix of `s`.
pub open spec fn starts_with_spec(s: Seq<char>, p: Seq<char>) -> bool {
    p.len() <= s.len() && s.take(p.len() as int) == p
}

/// An identity is a traversal root when no prefix was given, or when
/// it starts with the given prefix.
pub open spec fn is_root(k: Seq<char>, prefix: Option<Seq<char>>) -> bool {
    match prefix {
        None => true,
        Some(p) => starts_with_spec(k, p),
    }
}

/// The prefix argument as a mathematical value.
pub open spec fn prefix_view(prefix: Option<&str>) -> Option<Seq<char>> {
    match prefix {
        None => None,
        Some(p) => Some(p@),
    }
}

/// `k` can be reached from some root of `m` under `prefix` by
/// following at most `n` references.
pub open spec fn reachable_within(
    m: ModuleMap,
    prefix: Option<Seq<char>>,
    k: Seq<char>,
    n: nat,
) -> bool
    decreases n,
{
    (m.contains_key(k) && is_root(k, prefix)) || (n > 0 && exists|p: Seq<char>|
        reachable_within(m, prefix, p, (n - 1) as nat) && m.contains_key(p) && m.refs_of(
            p,
        ).contains(k))
}

/// `k` can be reached from some root by following finitely many
/// references.
pub open spec fn reachable(m: ModuleMap, prefix: Option<Seq<char>>, k: Seq<char>) -> bool {
    exists|n: nat| reachable_within(m, prefix, k, n)
}

/// Following one more reference keeps reachability.
pub proof fn lemma_reachable_step(
    m: ModuleMap,
    prefix: Option<Seq<char>>,
    p: Seq<char>,
    k: Seq<char>,
    n: nat,
)
    requires
        reachable_within(m, prefix, p, n),
        m.contains_key(p),
        m.refs_of(p).contains(k),
    ensures
        reachable_within(m, prefix, k, n + 1),
{
    assert(reachable_within(m, prefix, p, (((n + 1) as nat) - 1) as nat));
}

/// How many of the first `n` keys of `m` are not yet in `visited`.
pub open spec fn count_unvisited(m: ModuleMap, visited: Set<Seq<char>>, n: int) -> nat
    decreases n,
{
    if n <= 0 {
        0
    } else if visited.contains(m.key_at(n - 1)) {
        count_unvisited(m, visited, n - 1)
    } else {
        count_unvisited(m, visited, n - 1) + 1
    }
}

proof fn lemma_count_insert_absent(m: ModuleMap, visited: Set<Seq<char>>, k: Seq<char>, n: int)
    requires
        forall|i: int| 0 <= i < n ==> m.key_at(i) != k,
    ensures
        count_unvisited(m, visited.insert(k), n) == count_unvisited(m, visited, n),
    decreases n,
{
    if n > 0 {
        lemma_count_insert_absent(m, visited, k, n - 1);
    }
}

proof fn lemma_count_insert_present(m: ModuleMap, visited: Set<Seq<char>>, k: Seq<char>, n: int)
    requires
        m.wf(),
        n <= m.len_spec(),
        exists|i: int| 0 <= i < n && m.key_at(i) == k,
        !visited.contains(k),
    ensures
        count_unvisited(m, visited.insert(k), n) + 1 == count_unvisited(m, visited, n),
    decreases n,
{
    let i = choose|i: int| 0 <= i < n && m.key_at(i) == k;
    if i == n - 1 {
        assert(forall|t: int| 0 <= t < n - 1 ==> m.key_at(t) != k);
        lemma_count_insert_absent(m, visited, k, n - 1);
    } else {
        assert(m.key_at(n - 1) != k);
        lemma_count_insert_present(m, visited, k, n - 1);
    }
}

/// The identities a traversal has already expanded.
pub open spec fn seen(visited: Seq<String>) -> Set<Seq<char>> {
    Set::new(|k: Seq<char>| exists|i: int| 0 <= i < visited.len() && visited[i]@ == k)
}

/// `p` is a textual prefix of `s`.
pub fn starts_with(s: &str, p: &str) -> (r: bool)
    ensures
        r == starts_with_spec(s@, p@),
{
    let sn: usize = s.unicode_len();
    let pn: usize = p.unicode_len();
    if pn > sn {
        return false;
    }
    let mut i: usize = 0;
    while i < pn
        invariant
            0 <= i <= pn,
            pn == p@.len(),
            sn == s@.len(),
            pn <= sn,
            forall|t: int| 0 <= t < i ==> s@[t] == p@[t],
        decreases pn - i,
    {
        if s.get_char(i) != p.get_char(i) {
            proof {
                assert(s@.take(pn as int)[i as int] != p@[i as int]);
            }
            return false;
        }
        i = i + 1;
    }
    proof {
        assert(s@.take(pn as int) =~= p@);
    }
    true
}

fn contains_string(v: &Vec<String>, s: &String) -> (r: bool)
    ensures
        r == seen(v@).contains(s@),
{
    let n: usize = v.len();
    let mut i: usize = 0;
    while i < n
        invariant
            0 <= i <= n,
            n == v@.len(),
            forall|t: int| 0 <= t < i ==> v@[t]@ != s@,
        decreases n - i,
    {
        if v[i] == *s {
            return true;
        }
        i = i + 1;
    }
    false
}

pub(crate) fn clone_refs(v: &Vec<String>) -> (r: Vec<String>)
    ensures
        r.deep_view() == v.deep_view(),
{
    let n: usize = v.len();
    let mut out: Vec<String> = Vec::new();
    let mut i: usize = 0;
    while i < n
        invariant
            0 <= i <= n,
            n == v@.len(),
            out@.len() == i,
            forall|t: int| 0 <= t < i ==> (#[trigger] out@[t])@ == v@[t]@,
        decreases n - i,
    {
        let c = v[i].clone();
        proof {
            assert(c@ == v@[i as int]@);
        }
        out.push(c);
        i = i + 1;
    }
    proof {
        assert(out.deep_view() =~= v.deep_view());
    }
    out
}

fn push_all(stack: &mut Vec<(String, usize)>, refs: &Vec<String>, d1: usize)
    ensures
        final(stack)@.len() == old(stack)@.len() + refs@.len(),
        forall|t: int| 0 <= t < old(stack)@.len() ==> (#[trigger] final(stack)@[t]) == old(
            stack,
        )@[t],
        forall|t: int|
            old(stack)@.len() <= t < final(stack)@.len() ==> (#[trigger] final(stack)@[t]).0@
                == refs.deep_view()[t - old(stack)@.len()] && final(stack)@[t].1 == d1,
{
    let n: usize = refs.len();
    let mut j: usize = 0;
    while j < n
        invariant
            0 <= j <= n,
            n == refs@.len(),
            stack@.len() == old(stack)@.len() + j,
            forall|t: int| 0 <= t < old(stack)@.len() ==> (#[trigger] stack@[t]) == old(stack)@[t],
            forall|t: int|
                old(stack)@.len() <= t < stack@.len() ==> (#[trigger] stack@[t]).0@
                    == refs.deep_view()[t - old(stack)@.len()] && stack@[t].1 == d1,
        decreases n - j,
    {
        stack.push((refs[j].clone(), d1));
        j = j + 1;
    }
}

/// Everything the builder promises of the subgraph it returns: keys
/// are distinct; every entry carries exactly the import map's
/// references for its key, or none when the key was never scanned;
/// every root is present; with a depth bound, every key was reached
/// from a root within the bound; without one, the key set is closed
/// under references of scanned keys, so it holds the whole reachable
/// set and nothing else.
pub open spec fn build_post(
    m: ModuleMap,
    prefix: Option<Seq<char>>,
    max_depth: Option<usize>,
    g: ModuleMap,
) -> bool {
    &&& g.wf()
    &&& (forall|k: Seq<char>|
        g.contains_key(k) ==> g.refs_of(k) == (if m.contains_key(k) {
            m.refs_of(k)
        } else {
            Seq::<Seq<char>>::empty()
        }))
    &&& (forall|k: Seq<char>| m.contains_key(k) && is_root(k, prefix) ==> g.contains_key(k))
    &&& (match max_depth {
        Some(d0) => forall|k: Seq<char>|
            g.contains_key(k) ==> exists|n: nat| n <= d0 as nat && reachable_within(m, prefix, k, n),
        None => (forall|k: Seq<char>| g.contains_key(k) ==> reachable(m, prefix, k)) && (forall|
            k: Seq<char>,
            j: int,
        |
            g.contains_key(k) && m.contains_key(k) && 0 <= j < m.refs_of(k).len()
                ==> g.contains_key(#[trigger] m.refs_of(k)[j])),
    })
}

/// Without a depth bound the subgraph holds every reachable identity:
/// together with the reachability clause of `build_post`, the key set
/// is exactly the set of identities reachable from the roots.
pub proof fn lemma_unbounded_complete(
    m: ModuleMap,
    prefix: Option<Seq<char>>,
    g: ModuleMap,
    k: Seq<char>,
    n: nat,
)
    requires
        build_post(m, prefix, None, g),
        reachable_within(m, prefix, k, n),
    ensures
        g.contains_key(k),
    decreases n,
{
    if m.contains_key(k) && is_root(k, prefix) {
    } else {
        let p = choose|p: Seq<char>|
            reachable_within(m, prefix, p, (n - 1) as nat) && m.contains_key(p) && m.refs_of(
                p,
            ).contains(k);
        lemma_unbounded_complete(m, prefix, g, p, (n - 1) as nat);
        let j = choose|j: int| 0 <= j < m.refs_of(p).len() && m.refs_of(p)[j] == k;
        assert(g.contains_key(m.refs_of(p)[j]));
    }
}

/// Derive the dependency subgraph of `m` rooted at the identities
/// matching `prefix`, bounded by `max_depth`.
pub fn build(m: &ModuleMap, prefix: Option<&str>, max_depth: Option<usize>) -> (g: ModuleMap)
    requires
        m.wf(),
    ensures
        build_post(*m, prefix_view(prefix), max_depth, g),
{
    let ghost pv = prefix_view(prefix);
    let bounded: bool = match max_depth {
        None => false,
        Some(_) => true,
    };
    let depth: usize = match max_depth {
        None => 0,
        Some(d) => d,
    };
    let n: usize = m.len();
    let mut stack: Vec<(String, usize)> = Vec::new();
    let mut i: usize = 0;
    while i < n
        invariant
            0 <= i <= n,
            n == m.len_spec(),
            m.wf(),
            pv == prefix_view(prefix),
            forall|t: int|
                0 <= t < stack@.len() ==> (#[trigger] stack@[t]).1 == 0 && m.contains_key(
                    stack@[t].0@,
                ) && is_root(stack@[t].0@, pv),
            forall|t: int|
                0 <= t < i && is_root(#[trigger] m.key_at(t), pv) ==> exists|u: int|
                    0 <= u < stack@.len() && (#[trigger] stack@[u]).0@ == m.key_at(t),
        decreases n - i,
    {
        let ghost stack0 = stack@;
        let key = m.entry_key(i);
        let matches_root: bool = match prefix {
            None => true,
            Some(p) => starts_with(key.as_str(), p),
        };
        if matches_root {
            stack.push((key.clone(), 0));
            proof {
                m.lemma_entry_determines_refs(i as int);
                assert(stack@[stack0.len() as int].0@ == m.key_at(i as int));
                assert(forall|t: int| 0 <= t < stack0.len() ==> stack@[t] == stack0[t]);
            }
        } else {
            proof {
                assert(!is_root(m.key_at(i as int), pv));
            }
        }
        i = i + 1;
    }
    proof {
        assert forall|k: Seq<char>| m.contains_key(k) && is_root(k, pv) implies exists|u: int|
            0 <= u < stack@.len() && (#[trigger] stack@[u]).0@ == k by {
            let t = m.index_of(k);
            assert(0 <= t < m.len_spec() && m.key_at(t) == k);
        }
        assert forall|t: int| 0 <= t < stack@.len() implies reachable(
            *m,
            pv,
            (#[trigger] stack@[t]).0@,
        ) by {
            assert(reachable_within(*m, pv, stack@[t].0@, 0));
        }
    }
    let mut tree = ModuleMap::new();
    let mut visited: Vec<String> = Vec::new();
    while stack.len() > 0
        invariant
            m.wf(),
            tree.wf(),
            forall|k: Seq<char>| tree.contains_key(k) <==> seen(visited@).contains(k),
            forall|k: Seq<char>|
                #[trigger] tree.contains_key(k) ==> tree.refs_of(k) == (if m.contains_key(k) {
                    m.refs_of(k)
                } else {
                    Seq::<Seq<char>>::empty()
                }),
            bounded ==> (forall|k: Seq<char>|
                #[trigger] tree.contains_key(k) ==> exists|nn: nat|
                    nn <= depth as nat && reachable_within(*m, pv, k, nn)),
            forall|k: Seq<char>| #[trigger] tree.contains_key(k) ==> reachable(*m, pv, k),
            bounded ==> (forall|t: int|
                0 <= t < stack@.len() ==> (#[trigger] stack@[t]).1 <= depth && reachable_within(
                    *m,
                    pv,
                    stack@[t].0@,
                    stack@[t].1 as nat,
                )),
            forall|t: int|
                0 <= t < stack@.len() ==> reachable(*m, pv, (#[trigger] stack@[t]).0@),
            forall|k: Seq<char>|
                m.contains_key(k) && is_root(k, pv) ==> seen(visited@).contains(k) || exists|u: int|
                    0 <= u < stack@.len() && (#[trigger] stack@[u]).0@ == k,
            !bounded ==> (forall|k: Seq<char>, j: int|
                tree.contains_key(k) && m.contains_key(k) && 0 <= j < m.refs_of(k).len()
                    ==> tree.contains_key(#[trigger] m.refs_of(k)[j]) || exists|u: int|
                    0 <= u < stack@.len() && (#[trigger] stack@[u]).0@ == m.refs_of(k)[j]),
        decreases count_unvisited(*m, seen(visited@), m.len_spec()), stack@.len(),
    {
        let ghost stack0 = stack@;
        let ghost visited0 = visited@;
        let top = stack.pop().unwrap();
        let id = top.0;
        let d = top.1;
        proof {
            assert(stack0[stack0.len() - 1].0@ == id@ && stack0[stack0.len() - 1].1 == d);
        }
        if !contains_string(&visited, &id) {
            visited.push(id.clone());
            proof {
                assert forall|k: Seq<char>| seen(visited@).contains(k) implies seen(
                    visited0,
                ).insert(id@).contains(k) by {
                    let t = choose|t: int| 0 <= t < visited@.len() && visited@[t]@ == k;
                    if t < visited0.len() {
                        assert(visited0[t]@ == k);
                    } else {
                        assert(k == id@);
                    }
                }
                assert forall|k: Seq<char>| seen(visited0).insert(id@).contains(k) implies seen(
                    visited@,
                ).contains(k) by {
                    if k == id@ {
                        assert(visited@[visited0.len() as int]@ == k);
                    } else {
                        let t = choose|t: int| 0 <= t < visited0.len() && visited0[t]@ == k;
                        assert(visited@[t]@ == k);
                    }
                }
                assert(seen(visited@) =~= seen(visited0).insert(id@));
                if m.contains_key(id@) {
                    lemma_count_insert_present(*m, seen(visited0), id@, m.len_spec());
                } else {
                    assert(forall|t: int| 0 <= t < m.len_spec() ==> m.key_at(t) != id@);
                    lemma_count_insert_absent(*m, seen(visited0), id@, m.len_spec());
                }
            }
            let refs: Vec<String> = match m.get(&id) {
                Some(r) => clone_refs(r),
                None => Vec::new(),
            };
            let ghost idv = id@;
            proof {
                if !m.contains_key(idv) {
                    assert(refs.deep_view() =~= Seq::<Seq<char>>::empty());
                }
                if bounded {
                    assert(reachable_within(*m, pv, idv, d as nat) && d as nat <= depth as nat);
                }
                assert(reachable(*m, pv, idv));
            }
            let refs2 = clone_refs(&refs);
            tree.insert(id, refs2);
            let ghost stack1 = stack@;
            if !bounded || d < depth {
                let child_depth: usize = if bounded {
                    d + 1
                } else {
                    0
                };
                push_all(&mut stack, &refs, child_depth);
                proof {
                    assert forall|t: int|
                        stack1.len() <= t < stack@.len() implies reachable(
                        *m,
                        pv,
                        (#[trigger] stack@[t]).0@,
                    ) && (bounded ==> stack@[t].1 <= depth && reachable_within(
                        *m,
                        pv,
                        stack@[t].0@,
                        stack@[t].1 as nat,
                    )) by {
                        let rt = t - stack1.len();
                        assert(stack@[t].0@ == refs.deep_view()[rt] && stack@[t].1 == child_depth);
                        assert(m.contains_key(idv) && m.refs_of(idv).contains(
                            refs.deep_view()[rt],
                        ));
                        if bounded {
                            lemma_reachable_step(*m, pv, idv, refs.deep_view()[rt], d as nat);
                        }
                        let nn = choose|nn: nat| reachable_within(*m, pv, idv, nn);
                        lemma_reachable_step(*m, pv, idv, refs.deep_view()[rt], nn);
                    }
                }
            }
            proof {
                assert forall|k: Seq<char>|
                    m.contains_key(k) && is_root(k, pv) implies seen(visited@).contains(k) || (
                exists|u: int| 0 <= u < stack@.len() && (#[trigger] stack@[u]).0@ == k) by {
                    if !seen(visited@).contains(k) {
                        assert(k != idv);
                        assert(!seen(visited0).contains(k));
                        let u = choose|u: int|
                            0 <= u < stack0.len() && (#[trigger] stack0[u]).0@ == k;
                        assert(u < stack0.len() - 1);
                        assert(stack@[u] == stack0[u]);
                    }
                }
                if !bounded {
                    assert forall|k: Seq<char>, j: int|
                        tree.contains_key(k) && m.contains_key(k) && 0 <= j < m.refs_of(k).len()
                            implies tree.contains_key(#[trigger] m.refs_of(k)[j]) || (exists|u: int|
                        0 <= u < stack@.len() && (#[trigger] stack@[u]).0@ == m.refs_of(k)[j]) by {
                        let r = m.refs_of(k)[j];
                        if k == idv {
                            assert(refs.deep_view() == m.refs_of(idv));
                            assert(stack@[stack1.len() + j].0@ == r);
                        } else if !tree.contains_key(r) {
                            let u = choose|u: int|
                                0 <= u < stack0.len() && (#[trigger] stack0[u]).0@ == r;
                            if u < stack0.len() - 1 {
                                assert(stack@[u] == stack0[u]);
                            } else {
                                assert(r == idv);
                                assert(tree.contains_key(idv));
                            }
                        }
                    }
                }
            }
        } else {
            proof {
                assert forall|k: Seq<char>|
                    m.contains_key(k) && is_root(k, pv) implies seen(visited@).contains(k) || (
                exists|u: int| 0 <= u < stack@.len() && (#[trigger] stack@[u]).0@ == k) by {
                    if !seen(visited@).contains(k) {
                        assert(k != id@);
                        let u = choose|u: int|
                            0 <= u < stack0.len() && (#[trigger] stack0[u]).0@ == k;
                        assert(u < stack0.len() - 1);
                        assert(stack@[u] == stack0[u]);
                    }
                }
                if !bounded {
                    assert forall|k: Seq<char>, j: int|
                        tree.contains_key(k) && m.contains_key(k) && 0 <= j < m.refs_of(k).len()
                            implies tree.contains_key(#[trigger] m.refs_of(k)[j]) || (exists|u: int|
                        0 <= u < stack@.len() && (#[trigger] stack@[u]).0@ == m.refs_of(k)[j]) by {
                        let r = m.refs_of(k)[j];
                        if !tree.contains_key(r) {
                            let u = choose|u: int|
                                0 <= u < stack0.len() && (#[trigger] stack0[u]).0@ == r;
                            if u < stack0.len() - 1 {
                                assert(stack@[u] == stack0[u]);
                            } else {
                                assert(r == id@);
                                assert(seen(visited@).contains(id@));
                            }
                        }
                    }
                }
            }
        }
    }
    proof {
        assert forall|k: Seq<char>| m.contains_key(k) && is_root(k, pv) implies tree.contains_key(
            k,
        ) by {
            assert(seen(visited@).contains(k));
        }
    }
    tree
}

} // verus!
