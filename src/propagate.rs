//! Recomputing a node's effective hash and cascading a change to every node
//! that depends on it.
use crate::graph::{clone_keys, has_key, keys_view, node_key, node_mangle, Graph, GraphView, Mangled, Node, NodeView};
use crate::hash::{effective_parts, lemma_dependency_sensitivity, sip_digest, pair_keys, pairs_view, program_impl_hash, program_impl_hash_spec, ImplHash};
use vstd::prelude::*;

verus! {

/// Each dependency of `d` with its effective hash in `g`, in the order of
/// `d`; `None` when one is missing or has no effective hash yet.
pub open spec fn resolved_deps(g: GraphView, d: Seq<Seq<char>>) -> Option<Seq<(Seq<char>, Seq<char>)>>
    decreases d.len(),
{
    if d.len() == 0 {
        Some(Seq::empty())
    } else {
        match (resolved_deps(g, d.drop_last()), g.lookup(d.last())) {
            (Some(p), Some(n)) => match n.i {
                Some(h) => Some(p.push((d.last(), h))),
                None => None,
            },
            _ => None,
        }
    }
}

/// The effective hash that `n` gets in `g`, if all its dependencies have one.
pub open spec fn effective_in(g: GraphView, n: NodeView) -> Option<Seq<char>> {
    match resolved_deps(g, n.d) {
        Some(p) => Some(program_impl_hash_spec(n.a, p)),
        None => None,
    }
}

/// `n` with the effective hash it gets in `g`.
pub open spec fn resolve(g: GraphView, n: NodeView) -> NodeView {
    NodeView { o: n.o, s: n.s, e: n.e, a: n.a, i: effective_in(g, n), d: n.d, v: n.v }
}

/// The key and effective hash of each dependency in `d`, in order, if all
/// of them have one in the graph.
pub fn dependency_hashes(graph: &Graph, d: &Vec<Mangled>) -> (r: Option<Vec<(Mangled, ImplHash)>>)
    requires
        graph.wf(),
    ensures
        match r {
            Some(p) => resolved_deps(graph@, keys_view(d@)) == Some(pairs_view(p@)),
            None => resolved_deps(graph@, keys_view(d@)) is None,
        },
{
    let ghost g = graph@;
    let ghost dv = keys_view(d@);
    let mut pairs: Vec<(Mangled, ImplHash)> = Vec::new();
    let mut j: usize = 0;
    while j < d.len()
        invariant
            graph.wf(),
            g == graph@,
            dv == keys_view(d@),
            j <= d@.len(),
            resolved_deps(g, dv.subrange(0, j as int)) == Some(pairs_view(pairs@)),
        decreases d.len() - j,
    {
        let ghost prefix = dv.subrange(0, j + 1);
        proof {
            assert(prefix.drop_last() =~= dv.subrange(0, j as int));
            assert(prefix.last() == d@[j as int]@);
        }
        match graph.get(&d[j]) {
            Some(n) => match &n.i {
                Some(h) => {
                    let ghost before = pairs@;
                    pairs.push((d[j].duplicate(), h.duplicate()));
                    proof {
                        assert(pairs_view(pairs@) =~= pairs_view(before).push((d@[j as int]@, h@)));
                        assert(resolved_deps(g, prefix) == Some(pairs_view(before).push((d@[j as int]@, h@))));
                    }
                },
                None => {
                    proof {
                        assert(resolved_deps(g, prefix) is None);
                        lemma_unresolved_extends(g, dv, j as int + 1);
                    }
                    return None;
                },
            },
            None => {
                proof {
                    assert(resolved_deps(g, prefix) is None);
                    lemma_unresolved_extends(g, dv, j as int + 1);
                }
                return None;
            },
        }
        j = j + 1;
    }
    proof {
        assert(dv.subrange(0, j as int) =~= dv);
    }
    Some(pairs)
}

/// Once a prefix cannot be resolved, neither can the whole.
proof fn lemma_unresolved_extends(g: GraphView, d: Seq<Seq<char>>, j: int)
    requires
        0 <= j <= d.len(),
        resolved_deps(g, d.subrange(0, j)) is None,
    ensures
        resolved_deps(g, d) is None,
    decreases d.len() - j,
{
    if j == d.len() {
        assert(d.subrange(0, j) =~= d);
    } else {
        assert(d.subrange(0, j + 1).drop_last() =~= d.subrange(0, j));
        lemma_unresolved_extends(g, d, j + 1);
    }
}

/// Resolved pairs carry the dependency keys in their order.
proof fn lemma_resolved_keys(g: GraphView, d: Seq<Seq<char>>)
    ensures
        resolved_deps(g, d) matches Some(p) ==> pair_keys(p) == d,
    decreases d.len(),
{
    if d.len() > 0 {
        lemma_resolved_keys(g, d.drop_last());
        if let Some(p) = resolved_deps(g, d) {
            let q = resolved_deps(g, d.drop_last())->0;
            assert(pair_keys(p) =~= pair_keys(q).push(d.last()));
            assert(d =~= d.drop_last().push(d.last()));
        }
    }
}

/// The node with its effective hash recomputed from the graph.
pub fn resolve_node(graph: &Graph, node: Node) -> (r: Node)
    requires
        graph.wf(),
        node@.wf(),
    ensures
        r@ == resolve(graph@, node@),
{
    let deps = dependency_hashes(graph, &node.d);
    proof {
        lemma_resolved_keys(graph@, node@.d);
    }
    let i = match deps {
        Some(pairs) => Some(program_impl_hash(&node.a, &pairs)),
        None => None,
    };
    proof {
        assert(i matches Some(h) ==> effective_in(graph@, node@) == Some(h@));
        assert(i is None ==> effective_in(graph@, node@) is None);
    }
    Node { i, ..node }
}

/// The entry under `k`, if any, holds the effective hash that its
/// dependencies give it in `g`.
pub open spec fn consistent(g: GraphView, k: Seq<char>) -> bool {
    g.lookup(k) matches Some(m) ==> m.i == effective_in(g, m)
}

/// The entry under `y` differs between `a` and `b`.
pub open spec fn changed(a: GraphView, b: GraphView, y: Seq<char>) -> bool {
    a.lookup(y) != b.lookup(y)
}

/// The entry under `k` lists `y` among its dependencies.
pub open spec fn depends(g: GraphView, k: Seq<char>, y: Seq<char>) -> bool {
    g.lookup(k) matches Some(m) && m.d.contains(y)
}

/// Going from `a` to `b`, every entry that changed, and every entry that
/// depends on one that changed, holds the effective hash its dependencies
/// give it in `b`.
pub open spec fn settled(a: GraphView, b: GraphView) -> bool {
    &&& forall|y: Seq<char>| #[trigger] changed(a, b, y) ==> consistent(b, y)
    &&& forall|y: Seq<char>, k: Seq<char>| #[trigger] changed(a, b, y) && #[trigger] depends(b, k, y) ==> consistent(b, k)
}

proof fn lemma_resolved_frame(g1: GraphView, g2: GraphView, d: Seq<Seq<char>>)
    requires
        forall|i: int| 0 <= i < d.len() ==> g1.lookup(#[trigger] d[i]) == g2.lookup(d[i]),
    ensures
        resolved_deps(g1, d) == resolved_deps(g2, d),
    decreases d.len(),
{
    if d.len() > 0 {
        let p = d.drop_last();
        assert forall|i: int| 0 <= i < p.len() implies g1.lookup(#[trigger] p[i]) == g2.lookup(p[i]) by {
            assert(p[i] == d[i]);
        }
        lemma_resolved_frame(g1, g2, p);
        assert(g1.lookup(d[d.len() - 1]) == g2.lookup(d[d.len() - 1]));
    }
}

/// An effective hash is unchanged when none of the dependencies changed.
proof fn lemma_effective_frame(g1: GraphView, g2: GraphView, n: NodeView)
    requires
        forall|y: Seq<char>| n.d.contains(y) ==> !changed(g1, g2, y),
    ensures
        effective_in(g1, n) == effective_in(g2, n),
{
    assert forall|i: int| 0 <= i < n.d.len() implies g1.lookup(#[trigger] n.d[i]) == g2.lookup(n.d[i]) by {
        assert(n.d.contains(n.d[i]));
    }
    lemma_resolved_frame(g1, g2, n.d);
}

/// A node stored as resolved in `a` is consistent in any settled successor.
proof fn lemma_resolved_consistent(a: GraphView, b: GraphView, k: Seq<char>, n: NodeView)
    requires
        settled(a, b),
        b.lookup(k) == Some(resolve(a, n)),
    ensures
        consistent(b, k),
{
    let m = resolve(a, n);
    if exists|y: Seq<char>| m.d.contains(y) && changed(a, b, y) {
        let y = choose|y: Seq<char>| m.d.contains(y) && changed(a, b, y);
        assert(depends(b, k, y));
    } else {
        lemma_effective_frame(a, b, m);
        assert(effective_in(a, m) == effective_in(a, n));
    }
}

/// What is consistent before a settled step stays consistent after it.
proof fn lemma_keep_consistent(a: GraphView, b: GraphView, k: Seq<char>)
    requires
        settled(a, b),
        consistent(a, k),
    ensures
        consistent(b, k),
{
    if changed(a, b, k) {
    } else if let Some(m) = b.lookup(k) {
        if exists|y: Seq<char>| m.d.contains(y) && changed(a, b, y) {
            let y = choose|y: Seq<char>| m.d.contains(y) && changed(a, b, y);
            assert(depends(b, k, y));
        } else {
            lemma_effective_frame(a, b, m);
        }
    }
}

/// Two settled steps make a settled step.
proof fn lemma_settled_compose(a: GraphView, b: GraphView, c: GraphView)
    requires
        settled(a, b),
        settled(b, c),
    ensures
        settled(a, c),
{
    assert forall|y: Seq<char>| #[trigger] changed(a, c, y) implies consistent(c, y) by {
        if !changed(b, c, y) {
            assert(changed(a, b, y));
            lemma_keep_consistent(b, c, y);
        }
    }
    assert forall|y: Seq<char>, k: Seq<char>| #[trigger] changed(a, c, y) && #[trigger] depends(c, k, y) implies consistent(c, k) by {
        if !changed(b, c, y) && !changed(b, c, k) {
            assert(depends(b, k, y));
            assert(changed(a, b, y));
            lemma_keep_consistent(b, c, k);
        }
    }
}

/// Keys are visited at most once along one chain of dependents; a key met
/// again on its own chain is a cycle, and that branch stops there. The
/// result is `false` when some branch stopped.
fn cascade(graph: &mut Graph, node: Node, path: &Vec<Mangled>) -> (r: bool)
    requires
        old(graph).wf(),
        node@.wf(),
    ensures
        final(graph).wf(),
        final(graph)@.existing == old(graph)@.existing,
        forall|k: Seq<char>| #[trigger] keys_view(path@).contains(k) ==> final(graph)@.lookup(k) == old(graph)@.lookup(k),
        !keys_view(path@).contains(node_key(node@)) && path@.len() < usize::MAX ==> final(graph)@.lookup(node_key(node@))
            == Some(resolve(old(graph)@, node@)),
        !keys_view(path@).contains(node_key(node@)) && old(graph)@.lookup(node_key(node@)) == Some(
            resolve(old(graph)@, node@),
        ) ==> final(graph)@ == old(graph)@,
        r ==> !keys_view(path@).contains(node_key(node@)) && path@.len() < usize::MAX,
        !keys_view(path@).contains(node_key(node@)) && path@.len() < usize::MAX && old(graph)@.lookup(node_key(node@))
            == Some(resolve(old(graph)@, node@)) ==> r,
        r ==> settled(old(graph)@, final(graph)@),
    decreases usize::MAX - path@.len(),
{
    let key = node_mangle(&node);
    if has_key(path, &key) {
        return false;
    }
    if path.len() == usize::MAX {
        return false;
    }
    let ghost g0 = graph@;
    let ghost n0 = node@;
    let resolved = resolve_node(graph, node);
    assert(node_key(resolved@) == node_key(n0));
    if !graph.insert(resolved) {
        return true;
    }
    let ghost g1 = graph@;
    let ghost r0 = node_key(n0);
    let dependents = graph.find_with_dep(key.duplicate());
    proof {
        assert forall|i: int| 0 <= i < dependents@.len() implies (#[trigger] dependents@[i])@.wf() by {
            graph.lemma_lookup_wf(node_key(dependents@[i]@));
        }
    }
    let mut chain = clone_keys(path);
    chain.push(key);
    proof {
        assert(keys_view(chain@) =~= keys_view(path@).push(r0));
    }
    let mut complete = true;
    let mut j: usize = 0;
    while j < dependents.len()
        invariant
            graph.wf(),
            graph@.existing == g0.existing,
            g1.existing == g0.existing,
            keys_view(chain@) == keys_view(path@).push(r0),
            chain@.len() == path@.len() + 1,
            j <= dependents@.len(),
            forall|i: int| 0 <= i < dependents@.len() ==> (#[trigger] dependents@[i])@.wf(),
            path@.len() < usize::MAX,
            !keys_view(path@).contains(r0),
            forall|k: Seq<char>| #[trigger] keys_view(chain@).contains(k) ==> graph@.lookup(k) == g1.lookup(k),
            complete ==> settled(g1, graph@),
            complete ==> forall|i: int| 0 <= i < j ==> consistent(graph@, node_key(#[trigger] dependents@[i]@)),
            complete ==> forall|i: int| 0 <= i < j ==> !keys_view(chain@).contains(node_key(#[trigger] dependents@[i]@)),
        decreases dependents.len() - j,
    {
        let ghost gb = graph@;
        let n = dependents[j].duplicate();
        let ghost nj = n@;
        let ok = cascade(graph, n, &chain);
        if !ok {
            complete = false;
        }
        proof {
            if complete {
                let ga = graph@;
                lemma_settled_compose(g1, gb, ga);
                assert forall|i: int| 0 <= i < j + 1 implies consistent(ga, node_key(#[trigger] dependents@[i]@)) by {
                    if i < j {
                        lemma_keep_consistent(gb, ga, node_key(dependents@[i]@));
                    } else {
                        lemma_resolved_consistent(gb, ga, node_key(nj), nj);
                    }
                }
            }
        }
        j = j + 1;
    }
    proof {
        assert(keys_view(chain@).contains(r0)) by {
            assert(keys_view(chain@)[path@.len() as int] == r0);
        }
        assert forall|k: Seq<char>| #[trigger] keys_view(path@).contains(k) implies graph@.lookup(k) == g0.lookup(k) by {
            let i = choose|i: int| 0 <= i < keys_view(path@).len() && keys_view(path@)[i] == k;
            assert(keys_view(chain@)[i] == k);
            assert(keys_view(chain@).contains(k));
            assert(k != r0);
        }
        if complete {
            let ge = graph@;
            let rn = resolve(g0, n0);
            assert(g1.lookup(r0) == Some(rn));
            assert(ge.lookup(r0) == Some(rn));
            // A dependent of the node in `g1` is among the snapshot.
            assert forall|k: Seq<char>| #[trigger] depends(g1, k, r0) implies consistent(ge, k) by {
                assert(g1.lookup(k) is Some && g1.lookup(k)->0.d.contains(r0));
                let i = choose|i: int| 0 <= i < dependents@.len() && node_key(dependents@[i]@) == k;
                assert(consistent(ge, node_key(dependents@[i]@)));
            }
            // The node itself.
            assert(consistent(ge, r0)) by {
                if depends(g1, r0, r0) {
                } else if exists|y: Seq<char>| rn.d.contains(y) && changed(g0, ge, y) {
                    let y = choose|y: Seq<char>| rn.d.contains(y) && changed(g0, ge, y);
                    assert(y != r0);
                    assert(changed(g1, ge, y));
                    assert(depends(ge, r0, y));
                } else {
                    lemma_effective_frame(g0, ge, rn);
                    assert(effective_in(g0, rn) == effective_in(g0, n0));
                }
            }
            assert forall|y: Seq<char>| #[trigger] changed(g0, ge, y) implies consistent(ge, y) by {
                if y != r0 {
                    assert(changed(g1, ge, y));
                }
            }
            assert forall|y: Seq<char>, k: Seq<char>| #[trigger] changed(g0, ge, y) && #[trigger] depends(ge, k, y) implies consistent(ge, k) by {
                if y != r0 {
                    assert(changed(g1, ge, y));
                } else if !changed(g1, ge, k) {
                    assert(depends(g1, k, r0));
                }
            }
        }
    }
    complete
}

/// Gives `node` its effective hash, stores it, and when that changed the
/// graph, cascades to every node that depends on it. Returns `false` when a
/// cycle of dependencies cut the cascade short; when it returns `true`, every
/// entry that changed and every entry depending on one that changed holds
/// the effective hash its dependencies give it in the final graph.
pub fn handle_node(graph: &mut Graph, node: Node) -> (r: bool)
    requires
        old(graph).wf(),
        node@.wf(),
    ensures
        final(graph).wf(),
        final(graph)@.existing == old(graph)@.existing,
        final(graph)@.lookup(node_key(node@)) == Some(resolve(old(graph)@, node@)),
        old(graph)@.lookup(node_key(node@)) == Some(resolve(old(graph)@, node@)) ==> final(graph)@ == old(graph)@ && r,
        r ==> settled(old(graph)@, final(graph)@),
        old(graph)@.lookup(node_key(node@)) != Some(resolve(old(graph)@, node@)) && r ==> forall|k: Seq<char>|
            #[trigger] depends(final(graph)@, k, node_key(node@)) ==> final(graph)@.lookup(k) == Some(
                resolve(final(graph)@, final(graph)@.lookup(k)->0),
            ),
{
    let path: Vec<Mangled> = Vec::new();
    proof {
        assert(keys_view(path@) =~= Seq::<Seq<char>>::empty());
    }
    let ghost g0 = graph@;
    let ghost key = node_key(node@);
    let ghost rn = resolve(g0, node@);
    let r = cascade(graph, node, &path);
    proof {
        if r && g0.lookup(key) != Some(rn) {
            assert(changed(g0, graph@, key));
            assert forall|k: Seq<char>| #[trigger] depends(graph@, k, key) implies graph@.lookup(k) == Some(
                resolve(graph@, graph@.lookup(k)->0),
            ) by {
                assert(consistent(graph@, k));
            }
        }
    }
    r
}

proof fn lemma_single_resolved(g: GraphView, d: Seq<char>, h: Seq<char>)
    requires
        g.lookup(d) matches Some(m) && m.i == Some(h),
    ensures
        resolved_deps(g, seq![d]) == Some(seq![(d, h)]),
{
    let s = seq![d];
    assert(s.drop_last() =~= Seq::<Seq<char>>::empty());
    assert(s.last() == d);
    assert(resolved_deps(g, s.drop_last()) == Some(Seq::<(Seq<char>, Seq<char>)>::empty()));
    assert(Seq::<(Seq<char>, Seq<char>)>::empty().push((d, h)) =~= seq![(d, h)]);
}

/// A node with the single dependency `d`, resolved in two graphs where `d`
/// carries the effective hashes `h1` and `h2`, gets an effective hash in
/// both, and two different ones unless the 64-bit digests of the two inputs
/// collide.
pub proof fn lemma_handled_dependency_sensitivity(
    g1: GraphView,
    g2: GraphView,
    n: NodeView,
    d: Seq<char>,
    h1: Seq<char>,
    h2: Seq<char>,
)
    requires
        n.d == seq![d],
        g1.lookup(d) matches Some(m1) && m1.i == Some(h1),
        g2.lookup(d) matches Some(m2) && m2.i == Some(h2),
        sip_digest(effective_parts(n.a, seq![(d, h1)])) != sip_digest(effective_parts(n.a, seq![(d, h2)])),
    ensures
        resolve(g1, n).i is Some,
        resolve(g2, n).i is Some,
        resolve(g1, n).i != resolve(g2, n).i,
{
    lemma_single_resolved(g1, d, h1);
    lemma_single_resolved(g2, d, h2);
    lemma_dependency_sensitivity(n.a, d, h1, h2);
}

} // verus!
