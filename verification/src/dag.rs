//! Dependency-graph algorithms over task ids. An edge `(child, parent)`
//! means that `child` depends on `parent`: the parent runs first.
use vstd::prelude::*;
use vstd::set_lib::*;
use crate::text::{join_with, join_strings, push_str, views, distinct, position_of, sort_distinct, strictly_sorted, str_lt, str_less, lemma_str_lt_total, lemma_lex_transitive, lemma_lex_asymmetric};
use vstd::utf8::encode_utf8;

verus! {

/// The edges as pairs of character sequences.
pub open spec fn edge_views(edges: Seq<(String, String)>) -> Seq<(Seq<char>, Seq<char>)> {
    edges.map_values(|e: (String, String)| (e.0@, e.1@))
}

/// `p` is a direct parent of `c`.
pub open spec fn has_edge(es: Seq<(Seq<char>, Seq<char>)>, c: Seq<char>, p: Seq<char>) -> bool {
    exists|k: int| 0 <= k < es.len() && #[trigger] es[k] == (c, p)
}

/// `x` is the child or the parent of some edge.
pub open spec fn is_endpoint(es: Seq<(Seq<char>, Seq<char>)>, x: Seq<char>) -> bool {
    exists|k: int| 0 <= k < es.len() && ((#[trigger] es[k]).0 == x || es[k].1 == x)
}

/// Every step of `path` goes from a node to one of its parents.
pub open spec fn is_chain(es: Seq<(Seq<char>, Seq<char>)>, path: Seq<Seq<char>>) -> bool {
    forall|i: int| #![trigger path[i]] 0 <= i < path.len() - 1 ==> has_edge(es, path[i], path[i + 1])
}

/// `x` is a transitive parent of `start`: a chain of one or more edges
/// leads from `start` up to `x`.
pub open spec fn is_ancestor(es: Seq<(Seq<char>, Seq<char>)>, start: Seq<char>, x: Seq<char>) -> bool {
    exists|path: Seq<Seq<char>>|
        #[trigger] is_chain(es, path) && path.len() >= 2 && path[0] == start && path.last() == x
}

/// Index form of a graph: `parents[i]` lists (by position in `ids`)
/// exactly the parents of `ids[i]`.
pub open spec fn indexed(ids: Seq<Seq<char>>, parents: Seq<Vec<usize>>, es: Seq<(Seq<char>, Seq<char>)>) -> bool {
    &&& distinct(ids)
    &&& parents.len() == ids.len()
    &&& forall|i: int, q: int| 0 <= i < ids.len() && 0 <= q < parents[i].len() ==>
            (#[trigger] parents[i]@[q]) < ids.len() && has_edge(es, ids[i], ids[parents[i]@[q] as int])
    &&& forall|i: int, p: Seq<char>| 0 <= i < ids.len() && #[trigger] has_edge(es, ids[i], p) ==>
            exists|q: int| 0 <= q < parents[i].len() && ids[(#[trigger] parents[i]@[q]) as int] == p
    &&& forall|x: Seq<char>| is_endpoint(es, x) ==> ids.contains(x)
}

/// Interns `s` into `ids` (with an empty parent list) and returns its position.
fn intern(ids: &mut Vec<String>, parents: &mut Vec<Vec<usize>>, s: &String) -> (r: usize)
    requires
        distinct(views(old(ids)@)),
        old(parents).len() == old(ids).len(),
    ensures
        r < final(ids).len(),
        final(ids)@[r as int]@ == s@,
        distinct(views(final(ids)@)),
        final(parents).len() == final(ids).len(),
        views(old(ids)@).contains(s@) ==> final(ids)@ == old(ids)@ && final(parents)@ == old(parents)@,
        !views(old(ids)@).contains(s@) ==> views(final(ids)@) == views(old(ids)@).push(s@)
            && final(parents)@.drop_last() == old(parents)@ && final(parents)@.last()@.len() == 0
            && r == old(ids).len(),
{
    match position_of(ids, s.as_str()) {
        Some(i) => {
            proof {
                assert(views(ids@)[i as int] == s@);
            }
            i
        },
        None => {
            proof {
                assert(!views(ids@).contains(s@));
            }
            let ghost before = views(ids@);
            ids.push(s.clone());
            parents.push(Vec::new());
            proof {
                assert(views(ids@) =~= before.push(s@));
                assert(parents@.drop_last() =~= old(parents)@);
            }
            ids.len() - 1
        },
    }
}

/// Parent lists that are sound for `es` and complete for its first `k` edges.
spec fn indexed_upto(ids: Seq<Seq<char>>, parents: Seq<Vec<usize>>, es: Seq<(Seq<char>, Seq<char>)>, k: int) -> bool {
    &&& distinct(ids)
    &&& parents.len() == ids.len()
    &&& forall|i: int, q: int| 0 <= i < ids.len() && 0 <= q < parents[i].len() ==>
            (#[trigger] parents[i]@[q]) < ids.len() && has_edge(es, ids[i], ids[parents[i]@[q] as int])
    &&& forall|i: int, p: Seq<char>| 0 <= i < ids.len() && #[trigger] has_edge(es.take(k), ids[i], p) ==>
            exists|q: int| 0 <= q < parents[i].len() && ids[(#[trigger] parents[i]@[q]) as int] == p
    &&& forall|x: Seq<char>| is_endpoint(es.take(k), x) ==> ids.contains(x)
}

/// Builds the index form of the graph whose nodes are `seed` plus every
/// edge endpoint; the nodes of `seed` come first, in their order.
fn build_graph(seed: &[String], edges: &[(String, String)]) -> (r: (Vec<String>, Vec<Vec<usize>>))
    ensures
        indexed(views(r.0@), r.1@, edge_views(edges@)),
        forall|x: Seq<char>| #[trigger] views(r.0@).contains(x) <==> (views(seed@).contains(x) || is_endpoint(edge_views(edges@), x)),
        seed.len() > 0 ==> r.0.len() > 0 && r.0@[0]@ == seed@[0]@,
{
    let ghost es = edge_views(edges@);
    let mut ids: Vec<String> = Vec::new();
    let mut parents: Vec<Vec<usize>> = Vec::new();
    let mut k: usize = 0;
    while k < seed.len()
        invariant
            k <= seed.len(),
            distinct(views(ids@)),
            parents.len() == ids.len(),
            forall|i: int| 0 <= i < parents.len() ==> (#[trigger] parents@[i])@.len() == 0,
            forall|x: Seq<char>| views(ids@).contains(x) <==> views(seed@).take(k as int).contains(x),
            k > 0 ==> ids.len() > 0 && ids@[0]@ == seed@[0]@,
            k == 0 ==> ids.len() == 0,
        decreases seed.len() - k,
    {
        let ghost before = views(ids@);
        let ghost xk = seed@[k as int]@;
        assert(views(seed@)[k as int] == xk);
        let _ = intern(&mut ids, &mut parents, &seed[k]);
        proof {
            let after = views(ids@);
            let tk = views(seed@).take(k as int);
            let tk1 = views(seed@).take(k + 1);
            assert(tk1 =~= tk.push(xk));
            if before.contains(xk) {
                assert(after == before);
            } else {
                assert(after == before.push(xk));
            }
            assert forall|x: Seq<char>| after.contains(x) <==> tk1.contains(x) by {
                if after.contains(x) {
                    if x == xk {
                        assert(tk1[k as int] == x);
                    } else {
                        let j = choose|j: int| 0 <= j < after.len() && #[trigger] after[j] == x;
                        assert(j < before.len());
                        assert(before[j] == x);
                        assert(before.contains(x));
                        assert(tk.contains(x));
                        let i = choose|i: int| 0 <= i < tk.len() && #[trigger] tk[i] == x;
                        assert(tk1[i] == x);
                    }
                }
                if tk1.contains(x) {
                    if x == xk {
                        if before.contains(xk) {
                            let i = choose|i: int| 0 <= i < before.len() && #[trigger] before[i] == x;
                            assert(after[i] == x);
                        } else {
                            assert(after[before.len() as int] == x);
                        }
                    } else {
                        let j = choose|j: int| 0 <= j < tk1.len() && #[trigger] tk1[j] == x;
                        assert(tk[j] == x);
                        assert(tk.contains(x));
                        assert(before.contains(x));
                        let i = choose|i: int| 0 <= i < before.len() && #[trigger] before[i] == x;
                        assert(after[i] == x);
                    }
                }
            }
            if k == 0 {
                assert(before.len() == 0);
                assert(after[0] == xk);
            } else {
                assert(after[0] == before[0]);
            }
            assert forall|i: int| 0 <= i < parents.len() implies (#[trigger] parents@[i])@.len() == 0 by {
                if !before.contains(xk) && i == parents.len() - 1 {
                } else if !before.contains(xk) {
                    assert(parents@[i] == parents@.drop_last()[i]);
                }
            }
        }
        k = k + 1;
    }
    proof {
        assert(views(seed@).take(seed.len() as int) =~= views(seed@));
        assert(es.take(0) =~= Seq::<(Seq<char>, Seq<char>)>::empty());
    }
    let mut e: usize = 0;
    while e < edges.len()
        invariant
            es == edge_views(edges@),
            es.len() == edges@.len(),
            e <= edges.len(),
            indexed_upto(views(ids@), parents@, es, e as int),
            forall|x: Seq<char>| #[trigger] views(ids@).contains(x) <==> (views(seed@).contains(x) || is_endpoint(es.take(e as int), x)),
            seed.len() > 0 ==> ids.len() > 0 && ids@[0]@ == seed@[0]@,
        decreases edges.len() - e,
    {
        let ghost ids0 = views(ids@);
        let ghost par0 = parents@;
        let ci = intern(&mut ids, &mut parents, &edges[e].0);
        let ghost ids1 = views(ids@);
        let ghost par1 = parents@;
        let pi = intern(&mut ids, &mut parents, &edges[e].1);
        let ghost ids2 = views(ids@);
        let ghost par2 = parents@;
        parents[ci].push(pi);
        proof {
            let c = es[e as int].0;
            let pv = es[e as int].1;
            assert(es[e as int] == (edges@[e as int].0@, edges@[e as int].1@));
            assert(ids1[ci as int] == c);
            assert(ids2[pi as int] == pv);
            // ids only grow at the end
            assert(forall|j: int| 0 <= j < ids0.len() ==> #[trigger] ids2[j] == ids0[j]);
            assert(forall|j: int| 0 <= j < ids1.len() ==> #[trigger] ids2[j] == ids1[j]);
            assert(ids2[ci as int] == c);
            assert(forall|i: int| 0 <= i < ids0.len() ==> #[trigger] par2[i] == par0[i]);
            assert(forall|i: int| ids0.len() <= i < ids2.len() ==> (#[trigger] par2[i])@.len() == 0);
            assert(forall|i: int| 0 <= i < ids2.len() && i != ci ==> #[trigger] parents@[i] == par2[i]);
            assert(parents@[ci as int]@ == par2[ci as int]@.push(pi));
            assert(has_edge(es, c, pv)) by {
                assert(es[e as int] == (c, pv));
            }
            let ids3 = views(ids@);
            assert(ids3 == ids2);
            assert(es.take(e + 1) =~= es.take(e as int).push((c, pv)));
            // soundness
            assert forall|i: int, q: int| 0 <= i < ids3.len() && 0 <= q < parents@[i].len() implies
                (#[trigger] parents@[i]@[q]) < ids3.len() && has_edge(es, ids3[i], ids3[parents@[i]@[q] as int]) by {
                if i == ci && q == parents@[i].len() - 1 {
                } else if i < ids0.len() {
                    assert(parents@[i]@[q] == par0[i]@[q]);
                    assert(par0[i]@[q] < ids0.len());
                } else {
                    assert(par2[i]@.len() == 0);
                }
            }
            // completeness for one more edge
            assert forall|i: int, x: Seq<char>| 0 <= i < ids3.len() && #[trigger] has_edge(es.take(e + 1), ids3[i], x) implies
                exists|q: int| 0 <= q < parents@[i].len() && ids3[(#[trigger] parents@[i]@[q]) as int] == x by {
                let kk = choose|kk: int| 0 <= kk < es.take(e + 1).len() && #[trigger] es.take(e + 1)[kk] == (ids3[i], x);
                if kk == e {
                    assert(ids3[i] == c);
                    assert(i == ci);
                    let q = parents@[i].len() - 1;
                    assert(parents@[i]@[q] == pi);
                } else {
                    assert(es.take(e as int)[kk] == (ids3[i], x));
                    assert(has_edge(es.take(e as int), ids3[i], x));
                    if i < ids0.len() {
                        assert(ids0[i] == ids3[i]);
                        let q = choose|q: int| 0 <= q < par0[i].len() && ids0[(#[trigger] par0[i]@[q]) as int] == x;
                        assert(parents@[i]@[q] == par0[i]@[q]);
                        assert(par0[i]@[q] < ids0.len());
                    } else {
                        assert(is_endpoint(es.take(e as int), ids3[i])) by {
                            assert(es.take(e as int)[kk].0 == ids3[i]);
                        }
                        assert(ids0.contains(ids3[i]));
                        let j = choose|j: int| 0 <= j < ids0.len() && #[trigger] ids0[j] == ids3[i];
                        assert(ids3[j] == ids3[i]);
                    }
                }
            }
            assert forall|x: Seq<char>| is_endpoint(es.take(e + 1), x) implies ids3.contains(x) by {
                let kk = choose|kk: int| 0 <= kk < es.take(e + 1).len() && (#[trigger] es.take(e + 1)[kk].0 == x || es.take(e + 1)[kk].1 == x);
                if kk == e {
                    if x == c {
                        assert(ids3[ci as int] == x);
                    } else {
                        assert(ids3[pi as int] == x);
                    }
                } else {
                    assert(es.take(e as int)[kk] == es.take(e + 1)[kk]);
                    assert(is_endpoint(es.take(e as int), x));
                    assert(ids0.contains(x));
                    let j = choose|j: int| 0 <= j < ids0.len() && #[trigger] ids0[j] == x;
                    assert(ids3[j] == x);
                }
            }
            assert forall|x: Seq<char>| #[trigger] ids3.contains(x) <==> (views(seed@).contains(x) || is_endpoint(es.take(e + 1), x)) by {
                if ids3.contains(x) {
                    let j = choose|j: int| 0 <= j < ids3.len() && #[trigger] ids3[j] == x;
                    if j < ids0.len() {
                        assert(ids0.contains(x));
                        if is_endpoint(es.take(e as int), x) {
                            let kk = choose|kk: int| 0 <= kk < es.take(e as int).len() && (#[trigger] es.take(e as int)[kk].0 == x || es.take(e as int)[kk].1 == x);
                            assert(0 <= kk < e);
                            assert(es.take(e + 1)[kk] == es[kk]);
                            assert(es.take(e as int)[kk] == es[kk]);
                            assert(es.take(e + 1)[kk].0 == x || es.take(e + 1)[kk].1 == x);
                        }
                    } else if j < ids1.len() {
                        assert(x == c);
                        assert(es.take(e + 1)[e as int].0 == x);
                    } else {
                        assert(x == pv);
                        assert(es.take(e + 1)[e as int].1 == x);
                    }
                }
                if views(seed@).contains(x) {
                    assert(ids0.contains(x));
                    let j = choose|j: int| 0 <= j < ids0.len() && #[trigger] ids0[j] == x;
                    assert(ids3[j] == x);
                }
            }
            if seed.len() > 0 {
                assert(ids3[0] == ids0[0]);
            }
        }
        e = e + 1;
    }
    proof {
        assert(es.take(edges.len() as int) =~= es);
    }
    (ids, parents)
}

/// A set closed under "parent of" that holds the first node of a chain holds all of it.
proof fn lemma_chain_in_closed_set(es: Seq<(Seq<char>, Seq<char>)>, s: Set<Seq<char>>, path: Seq<Seq<char>>)
    requires
        is_chain(es, path),
        path.len() >= 1,
        s.contains(path[0]),
        forall|c: Seq<char>, p: Seq<char>| #[trigger] s.contains(c) && #[trigger] has_edge(es, c, p) ==> s.contains(p),
    ensures
        forall|i: int| 0 <= i < path.len() ==> s.contains(#[trigger] path[i]),
    decreases path.len(),
{
    if path.len() > 1 {
        let prefix = path.drop_last();
        assert(is_chain(es, prefix)) by {
            assert forall|i: int| #![trigger prefix[i]] 0 <= i < prefix.len() - 1 implies has_edge(es, prefix[i], prefix[i + 1]) by {
                assert(prefix[i] == path[i]);
                assert(prefix[i + 1] == path[i + 1]);
            }
        }
        lemma_chain_in_closed_set(es, s, prefix);
        assert forall|i: int| 0 <= i < path.len() implies s.contains(#[trigger] path[i]) by {
            if i < path.len() - 1 {
                assert(prefix[i] == path[i]);
            } else {
                let k = path.len() - 2;
                assert(prefix[k] == path[k]);
                assert(s.contains(path[k]));
                assert(has_edge(es, path[k], path[k + 1]));
            }
        }
    }
}

/// One more edge extends an ancestry.
pub(crate) proof fn lemma_ancestor_step(es: Seq<(Seq<char>, Seq<char>)>, start: Seq<char>, x: Seq<char>, y: Seq<char>)
    requires
        x == start || is_ancestor(es, start, x),
        has_edge(es, x, y),
    ensures
        is_ancestor(es, start, y),
{
    if x == start {
        let path = seq![start, y];
        assert(is_chain(es, path)) by {
            assert forall|i: int| #![trigger path[i]] 0 <= i < path.len() - 1 implies has_edge(es, path[i], path[i + 1]) by {
                assert(i == 0);
            }
        }
        assert(path.last() == y);
    } else {
        let path = choose|path: Seq<Seq<char>>|
            #[trigger] is_chain(es, path) && path.len() >= 2 && path[0] == start && path.last() == x;
        let longer = path.push(y);
        assert(is_chain(es, longer)) by {
            assert forall|i: int| #![trigger longer[i]] 0 <= i < longer.len() - 1 implies has_edge(es, longer[i], longer[i + 1]) by {
                if i < path.len() - 1 {
                    assert(longer[i] == path[i]);
                    assert(longer[i + 1] == path[i + 1]);
                } else {
                    assert(longer[i] == x);
                }
            }
        }
        assert(longer[0] == start);
        assert(longer.last() == y);
    }
}

/// Positions that carry a mark.
spec fn marked_set(seen: Seq<bool>) -> Set<int> {
    Set::new(|i: int| 0 <= i < seen.len() && seen[i])
}

proof fn lemma_marked_bounded(seen: Seq<bool>)
    ensures
        marked_set(seen).finite(),
        marked_set(seen).len() <= seen.len(),
{
    lemma_int_range(0, seen.len() as int);
    assert(marked_set(seen).subset_of(set_int_range(0, seen.len() as int)));
    lemma_len_subset(marked_set(seen), set_int_range(0, seen.len() as int));
}

proof fn lemma_mark_one(seen: Seq<bool>, p: int)
    requires
        0 <= p < seen.len(),
        !seen[p],
    ensures
        marked_set(seen.update(p, true)).len() == marked_set(seen).len() + 1,
{
    lemma_marked_bounded(seen);
    assert(marked_set(seen.update(p, true)) =~= marked_set(seen).insert(p));
}

/// Marks everything reachable from node 0 through parent lists.
fn mark_from_first(ids: &Vec<String>, parents: &Vec<Vec<usize>>, Ghost(es): Ghost<Seq<(Seq<char>, Seq<char>)>>) -> (seen: Vec<bool>)
    requires
        indexed(views(ids@), parents@, es),
        ids.len() > 0,
    ensures
        seen.len() == ids.len(),
        seen@[0],
        forall|i: int, q: int| 0 <= i < ids.len() && seen@[i] && 0 <= q < parents@[i].len() ==>
            seen@[(#[trigger] parents@[i]@[q]) as int],
        forall|i: int| 0 <= i < ids.len() && #[trigger] seen@[i] && i != 0 ==> is_ancestor(es, views(ids@)[0], views(ids@)[i]),
{
    let ghost idv = views(ids@);
    let ghost start = idv[0];
    let n = ids.len();
    let mut seen: Vec<bool> = Vec::new();
    while seen.len() < n
        invariant
            seen.len() <= n,
            forall|i: int| 0 <= i < seen.len() ==> (#[trigger] seen@[i]) == (i == 0),
        decreases n - seen.len(),
    {
        let first = seen.len() == 0;
        seen.push(first);
    }
    let mut stack: Vec<usize> = Vec::new();
    stack.push(0);
    proof {
        assert(stack@[0] == 0);
        assert(stack@.contains(0usize));
        lemma_marked_bounded(seen@);
    }
    loop
        invariant
            n == ids.len(),
            idv == views(ids@),
            n > 0,
            start == idv[0],
            indexed(idv, parents@, es),
            seen.len() == n,
            seen@[0],
            forall|t: int| 0 <= t < stack.len() ==> (#[trigger] stack@[t]) < n && seen@[stack@[t] as int],
            forall|i: int, q: int| 0 <= i < n && seen@[i] && !stack@.contains(i as usize) && 0 <= q < parents@[i].len() ==>
                seen@[(#[trigger] parents@[i]@[q]) as int],
            forall|i: int| 0 <= i < n && #[trigger] seen@[i] && i != 0 ==> is_ancestor(es, start, idv[i]),
        ensures
            stack@.len() == 0,
        decreases n - marked_set(seen@).len(), stack.len(),
    {
        proof {
            lemma_marked_bounded(seen@);
        }
        let ghost stack_before = stack@;
        let top = stack.pop();
        match top {
            None => {
                break;
            },
            Some(node) => {
                proof {
                    assert(stack_before == stack@.push(node));
                    assert forall|i: int| 0 <= i < n && i != node && !stack@.contains(i as usize) implies !(#[trigger] stack_before.contains(i as usize)) by {
                        if stack_before.contains(i as usize) {
                            let t = choose|t: int| 0 <= t < stack_before.len() && #[trigger] stack_before[t] == i as usize;
                            if t < stack@.len() {
                                assert(stack@[t] == i as usize);
                            }
                        }
                    }
                }
                let ghost seen_before = seen@;
                visit_parents(ids, parents, node, &mut seen, &mut stack, Ghost(es));
                proof {
                    lemma_marked_bounded(seen@);
                    lemma_len_subset(marked_set(seen_before), marked_set(seen@));
                }
            },
        }
    }
    seen
}

/// Marks the unseen parents of `node` and pushes them onto the stack.
fn visit_parents(
    ids: &Vec<String>,
    parents: &Vec<Vec<usize>>,
    node: usize,
    seen: &mut Vec<bool>,
    stack: &mut Vec<usize>,
    Ghost(es): Ghost<Seq<(Seq<char>, Seq<char>)>>,
)
    requires
        indexed(views(ids@), parents@, es),
        node < ids.len(),
        old(seen).len() == ids.len(),
        old(seen)@[0],
        old(seen)@[node as int],
        forall|t: int| 0 <= t < old(stack).len() ==> (#[trigger] old(stack)@[t]) < ids.len() && old(seen)@[old(stack)@[t] as int],
        forall|i: int, q: int| 0 <= i < ids.len() && old(seen)@[i] && !old(stack)@.contains(i as usize) && i != node && 0 <= q < parents@[i].len() ==>
            old(seen)@[(#[trigger] parents@[i]@[q]) as int],
        forall|i: int| 0 <= i < ids.len() && #[trigger] old(seen)@[i] && i != 0 ==> is_ancestor(es, views(ids@)[0], views(ids@)[i]),
    ensures
        final(seen).len() == ids.len(),
        final(seen)@[0],
        marked_set(old(seen)@).subset_of(marked_set(final(seen)@)),
        final(stack).len() == old(stack).len() || marked_set(final(seen)@).len() > marked_set(old(seen)@).len(),
        final(stack).len() >= old(stack).len(),
        forall|t: int| 0 <= t < final(stack).len() ==> (#[trigger] final(stack)@[t]) < ids.len() && final(seen)@[final(stack)@[t] as int],
        forall|i: int, q: int| 0 <= i < ids.len() && final(seen)@[i] && !final(stack)@.contains(i as usize) && 0 <= q < parents@[i].len() ==>
            final(seen)@[(#[trigger] parents@[i]@[q]) as int],
        forall|i: int| 0 <= i < ids.len() && #[trigger] final(seen)@[i] && i != 0 ==> is_ancestor(es, views(ids@)[0], views(ids@)[i]),
{
    let ghost idv = views(ids@);
    let ghost start = idv[0];
    let n = ids.len();
    let row = &parents[node];
    let ghost stack0 = stack@;
    let ghost seen0 = seen@;
    proof {
        lemma_marked_bounded(seen0);
    }
    let mut q: usize = 0;
    while q < row.len()
        invariant
            n == ids.len(),
            idv == views(ids@),
            start == idv[0],
            indexed(idv, parents@, es),
            node < n,
            row == parents@[node as int],
            seen.len() == n,
            seen@[0],
            seen@[node as int],
            q <= row.len(),
            marked_set(seen0).finite(),
            marked_set(seen0).subset_of(marked_set(seen@)),
            stack.len() == stack0.len() || marked_set(seen@).len() > marked_set(seen0).len(),
            stack.len() >= stack0.len(),
            forall|t: int| 0 <= t < stack.len() ==> (#[trigger] stack@[t]) < n && seen@[stack@[t] as int],
            forall|i: int, qq: int| 0 <= i < n && seen@[i] && !stack@.contains(i as usize) && i != node && 0 <= qq < parents@[i].len() ==>
                seen@[(#[trigger] parents@[i]@[qq]) as int],
            forall|qq: int| 0 <= qq < q ==> seen@[(#[trigger] row@[qq]) as int],
            forall|i: int| 0 <= i < n && #[trigger] seen@[i] && i != 0 ==> is_ancestor(es, start, idv[i]),
        decreases row.len() - q,
    {
        let p = row[q];
        proof {
            assert(parents@[node as int]@[q as int] == p);
            lemma_marked_bounded(seen@);
        }
        let ghost stack_q = stack@;
        let ghost seen_q = seen@;
        if !seen[p] {
            proof {
                assert(has_edge(es, idv[node as int], idv[p as int]));
                if node != 0 {
                    assert(is_ancestor(es, start, idv[node as int]));
                }
                lemma_ancestor_step(es, start, idv[node as int], idv[p as int]);
                lemma_mark_one(seen_q, p as int);
            }
            seen.set(p, true);
            stack.push(p);
            proof {
                assert(seen@ == seen_q.update(p as int, true));
                assert(marked_set(seen_q).subset_of(marked_set(seen@)));
                lemma_len_subset(marked_set(seen0), marked_set(seen_q));
                assert(stack@[stack@.len() - 1] == p);
            }
        }
        proof {
            assert forall|i: int| 0 <= i < n && !stack@.contains(i as usize) implies !(#[trigger] stack_q.contains(i as usize)) by {
                if stack_q.contains(i as usize) {
                    let t = choose|t: int| 0 <= t < stack_q.len() && #[trigger] stack_q[t] == i as usize;
                    assert(stack@[t] == i as usize);
                }
            }
            assert forall|j: int| 0 <= j < n && seen_q[j] implies #[trigger] seen@[j] by {}
            assert forall|i: int, qq: int| 0 <= i < n && seen@[i] && !stack@.contains(i as usize) && i != node && 0 <= qq < parents@[i].len() implies
                seen@[(#[trigger] parents@[i]@[qq]) as int] by {
                if i == p && !seen_q[p as int] {
                    assert(stack@.contains(p));
                } else {
                    assert(seen_q[i]);
                    assert(!stack_q.contains(i as usize));
                    assert(seen_q[parents@[i]@[qq] as int]);
                }
            }
        }
        q = q + 1;
    }
    proof {
        assert forall|i: int, qq: int| 0 <= i < n && seen@[i] && !stack@.contains(i as usize) && 0 <= qq < parents@[i].len() implies
            seen@[(#[trigger] parents@[i]@[qq]) as int] by {
            if i == node {
                assert(row@[qq] == parents@[i]@[qq]);
            }
        }
    }
}

/// After marking, every ancestor of node 0 is marked.
proof fn lemma_marked_covers_ancestors(es: Seq<(Seq<char>, Seq<char>)>, idv: Seq<Seq<char>>, parents: Seq<Vec<usize>>, seen: Seq<bool>)
    requires
        indexed(idv, parents, es),
        idv.len() > 0,
        seen.len() == idv.len(),
        seen[0],
        forall|i: int, q: int| 0 <= i < idv.len() && seen[i] && 0 <= q < parents[i].len() ==>
            seen[(#[trigger] parents[i]@[q]) as int],
    ensures
        forall|x: Seq<char>| x != idv[0] && is_ancestor(es, idv[0], x) ==>
            exists|j: int| 0 <= j < idv.len() && seen[j] && #[trigger] idv[j] == x,
{
    let n = idv.len();
    let closed = Set::new(|x: Seq<char>| exists|i: int| 0 <= i < n && seen[i] && #[trigger] idv[i] == x);
    assert forall|c: Seq<char>, p: Seq<char>| #[trigger] closed.contains(c) && #[trigger] has_edge(es, c, p) implies closed.contains(p) by {
        let i = choose|i: int| 0 <= i < n && seen[i] && #[trigger] idv[i] == c;
        let q = choose|q: int| 0 <= q < parents[i].len() && idv[(#[trigger] parents[i]@[q]) as int] == p;
        assert(seen[parents[i]@[q] as int]);
    }
    assert forall|x: Seq<char>| x != idv[0] && is_ancestor(es, idv[0], x) implies
        exists|j: int| 0 <= j < n && seen[j] && #[trigger] idv[j] == x by {
        let path = choose|path: Seq<Seq<char>>|
            #[trigger] is_chain(es, path) && path.len() >= 2 && path[0] == idv[0] && path.last() == x;
        assert(closed.contains(idv[0]));
        lemma_chain_in_closed_set(es, closed, path);
        assert(closed.contains(path[path.len() - 1]));
    }
}

/// Transitive parents of `start` (child -> parent walk), sorted ascending.
/// `start` itself is never reported, even when a cycle leads back to it.
pub fn reachable(start: &str, edges: &[(String, String)]) -> (r: Vec<String>)
    ensures
        strictly_sorted(views(r@)),
        forall|x: Seq<char>| #[trigger] views(r@).contains(x) <==>
            (x != start@ && is_ancestor(edge_views(edges@), start@, x)),
{
    let ghost es = edge_views(edges@);
    let mut seed: Vec<String> = Vec::new();
    seed.push(start.to_owned());
    let (ids, parents) = build_graph(seed.as_slice(), edges);
    let ghost idv = views(ids@);
    assert(seed@[0]@ == start@);
    assert(idv[0] == start@);
    let n = ids.len();
    let seen = mark_from_first(&ids, &parents, Ghost(es));
    proof {
        lemma_marked_covers_ancestors(es, idv, parents@, seen@);
    }
    let out = collect_where(&ids, &seen, true, 1);
    let sorted = sort_distinct(&out);
    proof {
        assert forall|x: Seq<char>| #[trigger] views(sorted@).contains(x) <==> (x != start@ && is_ancestor(es, start@, x)) by {
            if views(out@).contains(x) {
                let j = choose|j: int| 1 <= j < n && seen@[j] == true && #[trigger] idv[j] == x;
                assert(idv[j] != idv[0]);
            }
            if x != start@ && is_ancestor(es, start@, x) {
                let j = choose|j: int| 0 <= j < n && seen@[j] && #[trigger] idv[j] == x;
                assert(j != 0);
                assert(views(ids@)[j] == x);
                assert(views(out@).contains(x));
            }
        }
    }
    sorted
}

/// The strings at positions `from..` whose flag equals `want`, in index order.
fn collect_where(ids: &Vec<String>, flags: &Vec<bool>, want: bool, from: usize) -> (out: Vec<String>)
    requires
        from <= ids.len(),
        distinct(views(ids@)),
        flags.len() == ids.len(),
    ensures
        distinct(views(out@)),
        forall|x: Seq<char>| #[trigger] views(out@).contains(x) <==>
            exists|j: int| from <= j < ids.len() && flags@[j] == want && #[trigger] views(ids@)[j] == x,
{
    let ghost idv = views(ids@);
    let n = ids.len();
    let mut out: Vec<String> = Vec::new();
    let ghost mut picked: Seq<int> = Seq::empty();
    let mut i: usize = from;
    while i < n
        invariant
            from <= i <= n,
            n == ids.len(),
            idv == views(ids@),
            distinct(idv),
            flags.len() == n,
            out.len() == picked.len(),
            forall|t: int| 0 <= t < picked.len() ==> from <= #[trigger] picked[t] < i && flags@[picked[t]] == want && views(out@)[t] == idv[picked[t]],
            forall|t1: int, t2: int| 0 <= t1 < t2 < picked.len() ==> #[trigger] picked[t1] < #[trigger] picked[t2],
            forall|j: int| from <= j < i && flags@[j] == want ==> #[trigger] picked.contains(j),
        decreases n - i,
    {
        let ghost picked_before = picked;
        if flags[i] == want {
            out.push(ids[i].clone());
            proof {
                picked = picked.push(i as int);
                assert(views(out@)[out.len() - 1] == idv[i as int]);
            }
        }
        proof {
            assert forall|j: int| from <= j < i + 1 && flags@[j] == want implies #[trigger] picked.contains(j) by {
                if j == i {
                    assert(picked[picked.len() - 1] == j);
                } else {
                    assert(picked_before.contains(j));
                    let t = choose|t: int| 0 <= t < picked_before.len() && #[trigger] picked_before[t] == j;
                    assert(picked[t] == j);
                }
            }
        }
        i = i + 1;
    }
    proof {
        assert forall|a: int, b: int| 0 <= a < out.len() && 0 <= b < out.len() && a != b implies views(out@)[a] != views(out@)[b] by {
            if a < b {
                assert(picked[a] < picked[b]);
            } else {
                assert(picked[b] < picked[a]);
            }
            assert(idv[picked[a]] != idv[picked[b]]);
        }
        assert forall|x: Seq<char>| #[trigger] views(out@).contains(x) <==>
            exists|j: int| from <= j < n && flags@[j] == want && #[trigger] idv[j] == x by {
            if views(out@).contains(x) {
                let t = choose|t: int| 0 <= t < out.len() && #[trigger] views(out@)[t] == x;
                assert(from <= picked[t] < n);
                assert(idv[picked[t]] == x);
            }
            if exists|j: int| from <= j < n && flags@[j] == want && #[trigger] idv[j] == x {
                let j = choose|j: int| from <= j < n && flags@[j] == want && #[trigger] idv[j] == x;
                assert(picked.contains(j));
                let t = choose|t: int| 0 <= t < picked.len() && #[trigger] picked[t] == j;
                assert(views(out@)[t] == x);
            }
        }
    }
    out
}

/// `x` belongs to the graph: it is listed as a node or is an edge endpoint.
pub open spec fn in_graph(ns: Seq<Seq<char>>, es: Seq<(Seq<char>, Seq<char>)>, x: Seq<char>) -> bool {
    ns.contains(x) || is_endpoint(es, x)
}

/// `x` may be emitted after `done`: it is in the graph, not yet emitted,
/// and every parent of it has been emitted.
pub open spec fn ready(ns: Seq<Seq<char>>, es: Seq<(Seq<char>, Seq<char>)>, done: Seq<Seq<char>>, x: Seq<char>) -> bool {
    &&& in_graph(ns, es, x)
    &&& !done.contains(x)
    &&& forall|p: Seq<char>| #[trigger] has_edge(es, x, p) ==> done.contains(p)
}

/// `x` is ready after `done` and sorts before every other ready node.
pub open spec fn least_ready(ns: Seq<Seq<char>>, es: Seq<(Seq<char>, Seq<char>)>, done: Seq<Seq<char>>, x: Seq<char>) -> bool {
    &&& ready(ns, es, done, x)
    &&& forall|y: Seq<char>| #[trigger] ready(ns, es, done, y) ==> y == x || str_lt(x, y)
}

/// Every element of `s` is the least ready node after the ones before it:
/// Kahn's algorithm with lexicographic tie-break produced `s`.
pub open spec fn kahn_prefix(ns: Seq<Seq<char>>, es: Seq<(Seq<char>, Seq<char>)>, s: Seq<Seq<char>>) -> bool {
    forall|i: int| 0 <= i < s.len() ==> least_ready(ns, es, s.take(i), #[trigger] s[i])
}

/// A run of Kahn's algorithm that stopped because nothing was ready.
pub open spec fn kahn_complete(ns: Seq<Seq<char>>, es: Seq<(Seq<char>, Seq<char>)>, s: Seq<Seq<char>>) -> bool {
    &&& kahn_prefix(ns, es, s)
    &&& forall|y: Seq<char>| !ready(ns, es, s, y)
}

/// Cycle reported by `topo_order`: the nodes that could not be ordered.
#[derive(Debug, Clone, PartialEq, Eq)]
pub struct CycleError {
    /// Leftover nodes (sorted), each on or downstream of a cycle.
    pub nodes: Vec<String>,
}

impl CycleError {
    /// The error rendered as text: the leftover nodes, comma-separated.
    pub fn message(&self) -> (r: String)
        ensures
            r@ == "cycle detected among: "@ + join_with(views(self.nodes@), ", "@),
    {
        let mut out = String::new();
        push_str(&mut out, "cycle detected among: ");
        let joined = join_strings(&self.nodes, ", ");
        push_str(&mut out, joined.as_str());
        out
    }
}

/// `true` when every listed parent is flagged.
pub(crate) fn all_flagged(row: &Vec<usize>, flags: &Vec<bool>) -> (r: bool)
    requires
        forall|q: int| 0 <= q < row.len() ==> (#[trigger] row@[q]) < flags.len(),
    ensures
        r == forall|q: int| 0 <= q < row.len() ==> flags@[(#[trigger] row@[q]) as int],
{
    let mut q: usize = 0;
    while q < row.len()
        invariant
            q <= row.len(),
            forall|j: int| 0 <= j < row.len() ==> (#[trigger] row@[j]) < flags.len(),
            forall|j: int| 0 <= j < q ==> flags@[(#[trigger] row@[j]) as int],
        decreases row.len() - q,
    {
        if !flags[row[q]] {
            return false;
        }
        q = q + 1;
    }
    true
}

/// The index form of emitted-ness agrees with the emitted sequence.
spec fn emitted_agrees(idv: Seq<Seq<char>>, emitted: Seq<bool>, ov: Seq<Seq<char>>) -> bool {
    &&& emitted.len() == idv.len()
    &&& forall|i: int| 0 <= i < idv.len() ==> (#[trigger] emitted[i] <==> ov.contains(idv[i]))
    &&& forall|x: Seq<char>| #[trigger] ov.contains(x) ==> idv.contains(x)
}

proof fn lemma_index_ready(
    nv: Seq<Seq<char>>,
    es: Seq<(Seq<char>, Seq<char>)>,
    idv: Seq<Seq<char>>,
    parents: Seq<Vec<usize>>,
    emitted: Seq<bool>,
    ov: Seq<Seq<char>>,
    i: int,
)
    requires
        indexed(idv, parents, es),
        forall|x: Seq<char>| #[trigger] idv.contains(x) <==> in_graph(nv, es, x),
        emitted_agrees(idv, emitted, ov),
        0 <= i < idv.len(),
    ensures
        (!emitted[i] && forall|q: int| 0 <= q < parents[i].len() ==> emitted[(#[trigger] parents[i]@[q]) as int])
            <==> ready(nv, es, ov, idv[i]),
{
    assert(idv.contains(idv[i]));
    if !emitted[i] && forall|q: int| 0 <= q < parents[i].len() ==> emitted[(#[trigger] parents[i]@[q]) as int] {
        assert forall|p: Seq<char>| #[trigger] has_edge(es, idv[i], p) implies ov.contains(p) by {
            let q = choose|q: int| 0 <= q < parents[i].len() && idv[(#[trigger] parents[i]@[q]) as int] == p;
            assert(emitted[parents[i]@[q] as int]);
        }
    }
    if ready(nv, es, ov, idv[i]) {
        assert forall|q: int| 0 <= q < parents[i].len() implies emitted[(#[trigger] parents[i]@[q]) as int] by {
            assert(has_edge(es, idv[i], idv[parents[i]@[q] as int]));
        }
    }
}

/// Picks the least ready node (by index), if any.
fn pick_least_ready(
    ids: &Vec<String>,
    parents: &Vec<Vec<usize>>,
    emitted: &Vec<bool>,
    Ghost(nv): Ghost<Seq<Seq<char>>>,
    Ghost(es): Ghost<Seq<(Seq<char>, Seq<char>)>>,
    Ghost(ov): Ghost<Seq<Seq<char>>>,
) -> (r: Option<usize>)
    requires
        indexed(views(ids@), parents@, es),
        forall|x: Seq<char>| #[trigger] views(ids@).contains(x) <==> in_graph(nv, es, x),
        emitted_agrees(views(ids@), emitted@, ov),
    ensures
        match r {
            Some(b) => b < ids.len() && !emitted@[b as int] && least_ready(nv, es, ov, views(ids@)[b as int]),
            None => forall|y: Seq<char>| !ready(nv, es, ov, y),
        },
{
    let ghost idv = views(ids@);
    let n = ids.len();
    let mut best: Option<usize> = None;
    let mut i: usize = 0;
    while i < n
        invariant
            n == ids.len(),
            idv == views(ids@),
            i <= n,
            indexed(idv, parents@, es),
            forall|x: Seq<char>| #[trigger] idv.contains(x) <==> in_graph(nv, es, x),
            emitted_agrees(idv, emitted@, ov),
            match best {
                Some(b) => b < i && ready(nv, es, ov, idv[b as int])
                    && forall|j: int| 0 <= j < i && #[trigger] ready(nv, es, ov, idv[j]) ==> j == b || str_lt(idv[b as int], idv[j]),
                None => forall|j: int| 0 <= j < i ==> !(#[trigger] ready(nv, es, ov, idv[j])),
            },
        decreases n - i,
    {
        proof {
            lemma_index_ready(nv, es, idv, parents@, emitted@, ov, i as int);
        }
        if !emitted[i] && all_flagged(&parents[i], emitted) {
            let take = match best {
                None => true,
                Some(b) => str_less(ids[i].as_str(), ids[b].as_str()),
            };
            proof {
                if let Some(b) = best {
                    if !take {
                        assert(idv[i as int] != idv[b as int]);
                        lemma_str_lt_total(idv[i as int], idv[b as int]);
                    }
                }
            }
            if take {
                proof {
                    if let Some(b) = best {
                        assert forall|j: int| 0 <= j < i + 1 && #[trigger] ready(nv, es, ov, idv[j]) implies j == i || str_lt(idv[i as int], idv[j]) by {
                            if j != i && j != b {
                                lemma_lex_transitive(encode_utf8(idv[i as int]), encode_utf8(idv[b as int]), encode_utf8(idv[j]));
                            }
                        }
                    }
                }
                best = Some(i);
            }
        }
        i = i + 1;
    }
    proof {
        match best {
            Some(b) => {
                assert forall|y: Seq<char>| #[trigger] ready(nv, es, ov, y) implies y == idv[b as int] || str_lt(idv[b as int], y) by {
                    assert(idv.contains(y));
                    let j = choose|j: int| 0 <= j < idv.len() && #[trigger] idv[j] == y;
                }
                lemma_index_ready(nv, es, idv, parents@, emitted@, ov, b as int);
            },
            None => {
                assert forall|y: Seq<char>| !ready(nv, es, ov, y) by {
                    if ready(nv, es, ov, y) {
                        assert(idv.contains(y));
                        let j = choose|j: int| 0 <= j < idv.len() && #[trigger] idv[j] == y;
                    }
                }
            },
        }
    }
    best
}

/// Topological order (parents before children) via Kahn's algorithm.
/// Ties break lexicographically, so the output is fully deterministic.
/// Ids that appear only in `edges` join the graph as implicit nodes.
/// Returns `CycleError` when the edges contain a cycle.
pub fn topo_order(nodes: &[String], edges: &[(String, String)]) -> (r: Result<Vec<String>, CycleError>)
    ensures
        match r {
            Ok(order) => kahn_complete(views(nodes@), edge_views(edges@), views(order@))
                && forall|x: Seq<char>| in_graph(views(nodes@), edge_views(edges@), x) ==> #[trigger] views(order@).contains(x),
            Err(e) => e.nodes.len() > 0 && strictly_sorted(views(e.nodes@))
                && exists|s: Seq<Seq<char>>| #[trigger] kahn_complete(views(nodes@), edge_views(edges@), s)
                    && forall|x: Seq<char>| #[trigger] views(e.nodes@).contains(x) <==>
                        (in_graph(views(nodes@), edge_views(edges@), x) && !s.contains(x)),
        },
{
    let ghost es = edge_views(edges@);
    let ghost nv = views(nodes@);
    let (ids, parents) = build_graph(nodes, edges);
    let ghost idv = views(ids@);
    let n = ids.len();
    let mut emitted: Vec<bool> = Vec::new();
    while emitted.len() < n
        invariant
            emitted.len() <= n,
            forall|i: int| 0 <= i < emitted.len() ==> !(#[trigger] emitted@[i]),
        decreases n - emitted.len(),
    {
        emitted.push(false);
    }
    let mut order: Vec<String> = Vec::new();
    proof {
        assert(marked_set(emitted@) =~= Set::empty());
        assert(kahn_prefix(nv, es, views(order@)));
    }
    loop
        invariant
            n == ids.len(),
            idv == views(ids@),
            es == edge_views(edges@),
            nv == views(nodes@),
            indexed(idv, parents@, es),
            forall|x: Seq<char>| #[trigger] idv.contains(x) <==> in_graph(nv, es, x),
            emitted_agrees(idv, emitted@, views(order@)),
            order.len() == marked_set(emitted@).len(),
            kahn_prefix(nv, es, views(order@)),
        ensures
            kahn_complete(nv, es, views(order@)),
            emitted_agrees(idv, emitted@, views(order@)),
            order.len() == marked_set(emitted@).len(),
        decreases n - order.len(),
    {
        proof {
            lemma_marked_bounded(emitted@);
        }
        let ghost ov = views(order@);
        match pick_least_ready(&ids, &parents, &emitted, Ghost(nv), Ghost(es), Ghost(ov)) {
            None => {
                break;
            },
            Some(b) => {
                proof {
                    lemma_mark_one(emitted@, b as int);
                }
                let ghost emitted_before = emitted@;
                emitted.set(b, true);
                order.push(ids[b].clone());
                proof {
                    lemma_marked_bounded(emitted@);
                    let ov2 = views(order@);
                    assert(ov2 =~= ov.push(idv[b as int]));
                    assert(ov2.take(ov.len() as int) =~= ov);
                    assert forall|i: int| 0 <= i < ov2.len() implies least_ready(nv, es, ov2.take(i), #[trigger] ov2[i]) by {
                        if i < ov.len() {
                            assert(ov2.take(i) =~= ov.take(i));
                            assert(ov[i] == ov2[i]);
                        }
                    }
                    assert forall|i: int| 0 <= i < idv.len() implies (#[trigger] emitted@[i] <==> ov2.contains(idv[i])) by {
                        if i == b {
                            assert(ov2[ov.len() as int] == idv[i]);
                        } else {
                            assert(idv[i] != idv[b as int]);
                            if ov2.contains(idv[i]) {
                                let t = choose|t: int| 0 <= t < ov2.len() && ov2[t] == idv[i];
                                assert(ov[t] == idv[i]);
                            }
                            if ov.contains(idv[i]) {
                                let t = choose|t: int| 0 <= t < ov.len() && ov[t] == idv[i];
                                assert(ov2[t] == idv[i]);
                            }
                        }
                    }
                    assert forall|x: Seq<char>| #[trigger] ov2.contains(x) implies idv.contains(x) by {
                        let t = choose|t: int| 0 <= t < ov2.len() && ov2[t] == x;
                        if t < ov.len() {
                            assert(ov[t] == x);
                        } else {
                            assert(idv[b as int] == x);
                        }
                    }
                }
            },
        }
    }
    proof {
        lemma_marked_bounded(emitted@);
    }
    if order.len() == n {
        proof {
            assert forall|x: Seq<char>| in_graph(nv, es, x) implies #[trigger] views(order@).contains(x) by {
                assert(idv.contains(x));
                let j = choose|j: int| 0 <= j < idv.len() && #[trigger] idv[j] == x;
                if !emitted@[j] {
                    lemma_int_range(0, n as int);
                    assert(marked_set(emitted@).subset_of(set_int_range(0, n as int).remove(j)));
                    lemma_len_subset(marked_set(emitted@), set_int_range(0, n as int).remove(j));
                }
            }
        }
        Ok(order)
    } else {
        let rest = collect_where(&ids, &emitted, false, 0);
        let sorted = sort_distinct(&rest);
        proof {
            let ov = views(order@);
            assert(kahn_complete(nv, es, ov));
            assert forall|x: Seq<char>| #[trigger] views(sorted@).contains(x) <==> (in_graph(nv, es, x) && !ov.contains(x)) by {
                if views(rest@).contains(x) {
                    let j = choose|j: int| 0 <= j < n && emitted@[j] == false && #[trigger] idv[j] == x;
                    assert(idv.contains(x));
                }
                if in_graph(nv, es, x) && !ov.contains(x) {
                    assert(idv.contains(x));
                    let j = choose|j: int| 0 <= j < idv.len() && #[trigger] idv[j] == x;
                    assert(views(ids@)[j] == x);
                }
            }
            if forall|j: int| 0 <= j < n ==> #[trigger] emitted@[j] {
                assert(marked_set(emitted@) =~= set_int_range(0, n as int));
                lemma_int_range(0, n as int);
                assert(false);
            }
            let j = choose|j: int| 0 <= j < n && !#[trigger] emitted@[j];
            assert(views(ids@)[j] == idv[j]);
            assert(views(rest@).contains(idv[j]));
            assert(views(sorted@).contains(idv[j]));
        }
        Err(CycleError { nodes: sorted })
    }
}

proof fn lemma_prefix_agree(ns: Seq<Seq<char>>, es: Seq<(Seq<char>, Seq<char>)>, s1: Seq<Seq<char>>, s2: Seq<Seq<char>>, i: int)
    requires
        kahn_prefix(ns, es, s1),
        kahn_prefix(ns, es, s2),
        0 <= i <= s1.len(),
        i <= s2.len(),
    ensures
        s1.take(i) == s2.take(i),
    decreases i,
{
    if i > 0 {
        lemma_prefix_agree(ns, es, s1, s2, i - 1);
        let d = s1.take(i - 1);
        assert(least_ready(ns, es, s1.take(i - 1), s1[i - 1]));
        assert(least_ready(ns, es, s2.take(i - 1), s2[i - 1]));
        assert(ready(ns, es, d, s2[i - 1]));
        assert(ready(ns, es, d, s1[i - 1]));
        if s1[i - 1] != s2[i - 1] {
            lemma_lex_asymmetric(encode_utf8(s1[i - 1]), encode_utf8(s2[i - 1]));
        }
        assert(s1.take(i) =~= s1.take(i - 1).push(s1[i - 1]));
        assert(s2.take(i) =~= s2.take(i - 1).push(s2[i - 1]));
    }
}

/// Determinism: a graph has exactly one complete run of Kahn's algorithm
/// with lexicographic tie-break, so `topo_order` has one possible result.
pub proof fn lemma_kahn_unique(ns: Seq<Seq<char>>, es: Seq<(Seq<char>, Seq<char>)>, s1: Seq<Seq<char>>, s2: Seq<Seq<char>>)
    requires
        kahn_complete(ns, es, s1),
        kahn_complete(ns, es, s2),
    ensures
        s1 == s2,
{
    if s1.len() < s2.len() {
        lemma_prefix_agree(ns, es, s1, s2, s1.len() as int);
        assert(s1.take(s1.len() as int) =~= s1);
        assert(least_ready(ns, es, s2.take(s1.len() as int), s2[s1.len() as int]));
        assert(ready(ns, es, s1, s2[s1.len() as int]));
    } else if s2.len() < s1.len() {
        lemma_prefix_agree(ns, es, s1, s2, s2.len() as int);
        assert(s2.take(s2.len() as int) =~= s2);
        assert(least_ready(ns, es, s1.take(s2.len() as int), s1[s2.len() as int]));
        assert(ready(ns, es, s2, s1[s2.len() as int]));
    } else {
        lemma_prefix_agree(ns, es, s1, s2, s1.len() as int);
        assert(s1.take(s1.len() as int) =~= s1);
        assert(s2.take(s2.len() as int) =~= s2);
    }
}

/// Parents first: in a Kahn run every parent of an emitted node was
/// emitted earlier.
pub proof fn lemma_kahn_parents_first(ns: Seq<Seq<char>>, es: Seq<(Seq<char>, Seq<char>)>, s: Seq<Seq<char>>, i: int, p: Seq<char>)
    requires
        kahn_prefix(ns, es, s),
        0 <= i < s.len(),
        has_edge(es, s[i], p),
    ensures
        exists|j: int| 0 <= j < i && s[j] == p,
{
    assert(least_ready(ns, es, s.take(i), s[i]));
    assert(s.take(i).contains(p));
    let j = choose|j: int| 0 <= j < s.take(i).len() && s.take(i)[j] == p;
    assert(s[j] == p);
}

/// `x` is its own ancestor: it lies on a dependency cycle.
pub open spec fn on_cycle(es: Seq<(Seq<char>, Seq<char>)>, x: Seq<char>) -> bool {
    is_ancestor(es, x, x)
}

/// A Kahn run never emits the same node twice.
pub(crate) proof fn lemma_kahn_no_dups(ns: Seq<Seq<char>>, es: Seq<(Seq<char>, Seq<char>)>, s: Seq<Seq<char>>)
    requires
        kahn_prefix(ns, es, s),
    ensures
        s.no_duplicates(),
{
    assert forall|a: int, b: int| 0 <= a < s.len() && 0 <= b < s.len() && a != b implies s[a] != s[b] by {
        if a < b {
            assert(least_ready(ns, es, s.take(b), s[b]));
            assert(s.take(b)[a] == s[a]);
        } else {
            assert(least_ready(ns, es, s.take(a), s[a]));
            assert(s.take(a)[b] == s[b]);
        }
    }
}

/// Position of an emitted node.
spec fn pos_in(s: Seq<Seq<char>>, x: Seq<char>) -> int {
    choose|t: int| 0 <= t < s.len() && s[t] == x
}

/// Index of a smallest value among the first `k` values.
proof fn lemma_min_index(vals: Seq<int>, k: int) -> (m: int)
    requires
        0 < k <= vals.len(),
    ensures
        0 <= m < k,
        forall|i: int| 0 <= i < k ==> vals[m] <= #[trigger] vals[i],
    decreases k,
{
    if k == 1 {
        0
    } else {
        let m0 = lemma_min_index(vals, k - 1);
        if vals[k - 1] < vals[m0] {
            k - 1
        } else {
            m0
        }
    }
}

/// Every node of a chain is an edge endpoint.
proof fn lemma_chain_endpoints(es: Seq<(Seq<char>, Seq<char>)>, path: Seq<Seq<char>>, i: int)
    requires
        is_chain(es, path),
        path.len() >= 2,
        0 <= i < path.len(),
    ensures
        is_endpoint(es, path[i]),
{
    if i < path.len() - 1 {
        assert(has_edge(es, path[i], path[i + 1]));
        let k = choose|k: int| 0 <= k < es.len() && #[trigger] es[k] == (path[i], path[i + 1]);
        assert(es[k].0 == path[i]);
    } else {
        assert(has_edge(es, path[i - 1], path[i]));
        let k = choose|k: int| 0 <= k < es.len() && #[trigger] es[k] == (path[i - 1], path[i]);
        assert(es[k].1 == path[i]);
    }
}

/// A node on a cycle is never emitted by a complete Kahn run.
proof fn lemma_cycle_blocks(ns: Seq<Seq<char>>, es: Seq<(Seq<char>, Seq<char>)>, s: Seq<Seq<char>>, x: Seq<char>)
    requires
        kahn_prefix(ns, es, s),
        on_cycle(es, x),
    ensures
        !s.contains(x),
{
    let path = choose|path: Seq<Seq<char>>|
        #[trigger] is_chain(es, path) && path.len() >= 2 && path[0] == x && path.last() == x;
    let k = path.len() - 1;
    if forall|i: int| 0 <= i < k ==> s.contains(#[trigger] path[i]) {
        let vals = Seq::new(k as nat, |i: int| pos_in(s, path[i]));
        let m = lemma_min_index(vals, k);
        let t = pos_in(s, path[m]);
        assert(s.contains(path[m]));
        assert(0 <= t < s.len() && s[t] == path[m]);
        assert(has_edge(es, path[m], path[m + 1]));
        lemma_kahn_parents_first(ns, es, s, t, path[m + 1]);
        let j = choose|j: int| 0 <= j < t && s[j] == path[m + 1];
        let m2 = if m + 1 == k { 0 } else { m + 1 };
        assert(path[m2] == path[m + 1]);
        assert(s.contains(path[m2]));
        let t2 = pos_in(s, path[m2]);
        assert(0 <= t2 < s.len() && s[t2] == path[m2]);
        lemma_kahn_no_dups(ns, es, s);
        assert(t2 == j);
        assert(vals[m2] == t2);
        assert(vals[m] <= vals[m2]);
    } else {
        let i = choose|i: int| 0 <= i < k && !s.contains(#[trigger] path[i]);
        if s.contains(x) {
            lemma_chain_emitted(ns, es, s, path, i);
        }
    }
}

/// Along a chain that starts at an emitted node, every node is emitted.
proof fn lemma_chain_emitted(ns: Seq<Seq<char>>, es: Seq<(Seq<char>, Seq<char>)>, s: Seq<Seq<char>>, path: Seq<Seq<char>>, i: int)
    requires
        kahn_prefix(ns, es, s),
        is_chain(es, path),
        0 <= i < path.len(),
        s.contains(path[0]),
    ensures
        s.contains(path[i]),
    decreases i,
{
    if i > 0 {
        lemma_chain_emitted(ns, es, s, path, i - 1);
        let t = pos_in(s, path[i - 1]);
        assert(has_edge(es, path[i - 1], path[i]));
        lemma_kahn_parents_first(ns, es, s, t, path[i]);
        let j = choose|j: int| 0 <= j < t && s[j] == path[i];
        assert(s[j] == path[i]);
    }
}

/// The nodes of the graph that a run left out.
spec fn leftover(ns: Seq<Seq<char>>, es: Seq<(Seq<char>, Seq<char>)>, s: Seq<Seq<char>>, x: Seq<char>) -> bool {
    in_graph(ns, es, x) && !s.contains(x)
}

/// A left-out node has a left-out parent.
proof fn lemma_leftover_parent(ns: Seq<Seq<char>>, es: Seq<(Seq<char>, Seq<char>)>, s: Seq<Seq<char>>, y: Seq<char>) -> (p: Seq<char>)
    requires
        kahn_complete(ns, es, s),
        leftover(ns, es, s, y),
    ensures
        has_edge(es, y, p),
        leftover(ns, es, s, p),
{
    assert(!ready(ns, es, s, y));
    let p = choose|p: Seq<char>| #[trigger] has_edge(es, y, p) && !s.contains(p);
    let k = choose|k: int| 0 <= k < es.len() && #[trigger] es[k] == (y, p);
    assert(es[k].1 == p);
    assert(is_endpoint(es, p));
    p
}

/// A walk of `k` parent steps through left-out nodes.
proof fn lemma_leftover_walk(ns: Seq<Seq<char>>, es: Seq<(Seq<char>, Seq<char>)>, s: Seq<Seq<char>>, x: Seq<char>, k: nat) -> (w: Seq<Seq<char>>)
    requires
        kahn_complete(ns, es, s),
        leftover(ns, es, s, x),
    ensures
        w.len() == k + 1,
        w[0] == x,
        is_chain(es, w),
        forall|i: int| 0 <= i < w.len() ==> leftover(ns, es, s, #[trigger] w[i]),
    decreases k,
{
    if k == 0 {
        let w = seq![x];
        assert(is_chain(es, w));
        w
    } else {
        let w0 = lemma_leftover_walk(ns, es, s, x, (k - 1) as nat);
        let last = w0[w0.len() - 1];
        let p = lemma_leftover_parent(ns, es, s, last);
        let w = w0.push(p);
        assert(is_chain(es, w)) by {
            assert forall|i: int| #![trigger w[i]] 0 <= i < w.len() - 1 implies has_edge(es, w[i], w[i + 1]) by {
                if i < w0.len() - 1 {
                    assert(w[i] == w0[i]);
                    assert(w[i + 1] == w0[i + 1]);
                }
            }
        }
        assert forall|i: int| 0 <= i < w.len() implies leftover(ns, es, s, #[trigger] w[i]) by {
            if i < w0.len() {
                assert(w[i] == w0[i]);
            }
        }
        w
    }
}

/// All graph nodes, as one sequence.
spec fn graph_seq(ns: Seq<Seq<char>>, es: Seq<(Seq<char>, Seq<char>)>) -> Seq<Seq<char>> {
    ns + es.map_values(|e: (Seq<char>, Seq<char>)| e.0) + es.map_values(|e: (Seq<char>, Seq<char>)| e.1)
}

proof fn lemma_graph_seq_contains(ns: Seq<Seq<char>>, es: Seq<(Seq<char>, Seq<char>)>, x: Seq<char>)
    requires
        in_graph(ns, es, x),
    ensures
        graph_seq(ns, es).contains(x),
{
    let g = graph_seq(ns, es);
    let c = es.map_values(|e: (Seq<char>, Seq<char>)| e.0);
    let p = es.map_values(|e: (Seq<char>, Seq<char>)| e.1);
    if ns.contains(x) {
        let i = choose|i: int| 0 <= i < ns.len() && ns[i] == x;
        assert(g[i] == x);
    } else {
        let k = choose|k: int| 0 <= k < es.len() && (#[trigger] es[k].0 == x || es[k].1 == x);
        if es[k].0 == x {
            assert(g[ns.len() + k] == c[k]);
        } else {
            assert(g[ns.len() + es.len() + k] == p[k]);
        }
    }
}

/// Error iff cycle: a complete run of Kahn's algorithm emits every node of
/// the graph exactly when no node lies on a dependency cycle.
pub proof fn lemma_kahn_total_iff_acyclic(ns: Seq<Seq<char>>, es: Seq<(Seq<char>, Seq<char>)>, s: Seq<Seq<char>>)
    requires
        kahn_complete(ns, es, s),
    ensures
        (forall|x: Seq<char>| in_graph(ns, es, x) ==> s.contains(x)) <==> !(exists|x: Seq<char>| on_cycle(es, x)),
{
    if exists|x: Seq<char>| on_cycle(es, x) {
        let x = choose|x: Seq<char>| on_cycle(es, x);
        lemma_cycle_blocks(ns, es, s, x);
        let path = choose|path: Seq<Seq<char>>|
            #[trigger] is_chain(es, path) && path.len() >= 2 && path[0] == x && path.last() == x;
        lemma_chain_endpoints(es, path, 0);
        assert(in_graph(ns, es, x));
    }
    if !(forall|x: Seq<char>| in_graph(ns, es, x) ==> s.contains(x)) {
        let x = choose|x: Seq<char>| !(in_graph(ns, es, x) ==> s.contains(x));
        let g = graph_seq(ns, es);
        let w = lemma_leftover_walk(ns, es, s, x, g.len());
        // the walk is longer than the set of graph nodes, so it repeats
        if w.no_duplicates() {
            w.unique_seq_to_set();
            g.lemma_cardinality_of_set();
            assert(w.to_set().subset_of(g.to_set())) by {
                assert forall|y: Seq<char>| w.to_set().contains(y) implies g.to_set().contains(y) by {
                    let i = choose|i: int| 0 <= i < w.len() && w[i] == y;
                    assert(leftover(ns, es, s, w[i]));
                    lemma_graph_seq_contains(ns, es, y);
                }
            }
            lemma_len_subset(w.to_set(), g.to_set());
            assert(false);
        }
        let (a, b) = choose|a: int, b: int| 0 <= a < w.len() && 0 <= b < w.len() && a != b && w[a] == w[b];
        let lo = if a < b { a } else { b };
        let hi = if a < b { b } else { a };
        let cyc = w.subrange(lo, hi + 1);
        assert(is_chain(es, cyc)) by {
            assert forall|i: int| #![trigger cyc[i]] 0 <= i < cyc.len() - 1 implies has_edge(es, cyc[i], cyc[i + 1]) by {
                assert(cyc[i] == w[lo + i]);
                assert(cyc[i + 1] == w[lo + i + 1]);
            }
        }
        assert(cyc[0] == w[lo]);
        assert(cyc.last() == w[hi]);
        assert(on_cycle(es, w[lo]));
    }
}

} // verus!
