//! Task forests for display, project filtering, and per-project rollups.
use vstd::prelude::*;
use vstd::seq_lib::seq_to_set_is_finite;
use vstd::set_lib::lemma_len_subset;
use crate::model::{Task, TaskNode, TaskState, task_state_name};
use crate::text::{views, distinct, position_of, str_equal, str_less, str_lt, lemma_str_lt_total, lemma_lex_transitive, lemma_lex_asymmetric,
    lowercase, to_lower, chars_of, sort_distinct, strictly_sorted, push_char, push_str, starts_with_text, contains_text, matches_at, find_text,
    first_at, find_char, string_of, uppercase, to_upper};

verus! {

/// Title and state recorded for a task id.
#[derive(Debug, Clone)]
pub struct TaskMeta {
    pub id: String,
    pub title: String,
    pub state: TaskState,
}

/// The listed children of a parent id.
#[derive(Debug, Clone)]
pub struct ChildList {
    pub parent: String,
    pub children: Vec<String>,
}

/// The ids that key the metadata entries.
pub open spec fn meta_keys(meta: Seq<TaskMeta>) -> Seq<Seq<char>> {
    meta.map_values(|m: TaskMeta| m.id@)
}

/// The ids that key the child lists.
pub open spec fn list_keys(cs: Seq<ChildList>) -> Seq<Seq<char>> {
    cs.map_values(|c: ChildList| c.parent@)
}

/// `id` keys some entry.
pub open spec fn has_key(keys: Seq<Seq<char>>, id: Seq<char>) -> bool {
    exists|k: int| 0 <= k < keys.len() && #[trigger] keys[k] == id
}

/// The position of the entry keyed by `id`.
pub open spec fn key_pos(keys: Seq<Seq<char>>, id: Seq<char>) -> int {
    choose|k: int| 0 <= k < keys.len() && #[trigger] keys[k] == id
}

/// Title recorded for `id`, empty when it has none.
pub open spec fn title_for(meta: Seq<TaskMeta>, id: Seq<char>) -> Seq<char> {
    if has_key(meta_keys(meta), id) { meta[key_pos(meta_keys(meta), id)].title@ } else { Seq::empty() }
}

/// State recorded for `id`, `Pending` when it has none.
pub open spec fn state_for(meta: Seq<TaskMeta>, id: Seq<char>) -> TaskState {
    if has_key(meta_keys(meta), id) { meta[key_pos(meta_keys(meta), id)].state } else { TaskState::Pending }
}

/// Children listed for `id`, empty when it has none.
pub open spec fn children_for(cs: Seq<ChildList>, id: Seq<char>) -> Seq<Seq<char>> {
    if has_key(list_keys(cs), id) { views(cs[key_pos(list_keys(cs), id)].children@) } else { Seq::empty() }
}

/// Every id listed as a child anywhere.
pub open spec fn all_children(cs: Seq<ChildList>) -> Seq<Seq<char>>
    decreases cs.len(),
{
    if cs.len() == 0 { Seq::empty() } else { all_children(cs.drop_last()) + views(cs.last().children@) }
}

/// How many listed children are not yet visited.
pub open spec fn unvisited(cs: Seq<ChildList>, vis: Seq<Seq<char>>) -> nat {
    all_children(cs).to_set().difference(vis.to_set()).len()
}

/// `x` is the id of `n` or of a node below it.
pub open spec fn in_tree(n: TaskNode, x: Seq<char>) -> bool
    decreases n,
{
    n.id@ == x || exists|k: int| 0 <= k < n.children.len() && in_tree(#[trigger] n.children@[k], x)
}

/// `x` is the id of some node of the forest.
pub open spec fn in_forest(ns: Seq<TaskNode>, x: Seq<char>) -> bool {
    exists|k: int| 0 <= k < ns.len() && in_tree(#[trigger] ns[k], x)
}

/// The node ids of a forest ascend strictly.
pub open spec fn ids_ascending(ns: Seq<TaskNode>) -> bool {
    forall|a: int, b: int| 0 <= a < b < ns.len() ==> str_lt(#[trigger] ns[a].id@, #[trigger] ns[b].id@)
}

/// No id occurs in two trees of the forest.
pub open spec fn trees_disjoint(ns: Seq<TaskNode>) -> bool {
    forall|a: int, b: int, x: Seq<char>| #![trigger in_tree(ns[a], x), in_tree(ns[b], x)]
        0 <= a < ns.len() && 0 <= b < ns.len() && a != b && in_tree(ns[a], x) ==> !in_tree(ns[b], x)
}

/// Every node carries the title and state recorded for it, and its
/// children are listed children of it, in ascending id order.
pub open spec fn node_ok(n: TaskNode, meta: Seq<TaskMeta>, cs: Seq<ChildList>) -> bool
    decreases n,
{
    &&& n.title@ == title_for(meta, n.id@)
    &&& n.state == state_for(meta, n.id@)
    &&& ids_ascending(n.children@)
    &&& forall|k: int| 0 <= k < n.children.len() ==> children_for(cs, n.id@).contains(#[trigger] n.children@[k].id@)
    &&& forall|k: int| 0 <= k < n.children.len() ==> node_ok(#[trigger] n.children@[k], meta, cs)
}

/// Each id occurs at most once in the tree.
pub open spec fn tree_distinct(n: TaskNode) -> bool
    decreases n,
{
    &&& forall|k: int| 0 <= k < n.children.len() ==> !in_tree(#[trigger] n.children@[k], n.id@)
    &&& trees_disjoint(n.children@)
    &&& forall|k: int| 0 <= k < n.children.len() ==> tree_distinct(#[trigger] n.children@[k])
}

/// Every listed child of every node of `n` is among `vis`.
pub open spec fn closed_under(n: TaskNode, cs: Seq<ChildList>, vis: Seq<Seq<char>>) -> bool {
    forall|x: Seq<char>, c: Seq<char>| in_tree(n, x) && #[trigger] children_for(cs, x).contains(c) ==> #[trigger] vis.contains(c)
}

proof fn lemma_listed_child_in_all(cs: Seq<ChildList>, id: Seq<char>, c: Seq<char>)
    requires
        children_for(cs, id).contains(c),
    ensures
        all_children(cs).contains(c),
{
    let k = key_pos(list_keys(cs), id);
    lemma_list_in_all(cs, k, c);
}

proof fn lemma_list_in_all(cs: Seq<ChildList>, k: int, c: Seq<char>)
    requires
        0 <= k < cs.len(),
        views(cs[k].children@).contains(c),
    ensures
        all_children(cs).contains(c),
    decreases cs.len(),
{
    let rest = all_children(cs.drop_last());
    let last = views(cs.last().children@);
    if k == cs.len() - 1 {
        let q = choose|q: int| 0 <= q < last.len() && last[q] == c;
        assert((rest + last)[rest.len() + q] == c);
    } else {
        assert(cs.drop_last()[k] == cs[k]);
        lemma_list_in_all(cs.drop_last(), k, c);
        let q = choose|q: int| 0 <= q < rest.len() && rest[q] == c;
        assert((rest + last)[q] == c);
    }
}

/// Visiting more ids never leaves more listed children unvisited, and
/// visiting a listed child leaves one fewer.
proof fn lemma_unvisited_shrinks(cs: Seq<ChildList>, a: Seq<Seq<char>>, b: Seq<Seq<char>>, x: Seq<char>)
    requires
        forall|y: Seq<char>| a.contains(y) ==> b.contains(y),
        b.contains(x),
    ensures
        unvisited(cs, b) <= unvisited(cs, a),
        all_children(cs).contains(x) && !a.contains(x) ==> unvisited(cs, b) < unvisited(cs, a),
{
    let u = all_children(cs).to_set();
    seq_to_set_is_finite(all_children(cs));
    let da = u.difference(a.to_set());
    let db = u.difference(b.to_set());
    assert(db.subset_of(da));
    lemma_len_subset(db, da);
    if all_children(cs).contains(x) && !a.contains(x) {
        assert(db.subset_of(da.remove(x)));
        lemma_len_subset(db, da.remove(x));
        assert(da.contains(x));
    }
}

/// Position of the entry keyed by `id` in the metadata, if any.
fn find_meta(meta: &Vec<TaskMeta>, id: &str) -> (r: Option<usize>)
    requires
        distinct(meta_keys(meta@)),
    ensures
        r is None <==> !has_key(meta_keys(meta@), id@),
        r matches Some(k) ==> (k == key_pos(meta_keys(meta@), id@) && k < meta.len()),
{
    let mut k: usize = 0;
    while k < meta.len()
        invariant
            k <= meta.len(),
            distinct(meta_keys(meta@)),
            forall|q: int| 0 <= q < k ==> meta@[q].id@ != id@,
        decreases meta.len() - k,
    {
        if str_equal(meta[k].id.as_str(), id) {
            proof {
                let keys = meta_keys(meta@);
                assert(keys[k as int] == id@);
                let p = key_pos(keys, id@);
                assert(keys[p] == id@);
                assert(p == k);
            }
            return Some(k);
        }
        k = k + 1;
    }
    proof {
        let keys = meta_keys(meta@);
        assert forall|q: int| 0 <= q < keys.len() implies #[trigger] keys[q] != id@ by {
            assert(keys[q] == meta@[q].id@);
        }
    }
    None
}

/// Position of the child list keyed by `id`, if any.
fn find_list(cs: &Vec<ChildList>, id: &str) -> (r: Option<usize>)
    requires
        distinct(list_keys(cs@)),
    ensures
        r is None <==> !has_key(list_keys(cs@), id@),
        r matches Some(k) ==> (k == key_pos(list_keys(cs@), id@) && k < cs.len()),
{
    let mut k: usize = 0;
    while k < cs.len()
        invariant
            k <= cs.len(),
            distinct(list_keys(cs@)),
            forall|q: int| 0 <= q < k ==> cs@[q].parent@ != id@,
        decreases cs.len() - k,
    {
        if str_equal(cs[k].parent.as_str(), id) {
            proof {
                let keys = list_keys(cs@);
                assert(keys[k as int] == id@);
                let p = key_pos(keys, id@);
                assert(keys[p] == id@);
                assert(p == k);
            }
            return Some(k);
        }
        k = k + 1;
    }
    proof {
        let keys = list_keys(cs@);
        assert forall|q: int| 0 <= q < keys.len() implies #[trigger] keys[q] != id@ by {
            assert(keys[q] == cs@[q].parent@);
        }
    }
    None
}

/// Where a node with id `id` goes among nodes in ascending id order.
fn sorted_slot(ns: &Vec<TaskNode>, id: &str) -> (r: usize)
    requires
        ids_ascending(ns@),
        forall|k: int| 0 <= k < ns.len() ==> (#[trigger] ns@[k]).id@ != id@,
    ensures
        r <= ns.len(),
        forall|k: int| 0 <= k < r ==> str_lt(#[trigger] ns@[k].id@, id@),
        forall|k: int| r <= k < ns.len() ==> str_lt(id@, #[trigger] ns@[k].id@),
{
    let mut k: usize = 0;
    while k < ns.len() && str_less(ns[k].id.as_str(), id)
        invariant
            k <= ns.len(),
            forall|q: int| 0 <= q < k ==> str_lt(#[trigger] ns@[q].id@, id@),
        decreases ns.len() - k,
    {
        k = k + 1;
    }
    proof {
        if k < ns.len() {
            assert(ns@[k as int].id@ != id@);
            lemma_str_lt_total(ns@[k as int].id@, id@);
            assert forall|q: int| k <= q < ns.len() implies str_lt(id@, #[trigger] ns@[q].id@) by {
                if q > k {
                    assert(str_lt(ns@[k as int].id@, ns@[q].id@));
                    lemma_lex_transitive(
                        vstd::utf8::encode_utf8(id@),
                        vstd::utf8::encode_utf8(ns@[k as int].id@),
                        vstd::utf8::encode_utf8(ns@[q].id@),
                    );
                }
            }
        }
    }
    k
}

/// `n` is the tree built for `id` when `v0` was already visited, leaving
/// `v1` visited: it takes its records from `meta` and `cs`, holds each id
/// once, adds exactly its own ids to the visited ones, and every listed
/// child of its nodes ends up visited.
pub open spec fn built_node(n: TaskNode, meta: Seq<TaskMeta>, cs: Seq<ChildList>, id: Seq<char>, v0: Seq<Seq<char>>, v1: Seq<Seq<char>>) -> bool {
    &&& n.id@ == id
    &&& node_ok(n, meta, cs)
    &&& tree_distinct(n)
    &&& forall|x: Seq<char>| #![trigger v1.contains(x)] #![trigger in_tree(n, x)] v1.contains(x) <==> v0.contains(x) || in_tree(n, x)
    &&& forall|x: Seq<char>| #[trigger] in_tree(n, x) ==> !v0.contains(x)
    &&& closed_under(n, cs, v1)
}

proof fn lemma_insert_forest(ns: Seq<TaskNode>, pos: int, n: TaskNode)
    requires
        0 <= pos <= ns.len(),
    ensures
        forall|x: Seq<char>| #[trigger] in_forest(ns.insert(pos, n), x) <==> in_forest(ns, x) || in_tree(n, x),
        forall|k: int| 0 <= k < ns.len() + 1 ==> #[trigger] ns.insert(pos, n)[k] == (if k < pos { ns[k] } else if k == pos { n } else { ns[k - 1] }),
{
    let ns2 = ns.insert(pos, n);
    assert forall|k: int| 0 <= k < ns.len() + 1 implies #[trigger] ns2[k] == (if k < pos { ns[k] } else if k == pos { n } else { ns[k - 1] }) by {}
    assert forall|x: Seq<char>| #[trigger] in_forest(ns2, x) <==> in_forest(ns, x) || in_tree(n, x) by {
        if in_forest(ns2, x) {
            let k = choose|k: int| 0 <= k < ns2.len() && in_tree(#[trigger] ns2[k], x);
            if k < pos {
                assert(in_tree(ns[k], x));
            } else if k > pos {
                assert(in_tree(ns[k - 1], x));
            }
        }
        if in_forest(ns, x) {
            let k = choose|k: int| 0 <= k < ns.len() && in_tree(#[trigger] ns[k], x);
            if k < pos {
                assert(in_tree(ns2[k], x));
            } else {
                assert(in_tree(ns2[k + 1], x));
            }
        }
        if in_tree(n, x) {
            assert(in_tree(ns2[pos], x));
        }
    }
}

/// The kids of a node stay well-formed when a freshly built subtree is
/// inserted at its sorted slot.
proof fn lemma_insert_kid(
    kids: Seq<TaskNode>,
    pos: int,
    n: TaskNode,
    meta: Seq<TaskMeta>,
    cs: Seq<ChildList>,
    id: Seq<char>,
    vb: Seq<Seq<char>>,
)
    requires
        0 <= pos <= kids.len(),
        forall|k: int| 0 <= k < pos ==> str_lt(#[trigger] kids[k].id@, n.id@),
        forall|k: int| pos <= k < kids.len() ==> str_lt(n.id@, #[trigger] kids[k].id@),
        ids_ascending(kids),
        trees_disjoint(kids),
        forall|k: int| 0 <= k < kids.len() ==> node_ok(#[trigger] kids[k], meta, cs) && tree_distinct(kids[k]),
        forall|k: int| 0 <= k < kids.len() ==> children_for(cs, id).contains(#[trigger] kids[k].id@),
        forall|x: Seq<char>| #[trigger] in_forest(kids, x) ==> vb.contains(x),
        forall|x: Seq<char>| #[trigger] in_tree(n, x) ==> !vb.contains(x),
        node_ok(n, meta, cs),
        tree_distinct(n),
        children_for(cs, id).contains(n.id@),
    ensures
        ids_ascending(kids.insert(pos, n)),
        trees_disjoint(kids.insert(pos, n)),
        forall|k: int| 0 <= k < kids.len() + 1 ==> node_ok(#[trigger] kids.insert(pos, n)[k], meta, cs) && tree_distinct(kids.insert(pos, n)[k]),
        forall|k: int| 0 <= k < kids.len() + 1 ==> children_for(cs, id).contains(#[trigger] kids.insert(pos, n)[k].id@),
{
    let ks = kids.insert(pos, n);
    lemma_insert_forest(kids, pos, n);
    assert forall|a: int, b: int| 0 <= a < b < ks.len() implies str_lt(#[trigger] ks[a].id@, #[trigger] ks[b].id@) by {
        if a < pos && b > pos {
            assert(str_lt(kids[a].id@, n.id@));
            assert(str_lt(n.id@, kids[b - 1].id@));
            lemma_lex_transitive(
                vstd::utf8::encode_utf8(kids[a].id@),
                vstd::utf8::encode_utf8(n.id@),
                vstd::utf8::encode_utf8(kids[b - 1].id@),
            );
        } else if a > pos {
            assert(ks[a] == kids[a - 1] && ks[b] == kids[b - 1]);
        } else if b < pos {
            assert(ks[a] == kids[a] && ks[b] == kids[b]);
        } else if a < pos && b == pos {
        } else {
            assert(a == pos);
            assert(ks[b] == kids[b - 1]);
        }
    }
    assert forall|a: int, b: int, x: Seq<char>| #![trigger in_tree(ks[a], x), in_tree(ks[b], x)]
        0 <= a < ks.len() && 0 <= b < ks.len() && a != b && in_tree(ks[a], x) implies !in_tree(ks[b], x) by {
        let ia = if a < pos { a } else { a - 1 };
        let ib = if b < pos { b } else { b - 1 };
        if a == pos {
            assert(ks[b] == kids[ib]);
            if in_tree(ks[b], x) {
                assert(in_forest(kids, x));
            }
        } else if b == pos {
            assert(ks[a] == kids[ia]);
            assert(in_forest(kids, x));
        } else {
            assert(ks[a] == kids[ia] && ks[b] == kids[ib]);
            assert(ia != ib);
        }
    }
    assert forall|k: int| 0 <= k < kids.len() + 1 implies node_ok(#[trigger] ks[k], meta, cs) && tree_distinct(ks[k]) by {
        if k < pos {
            assert(ks[k] == kids[k]);
        } else if k > pos {
            assert(ks[k] == kids[k - 1]);
        }
    }
    assert forall|k: int| 0 <= k < kids.len() + 1 implies children_for(cs, id).contains(#[trigger] ks[k].id@) by {
        if k < pos {
            assert(ks[k] == kids[k]);
        } else if k > pos {
            assert(ks[k] == kids[k - 1]);
        }
    }
}

/// `a` comes before `b` in the visiting order `v`.
pub open spec fn before(v: Seq<Seq<char>>, a: Seq<char>, b: Seq<char>) -> bool {
    exists|i: int, j: int| 0 <= i < j < v.len() && #[trigger] v[i] == a && #[trigger] v[j] == b
}

/// `x` is the id of a child of `n`.
pub open spec fn child_id(n: TaskNode, x: Seq<char>) -> bool {
    kid_id(n.children@, x)
}

/// `x` is the id of a tree of the forest.
pub open spec fn kid_id(ns: Seq<TaskNode>, x: Seq<char>) -> bool {
    exists|k: int| 0 <= k < ns.len() && #[trigger] ns[k].id@ == x
}

/// The tree `n` is placed depth first against the visiting order `v`: each
/// node is visited before the nodes below it, and what is visited between
/// a node and one below it is below it too; each listed child of a node
/// was visited before that node or hangs below it; and a child of a node
/// that first occurs at some position of the node's list is visited after
/// every id listed before that position. So a child listed under several
/// parents hangs under the first parent whose list reaches it.
pub open spec fn placed(n: TaskNode, cs: Seq<ChildList>, v: Seq<Seq<char>>) -> bool
    decreases n,
{
    let ls = children_for(cs, n.id@);
    &&& forall|y: Seq<char>| #[trigger] in_tree(n, y) && y != n.id@ ==> before(v, n.id@, y)
    &&& forall|y: Seq<char>, z: Seq<char>| #![trigger in_tree(n, y), before(v, z, y)]
        in_tree(n, y) && before(v, n.id@, z) && before(v, z, y) ==> in_tree(n, z)
    &&& forall|c: Seq<char>| #[trigger] ls.contains(c) ==> before(v, c, n.id@) || in_tree(n, c)
    &&& forall|j1: int, j2: int| #![trigger ls[j1], ls[j2]]
        0 <= j1 < j2 < ls.len() && child_id(n, ls[j2]) && !ls.take(j2).contains(ls[j2]) ==> before(v, ls[j1], ls[j2])
    &&& forall|k: int| 0 <= k < n.children.len() ==> placed(#[trigger] n.children@[k], cs, v)
}

proof fn lemma_before(v: Seq<Seq<char>>, i: int, j: int)
    requires
        0 <= i < j < v.len(),
    ensures
        before(v, v[i], v[j]),
{
}

/// Under a distinct order, `before` fixes the positions of both ids.
proof fn lemma_before_at(v: Seq<Seq<char>>, a: Seq<char>, b: Seq<char>, ia: int, ib: int)
    requires
        distinct(v),
        0 <= ia < v.len(),
        0 <= ib < v.len(),
        v[ia] == a,
        v[ib] == b,
    ensures
        before(v, a, b) <==> ia < ib,
{
    if before(v, a, b) {
        let (i, j) = choose|i: int, j: int| 0 <= i < j < v.len() && #[trigger] v[i] == a && #[trigger] v[j] == b;
        assert(i == ia);
        assert(j == ib);
    }
    if ia < ib {
        lemma_before(v, ia, ib);
    }
}

/// A placement stays valid when the visiting order grows at its end, as
/// long as the tree was already visited.
proof fn lemma_placed_grows(n: TaskNode, cs: Seq<ChildList>, v1: Seq<Seq<char>>, v2: Seq<Seq<char>>)
    requires
        placed(n, cs, v1),
        v1.len() <= v2.len(),
        v2.take(v1.len() as int) == v1,
        distinct(v2),
        forall|y: Seq<char>| #[trigger] in_tree(n, y) ==> v1.contains(y),
    ensures
        placed(n, cs, v2),
    decreases n,
{
    let ls = children_for(cs, n.id@);
    assert forall|a: Seq<char>, b: Seq<char>| before(v1, a, b) implies #[trigger] before(v2, a, b) by {
        let (i, j) = choose|i: int, j: int| 0 <= i < j < v1.len() && #[trigger] v1[i] == a && #[trigger] v1[j] == b;
        assert(v2[i] == v1[i] && v2[j] == v1[j]);
        lemma_before(v2, i, j);
    }
    assert forall|y: Seq<char>| #[trigger] in_tree(n, y) && y != n.id@ implies before(v2, n.id@, y) by {
        assert(before(v1, n.id@, y));
    }
    assert forall|y: Seq<char>, z: Seq<char>| #![trigger in_tree(n, y), before(v2, z, y)]
        in_tree(n, y) && before(v2, n.id@, z) && before(v2, z, y) implies in_tree(n, z) by {
        let (i, j) = choose|i: int, j: int| 0 <= i < j < v2.len() && #[trigger] v2[i] == z && #[trigger] v2[j] == y;
        let (i0, j0) = choose|i: int, j: int| 0 <= i < j < v2.len() && #[trigger] v2[i] == n.id@ && #[trigger] v2[j] == z;
        assert(v1.contains(y));
        let iy = choose|iy: int| 0 <= iy < v1.len() && v1[iy] == y;
        assert(v2[iy] == y);
        assert(j == iy);
        assert(j0 == i);
        assert(v1[i] == z && v1[i0] == n.id@);
        lemma_before(v1, i0, i);
        lemma_before(v1, i, j);
    }
    assert forall|c: Seq<char>| #[trigger] ls.contains(c) implies before(v2, c, n.id@) || in_tree(n, c) by {
        if !in_tree(n, c) {
            assert(before(v1, c, n.id@));
        }
    }
    assert forall|j1: int, j2: int| #![trigger ls[j1], ls[j2]]
        0 <= j1 < j2 < ls.len() && child_id(n, ls[j2]) && !ls.take(j2).contains(ls[j2]) implies before(v2, ls[j1], ls[j2]) by {
        assert(before(v1, ls[j1], ls[j2]));
    }
    assert forall|k: int| 0 <= k < n.children.len() implies placed(#[trigger] n.children@[k], cs, v2) by {
        let c = n.children@[k];
        assert forall|y: Seq<char>| #[trigger] in_tree(c, y) implies v1.contains(y) by {
            assert(in_tree(n, y));
        }
        lemma_placed_grows(c, cs, v1, v2);
    }
}

/// The visiting order grows at its end: `before` is kept.
proof fn lemma_before_grows(v1: Seq<Seq<char>>, v2: Seq<Seq<char>>, a: Seq<char>, b: Seq<char>)
    requires
        before(v1, a, b),
        v1.len() <= v2.len(),
        v2.take(v1.len() as int) == v1,
    ensures
        before(v2, a, b),
{
    let (i, j) = choose|i: int, j: int| 0 <= i < j < v1.len() && #[trigger] v1[i] == a && #[trigger] v1[j] == b;
    assert(v2[i] == v1[i] && v2[j] == v1[j]);
    lemma_before(v2, i, j);
}

/// The placement facts of `to_node`'s loop after building the child `node`
/// at list position `j` and inserting it at `pos`.
proof fn lemma_placed_step(old_kids: Seq<TaskNode>, pos: int, node: TaskNode, cs: Seq<ChildList>, ls: Seq<Seq<char>>, j: int,
    v0: Seq<Seq<char>>, id: Seq<char>, v1: Seq<Seq<char>>, vb: Seq<Seq<char>>, va: Seq<Seq<char>>)
    requires
        0 <= pos <= old_kids.len(),
        0 <= j < ls.len(),
        v1 == v0.push(id),
        v1.len() <= vb.len(),
        vb.take(v1.len() as int) == v1,
        vb.len() < va.len(),
        va.take(vb.len() as int) == vb,
        va[vb.len() as int] == node.id@,
        distinct(va),
        placed(node, cs, va),
        node.id@ == ls[j],
        !vb.contains(node.id@),
        forall|y: Seq<char>| #[trigger] in_tree(node, y) ==> va.contains(y),
        forall|x: Seq<char>| #[trigger] in_forest(old_kids, x) ==> vb.contains(x),
        forall|q: int| 0 <= q < j ==> vb.contains(#[trigger] ls[q]),
        forall|k: int| 0 <= k < old_kids.len() ==> placed(#[trigger] old_kids[k], cs, vb),
        forall|k: int| 0 <= k < old_kids.len() ==> exists|q: int| 0 <= q < j && #[trigger] ls[q] == (#[trigger] old_kids[k]).id@,
        forall|q: int| 0 <= q < j ==> v0.contains(#[trigger] ls[q]) || ls[q] == id || in_forest(old_kids, ls[q]),
        forall|j1: int, j2: int| #![trigger ls[j1], ls[j2]]
            0 <= j1 < j2 < j && kid_id(old_kids, ls[j2]) && !ls.take(j2).contains(ls[j2]) ==> before(vb, ls[j1], ls[j2]),
    ensures
        ({
            let kids = old_kids.insert(pos, node);
            &&& v1.len() <= va.len()
            &&& va.take(v1.len() as int) == v1
            &&& forall|k: int| 0 <= k < kids.len() ==> placed(#[trigger] kids[k], cs, va)
            &&& forall|k: int| 0 <= k < kids.len() ==> exists|q: int| 0 <= q < j + 1 && #[trigger] ls[q] == (#[trigger] kids[k]).id@
            &&& forall|q: int| 0 <= q < j + 1 ==> v0.contains(#[trigger] ls[q]) || ls[q] == id || in_forest(kids, ls[q])
            &&& forall|j1: int, j2: int| #![trigger ls[j1], ls[j2]]
                0 <= j1 < j2 < j + 1 && kid_id(kids, ls[j2]) && !ls.take(j2).contains(ls[j2]) ==> before(va, ls[j1], ls[j2])
        }),
{
    let kids = old_kids.insert(pos, node);
    lemma_insert_forest(old_kids, pos, node);
    assert(va.take(v1.len() as int) =~= vb.take(v1.len() as int));
    assert forall|k: int| 0 <= k < kids.len() implies placed(#[trigger] kids[k], cs, va) by {
        if k != pos {
            let o = if k < pos { k } else { k - 1 };
            assert(kids[k] == old_kids[o]);
            assert forall|y: Seq<char>| #[trigger] in_tree(old_kids[o], y) implies vb.contains(y) by {
                assert(in_forest(old_kids, y));
            }
            lemma_placed_grows(old_kids[o], cs, vb, va);
        }
    }
    assert forall|k: int| 0 <= k < kids.len() implies exists|q: int| 0 <= q < j + 1 && #[trigger] ls[q] == (#[trigger] kids[k]).id@ by {
        if k == pos {
            assert(ls[j] == kids[k].id@);
        } else {
            let o = if k < pos { k } else { k - 1 };
            assert(kids[k] == old_kids[o]);
            let q = choose|q: int| 0 <= q < j && #[trigger] ls[q] == old_kids[o].id@;
            assert(ls[q] == kids[k].id@);
        }
    }
    assert forall|q: int| 0 <= q < j + 1 implies v0.contains(#[trigger] ls[q]) || ls[q] == id || in_forest(kids, ls[q]) by {
        if q == j {
            assert(in_tree(node, node.id@));
        } else if in_forest(old_kids, ls[q]) {
            assert(in_forest(kids, ls[q]));
        }
    }
    assert forall|j1: int, j2: int| #![trigger ls[j1], ls[j2]]
        0 <= j1 < j2 < j + 1 && kid_id(kids, ls[j2]) && !ls.take(j2).contains(ls[j2]) implies before(va, ls[j1], ls[j2]) by {
        if j2 == j {
            assert(vb.contains(ls[j1]));
            let i1 = choose|i1: int| 0 <= i1 < vb.len() && vb[i1] == ls[j1];
            assert(va[i1] == vb[i1]);
            lemma_before(va, i1, vb.len() as int);
        } else {
            let k = choose|k: int| 0 <= k < kids.len() && #[trigger] kids[k].id@ == ls[j2];
            assert(vb.contains(ls[j2]));
            assert(k != pos);
            let o = if k < pos { k } else { k - 1 };
            assert(kids[k] == old_kids[o]);
            assert(kid_id(old_kids, ls[j2]));
            lemma_before_grows(vb, va, ls[j1], ls[j2]);
        }
    }
}

/// The placement facts of `to_node`'s loop after a list position whose
/// id was already visited.
proof fn lemma_placed_skip(kids: Seq<TaskNode>, ls: Seq<Seq<char>>, j: int, v0: Seq<Seq<char>>, id: Seq<char>,
    v1: Seq<Seq<char>>, vb: Seq<Seq<char>>)
    requires
        0 <= j < ls.len(),
        v1 == v0.push(id),
        vb.contains(ls[j]),
        forall|x: Seq<char>| #![trigger vb.contains(x)] vb.contains(x) <==> v1.contains(x) || in_forest(kids, x),
        forall|k: int| 0 <= k < kids.len() ==> exists|q: int| 0 <= q < j && #[trigger] ls[q] == (#[trigger] kids[k]).id@,
        forall|q: int| 0 <= q < j ==> v0.contains(#[trigger] ls[q]) || ls[q] == id || in_forest(kids, ls[q]),
        forall|j1: int, j2: int| #![trigger ls[j1], ls[j2]]
            0 <= j1 < j2 < j && kid_id(kids, ls[j2]) && !ls.take(j2).contains(ls[j2]) ==> before(vb, ls[j1], ls[j2]),
    ensures
        forall|k: int| 0 <= k < kids.len() ==> exists|q: int| 0 <= q < j + 1 && #[trigger] ls[q] == (#[trigger] kids[k]).id@,
        forall|q: int| 0 <= q < j + 1 ==> v0.contains(#[trigger] ls[q]) || ls[q] == id || in_forest(kids, ls[q]),
        forall|j1: int, j2: int| #![trigger ls[j1], ls[j2]]
            0 <= j1 < j2 < j + 1 && kid_id(kids, ls[j2]) && !ls.take(j2).contains(ls[j2]) ==> before(vb, ls[j1], ls[j2]),
{
    assert forall|k: int| 0 <= k < kids.len() implies exists|q: int| 0 <= q < j + 1 && #[trigger] ls[q] == (#[trigger] kids[k]).id@ by {
        let q = choose|q: int| 0 <= q < j && #[trigger] ls[q] == kids[k].id@;
        assert(ls[q] == kids[k].id@);
    }
    assert forall|q: int| 0 <= q < j + 1 implies v0.contains(#[trigger] ls[q]) || ls[q] == id || in_forest(kids, ls[q]) by {
        if q == j && !in_forest(kids, ls[q]) {
            assert(v1.contains(ls[q]));
            let i = choose|i: int| 0 <= i < v1.len() && v1[i] == ls[q];
            if i < v0.len() {
                assert(v0[i] == v1[i]);
            }
        }
    }
    assert forall|j1: int, j2: int| #![trigger ls[j1], ls[j2]]
        0 <= j1 < j2 < j + 1 && kid_id(kids, ls[j2]) && !ls.take(j2).contains(ls[j2]) implies before(vb, ls[j1], ls[j2]) by {
        if j2 == j {
            let k = choose|k: int| 0 <= k < kids.len() && #[trigger] kids[k].id@ == ls[j2];
            let q = choose|q: int| 0 <= q < j && #[trigger] ls[q] == kids[k].id@;
            assert(ls.take(j2)[q] == ls[j2]);
        }
    }
}

/// The node built by `to_node` is placed depth first.
proof fn lemma_placed_node(n: TaskNode, cs: Seq<ChildList>, ls: Seq<Seq<char>>, v0: Seq<Seq<char>>, v1: Seq<Seq<char>>, vf: Seq<Seq<char>>)
    requires
        ls == children_for(cs, n.id@),
        v1 == v0.push(n.id@),
        v1.len() <= vf.len(),
        vf.take(v1.len() as int) == v1,
        distinct(vf),
        forall|x: Seq<char>| in_tree(n, x) <==> x == n.id@ || in_forest(n.children@, x),
        forall|x: Seq<char>| #![trigger vf.contains(x)] vf.contains(x) <==> v1.contains(x) || in_forest(n.children@, x),
        forall|x: Seq<char>| #[trigger] in_forest(n.children@, x) ==> !v1.contains(x),
        forall|k: int| 0 <= k < n.children.len() ==> placed(#[trigger] n.children@[k], cs, vf),
        forall|q: int| 0 <= q < ls.len() ==> v0.contains(#[trigger] ls[q]) || ls[q] == n.id@ || in_forest(n.children@, ls[q]),
        forall|j1: int, j2: int| #![trigger ls[j1], ls[j2]]
            0 <= j1 < j2 < ls.len() && kid_id(n.children@, ls[j2]) && !ls.take(j2).contains(ls[j2]) ==> before(vf, ls[j1], ls[j2]),
    ensures
        placed(n, cs, vf),
{
    let id = n.id@;
    let iid = v0.len() as int;
    assert(v1[iid] == id);
    assert(vf.take(v1.len() as int)[iid] == vf[iid]);
    assert(vf[iid] == id);
    assert forall|y: Seq<char>| #[trigger] in_tree(n, y) && y != id implies before(vf, id, y) by {
        assert(in_forest(n.children@, y));
        assert(vf.contains(y));
        let iy = choose|iy: int| 0 <= iy < vf.len() && vf[iy] == y;
        if iy < v1.len() {
            assert(v1[iy] == vf[iy]);
            assert(v1.contains(y));
        }
        lemma_before(vf, iid, iy);
    }
    assert forall|y: Seq<char>, z: Seq<char>| #![trigger in_tree(n, y), before(vf, z, y)]
        in_tree(n, y) && before(vf, id, z) && before(vf, z, y) implies in_tree(n, z) by {
        let (i, j) = choose|i: int, j: int| 0 <= i < j < vf.len() && #[trigger] vf[i] == id && #[trigger] vf[j] == z;
        assert(i == iid);
        assert(vf.contains(z));
        if v1.contains(z) {
            let iz = choose|iz: int| 0 <= iz < v1.len() && v1[iz] == z;
            assert(vf[iz] == v1[iz]);
            assert(iz == j);
        }
    }
    assert forall|c: Seq<char>| #[trigger] ls.contains(c) implies before(vf, c, id) || in_tree(n, c) by {
        let q = choose|q: int| 0 <= q < ls.len() && ls[q] == c;
        if v0.contains(c) {
            let ic = choose|ic: int| 0 <= ic < v0.len() && v0[ic] == c;
            assert(vf[ic] == v1[ic]);
            lemma_before(vf, ic, iid);
        }
    }
}

/// Builds the tree for `id`: `None` when `id` was already visited;
/// otherwise marks it visited and builds, in list order, the trees of its
/// listed children that are still unvisited, which become its children in
/// ascending id order. Each id thus appears once, under the first parent
/// that reaches it.
pub fn to_node(meta: &Vec<TaskMeta>, child_ids: &Vec<ChildList>, id: &str, visited: &mut Vec<String>) -> (r: Option<TaskNode>)
    requires
        distinct(meta_keys(meta@)),
        distinct(list_keys(child_ids@)),
        distinct(views(old(visited)@)),
    ensures
        distinct(views(final(visited)@)),
        views(old(visited)@).contains(id@) ==> r is None && final(visited)@ == old(visited)@,
        !views(old(visited)@).contains(id@) ==> (r matches Some(n)
            && built_node(n, meta@, child_ids@, id@, views(old(visited)@), views(final(visited)@))),
        views(old(visited)@).len() <= views(final(visited)@).len(),
        views(final(visited)@).take(views(old(visited)@).len() as int) == views(old(visited)@),
        !views(old(visited)@).contains(id@) ==> (r matches Some(n)
            && views(old(visited)@).len() < views(final(visited)@).len()
            && views(final(visited)@)[views(old(visited)@).len() as int] == id@
            && placed(n, child_ids@, views(final(visited)@))),
    decreases unvisited(child_ids@, views(old(visited)@)), if all_children(child_ids@).contains(id@) { 0int } else { 1int },
{
    let ghost v0 = views(visited@);
    if let Some(q) = position_of(visited, id) {
        proof {
            assert(v0[q as int] == id@);
            assert(v0.take(v0.len() as int) =~= v0);
        }
        return None;
    }
    proof {
        assert forall|q: int| 0 <= q < v0.len() implies #[trigger] v0[q] != id@ by {
            assert(v0[q] == visited@[q]@);
        }
    }
    visited.push(id.to_owned());
    let ghost v1 = views(visited@);
    proof {
        assert(v1 =~= v0.push(id@));
        assert(v1[v0.len() as int] == id@);
        assert forall|y: Seq<char>| v0.contains(y) implies #[trigger] v1.contains(y) by {
            let q = choose|q: int| 0 <= q < v0.len() && v0[q] == y;
            assert(v1[q] == v0[q]);
        }
    }
    let (title, state) = match find_meta(meta, id) {
        Some(k) => (meta[k].title.clone(), meta[k].state),
        None => (String::new(), TaskState::Pending),
    };
    let list: Vec<String> = match find_list(child_ids, id) {
        Some(k) => child_ids[k].children.clone(),
        None => Vec::new(),
    };
    proof {
        assert(views(list@) =~= children_for(child_ids@, id@));
    }
    let mut kids: Vec<TaskNode> = Vec::new();
    let mut j: usize = 0;
    proof {
        assert(v1.take(v1.len() as int) =~= v1);
    }
    while j < list.len()
        invariant
            distinct(meta_keys(meta@)),
            distinct(list_keys(child_ids@)),
            v0 == views(old(visited)@),
            j <= list.len(),
            views(list@) == children_for(child_ids@, id@),
            v1 == v0.push(id@),
            !v0.contains(id@),
            v1.contains(id@),
            forall|y: Seq<char>| v0.contains(y) ==> #[trigger] v1.contains(y),
            distinct(views(visited@)),
            forall|x: Seq<char>| #![trigger views(visited@).contains(x)] #![trigger in_forest(kids@, x)]
                views(visited@).contains(x) <==> v1.contains(x) || in_forest(kids@, x),
            forall|x: Seq<char>| #[trigger] in_forest(kids@, x) ==> !v1.contains(x),
            ids_ascending(kids@),
            trees_disjoint(kids@),
            forall|k: int| 0 <= k < kids.len() ==> node_ok(#[trigger] kids@[k], meta@, child_ids@) && tree_distinct(kids@[k]),
            forall|k: int| 0 <= k < kids.len() ==> children_for(child_ids@, id@).contains(#[trigger] kids@[k].id@),
            v1.len() <= views(visited@).len(),
            views(visited@).take(v1.len() as int) == v1,
            forall|k: int| 0 <= k < kids.len() ==> placed(#[trigger] kids@[k], child_ids@, views(visited@)),
            forall|k: int| 0 <= k < kids.len() ==> exists|q: int| 0 <= q < j && #[trigger] views(list@)[q] == (#[trigger] kids@[k]).id@,
            forall|q: int| 0 <= q < j ==> v0.contains(#[trigger] views(list@)[q]) || views(list@)[q] == id@
                || in_forest(kids@, views(list@)[q]),
            forall|j1: int, j2: int| #![trigger views(list@)[j1], views(list@)[j2]]
                0 <= j1 < j2 < j && kid_id(kids@, views(list@)[j2]) && !views(list@).take(j2).contains(views(list@)[j2])
                ==> before(views(visited@), views(list@)[j1], views(list@)[j2]),
            forall|q: int| 0 <= q < j ==> views(visited@).contains(#[trigger] list@[q]@),
            forall|x: Seq<char>, c: Seq<char>| in_forest(kids@, x) && #[trigger] children_for(child_ids@, x).contains(c)
                ==> #[trigger] views(visited@).contains(c),
        decreases list.len() - j,
    {
        let ghost vb = views(visited@);
        proof {
            assert forall|y: Seq<char>| v0.contains(y) implies #[trigger] vb.contains(y) by {
                assert(v1.contains(y));
            }
            lemma_unvisited_shrinks(child_ids@, v0, vb, id@);
            assert(views(list@)[j as int] == list@[j as int]@);
            lemma_listed_child_in_all(child_ids@, id@, list@[j as int]@);
        }
        let r = to_node(meta, child_ids, list[j].as_str(), visited);
        let ghost va = views(visited@);
        match r {
            Some(node) => {
                proof {
                    assert forall|k: int| 0 <= k < kids.len() implies (#[trigger] kids@[k]).id@ != node.id@ by {
                        assert(in_tree(kids@[k], kids@[k].id@));
                        assert(in_forest(kids@, kids@[k].id@));
                        assert(in_tree(node, node.id@));
                    }
                }
                let pos = sorted_slot(&kids, node.id.as_str());
                let ghost old_kids = kids@;
                proof {
                    assert forall|x: Seq<char>| #[trigger] in_forest(old_kids, x) implies vb.contains(x) by {}
                    assert(views(list@)[j as int] == list@[j as int]@);
                    lemma_insert_kid(old_kids, pos as int, node, meta@, child_ids@, id@, vb);
                    lemma_insert_forest(old_kids, pos as int, node);
                }
                kids.insert(pos, node);
                proof {
                    assert(views(list@)[j as int] == list@[j as int]@);
                    assert forall|q: int| 0 <= q < j implies vb.contains(#[trigger] views(list@)[q]) by {
                        assert(views(list@)[q] == list@[q]@);
                    }
                    assert(!vb.contains(node.id@)) by {
                        assert(in_tree(node, node.id@));
                    }
                    lemma_placed_step(old_kids, pos as int, node, child_ids@, views(list@), j as int, v0, id@, v1, vb, va);
                    assert(kids@ == old_kids.insert(pos as int, node));
                    assert forall|q: int| 0 <= q <= j implies va.contains(#[trigger] list@[q]@) by {
                        if q == j {
                            assert(in_tree(node, node.id@));
                        } else {
                            assert(vb.contains(list@[q]@));
                        }
                    }
                    assert forall|x: Seq<char>, c: Seq<char>| in_forest(kids@, x) && #[trigger] children_for(child_ids@, x).contains(c)
                        implies #[trigger] va.contains(c) by {
                        if in_forest(old_kids, x) {
                            assert(vb.contains(c));
                        } else {
                            assert(in_tree(node, x));
                        }
                    }
                }
            },
            None => {
                proof {
                    assert(vb.contains(list@[j as int]@));
                    assert(views(list@)[j as int] == list@[j as int]@);
                    lemma_placed_skip(kids@, views(list@), j as int, v0, id@, v1, vb);
                }
            },
        }
        j = j + 1;
    }
    let n = TaskNode { id: id.to_owned(), title, state, children: kids };
    proof {
        let vf = views(visited@);
        assert forall|x: Seq<char>| in_tree(n, x) <==> x == id@ || in_forest(kids@, x) by {
            if in_tree(n, x) && x != id@ {
                let k = choose|k: int| 0 <= k < n.children.len() && in_tree(#[trigger] n.children@[k], x);
                assert(in_tree(kids@[k], x));
            }
            if in_forest(kids@, x) {
                let k = choose|k: int| 0 <= k < kids@.len() && in_tree(#[trigger] kids@[k], x);
                assert(in_tree(n.children@[k], x));
            }
        }
        assert forall|k: int| 0 <= k < n.children.len() implies !in_tree(#[trigger] n.children@[k], n.id@) by {
            if in_tree(n.children@[k], n.id@) {
                assert(in_forest(kids@, id@));
            }
        }
        assert(tree_distinct(n));
        assert(node_ok(n, meta@, child_ids@));
        assert forall|x: Seq<char>, c: Seq<char>| in_tree(n, x) && #[trigger] children_for(child_ids@, x).contains(c)
            implies #[trigger] vf.contains(c) by {
            if x == id@ {
                let q = choose|q: int| 0 <= q < views(list@).len() && views(list@)[q] == c;
                assert(views(list@)[q] == list@[q]@);
            }
        }
        assert forall|x: Seq<char>| #[trigger] in_tree(n, x) implies !v0.contains(x) by {
            if x != id@ {
                assert(in_forest(kids@, x));
                assert(!v1.contains(x));
            }
        }
        assert forall|x: Seq<char>| #![trigger vf.contains(x)] #![trigger in_tree(n, x)] vf.contains(x) <==> v0.contains(x) || in_tree(n, x) by {
            assert(v1.contains(x) <==> v0.contains(x) || x == id@);
        }
        assert(n.children@ == kids@);
        assert(views(list@) == children_for(child_ids@, n.id@));
        lemma_placed_node(n, child_ids@, views(list@), v0, v1, vf);
        assert(vf.take(v0.len() as int) =~= v1.take(v0.len() as int));
        assert(v1.take(v0.len() as int) =~= v0);
        assert(vf[v0.len() as int] == v1[v0.len() as int]);
    }
    Some(n)
}

/// A task belongs to project `proj` (compared lower-cased): its title
/// starts with or contains the tag `[proj]`, or its id starts with
/// `proj-` or contains `proj`.
pub open spec fn project_match(title: Seq<char>, id: Seq<char>, proj: Seq<char>) -> bool {
    let p = lowercase(proj);
    let tag = seq!['['] + p + seq![']'];
    ||| starts_with_text(lowercase(title), tag)
    ||| contains_text(lowercase(title), tag)
    ||| starts_with_text(lowercase(id), p.push('-'))
    ||| contains_text(lowercase(id), p)
}

/// Whether a task matches a project filter (see `project_match`).
pub fn matches_project(title: &str, id: &str, proj: &str) -> (r: bool)
    ensures
        r == project_match(title@, id@, proj@),
{
    let p = to_lower(proj);
    let mut tag = String::new();
    push_char(&mut tag, '[');
    push_str(&mut tag, p.as_str());
    push_char(&mut tag, ']');
    let mut dashed = String::new();
    push_str(&mut dashed, p.as_str());
    push_char(&mut dashed, '-');
    let tl = chars_of(to_lower(title).as_str());
    let il = chars_of(to_lower(id).as_str());
    let tag_c = chars_of(tag.as_str());
    let dashed_c = chars_of(dashed.as_str());
    let p_c = chars_of(p.as_str());
    proof {
        assert(tag@ =~= seq!['['] + p@ + seq![']']);
        assert(dashed@ =~= p@.push('-'));
    }
    let in_title = find_text(&tl, &tag_c);
    let in_id = find_text(&il, &p_c);
    let r = matches_at(&tl, &tag_c, 0) || in_title.is_some() || matches_at(&il, &dashed_c, 0) || in_id.is_some();
    proof {
        if let Some(i) = in_title {
            assert(contains_text(tl@, tag_c@));
        }
        if let Some(i) = in_id {
            assert(contains_text(il@, p_c@));
        }
    }
    r
}

/// A project filter as characters.
pub open spec fn filter_view(filter: Option<&str>) -> Option<Seq<char>> {
    match filter {
        Some(p) => Some(p@),
        None => None,
    }
}

/// A task is in view: there is no filter, or it matches the project.
pub open spec fn kept(t: Task, filter: Option<Seq<char>>) -> bool {
    match filter {
        None => true,
        Some(p) => project_match(t.title@, t.id@, p),
    }
}

/// `x` is the id of a task in view.
pub open spec fn kept_id(tasks: Seq<Task>, filter: Option<Seq<char>>, x: Seq<char>) -> bool {
    exists|i: int| 0 <= i < tasks.len() && kept(#[trigger] tasks[i], filter) && tasks[i].id@ == x
}

/// `x` is among the parents listed.
pub open spec fn has_parent(ps: Seq<Task>, x: Seq<char>) -> bool {
    exists|q: int| 0 <= q < ps.len() && #[trigger] ps[q].id@ == x
}

/// `c` is a task in view with `x`, a task in view, among its parents.
pub open spec fn view_child(tasks: Seq<Task>, parents: Seq<Vec<Task>>, filter: Option<Seq<char>>, x: Seq<char>, c: Seq<char>) -> bool {
    &&& kept_id(tasks, filter, x)
    &&& exists|i: int| 0 <= i < tasks.len() && i < parents.len() && kept(#[trigger] tasks[i], filter)
            && tasks[i].id@ == c && has_parent(parents[i]@, x)
}

/// Task `i` is in view and none of its parents is.
pub open spec fn is_root(tasks: Seq<Task>, parents: Seq<Vec<Task>>, filter: Option<Seq<char>>, i: int) -> bool {
    &&& kept(tasks[i], filter)
    &&& forall|q: int| 0 <= q < parents[i].len() ==> !kept_id(tasks, filter, #[trigger] parents[i]@[q].id@)
}

/// `m` records one of the first `n` tasks, which is in view.
pub open spec fn record_of(tasks: Seq<Task>, filter: Option<Seq<char>>, n: int, m: TaskMeta) -> bool {
    exists|i: int| 0 <= i < n && kept(#[trigger] tasks[i], filter)
        && tasks[i].id@ == m.id@ && tasks[i].title@ == m.title@ && tasks[i].state == m.state
}

/// Whether `x` is among the parents listed.
fn lists_parent(ps: &Vec<Task>, x: &str) -> (r: bool)
    ensures
        r == has_parent(ps@, x@),
{
    let mut q: usize = 0;
    while q < ps.len()
        invariant
            q <= ps.len(),
            forall|j: int| 0 <= j < q ==> ps@[j].id@ != x@,
        decreases ps.len() - q,
    {
        if str_equal(ps[q].id.as_str(), x) {
            return true;
        }
        q = q + 1;
    }
    false
}

/// Which tasks are in view, their records, and their ids.
fn tasks_in_view(tasks: &Vec<Task>, filter: Option<&str>) -> (r: (Vec<bool>, Vec<TaskMeta>, Vec<String>))
    requires
        distinct(views(tasks@.map_values(|t: Task| t.id))),
    ensures
        r.0.len() == tasks.len(),
        forall|i: int| 0 <= i < tasks.len() ==> #[trigger] r.0@[i] == kept(tasks@[i], filter_view(filter)),
        meta_keys(r.1@) == views(r.2@),
        distinct(views(r.2@)),
        forall|x: Seq<char>| #[trigger] views(r.2@).contains(x) <==> kept_id(tasks@, filter_view(filter), x),
        forall|k: int| 0 <= k < r.1.len() ==> record_of(tasks@, filter_view(filter), tasks.len() as int, #[trigger] r.1@[k]),
{
    let ghost fv = filter_view(filter);
    let ghost ids = views(tasks@.map_values(|t: Task| t.id));
    let mut keep: Vec<bool> = Vec::new();
    let mut meta: Vec<TaskMeta> = Vec::new();
    let mut kept_ids: Vec<String> = Vec::new();
    let mut i: usize = 0;
    while i < tasks.len()
        invariant
            i <= tasks.len(),
            fv == filter_view(filter),
            ids == views(tasks@.map_values(|t: Task| t.id)),
            distinct(ids),
            keep.len() == i,
            forall|j: int| 0 <= j < i ==> #[trigger] keep@[j] == kept(tasks@[j], fv),
            meta_keys(meta@) == views(kept_ids@),
            forall|k: int| 0 <= k < meta.len() ==> record_of(tasks@, fv, i as int, #[trigger] meta@[k]),
            forall|j: int| 0 <= j < i && kept(#[trigger] tasks@[j], fv) ==> views(kept_ids@).contains(tasks@[j].id@),
            distinct(views(kept_ids@)),
        decreases tasks.len() - i,
    {
        let t = &tasks[i];
        let k = match filter {
            None => true,
            Some(p) => matches_project(t.title.as_str(), t.id.as_str(), p),
        };
        keep.push(k);
        if k {
            proof {
                assert forall|q: int| 0 <= q < kept_ids.len() implies #[trigger] views(kept_ids@)[q] != t.id@ by {
                    assert(views(kept_ids@).len() == kept_ids.len());
                    assert(meta_keys(meta@).len() == meta@.len());
                    assert(meta_keys(meta@)[q] == meta@[q].id@);
                    assert(record_of(tasks@, fv, i as int, meta@[q]));
                    let j = choose|j: int| 0 <= j < i && kept(#[trigger] tasks@[j], fv)
                        && tasks@[j].id@ == meta@[q].id@ && tasks@[j].title@ == meta@[q].title@ && tasks@[j].state == meta@[q].state;
                    assert(ids[j] == tasks@[j].id@);
                    assert(ids[i as int] == tasks@[i as int].id@);
                }
            }
            let ghost old_meta = meta@;
            let ghost old_ids = kept_ids@;
            meta.push(TaskMeta { id: t.id.clone(), title: t.title.clone(), state: t.state });
            kept_ids.push(t.id.clone());
            proof {
                assert(meta_keys(meta@) =~= meta_keys(old_meta).push(t.id@));
                assert(views(kept_ids@) =~= views(old_ids).push(t.id@));
                assert(views(kept_ids@)[kept_ids.len() - 1] == t.id@);
                assert forall|j: int| 0 <= j <= i && kept(#[trigger] tasks@[j], fv) implies views(kept_ids@).contains(tasks@[j].id@) by {
                    if j < i {
                        assert(views(old_ids).contains(tasks@[j].id@));
                        let q = choose|q: int| 0 <= q < old_ids.len() && views(old_ids)[q] == tasks@[j].id@;
                        assert(views(kept_ids@)[q] == tasks@[j].id@);
                    }
                }
                assert forall|k: int| 0 <= k < meta.len() implies record_of(tasks@, fv, i + 1, #[trigger] meta@[k]) by {
                    if k < old_meta.len() {
                        assert(meta@[k] == old_meta[k]);
                        assert(record_of(tasks@, fv, i as int, old_meta[k]));
                    } else {
                        assert(kept(tasks@[i as int], fv));
                    }
                }
            }
        }
        i = i + 1;
    }
    proof {
        assert forall|x: Seq<char>| #[trigger] views(kept_ids@).contains(x) <==> kept_id(tasks@, fv, x) by {
            if views(kept_ids@).contains(x) {
                let q = choose|q: int| 0 <= q < kept_ids.len() && views(kept_ids@)[q] == x;
                assert(views(kept_ids@)[q] == kept_ids@[q]@);
            }
        }
    }
    (keep, meta, kept_ids)
}

/// `c` is a task in view that lists `x` among its parents.
pub open spec fn child_in_view(tasks: Seq<Task>, parents: Seq<Vec<Task>>, filter: Option<Seq<char>>, x: Seq<char>, c: Seq<char>) -> bool {
    exists|i: int| 0 <= i < tasks.len() && i < parents.len() && kept(#[trigger] tasks[i], filter)
        && tasks[i].id@ == c && has_parent(parents[i]@, x)
}

/// `x` is the id of a root: a task in view none of whose parents is.
pub open spec fn root_id(tasks: Seq<Task>, parents: Seq<Vec<Task>>, filter: Option<Seq<char>>, x: Seq<char>) -> bool {
    exists|i: int| 0 <= i < tasks.len() && #[trigger] is_root(tasks, parents, filter, i) && tasks[i].id@ == x
}

/// The ids of the tasks, in order.
pub open spec fn task_ids(tasks: Seq<Task>) -> Seq<Seq<char>> {
    views(tasks.map_values(|t: Task| t.id))
}

/// Ids of the tasks in view that list `x` among their parents.
fn children_in_view(
    tasks: &Vec<Task>,
    keep: &Vec<bool>,
    parents: &Vec<Vec<Task>>,
    x: &str,
    Ghost(fv): Ghost<Option<Seq<char>>>,
) -> (r: Vec<String>)
    requires
        keep.len() == tasks.len(),
        parents.len() == tasks.len(),
        forall|i: int| 0 <= i < tasks.len() ==> #[trigger] keep@[i] == kept(tasks@[i], fv),
        distinct(task_ids(tasks@)),
    ensures
        distinct(views(r@)),
        forall|c: Seq<char>| #[trigger] views(r@).contains(c) <==> child_in_view(tasks@, parents@, fv, x@, c),
{
    let mut out: Vec<String> = Vec::new();
    let mut i: usize = 0;
    while i < tasks.len()
        invariant
            i <= tasks.len(),
            keep.len() == tasks.len(),
            parents.len() == tasks.len(),
            forall|j: int| 0 <= j < tasks.len() ==> #[trigger] keep@[j] == kept(tasks@[j], fv),
            distinct(task_ids(tasks@)),
            distinct(views(out@)),
            forall|c: Seq<char>| #[trigger] views(out@).contains(c) <==> exists|j: int| 0 <= j < i && kept(#[trigger] tasks@[j], fv)
                && tasks@[j].id@ == c && has_parent(parents@[j]@, x@),
        decreases tasks.len() - i,
    {
        let hit = keep[i] && lists_parent(&parents[i], x);
        let ghost old_out = views(out@);
        if hit {
            proof {
                assert forall|q: int| 0 <= q < old_out.len() implies #[trigger] old_out[q] != tasks@[i as int].id@ by {
                    assert(old_out.contains(old_out[q]));
                    let j = choose|j: int| 0 <= j < i && kept(#[trigger] tasks@[j], fv)
                        && tasks@[j].id@ == old_out[q] && has_parent(parents@[j]@, x@);
                    assert(task_ids(tasks@)[j] == tasks@[j].id@);
                    assert(task_ids(tasks@)[i as int] == tasks@[i as int].id@);
                }
            }
            out.push(tasks[i].id.clone());
            proof {
                assert(views(out@) =~= old_out.push(tasks@[i as int].id@));
            }
        }
        proof {
            assert forall|c: Seq<char>| #[trigger] views(out@).contains(c) <==> exists|j: int| 0 <= j < i + 1 && kept(#[trigger] tasks@[j], fv)
                && tasks@[j].id@ == c && has_parent(parents@[j]@, x@) by {
                if hit && c == tasks@[i as int].id@ {
                    assert(views(out@)[old_out.len() as int] == c);
                }
                if views(out@).contains(c) && !(hit && c == tasks@[i as int].id@) {
                    let q = choose|q: int| 0 <= q < views(out@).len() && views(out@)[q] == c;
                    assert(old_out[q] == c);
                    assert(old_out.contains(c));
                }
                if exists|j: int| 0 <= j < i && kept(#[trigger] tasks@[j], fv) && tasks@[j].id@ == c && has_parent(parents@[j]@, x@) {
                    assert(old_out.contains(c));
                    let q = choose|q: int| 0 <= q < old_out.len() && old_out[q] == c;
                    if hit {
                        assert(views(out@)[q] == c);
                    }
                }
            }
        }
        i = i + 1;
    }
    out
}

/// Ids of the roots: tasks in view none of whose parents is in view.
fn root_ids(
    tasks: &Vec<Task>,
    keep: &Vec<bool>,
    parents: &Vec<Vec<Task>>,
    kept_ids: &Vec<String>,
    Ghost(fv): Ghost<Option<Seq<char>>>,
) -> (r: Vec<String>)
    requires
        keep.len() == tasks.len(),
        parents.len() == tasks.len(),
        forall|i: int| 0 <= i < tasks.len() ==> #[trigger] keep@[i] == kept(tasks@[i], fv),
        forall|x: Seq<char>| #[trigger] views(kept_ids@).contains(x) <==> kept_id(tasks@, fv, x),
        distinct(task_ids(tasks@)),
    ensures
        distinct(views(r@)),
        forall|x: Seq<char>| #[trigger] views(r@).contains(x) <==> root_id(tasks@, parents@, fv, x),
{
    let mut out: Vec<String> = Vec::new();
    let mut i: usize = 0;
    while i < tasks.len()
        invariant
            i <= tasks.len(),
            keep.len() == tasks.len(),
            parents.len() == tasks.len(),
            forall|j: int| 0 <= j < tasks.len() ==> #[trigger] keep@[j] == kept(tasks@[j], fv),
            forall|x: Seq<char>| #[trigger] views(kept_ids@).contains(x) <==> kept_id(tasks@, fv, x),
            distinct(task_ids(tasks@)),
            distinct(views(out@)),
            forall|x: Seq<char>| #[trigger] views(out@).contains(x) <==> exists|j: int| 0 <= j < i
                && #[trigger] is_root(tasks@, parents@, fv, j) && tasks@[j].id@ == x,
        decreases tasks.len() - i,
    {
        let mut root = keep[i];
        let ps = &parents[i];
        let mut q: usize = 0;
        while q < ps.len()
            invariant
                q <= ps.len(),
                *ps == parents@[i as int],
                forall|x: Seq<char>| #[trigger] views(kept_ids@).contains(x) <==> kept_id(tasks@, fv, x),
                root ==> forall|p: int| 0 <= p < q ==> !kept_id(tasks@, fv, #[trigger] ps@[p].id@),
                !root ==> (!keep@[i as int] || exists|p: int| 0 <= p < q && kept_id(tasks@, fv, #[trigger] ps@[p].id@)),
                i < tasks.len(),
                keep.len() == tasks.len(),
                parents.len() == tasks.len(),
                keep@[i as int] == kept(tasks@[i as int], fv),
                root ==> keep@[i as int],
            decreases ps.len() - q,
        {
            if position_of(kept_ids, ps[q].id.as_str()).is_some() {
                proof {
                    let k = choose|k: int| 0 <= k < kept_ids.len() && kept_ids@[k]@ == ps@[q as int].id@;
                    assert(views(kept_ids@)[k] == ps@[q as int].id@);
                    assert(views(kept_ids@).contains(ps@[q as int].id@));
                    assert(kept_id(tasks@, fv, ps@[q as int].id@));
                }
                root = false;
            } else {
                proof {
                    if views(kept_ids@).contains(ps@[q as int].id@) {
                        let k = choose|k: int| 0 <= k < kept_ids.len() && views(kept_ids@)[k] == ps@[q as int].id@;
                        assert(views(kept_ids@)[k] == kept_ids@[k]@);
                    }
                }
            }
            q = q + 1;
        }
        let ghost old_out = views(out@);
        proof {
            assert(root == is_root(tasks@, parents@, fv, i as int));
        }
        if root {
            proof {
                assert forall|k: int| 0 <= k < old_out.len() implies #[trigger] old_out[k] != tasks@[i as int].id@ by {
                    assert(old_out.contains(old_out[k]));
                    let j = choose|j: int| 0 <= j < i && #[trigger] is_root(tasks@, parents@, fv, j) && tasks@[j].id@ == old_out[k];
                    assert(task_ids(tasks@)[j] == tasks@[j].id@);
                    assert(task_ids(tasks@)[i as int] == tasks@[i as int].id@);
                }
            }
            out.push(tasks[i].id.clone());
            proof {
                assert(views(out@) =~= old_out.push(tasks@[i as int].id@));
            }
        }
        proof {
            assert forall|x: Seq<char>| #[trigger] views(out@).contains(x) <==> exists|j: int| 0 <= j < i + 1
                && #[trigger] is_root(tasks@, parents@, fv, j) && tasks@[j].id@ == x by {
                if root && x == tasks@[i as int].id@ {
                    assert(views(out@)[old_out.len() as int] == x);
                }
                if views(out@).contains(x) && !(root && x == tasks@[i as int].id@) {
                    let k = choose|k: int| 0 <= k < views(out@).len() && views(out@)[k] == x;
                    assert(old_out[k] == x);
                    assert(old_out.contains(x));
                }
                if exists|j: int| 0 <= j < i && #[trigger] is_root(tasks@, parents@, fv, j) && tasks@[j].id@ == x {
                    assert(old_out.contains(x));
                    let k = choose|k: int| 0 <= k < old_out.len() && old_out[k] == x;
                    if root {
                        assert(views(out@)[k] == x);
                    }
                }
            }
        }
        i = i + 1;
    }
    out
}

proof fn lemma_all_in_some_list(cs: Seq<ChildList>, c: Seq<char>)
    requires
        all_children(cs).contains(c),
    ensures
        exists|k: int| 0 <= k < cs.len() && #[trigger] views(cs[k].children@).contains(c),
    decreases cs.len(),
{
    let rest = all_children(cs.drop_last());
    let last = views(cs.last().children@);
    let q = choose|q: int| 0 <= q < (rest + last).len() && (rest + last)[q] == c;
    if q < rest.len() {
        assert(rest[q] == c);
        lemma_all_in_some_list(cs.drop_last(), c);
        let k = choose|k: int| 0 <= k < cs.drop_last().len() && #[trigger] views(cs.drop_last()[k].children@).contains(c);
        assert(cs.drop_last()[k] == cs[k]);
    } else {
        assert(last[q - rest.len()] == c);
        assert(views(cs[cs.len() - 1].children@).contains(c));
    }
}

proof fn lemma_tree_ids_listed(n: TaskNode, meta: Seq<TaskMeta>, cs: Seq<ChildList>, x: Seq<char>)
    requires
        node_ok(n, meta, cs),
        in_tree(n, x),
    ensures
        x == n.id@ || all_children(cs).contains(x),
    decreases n,
{
    if x != n.id@ {
        let k = choose|k: int| 0 <= k < n.children.len() && in_tree(#[trigger] n.children@[k], x);
        let ch = n.children@[k];
        lemma_tree_ids_listed(ch, meta, cs, x);
        assert(children_for(cs, n.id@).contains(ch.id@));
        lemma_listed_child_in_all(cs, n.id@, ch.id@);
    }
}

/// `meta` and `cs` record exactly the tasks in view and their children in
/// view, and every tree of `ns` is well-formed against them.
pub open spec fn records_forest(ns: Seq<TaskNode>, tasks: Seq<Task>, parents: Seq<Vec<Task>>, filter: Option<Seq<char>>, meta: Seq<TaskMeta>, cs: Seq<ChildList>) -> bool {
    &&& distinct(meta_keys(meta))
    &&& forall|k: int| 0 <= k < meta.len() ==> record_of(tasks, filter, tasks.len() as int, #[trigger] meta[k])
    &&& forall|x: Seq<char>| #[trigger] has_key(meta_keys(meta), x) <==> kept_id(tasks, filter, x)
    &&& forall|x: Seq<char>, c: Seq<char>| #[trigger] children_for(cs, x).contains(c) <==> view_child(tasks, parents, filter, x, c)
    &&& forall|k: int| 0 <= k < ns.len() ==> #[trigger] node_ok(ns[k], meta, cs)
}

/// The forest keeps the records of the tasks in view (see
/// `records_forest`), and every child in view of a node of the forest is
/// itself in the forest.
pub open spec fn faithful_forest(ns: Seq<TaskNode>, tasks: Seq<Task>, parents: Seq<Vec<Task>>, filter: Option<Seq<char>>) -> bool {
    &&& exists|meta: Seq<TaskMeta>, cs: Seq<ChildList>| #[trigger] records_forest(ns, tasks, parents, filter, meta, cs)
    &&& forall|x: Seq<char>, c: Seq<char>| in_forest(ns, x) && #[trigger] view_child(tasks, parents, filter, x, c) ==> #[trigger] in_forest(ns, c)
}

/// `cs` lists, for every id, its children in view in ascending order.
pub open spec fn view_lists(cs: Seq<ChildList>, tasks: Seq<Task>, parents: Seq<Vec<Task>>, filter: Option<Seq<char>>) -> bool {
    &&& forall|x: Seq<char>, c: Seq<char>| #[trigger] children_for(cs, x).contains(c) <==> view_child(tasks, parents, filter, x, c)
    &&& forall|x: Seq<char>| #[trigger] strictly_sorted(children_for(cs, x))
}

/// The forest is placed depth first (see `placed`) against one visiting
/// order over the lists of children in view, ascending; its roots are
/// visited in order.
pub open spec fn placed_forest(ns: Seq<TaskNode>, tasks: Seq<Task>, parents: Seq<Vec<Task>>, filter: Option<Seq<char>>) -> bool {
    exists|cs: Seq<ChildList>, v: Seq<Seq<char>>| #[trigger] view_lists(cs, tasks, parents, filter) && #[trigger] distinct(v)
        && (forall|k: int| 0 <= k < ns.len() ==> placed(#[trigger] ns[k], cs, v))
        && (forall|a: int, b: int| 0 <= a < b < ns.len() ==> before(v, #[trigger] ns[a].id@, #[trigger] ns[b].id@))
}

/// Forest of the tasks in view (those matching `project_filter`, or all),
/// where `parents[i]` are the parents of `tasks[i]`. The roots are the
/// tasks in view with no parent in view, in ascending id order; below
/// each node hang its children in view, in ascending id order, and a task
/// reachable from several parents appears once, under the first one.
pub fn build_tree(tasks: &Vec<Task>, parents: &Vec<Vec<Task>>, project_filter: Option<&str>) -> (r: Vec<TaskNode>)
    requires
        parents.len() == tasks.len(),
        distinct(task_ids(tasks@)),
    ensures
        ids_ascending(r@),
        forall|k: int| 0 <= k < r.len() ==> root_id(tasks@, parents@, filter_view(project_filter), #[trigger] r@[k].id@),
        forall|x: Seq<char>| root_id(tasks@, parents@, filter_view(project_filter), x) ==> exists|k: int| 0 <= k < r.len() && #[trigger] r@[k].id@ == x,
        trees_disjoint(r@),
        forall|k: int| 0 <= k < r.len() ==> tree_distinct(#[trigger] r@[k]),
        faithful_forest(r@, tasks@, parents@, filter_view(project_filter)),
        placed_forest(r@, tasks@, parents@, filter_view(project_filter)),
{
    let ghost fv = filter_view(project_filter);
    let (keep, meta, kept_ids) = tasks_in_view(tasks, project_filter);
    let mut cs: Vec<ChildList> = Vec::new();
    let mut k: usize = 0;
    while k < kept_ids.len()
        invariant
            k <= kept_ids.len(),
            cs.len() == k,
            keep.len() == tasks.len(),
            parents.len() == tasks.len(),
            forall|i: int| 0 <= i < tasks.len() ==> #[trigger] keep@[i] == kept(tasks@[i], fv),
            distinct(task_ids(tasks@)),
            forall|q: int| 0 <= q < k ==> (#[trigger] cs@[q]).parent@ == kept_ids@[q]@,
            forall|q: int| 0 <= q < k ==> strictly_sorted(views((#[trigger] cs@[q]).children@)),
            forall|q: int, c: Seq<char>| 0 <= q < k ==> (#[trigger] views(cs@[q].children@).contains(c)
                <==> child_in_view(tasks@, parents@, fv, kept_ids@[q]@, c)),
        decreases kept_ids.len() - k,
    {
        let list = children_in_view(tasks, &keep, parents, kept_ids[k].as_str(), Ghost(fv));
        let sorted = sort_distinct(&list);
        cs.push(ChildList { parent: kept_ids[k].clone(), children: sorted });
        k = k + 1;
    }
    proof {
        assert(list_keys(cs@) =~= views(kept_ids@));
        assert forall|x: Seq<char>, c: Seq<char>| #[trigger] children_for(cs@, x).contains(c) <==> view_child(tasks@, parents@, fv, x, c) by {
            if has_key(list_keys(cs@), x) {
                let q = key_pos(list_keys(cs@), x);
                assert(list_keys(cs@)[q] == x);
                assert(views(kept_ids@)[q] == x);
                assert(views(kept_ids@).contains(x));
            } else {
                if kept_id(tasks@, fv, x) {
                    assert(views(kept_ids@).contains(x));
                    let q = choose|q: int| 0 <= q < kept_ids.len() && views(kept_ids@)[q] == x;
                    assert(list_keys(cs@)[q] == x);
                }
            }
        }
        assert forall|x: Seq<char>| #[trigger] has_key(meta_keys(meta@), x) <==> kept_id(tasks@, fv, x) by {
            if has_key(meta_keys(meta@), x) {
                let q = choose|q: int| 0 <= q < meta_keys(meta@).len() && #[trigger] meta_keys(meta@)[q] == x;
                assert(views(kept_ids@)[q] == x);
            }
            if kept_id(tasks@, fv, x) {
                assert(views(kept_ids@).contains(x));
                let q = choose|q: int| 0 <= q < kept_ids.len() && views(kept_ids@)[q] == x;
                assert(meta_keys(meta@)[q] == x);
            }
        }
    }
    proof {
        assert forall|x: Seq<char>| #[trigger] strictly_sorted(children_for(cs@, x)) by {
            if has_key(list_keys(cs@), x) {
                let q = key_pos(list_keys(cs@), x);
                assert(strictly_sorted(views(cs@[q].children@)));
            }
        }
        assert(view_lists(cs@, tasks@, parents@, fv));
    }
    let roots = sort_distinct(&root_ids(tasks, &keep, parents, &kept_ids, Ghost(fv)));
    let mut visited: Vec<String> = Vec::new();
    let mut out: Vec<TaskNode> = Vec::new();
    let mut j: usize = 0;
    while j < roots.len()
        invariant
            j <= roots.len(),
            out.len() == j,
            distinct(meta_keys(meta@)),
            distinct(list_keys(cs@)),
            strictly_sorted(views(roots@)),
            forall|x: Seq<char>| #[trigger] views(roots@).contains(x) <==> root_id(tasks@, parents@, fv, x),
            forall|x: Seq<char>, c: Seq<char>| #[trigger] children_for(cs@, x).contains(c) <==> view_child(tasks@, parents@, fv, x, c),
            distinct(task_ids(tasks@)),
            parents.len() == tasks.len(),
            distinct(views(visited@)),
            forall|x: Seq<char>| #![trigger views(visited@).contains(x)] #![trigger in_forest(out@, x)]
                views(visited@).contains(x) <==> in_forest(out@, x),
            forall|q: int| 0 <= q < j ==> (#[trigger] out@[q]).id@ == roots@[q]@,
            trees_disjoint(out@),
            forall|q: int| 0 <= q < j ==> node_ok(#[trigger] out@[q], meta@, cs@) && tree_distinct(out@[q]),
            forall|x: Seq<char>, c: Seq<char>| in_forest(out@, x) && #[trigger] children_for(cs@, x).contains(c)
                ==> #[trigger] views(visited@).contains(c),
            forall|x: Seq<char>| #[trigger] views(visited@).contains(x) ==>
                (exists|q: int| 0 <= q < j && roots@[q]@ == x) || all_children(cs@).contains(x),
            view_lists(cs@, tasks@, parents@, fv),
            forall|q: int| 0 <= q < j ==> placed(#[trigger] out@[q], cs@, views(visited@)),
            forall|a: int, b: int| 0 <= a < b < j ==> before(views(visited@), #[trigger] out@[a].id@, #[trigger] out@[b].id@),
        decreases roots.len() - j,
    {
        let ghost vb = views(visited@);
        proof {
            let rid = roots@[j as int]@;
            if vb.contains(rid) {
                if exists|q: int| 0 <= q < j && roots@[q]@ == rid {
                    let q = choose|q: int| 0 <= q < j && roots@[q]@ == rid;
                    assert(str_lt(views(roots@)[q], views(roots@)[j as int]));
                    lemma_lex_asymmetric(vstd::utf8::encode_utf8(rid), vstd::utf8::encode_utf8(rid));
                } else {
                    lemma_all_in_some_list(cs@, rid);
                    let k = choose|k: int| 0 <= k < cs.len() && #[trigger] views(cs@[k].children@).contains(rid);
                    let x = cs@[k].parent@;
                    assert(list_keys(cs@)[k] == x);
                    let p = key_pos(list_keys(cs@), x);
                    assert(p == k);
                    assert(children_for(cs@, x).contains(rid));
                    assert(view_child(tasks@, parents@, fv, x, rid));
                    assert(views(roots@)[j as int] == rid);
                    assert(views(roots@).contains(rid));
                    let i = choose|i: int| 0 <= i < tasks.len() && #[trigger] is_root(tasks@, parents@, fv, i) && tasks@[i].id@ == rid;
                    let i2 = choose|i2: int| 0 <= i2 < tasks.len() && i2 < parents.len() && kept(#[trigger] tasks@[i2], fv)
                        && tasks@[i2].id@ == rid && has_parent(parents@[i2]@, x);
                    assert(task_ids(tasks@)[i] == tasks@[i].id@);
                    assert(task_ids(tasks@)[i2] == tasks@[i2].id@);
                    assert(i == i2);
                    let pq = choose|pq: int| 0 <= pq < parents@[i]@.len() && #[trigger] parents@[i]@[pq].id@ == x;
                    assert(!kept_id(tasks@, fv, parents@[i]@[pq].id@));
                }
            }
        }
        let r = to_node(&meta, &cs, roots[j].as_str(), &mut visited);
        let node = match r {
            Some(n) => n,
            None => {
                proof {
                    assert(false);
                }
                TaskNode { id: String::new(), title: String::new(), state: TaskState::Pending, children: Vec::new() }
            },
        };
        let ghost va = views(visited@);
        let ghost old_out = out@;
        out.push(node);
        proof {
            assert forall|q: int| 0 <= q < j + 1 implies placed(#[trigger] out@[q], cs@, va) by {
                if q < j {
                    assert(out@[q] == old_out[q]);
                    assert forall|y: Seq<char>| #[trigger] in_tree(old_out[q], y) implies vb.contains(y) by {
                        assert(in_forest(old_out, y));
                    }
                    lemma_placed_grows(old_out[q], cs@, vb, va);
                }
            }
            assert forall|a: int, b: int| 0 <= a < b < j + 1 implies before(va, #[trigger] out@[a].id@, #[trigger] out@[b].id@) by {
                assert(out@[a] == old_out[a]);
                if b < j {
                    assert(out@[b] == old_out[b]);
                    lemma_before_grows(vb, va, old_out[a].id@, old_out[b].id@);
                } else {
                    assert(in_tree(old_out[a], old_out[a].id@));
                    assert(in_forest(old_out, old_out[a].id@));
                    assert(vb.contains(old_out[a].id@));
                    let i1 = choose|i1: int| 0 <= i1 < vb.len() && vb[i1] == old_out[a].id@;
                    assert(va[i1] == vb[i1]);
                    lemma_before(va, i1, vb.len() as int);
                }
            }
            assert forall|x: Seq<char>| in_forest(out@, x) <==> in_forest(old_out, x) || in_tree(node, x) by {
                if in_forest(out@, x) {
                    let q = choose|q: int| 0 <= q < out@.len() && in_tree(#[trigger] out@[q], x);
                    if q < old_out.len() {
                        assert(out@[q] == old_out[q]);
                    }
                }
                if in_forest(old_out, x) {
                    let q = choose|q: int| 0 <= q < old_out.len() && in_tree(#[trigger] old_out[q], x);
                    assert(out@[q] == old_out[q]);
                }
                if in_tree(node, x) {
                    assert(out@[old_out.len() as int] == node);
                }
            }
            assert forall|a: int, b: int, x: Seq<char>| #![trigger in_tree(out@[a], x), in_tree(out@[b], x)]
                0 <= a < out.len() && 0 <= b < out.len() && a != b && in_tree(out@[a], x) implies !in_tree(out@[b], x) by {
                if a == j {
                    assert(out@[b] == old_out[b]);
                    if in_tree(out@[b], x) {
                        assert(in_forest(old_out, x));
                    }
                } else if b == j {
                    assert(out@[a] == old_out[a]);
                    assert(in_forest(old_out, x));
                } else {
                    assert(out@[a] == old_out[a] && out@[b] == old_out[b]);
                }
            }
            assert forall|x: Seq<char>| #[trigger] va.contains(x) implies
                (exists|q: int| 0 <= q < j + 1 && roots@[q]@ == x) || all_children(cs@).contains(x) by {
                if !vb.contains(x) {
                    assert(in_tree(node, x));
                    lemma_tree_ids_listed(node, meta@, cs@, x);
                }
            }
            assert forall|x: Seq<char>, c: Seq<char>| in_forest(out@, x) && #[trigger] children_for(cs@, x).contains(c)
                implies #[trigger] va.contains(c) by {
                if in_forest(old_out, x) {
                    assert(vb.contains(c));
                }
            }
        }
        j = j + 1;
    }
    proof {
        assert forall|k: int| 0 <= k < out.len() implies root_id(tasks@, parents@, fv, #[trigger] out@[k].id@) by {
            assert(views(roots@)[k] == roots@[k]@);
            assert(views(roots@).contains(roots@[k]@));
        }
        assert forall|x: Seq<char>| root_id(tasks@, parents@, fv, x) implies exists|k: int| 0 <= k < out.len() && #[trigger] out@[k].id@ == x by {
            assert(views(roots@).contains(x));
            let q = choose|q: int| 0 <= q < roots.len() && views(roots@)[q] == x;
            assert(out@[q].id@ == x);
        }
        assert forall|a: int, b: int| 0 <= a < b < out.len() implies str_lt(#[trigger] out@[a].id@, #[trigger] out@[b].id@) by {
            assert(views(roots@)[a] == out@[a].id@ && views(roots@)[b] == out@[b].id@);
        }
        assert forall|x: Seq<char>, c: Seq<char>| in_forest(out@, x) && #[trigger] view_child(tasks@, parents@, fv, x, c)
            implies #[trigger] in_forest(out@, c) by {
            assert(children_for(cs@, x).contains(c));
            assert(views(visited@).contains(c));
        }
        assert forall|k: int| 0 <= k < meta.len() implies record_of(tasks@, fv, tasks.len() as int, #[trigger] meta@[k]) by {}
        assert forall|k: int| 0 <= k < out.len() implies #[trigger] node_ok(out@[k], meta@, cs@) by {}
        assert(records_forest(out@, tasks@, parents@, fv, meta@, cs@));
        assert(view_lists(cs@, tasks@, parents@, fv) && distinct(views(visited@)));
    }
    out
}

/// The text between the first `[` of a title and the first `]` after it.
pub open spec fn bracket_tag(title: Seq<char>) -> Option<Seq<char>> {
    match first_at(title, '[', 0) {
        Some(a) => match first_at(title, ']', a) {
            Some(b) => Some(title.subrange(a + 1, b)),
            None => None,
        },
        None => None,
    }
}

/// The project named by a task: its bracket tag upper-cased (unless the
/// tag is empty or starts with `Ola` or `JULES`); failing that, or when
/// that name is `GENERAL`, the part of its id before the first `-`
/// upper-cased; failing that, `GENERAL`.
pub open spec fn project_key(title: Seq<char>, id: Seq<char>) -> Seq<char> {
    let tagged = match bracket_tag(title) {
        Some(t) => if t.len() > 0 && !starts_with_text(t, "Ola"@) && !starts_with_text(t, "JULES"@) {
            uppercase(t)
        } else {
            "GENERAL"@
        },
        None => "GENERAL"@,
    };
    if tagged == "GENERAL"@ {
        match first_at(id, '-', 0) {
            Some(d) => uppercase(id.subrange(0, d)),
            None => tagged,
        }
    } else {
        tagged
    }
}

/// Searching a text with a prefix in front finds the same position, moved by
/// the prefix's length.
proof fn lemma_first_at_shift(p: Seq<char>, t: Seq<char>, c: char, i: int)
    requires
        0 <= i,
    ensures
        first_at(p + t, c, i + p.len()) == (match first_at(t, c, i) {
            Some(k) => Some(k + p.len()),
            None => None::<int>,
        }),
    decreases t.len() - i,
{
    let s = p + t;
    if i < t.len() {
        assert(s[i + p.len()] == t[i]);
        if t[i] != c {
            lemma_first_at_shift(p, t, c, i + 1);
            assert(i + 1 + p.len() == i + p.len() + 1);
        }
    }
}

/// A prefix without `c` is skipped by the search for `c`.
proof fn lemma_first_at_skip(p: Seq<char>, t: Seq<char>, c: char, i: int)
    requires
        0 <= i <= p.len(),
        !p.contains(c),
    ensures
        first_at(p + t, c, i) == first_at(p + t, c, p.len() as int),
    decreases p.len() - i,
{
    if i < p.len() {
        assert((p + t)[i] == p[i]);
        assert(p[i] != c);
        lemma_first_at_skip(p, t, c, i + 1);
    }
}

/// The project of a task depends only on the first bracketed tag of its
/// title, wherever it sits: text without `[` in front of the title leaves
/// the project unchanged (`fix: see [xavier] notes` is project XAVIER).
pub proof fn lemma_project_key_ignores_untagged_prefix(p: Seq<char>, t: Seq<char>, id: Seq<char>)
    requires
        !p.contains('['),
    ensures
        project_key(p + t, id) == project_key(t, id),
        bracket_tag(p + t) == bracket_tag(t),
{
    let s = p + t;
    lemma_first_at_skip(p, t, '[', 0);
    lemma_first_at_shift(p, t, '[', 0);
    match first_at(t, '[', 0) {
        Some(a) => {
            lemma_first_at_in_range(t, '[', 0);
            lemma_first_at_shift(p, t, ']', a);
            match first_at(t, ']', a) {
                Some(b) => {
                    assert(first_at(t, ']', a) == Some(b));
                    lemma_first_at_in_range(t, ']', a);
                    lemma_first_at_in_range(t, '[', 0);
                    assert(s.subrange(a + p.len() + 1, b + p.len()) =~= t.subrange(a + 1, b));
                },
                None => {},
            }
        },
        None => {},
    }
}

/// A position found by the search lies at or after its start, inside the text.
proof fn lemma_first_at_in_range(s: Seq<char>, c: char, from: int)
    ensures
        first_at(s, c, from) matches Some(k) ==> from <= k < s.len() && s[k] == c,
    decreases s.len() - from,
{
    if 0 <= from < s.len() && s[from] != c {
        lemma_first_at_in_range(s, c, from + 1);
    }
}

/// The project a task belongs to (see `project_key`).
pub fn project_of(title: &str, id: &str) -> (r: String)
    ensures
        r@ == project_key(title@, id@),
{
    let general = "GENERAL";
    let ola = chars_of("Ola");
    let jules = chars_of("JULES");
    proof {
        reveal_strlit("GENERAL");
    }
    let tc = chars_of(title);
    let mut proj = general.to_owned();
    if let Some(a) = find_char(&tc, '[', 0) {
        if let Some(b) = find_char(&tc, ']', a) {
            let tag = string_of(&tc, a + 1, b);
            let tag_c = chars_of(tag.as_str());
            if tag_c.len() > 0 && !matches_at(&tag_c, &ola, 0) && !matches_at(&tag_c, &jules, 0) {
                proj = to_upper(tag.as_str());
            }
        }
    }
    if str_equal(proj.as_str(), general) {
        let ic = chars_of(id);
        if let Some(d) = find_char(&ic, '-', 0) {
            let head = string_of(&ic, 0, d);
            proj = to_upper(head.as_str());
        }
    }
    proj
}

/// Task counts of one project.
#[derive(Debug, Clone)]
pub struct ProjectSummary {
    pub name: String,
    pub total_tasks: usize,
    pub completed_tasks: usize,
    pub ready_tasks: usize,
    pub in_progress_tasks: usize,
    pub pending_or_blocked_tasks: usize,
}

/// How many tasks belong to project `key` (and are in state `st`, when given).
pub open spec fn tally(tasks: Seq<Task>, key: Seq<char>, st: Option<TaskState>) -> nat
    decreases tasks.len(),
{
    if tasks.len() == 0 {
        0
    } else {
        let t = tasks.last();
        tally(tasks.drop_last(), key, st) + if project_key(t.title@, t.id@) == key && (st is None || st == Some(t.state)) { 1nat } else { 0nat }
    }
}

proof fn lemma_tally_zero(tasks: Seq<Task>, key: Seq<char>)
    requires
        forall|j: int| 0 <= j < tasks.len() ==> project_key((#[trigger] tasks[j]).title@, tasks[j].id@) != key,
    ensures
        forall|st: Option<TaskState>| #[trigger] tally(tasks, key, st) == 0,
    decreases tasks.len(),
{
    if tasks.len() > 0 {
        assert forall|j: int| 0 <= j < tasks.drop_last().len() implies project_key((#[trigger] tasks.drop_last()[j]).title@, tasks.drop_last()[j].id@) != key by {
            assert(tasks.drop_last()[j] == tasks[j]);
        }
        lemma_tally_zero(tasks.drop_last(), key);
        assert(project_key(tasks[tasks.len() - 1].title@, tasks[tasks.len() - 1].id@) != key);
        assert forall|st: Option<TaskState>| #[trigger] tally(tasks, key, st) == 0 by {
            assert(tally(tasks.drop_last(), key, st) == 0);
        }
    }
}

/// `e` counts the tasks of its project correctly.
pub open spec fn summary_ok(tasks: Seq<Task>, e: ProjectSummary) -> bool {
    &&& e.total_tasks == tally(tasks, e.name@, None)
    &&& e.completed_tasks == tally(tasks, e.name@, Some(TaskState::Completed))
    &&& e.ready_tasks == tally(tasks, e.name@, Some(TaskState::Ready))
    &&& e.in_progress_tasks == tally(tasks, e.name@, Some(TaskState::InProgress))
    &&& e.pending_or_blocked_tasks == e.total_tasks - e.completed_tasks - e.ready_tasks - e.in_progress_tasks
}

proof fn lemma_tally_parts(tasks: Seq<Task>, key: Seq<char>)
    ensures
        tally(tasks, key, Some(TaskState::Completed)) + tally(tasks, key, Some(TaskState::Ready))
            + tally(tasks, key, Some(TaskState::InProgress)) <= tally(tasks, key, None),
        tally(tasks, key, None) <= tasks.len(),
    decreases tasks.len(),
{
    if tasks.len() > 0 {
        lemma_tally_parts(tasks.drop_last(), key);
    }
}

/// Some entry is the summary of project `key`.
pub open spec fn has_project(r: Seq<ProjectSummary>, key: Seq<char>) -> bool {
    exists|k: int| 0 <= k < r.len() && #[trigger] r[k].name@ == key
}

/// The project names of the entries.
pub open spec fn names_of(s: Seq<ProjectSummary>) -> Seq<Seq<char>> {
    s.map_values(|e: ProjectSummary| e.name@)
}

/// `out` names exactly the projects of the first `k` entries of `groups`.
pub open spec fn same_names(out: Seq<ProjectSummary>, groups: Seq<ProjectSummary>, k: int) -> bool {
    &&& forall|a: int| 0 <= a < out.len() ==> exists|q: int| 0 <= q < k && #[trigger] names_of(out)[a] == #[trigger] names_of(groups)[q]
    &&& forall|q: int| 0 <= q < k ==> exists|a: int| 0 <= a < out.len() && #[trigger] names_of(out)[a] == #[trigger] names_of(groups)[q]
}

#[verifier::rlimit(40)]
proof fn lemma_insert_names(out: Seq<ProjectSummary>, pos: int, e: ProjectSummary, groups: Seq<ProjectSummary>, k: int)
    requires
        0 <= pos <= out.len(),
        0 <= k < groups.len(),
        e.name@ == groups[k].name@,
        distinct(names_of(groups)),
        same_names(out, groups, k),
        distinct(names_of(out)),
    ensures
        same_names(out.insert(pos, e), groups, k + 1),
        distinct(names_of(out.insert(pos, e))),
{
    let o2 = out.insert(pos, e);
    let n1 = names_of(out);
    let n2 = names_of(o2);
    let ng = names_of(groups);
    assert(n2 =~= n1.insert(pos, e.name@));
    assert(ng[k] == e.name@);
    assert forall|a: int| 0 <= a < n1.len() implies #[trigger] n1[a] != e.name@ by {
        let q = choose|q: int| 0 <= q < k && #[trigger] n1[a] == #[trigger] ng[q];
    }
    assert forall|a: int| 0 <= a < o2.len() implies exists|q: int| 0 <= q < k + 1 && #[trigger] n2[a] == #[trigger] ng[q] by {
        if a < pos {
            assert(n2[a] == n1[a]);
        } else if a > pos {
            assert(n2[a] == n1[a - 1]);
        }
    }
    assert forall|q: int| 0 <= q < k + 1 implies exists|a: int| 0 <= a < o2.len() && #[trigger] n2[a] == #[trigger] ng[q] by {
        if q < k {
            let a = choose|a: int| 0 <= a < out.len() && #[trigger] n1[a] == #[trigger] ng[q];
            if a < pos {
                assert(n2[a] == n1[a]);
            } else {
                assert(n2[a + 1] == n1[a]);
            }
        } else {
            assert(n2[pos] == e.name@);
        }
    }
    assert forall|a: int, b: int| 0 <= a < n2.len() && 0 <= b < n2.len() && a != b implies n2[a] != n2[b] by {
        let ia = if a < pos { a } else { a - 1 };
        let ib = if b < pos { b } else { b - 1 };
        if a != pos && b != pos {
            assert(n2[a] == n1[ia] && n2[b] == n1[ib]);
        } else if a == pos {
            assert(n2[b] == n1[ib]);
        } else {
            assert(n2[a] == n1[ia]);
        }
    }
}

/// Inserts `e` after the entries with at least its task count, keeping
/// the entries in descending count order.
fn insert_by_total(out: &mut Vec<ProjectSummary>, e: ProjectSummary) -> (pos: usize)
    requires
        forall|a: int, b: int| 0 <= a < b < old(out).len() ==> #[trigger] old(out)@[a].total_tasks >= #[trigger] old(out)@[b].total_tasks,
    ensures
        pos <= old(out).len(),
        final(out)@ == old(out)@.insert(pos as int, e),
        forall|a: int, b: int| 0 <= a < b < final(out).len() ==> #[trigger] final(out)@[a].total_tasks >= #[trigger] final(out)@[b].total_tasks,
{
    let mut pos: usize = 0;
    while pos < out.len() && out[pos].total_tasks >= e.total_tasks
        invariant
            pos <= out.len(),
            forall|a: int| 0 <= a < pos ==> out@[a].total_tasks >= e.total_tasks,
        decreases out.len() - pos,
    {
        pos = pos + 1;
    }
    let ghost old_out = out@;
    proof {
        if pos < old_out.len() {
            assert(old_out[pos as int].total_tasks < e.total_tasks);
        }
    }
    out.insert(pos, e);
    proof {
        assert forall|a: int, b: int| 0 <= a < b < out.len() implies #[trigger] out@[a].total_tasks >= #[trigger] out@[b].total_tasks by {
            if b < pos {
                assert(out@[a] == old_out[a] && out@[b] == old_out[b]);
            } else if a > pos {
                assert(out@[a] == old_out[a - 1] && out@[b] == old_out[b - 1]);
            } else if a == pos {
                assert(out@[b] == old_out[b - 1]);
                assert(old_out[pos as int].total_tasks >= old_out[b - 1].total_tasks || b - 1 == pos);
            } else if b == pos {
                assert(out@[a] == old_out[a]);
            } else {
                assert(out@[a] == old_out[a] && out@[b] == old_out[b - 1]);
            }
        }
    }
    pos
}

/// One entry per project that has a task, with its counts, in the order
/// the projects first appear.
#[verifier::spinoff_prover]
#[verifier::rlimit(60)]
fn tally_groups(tasks: &Vec<Task>) -> (groups: Vec<ProjectSummary>)
    ensures
        distinct(names_of(groups@)),
        forall|k: int| 0 <= k < groups.len() ==> #[trigger] summary_ok(tasks@, groups@[k]) && groups@[k].total_tasks > 0,
        forall|j: int| 0 <= j < tasks.len() ==> has_project(groups@, project_key((#[trigger] tasks@[j]).title@, tasks@[j].id@)),
{
    let mut groups: Vec<ProjectSummary> = Vec::new();
    let mut i: usize = 0;
    while i < tasks.len()
        invariant
            i <= tasks.len(),
            distinct(names_of(groups@)),
            forall|k: int| 0 <= k < groups.len() ==> #[trigger] summary_ok(tasks@.take(i as int), groups@[k]) && groups@[k].total_tasks > 0,
            forall|j: int| 0 <= j < i ==> has_project(groups@, project_key((#[trigger] tasks@[j]).title@, tasks@[j].id@)),
        decreases tasks.len() - i,
    {
        let t = &tasks[i];
        let key = project_of(t.title.as_str(), t.id.as_str());
        let ghost pre = tasks@.take(i as int);
        let ghost post = tasks@.take(i + 1);
        proof {
            assert(post.drop_last() =~= pre);
            assert(post.last() == tasks@[i as int]);
        }
        let mut k: usize = 0;
        while k < groups.len() && !str_equal(groups[k].name.as_str(), key.as_str())
            invariant
                k <= groups.len(),
                forall|q: int| 0 <= q < k ==> groups@[q].name@ != key@,
            decreases groups.len() - k,
        {
            k = k + 1;
        }
        let ghost old_groups = groups@;
        proof {
            lemma_tally_parts(pre, key@);
        }
        if k < groups.len() {
            let g = &groups[k];
            proof {
                assert(summary_ok(pre, groups@[k as int]));
                assert(g.name@ == key@);
                lemma_tally_parts(post, key@);
            }
            let upd = ProjectSummary {
                name: g.name.clone(),
                total_tasks: g.total_tasks + 1,
                completed_tasks: if t.state == TaskState::Completed { g.completed_tasks + 1 } else { g.completed_tasks },
                ready_tasks: if t.state == TaskState::Ready { g.ready_tasks + 1 } else { g.ready_tasks },
                in_progress_tasks: if t.state == TaskState::InProgress { g.in_progress_tasks + 1 } else { g.in_progress_tasks },
                pending_or_blocked_tasks: 0,
            };
            let rest = upd.total_tasks - upd.completed_tasks - upd.ready_tasks - upd.in_progress_tasks;
            let upd = ProjectSummary { pending_or_blocked_tasks: rest, ..upd };
            groups.set(k, upd);
        } else {
            proof {
                lemma_tally_parts(post, key@);
                assert forall|j: int| 0 <= j < pre.len() implies project_key((#[trigger] pre[j]).title@, pre[j].id@) != key@ by {
                    assert(pre[j] == tasks@[j]);
                    assert(has_project(groups@, project_key(tasks@[j].title@, tasks@[j].id@)));
                    let q = choose|q: int| 0 <= q < groups.len()
                        && #[trigger] groups@[q].name@ == project_key(tasks@[j].title@, tasks@[j].id@);
                }
                lemma_tally_zero(pre, key@);
            }
            let fresh = ProjectSummary {
                name: key,
                total_tasks: 1,
                completed_tasks: if t.state == TaskState::Completed { 1 } else { 0 },
                ready_tasks: if t.state == TaskState::Ready { 1 } else { 0 },
                in_progress_tasks: if t.state == TaskState::InProgress { 1 } else { 0 },
                pending_or_blocked_tasks: 0,
            };
            let rest = fresh.total_tasks - fresh.completed_tasks - fresh.ready_tasks - fresh.in_progress_tasks;
            let fresh = ProjectSummary { pending_or_blocked_tasks: rest, ..fresh };
            groups.push(fresh);
        }
        proof {
            let old_names = names_of(old_groups);
            assert(project_key(post.last().title@, post.last().id@) == key@);
            assert forall|q: int| 0 <= q < groups.len() implies #[trigger] summary_ok(post, groups@[q]) && groups@[q].total_tasks > 0 by {
                if q < old_groups.len() && q != k {
                    assert(groups@[q] == old_groups[q]);
                    assert(summary_ok(pre, old_groups[q]));
                    if k < old_groups.len() {
                        assert(old_names[q] == old_groups[q].name@ && old_names[k as int] == old_groups[k as int].name@);
                    }
                    assert(groups@[q].name@ != key@);
                    assert(groups@[q].total_tasks == tally(post, groups@[q].name@, None));
                    assert(groups@[q].completed_tasks == tally(post, groups@[q].name@, Some(TaskState::Completed)));
                } else {
                    lemma_tally_parts(post, key@);
                    assert(q == k);
                    assert(groups@[q].name@ == key@);
                    assert(groups@[q].total_tasks == tally(post, key@, None));
                    assert(groups@[q].completed_tasks == tally(post, key@, Some(TaskState::Completed)));
                }
            }
            assert forall|j: int| 0 <= j < i + 1 implies has_project(groups@, project_key((#[trigger] tasks@[j]).title@, tasks@[j].id@)) by {
                if j < i {
                    assert(has_project(old_groups, project_key(tasks@[j].title@, tasks@[j].id@)));
                    let q = choose|q: int| 0 <= q < old_groups.len()
                        && #[trigger] old_groups[q].name@ == project_key(tasks@[j].title@, tasks@[j].id@);
                    assert(groups@[q].name@ == old_groups[q].name@);
                } else {
                    assert(groups@[k as int].name@ == key@);
                }
            }
            let names = names_of(groups@);
            let old_names = names_of(old_groups);
            assert forall|a: int, b: int| 0 <= a < names.len() && 0 <= b < names.len() && a != b implies names[a] != names[b] by {
                if a < old_groups.len() && b < old_groups.len() {
                    assert(names[a] == old_names[a] && names[b] == old_names[b]);
                } else if a < old_groups.len() {
                    assert(names[a] == old_names[a]);
                } else {
                    assert(names[b] == old_names[b]);
                }
            }
        }
        i = i + 1;
    }
    proof {
        assert(tasks@.take(tasks.len() as int) =~= tasks@);
        assert forall|q: int| 0 <= q < groups.len() implies #[trigger] summary_ok(tasks@, groups@[q]) && groups@[q].total_tasks > 0 by {
            assert(summary_ok(tasks@.take(tasks.len() as int), groups@[q]));
        }
    }
    groups
}

/// The entries reordered by descending task count.
#[verifier::spinoff_prover]
#[verifier::rlimit(60)]
fn order_by_total(groups: &Vec<ProjectSummary>, Ghost(tasks): Ghost<Seq<Task>>) -> (out: Vec<ProjectSummary>)
    requires
        distinct(names_of(groups@)),
        forall|q: int| 0 <= q < groups.len() ==> #[trigger] summary_ok(tasks, groups@[q]) && groups@[q].total_tasks > 0,
    ensures
        same_names(out@, groups@, groups.len() as int),
        distinct(names_of(out@)),
        forall|a: int| 0 <= a < out.len() ==> #[trigger] summary_ok(tasks, out@[a]) && out@[a].total_tasks > 0,
        forall|a: int, b: int| 0 <= a < b < out.len() ==> #[trigger] out@[a].total_tasks >= #[trigger] out@[b].total_tasks,
{
    let mut out: Vec<ProjectSummary> = Vec::new();
    let mut k: usize = 0;
    while k < groups.len()
        invariant
            k <= groups.len(),
            distinct(names_of(groups@)),
            forall|q: int| 0 <= q < groups.len() ==> #[trigger] summary_ok(tasks, groups@[q]) && groups@[q].total_tasks > 0,
            same_names(out@, groups@, k as int),
            distinct(names_of(out@)),
            forall|a: int| 0 <= a < out.len() ==> #[trigger] summary_ok(tasks, out@[a]) && out@[a].total_tasks > 0,
            forall|a: int, b: int| 0 <= a < b < out.len() ==> #[trigger] out@[a].total_tasks >= #[trigger] out@[b].total_tasks,
        decreases groups.len() - k,
    {
        let g = &groups[k];
        let copy = ProjectSummary {
            name: g.name.clone(),
            total_tasks: g.total_tasks,
            completed_tasks: g.completed_tasks,
            ready_tasks: g.ready_tasks,
            in_progress_tasks: g.in_progress_tasks,
            pending_or_blocked_tasks: g.pending_or_blocked_tasks,
        };
        let ghost old_out = out@;
        proof {
            assert(summary_ok(tasks, groups@[k as int]));
            assert(summary_ok(tasks, copy));
        }
        let pos = insert_by_total(&mut out, copy);
        proof {
            lemma_insert_names(old_out, pos as int, copy, groups@, k as int);
            assert forall|a: int| 0 <= a < out.len() implies #[trigger] summary_ok(tasks, out@[a]) && out@[a].total_tasks > 0 by {
                if a < pos {
                    assert(out@[a] == old_out[a]);
                } else if a > pos {
                    assert(out@[a] == old_out[a - 1]);
                }
            }
        }
        k = k + 1;
    }
    out
}

/// Counts of the tasks of each project, one entry per project that has a
/// task, by descending task count.
#[verifier::spinoff_prover]
pub fn summarize(tasks: &Vec<Task>) -> (r: Vec<ProjectSummary>)
    ensures
        distinct(names_of(r@)),
        forall|k: int| 0 <= k < r.len() ==> #[trigger] summary_ok(tasks@, r@[k]) && r@[k].total_tasks > 0,
        forall|i: int| 0 <= i < tasks.len() ==> has_project(r@, project_key((#[trigger] tasks@[i]).title@, tasks@[i].id@)),
        forall|a: int, b: int| 0 <= a < b < r.len() ==> #[trigger] r@[a].total_tasks >= #[trigger] r@[b].total_tasks,
{
    let groups = tally_groups(tasks);
    let ghost ts = tasks@;
    proof {
        assert forall|q: int| 0 <= q < groups.len() implies #[trigger] summary_ok(ts, groups@[q]) && groups@[q].total_tasks > 0 by {
            assert(summary_ok(tasks@, groups@[q]));
        }
    }
    let out = order_by_total(&groups, Ghost(ts));
    proof {
        assert forall|i: int| 0 <= i < tasks.len() implies has_project(out@, project_key((#[trigger] tasks@[i]).title@, tasks@[i].id@)) by {
            let key = project_key(tasks@[i].title@, tasks@[i].id@);
            assert(has_project(groups@, key));
            let q = choose|q: int| 0 <= q < groups.len() && #[trigger] groups@[q].name@ == key;
            assert(names_of(groups@)[q] == groups@[q].name@);
            let a = choose|a: int| 0 <= a < out.len() && #[trigger] names_of(out@)[a] == #[trigger] names_of(groups@)[q];
            assert(names_of(out@)[a] == out@[a].name@);
            assert(out@[a].name@ == key);
        }
    }
    out
}

/// Two spaces per level of depth.
pub open spec fn indent(depth: nat) -> Seq<char>
    decreases depth,
{
    if depth == 0 { Seq::empty() } else { "  "@ + indent((depth - 1) as nat) }
}

/// The line that shows one node after the indent `pad`.
pub open spec fn node_line(n: TaskNode, pad: Seq<char>) -> Seq<char> {
    pad + n.id@ + " ["@ + task_state_name(n.state) + "] "@ + n.title@
}

/// The lines that show a tree: the node, then its children indented by
/// two more spaces.
pub open spec fn node_lines(n: TaskNode, pad: Seq<char>) -> Seq<Seq<char>>
    decreases n, 1int,
{
    seq![node_line(n, pad)] + forest_lines(n, n.children.len() as int, pad + "  "@)
}

/// The lines that show the first `k` children of `n`.
pub open spec fn forest_lines(n: TaskNode, k: int, pad: Seq<char>) -> Seq<Seq<char>>
    decreases n, 0int, k,
{
    if k <= 0 || k > n.children.len() {
        Seq::empty()
    } else {
        forest_lines(n, k - 1, pad) + node_lines(n.children@[k - 1], pad)
    }
}

/// The number of nodes of a tree.
pub open spec fn tree_size(n: TaskNode) -> nat
    decreases n, 1int,
{
    1 + children_size(n, n.children.len() as int)
}

/// The number of nodes in the trees of the first `k` children of `n`.
pub open spec fn children_size(n: TaskNode, k: int) -> nat
    decreases n, 0int, k,
{
    if k <= 0 || k > n.children.len() {
        0
    } else {
        children_size(n, k - 1) + tree_size(n.children@[k - 1])
    }
}

/// Rendering prints every node once: as many lines as the tree has nodes,
/// the node's own line first, and every line starts with the indent.
pub proof fn lemma_render_prints_every_node(n: TaskNode, pad: Seq<char>)
    ensures
        node_lines(n, pad).len() == tree_size(n),
        node_lines(n, pad)[0] == pad + n.id@ + " ["@ + task_state_name(n.state) + "] "@ + n.title@,
        forall|i: int| 0 <= i < node_lines(n, pad).len() ==> pad.is_prefix_of(#[trigger] node_lines(n, pad)[i]),
    decreases n, 1int,
{
    let p2 = pad + "  "@;
    lemma_render_children(n, n.children.len() as int, p2);
    let ls = node_lines(n, pad);
    let rest = forest_lines(n, n.children.len() as int, p2);
    assert forall|i: int| 0 <= i < ls.len() implies pad.is_prefix_of(#[trigger] ls[i]) by {
        if i == 0 {
            assert(ls[0] == node_line(n, pad));
            assert(node_line(n, pad).subrange(0, pad.len() as int) =~= pad);
        } else {
            assert(ls[i] == rest[i - 1]);
            assert(p2.is_prefix_of(rest[i - 1]));
            assert(rest[i - 1].subrange(0, pad.len() as int) =~= pad) by {
                assert forall|j: int| 0 <= j < pad.len() implies rest[i - 1][j] == pad[j] by {
                    assert(rest[i - 1].subrange(0, p2.len() as int)[j] == p2[j]);
                }
            }
        }
    }
}

proof fn lemma_render_children(n: TaskNode, k: int, pad: Seq<char>)
    requires
        0 <= k <= n.children.len(),
    ensures
        forest_lines(n, k, pad).len() == children_size(n, k),
        forall|i: int| 0 <= i < forest_lines(n, k, pad).len() ==> pad.is_prefix_of(#[trigger] forest_lines(n, k, pad)[i]),
    decreases n, 0int, k,
{
    if k > 0 {
        lemma_render_children(n, k - 1, pad);
        let c = n.children@[k - 1];
        lemma_render_prints_every_node(c, pad);
        let a = forest_lines(n, k - 1, pad);
        let b = node_lines(c, pad);
        assert(forest_lines(n, k, pad) == a + b);
        assert forall|i: int| 0 <= i < (a + b).len() implies pad.is_prefix_of(#[trigger] (a + b)[i]) by {
            if i < a.len() {
                assert((a + b)[i] == a[i]);
            } else {
                assert((a + b)[i] == b[i - a.len()]);
            }
        }
    }
}

/// Appends the lines that show `n` after the indent `pad`.
fn render_into(n: &TaskNode, pad: &str, out: &mut Vec<String>)
    ensures
        views(final(out)@) == views(old(out)@) + node_lines(*n, pad@),
    decreases n,
{
    let mut line = String::new();
    push_str(&mut line, pad);
    push_str(&mut line, n.id.as_str());
    push_str(&mut line, " [");
    push_str(&mut line, n.state.as_str());
    push_str(&mut line, "] ");
    push_str(&mut line, n.title.as_str());
    let ghost start = views(out@);
    out.push(line);
    proof {
        assert(views(out@) =~= start + seq![node_line(*n, pad@)]);
    }
    let mut deeper = String::new();
    push_str(&mut deeper, pad);
    push_str(&mut deeper, "  ");
    let mut k: usize = 0;
    while k < n.children.len()
        invariant
            k <= n.children.len(),
            deeper@ == pad@ + "  "@,
            views(out@) == start + seq![node_line(*n, pad@)] + forest_lines(*n, k as int, deeper@),
        decreases n.children.len() - k,
    {
        let ghost before = views(out@);
        render_into(&n.children[k], deeper.as_str(), out);
        proof {
            assert(forest_lines(*n, k + 1, deeper@) == forest_lines(*n, k as int, deeper@) + node_lines(n.children@[k as int], deeper@));
            assert(views(out@) =~= start + seq![node_line(*n, pad@)] + forest_lines(*n, k + 1, deeper@));
        }
        k = k + 1;
    }
    proof {
        assert(views(out@) =~= start + node_lines(*n, pad@));
    }
}

/// The lines that print a tree, indented two spaces per level from `depth`.
pub fn render_tree(n: &TaskNode, depth: usize) -> (r: Vec<String>)
    ensures
        views(r@) == node_lines(*n, indent(depth as nat)),
        r.len() == tree_size(*n),
{
    let mut pad = String::new();
    let mut d: usize = 0;
    while d < depth
        invariant
            d <= depth,
            pad@ == indent(d as nat),
        decreases depth - d,
    {
        push_str(&mut pad, "  ");
        proof {
            lemma_indent_step(d as nat);
        }
        d = d + 1;
    }
    let mut out: Vec<String> = Vec::new();
    render_into(n, pad.as_str(), &mut out);
    proof {
        assert(views(out@) =~= node_lines(*n, indent(depth as nat)));
        lemma_render_prints_every_node(*n, indent(depth as nat));
        assert(views(out@).len() == out.len());
    }
    out
}

proof fn lemma_indent_step(d: nat)
    ensures
        indent(d + 1) == indent(d) + "  "@,
    decreases d,
{
    if d > 0 {
        lemma_indent_step((d - 1) as nat);
        assert(indent(d + 1) == "  "@ + indent(d));
        assert("  "@ + (indent((d - 1) as nat) + "  "@) =~= ("  "@ + indent((d - 1) as nat)) + "  "@);
    } else {
        assert(indent(0) == Seq::<char>::empty());
        assert(indent(1) == "  "@ + indent(0));
        assert("  "@ + Seq::<char>::empty() =~= Seq::<char>::empty() + "  "@);
    }
}

} // verus!
