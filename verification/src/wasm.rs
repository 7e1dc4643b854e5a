//! JSON entry points over the DAG algorithms, for embedders that speak
//! only JSON text (the WebAssembly and Node boundary).
use vstd::prelude::*;
use crate::dag::{reachable, topo_order, edge_views, is_ancestor, kahn_complete, in_graph, CycleError};
use crate::json::json_quote;
use crate::text::{views, strictly_sorted, join_with, push_str};

verus! {

/// What `serde_json::from_str::<Vec<(String, String)>>` gives for a text:
/// the pairs, or the text of the error.
pub uninterp spec fn json_pairs(text: Seq<char>) -> Result<Seq<(Seq<char>, Seq<char>)>, Seq<char>>;

/// What `serde_json::from_str::<Vec<String>>` gives for a text: the
/// strings, or the text of the error.
pub uninterp spec fn json_strings(text: Seq<char>) -> Result<Seq<Seq<char>>, Seq<char>>;

/// The JSON array text of a list of strings, as `serde_json::to_string`
/// writes it: each string quoted and escaped, joined by commas.
pub open spec fn json_string_array(items: Seq<Seq<char>>) -> Seq<char> {
    "["@ + join_with(items.map_values(|s: Seq<char>| json_quote(s)), ","@) + "]"@
}

/// The compact JSON text of the object `{"error": msg}`, as serde_json
/// writes it.
pub open spec fn json_error_object(msg: Seq<char>) -> Seq<char> {
    json_object1("error"@, msg)
}

/// The compact JSON text of a one-member object with a string value.
pub open spec fn json_object1(key: Seq<char>, value: Seq<char>) -> Seq<char> {
    "{"@ + json_quote(key) + ":"@ + json_quote(value) + "}"@
}

/// Trusted: calls `serde_json::from_str` for a list of `(child, parent)`
/// pairs; the result, or the error's text, is named `json_pairs`.
#[verifier::external_body]
fn parse_pairs(text: &str) -> (r: Result<Vec<(String, String)>, String>)
    ensures
        match r {
            Ok(v) => json_pairs(text@) == Ok::<Seq<(Seq<char>, Seq<char>)>, Seq<char>>(edge_views(v@)),
            Err(m) => json_pairs(text@) == Err::<Seq<(Seq<char>, Seq<char>)>, Seq<char>>(m@),
        },
{
    serde_json::from_str::<Vec<(String, String)>>(text).map_err(|e| e.to_string())
}

/// Trusted: calls `serde_json::from_str` for a list of strings; the
/// result, or the error's text, is named `json_strings`.
#[verifier::external_body]
fn parse_strings(text: &str) -> (r: Result<Vec<String>, String>)
    ensures
        match r {
            Ok(v) => json_strings(text@) == Ok::<Seq<Seq<char>>, Seq<char>>(views(v@)),
            Err(m) => json_strings(text@) == Err::<Seq<Seq<char>>, Seq<char>>(m@),
        },
{
    serde_json::from_str::<Vec<String>>(text).map_err(|e| e.to_string())
}

/// Trusted: calls `serde_json::to_string` on a list of strings, which
/// cannot fail for strings and writes `json_string_array` of them.
#[verifier::external_body]
fn strings_to_json(items: &Vec<String>) -> (r: String)
    ensures
        r@ == json_string_array(views(items@)),
{
    serde_json::to_string(items).unwrap_or_default()
}

/// Trusted: builds the serde_json object `{key: value}` and renders it
/// with its `Display` (compact JSON), which writes `json_object1`.
#[verifier::external_body]
fn object1(key: &str, value: &str) -> (r: String)
    ensures
        r@ == json_object1(key@, value@),
{
    let mut object = serde_json::Map::new();
    object.insert(key.to_owned(), serde_json::Value::String(value.to_owned()));
    serde_json::Value::Object(object).to_string()
}

/// The error object `{"error": msg}`.
fn error_object(msg: &str) -> (r: String)
    ensures
        r@ == json_error_object(msg@),
{
    object1("error", msg)
}

/// A list of strings as JSON.
pub open spec fn array_or_error(items: Seq<Seq<char>>) -> Seq<char> {
    json_string_array(items)
}

/// Renders a list of ids as a JSON array.
fn render_ids(items: &Vec<String>) -> (r: String)
    ensures
        r@ == array_or_error(views(items@)),
{
    strings_to_json(items)
}

/// A message with a fixed lead, as `format!("{lead}{m}")` builds it.
fn lead(prefix: &str, m: &str) -> (r: String)
    ensures
        r@ == prefix@ + m@,
{
    let mut out = String::new();
    push_str(&mut out, prefix);
    push_str(&mut out, m);
    out
}

/// The ancestors of `start` under `edges`, in ascending order.
pub open spec fn sorted_ancestors(es: Seq<(Seq<char>, Seq<char>)>, start: Seq<char>, anc: Seq<Seq<char>>) -> bool {
    &&& strictly_sorted(anc)
    &&& forall|x: Seq<char>| #[trigger] anc.contains(x) <==> (x != start && is_ancestor(es, start, x))
}

/// `r` is the JSON array of the ancestors of `start`, ascending.
pub open spec fn ancestors_answer(es: Seq<(Seq<char>, Seq<char>)>, start: Seq<char>, r: Seq<char>) -> bool {
    exists|anc: Seq<Seq<char>>| #[trigger] sorted_ancestors(es, start, anc) && r == array_or_error(anc)
}

/// Ancestor ids of `start` as a JSON array, ascending; a text that is no
/// list of `[child, parent]` pairs gives `{"error": "invalid edges_json: ..."}`.
pub fn reachable_json(start: &str, edges_json: &str) -> (r: String)
    ensures
        json_pairs(edges_json@) matches Err(m) ==> r@ == json_error_object("invalid edges_json: "@ + m),
        json_pairs(edges_json@) matches Ok(es) ==> ancestors_answer(es, start@, r@),
{
    match parse_pairs(edges_json) {
        Ok(edges) => {
            let anc = reachable(start, edges.as_slice());
            proof {
                assert(sorted_ancestors(edge_views(edges@), start@, views(anc@)));
            }
            let r = render_ids(&anc);
            proof {
                assert(sorted_ancestors(edge_views(edges@), start@, views(anc@)) && r@ == array_or_error(views(anc@)));
                assert(ancestors_answer(edge_views(edges@), start@, r@));
            }
            r
        },
        Err(m) => error_object(lead("invalid edges_json: ", m.as_str()).as_str()),
    }
}

/// The outcome of ordering `ns` under `es`: the parents-first order when
/// the graph is acyclic, else the error text naming the nodes left over.
pub open spec fn topo_outcome(ns: Seq<Seq<char>>, es: Seq<(Seq<char>, Seq<char>)>, r: Seq<char>) -> bool {
    ||| exists|order: Seq<Seq<char>>| #[trigger] kahn_complete(ns, es, order)
            && (forall|x: Seq<char>| in_graph(ns, es, x) ==> #[trigger] order.contains(x))
            && r == array_or_error(order)
    ||| exists|left: Seq<Seq<char>>, s: Seq<Seq<char>>| #![trigger kahn_complete(ns, es, s), strictly_sorted(left)]
            kahn_complete(ns, es, s) && strictly_sorted(left) && left.len() > 0
            && (forall|x: Seq<char>| #[trigger] left.contains(x) <==> (in_graph(ns, es, x) && !s.contains(x)))
            && r == json_error_object("cycle detected among: "@ + join_with(left, ", "@))
}

/// Topological order of the listed nodes (and of the ids the edges name)
/// as a JSON array, parents first; bad input and cycles give an error
/// object, the nodes' text being checked first.
pub fn topo_order_json(nodes_json: &str, edges_json: &str) -> (r: String)
    ensures
        json_strings(nodes_json@) matches Err(m) ==> r@ == json_error_object("invalid nodes_json: "@ + m),
        json_strings(nodes_json@) is Ok ==> (json_pairs(edges_json@) matches Err(m) ==> r@ == json_error_object("invalid edges_json: "@ + m)),
        json_strings(nodes_json@) matches Ok(ns) ==> (json_pairs(edges_json@) matches Ok(es) ==> topo_outcome(ns, es, r@)),
{
    let nodes = match parse_strings(nodes_json) {
        Ok(n) => n,
        Err(m) => return error_object(lead("invalid nodes_json: ", m.as_str()).as_str()),
    };
    let edges = match parse_pairs(edges_json) {
        Ok(e) => e,
        Err(m) => return error_object(lead("invalid edges_json: ", m.as_str()).as_str()),
    };
    match topo_order(nodes.as_slice(), edges.as_slice()) {
        Ok(order) => {
            let r = render_ids(&order);
            proof {
                assert(kahn_complete(views(nodes@), edge_views(edges@), views(order@)));
            }
            r
        },
        Err(e) => {
            let msg = e.message();
            let r = error_object(msg.as_str());
            proof {
                let s = choose|s: Seq<Seq<char>>| #[trigger] kahn_complete(views(nodes@), edge_views(edges@), s)
                    && forall|x: Seq<char>| #[trigger] views(e.nodes@).contains(x) <==>
                        (in_graph(views(nodes@), edge_views(edges@), x) && !s.contains(x));
                assert(strictly_sorted(views(e.nodes@)));
            }
            r
        },
    }
}

} // verus!
