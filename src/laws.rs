//! Laws of the engine and the interpreter, proved over their specifications.

use vstd::prelude::*;
use crate::engine::{combine, leaf, leaves, scan, HttpRequest, LimitView};
use crate::interpreter::{execution, gather, node_effect, node_inputs, node_step, run, verdict_of, RequestContext};
use crate::graph::{acyclic, distinct, edges_into, has_node, lemma_acyclic_has_order, lemma_topo_order_sound, node_index, sources_first, topo_order, Edge, Graph};
use crate::nodes::{Node, NodeId, NodeKind};
use crate::value::ValueView;
use crate::state::rate_of;
use crate::rules::{box_name_of, ConditionRule, LogicOperator, Rule};
use crate::state::StateView;

verus! {

/// Counts never go down and penalties never shorten from `a` to `b`.
pub open spec fn limits_grow(a: LimitView, b: LimitView) -> bool {
    &&& (forall|n: Seq<char>, e: Seq<char>| #[trigger] b.count(n, e) >= a.count(n, e))
    &&& (forall|k: (Seq<char>, Seq<char>)| #![trigger a.until.contains_key(k)] #![trigger b.until.contains_key(k)]
        a.until.contains_key(k) ==> b.until.contains_key(k) && b.until[k] >= a.until[k])
}

/// De Morgan on a condition: `NOT` over some leaves holds exactly when `OR`
/// over the same leaves does not.
pub proof fn lemma_not_is_negated_or(ms: Seq<bool>)
    ensures
        combine(LogicOperator::Not, ms) == !combine(LogicOperator::Or, ms),
{
}

/// De Morgan on rules: a `NOT` condition and an `OR` condition over the same
/// leaves, evaluated from the same counters and boxes, give opposite answers.
pub proof fn lemma_not_rule_is_negated_or_rule(rs: Seq<ConditionRule>, req: HttpRequest, st: LimitView)
    ensures
        combine(LogicOperator::Not, leaves(rs, req, st).0) == !combine(LogicOperator::Or, leaves(rs, req, st).0),
{
}

/// One leaf never lowers a count or shortens a penalty.
pub proof fn lemma_leaf_grows(r: ConditionRule, req: HttpRequest, st: LimitView)
    ensures
        limits_grow(st, leaf(r, req, st).1),
{
    let after = leaf(r, req, st).1;
    assert forall|n: Seq<char>, e: Seq<char>| #[trigger] after.count(n, e) >= st.count(n, e) by {
    }
    assert forall|k: (Seq<char>, Seq<char>)| #![trigger st.until.contains_key(k)] #![trigger after.until.contains_key(k)]
        st.until.contains_key(k) implies after.until.contains_key(k) && after.until[k] >= st.until[k] by {
    }
}

proof fn lemma_grow_trans(a: LimitView, b: LimitView, c: LimitView)
    requires
        limits_grow(a, b),
        limits_grow(b, c),
    ensures
        limits_grow(a, c),
{
    assert forall|n: Seq<char>, e: Seq<char>| #[trigger] c.count(n, e) >= a.count(n, e) by {
        assert(b.count(n, e) >= a.count(n, e));
    }
    assert forall|k: (Seq<char>, Seq<char>)| #![trigger a.until.contains_key(k)] #![trigger c.until.contains_key(k)]
        a.until.contains_key(k) implies c.until.contains_key(k) && c.until[k] >= a.until[k] by {
        assert(b.until.contains_key(k) && b.until[k] >= a.until[k]);
    }
}

/// The leaves of a rule never lower a count or shorten a penalty.
pub proof fn lemma_leaves_grow(rs: Seq<ConditionRule>, req: HttpRequest, st: LimitView)
    ensures
        limits_grow(st, leaves(rs, req, st).1),
    decreases rs.len(),
{
    if rs.len() == 0 {
        assert(limits_grow(st, st));
    } else {
        let mid = leaf(rs[0], req, st).1;
        lemma_leaf_grows(rs[0], req, st);
        lemma_leaves_grow(rs.drop_first(), req, mid);
        lemma_grow_trans(st, mid, leaves(rs, req, st).1);
    }
}

/// Rate-limit monotonicity: evaluating a rule set never lowers the count of
/// any counter and entry, nor shortens any penalty; so the counts successive
/// evaluations observe for one counter and entry never decrease.
pub proof fn lemma_counts_never_decrease(rules: Seq<(String, Rule)>, base: int, req: HttpRequest, st: LimitView)
    ensures
        limits_grow(st, scan(rules, base, req, st).2),
    decreases rules.len(),
{
    if rules.len() == 0 {
        assert(limits_grow(st, st));
    } else if !rules[0].1.enabled {
        lemma_counts_never_decrease(rules.drop_first(), base + 1, req, st);
    } else {
        let mid = leaves(rules[0].1.conditions.rules@, req, st).1;
        lemma_leaves_grow(rules[0].1.conditions.rules@, req, st);
        lemma_counts_never_decrease(rules.drop_first(), base + 1, req, mid);
        if !combine(rules[0].1.conditions.operator, leaves(rules[0].1.conditions.rules@, req, st).0) {
            lemma_grow_trans(st, mid, scan(rules, base, req, st).2);
        }
    }
}

/// Penalty box absorbing: while `entry` is held in box `b` (until a second
/// after the request's), every rate-limit leaf on box `b` matches that
/// client's request and changes no count or penalty.
pub proof fn lemma_penalty_absorbs(r: ConditionRule, req: HttpRequest, st: LimitView)
    requires
        r is RateLimit,
        req.client_ip is Some,
        st.boxed_at(
            box_name_of(r->RateLimit_window, r->RateLimit_max_requests, r->RateLimit_block_ttl, r->RateLimit_penaltybox_name),
            req.client_ip->0.text@,
            req.now_secs,
        ),
    ensures
        leaf(r, req, st) == (true, st),
{
}

/// Penalty box absorbing, across requests: an entry held in a box until a
/// later second is still held after any evaluation, so every later request
/// before that second meets the box (`lemma_penalty_absorbs`).
pub proof fn lemma_penalty_persists(
    rules: Seq<(String, Rule)>,
    req: HttpRequest,
    st: LimitView,
    name: Seq<char>,
    entry: Seq<char>,
    now: u64,
)
    requires
        st.boxed_at(name, entry, now),
    ensures
        scan(rules, 0, req, st).2.boxed_at(name, entry, now),
{
    lemma_counts_never_decrease(rules, 0, req, st);
    let after = scan(rules, 0, req, st).2;
    assert(st.until.contains_key((name, entry)));
    assert(after.until.contains_key((name, entry)) && after.until[(name, entry)] >= st.until[(name, entry)]);
}

/// Counters and boxes as the first `j` rules leave them.
pub open spec fn state_before(rules: Seq<(String, Rule)>, j: int, req: HttpRequest, st: LimitView) -> LimitView {
    scan(rules.subrange(0, j), 0, req, st).2
}

/// Rule `j` is enabled and matches, evaluated from the counters and boxes the
/// rules before it leave.
pub open spec fn hits(rules: Seq<(String, Rule)>, j: int, req: HttpRequest, st: LimitView) -> bool {
    &&& rules[j].1.enabled
    &&& combine(rules[j].1.conditions.operator, leaves(rules[j].1.conditions.rules@, req, state_before(rules, j, req, st)).0)
}

/// Evaluating one more rule after a prefix.
proof fn lemma_scan_push(p: Seq<(String, Rule)>, r: (String, Rule), b: int, req: HttpRequest, st: LimitView)
    ensures
        scan(p, b, req, st).0 is Some ==> scan(p.push(r), b, req, st).0 == scan(p, b, req, st).0
            && scan(p.push(r), b, req, st).2 == scan(p, b, req, st).2,
        scan(p, b, req, st).0 is None ==> scan(p.push(r), b, req, st).0 == (if r.1.enabled && combine(
            r.1.conditions.operator,
            leaves(r.1.conditions.rules@, req, scan(p, b, req, st).2).0,
        ) {
            Some(b + p.len())
        } else {
            None::<int>
        }),
        scan(p, b, req, st).0 is None ==> scan(p.push(r), b, req, st).2 == (if r.1.enabled {
            leaves(r.1.conditions.rules@, req, scan(p, b, req, st).2).1
        } else {
            scan(p, b, req, st).2
        }),
    decreases p.len(),
{
    let q = p.push(r);
    if p.len() == 0 {
        assert(q.drop_first() =~= Seq::<(String, Rule)>::empty());
        assert(q[0] == r);
        if r.1.enabled {
            let after = leaves(r.1.conditions.rules@, req, st).1;
            assert(scan(q.drop_first(), b + 1, req, after) == scan(Seq::<(String, Rule)>::empty(), b + 1, req, after));
        } else {
            assert(scan(q.drop_first(), b + 1, req, st) == scan(Seq::<(String, Rule)>::empty(), b + 1, req, st));
        }
    } else {
        assert(q.drop_first() =~= p.drop_first().push(r));
        assert(q[0] == p[0]);
        if !p[0].1.enabled {
            lemma_scan_push(p.drop_first(), r, b + 1, req, st);
        } else {
            let after = leaves(p[0].1.conditions.rules@, req, st).1;
            lemma_scan_push(p.drop_first(), r, b + 1, req, after);
        }
    }
}

/// The position evaluation picks lies among the rules evaluated.
proof fn lemma_scan_range(rules: Seq<(String, Rule)>, b: int, req: HttpRequest, st: LimitView)
    ensures
        scan(rules, b, req, st).0 matches Some(x) ==> b <= x < b + rules.len(),
    decreases rules.len(),
{
    if rules.len() > 0 {
        if !rules[0].1.enabled {
            lemma_scan_range(rules.drop_first(), b + 1, req, st);
        } else {
            let after = leaves(rules[0].1.conditions.rules@, req, st).1;
            lemma_scan_range(rules.drop_first(), b + 1, req, after);
        }
    }
}

/// While no earlier rule hits, evaluation from the start agrees with
/// evaluation from rule `i` on, in the state the earlier rules leave.
proof fn lemma_scan_skips(rules: Seq<(String, Rule)>, i: int, req: HttpRequest, st: LimitView)
    requires
        0 <= i <= rules.len(),
        forall|j: int| 0 <= j < i ==> !#[trigger] hits(rules, j, req, st),
    ensures
        scan(rules.subrange(0, i), 0, req, st).0 is None,
        scan(rules, 0, req, st).0 == scan(rules.subrange(i, rules.len() as int), i, req, state_before(rules, i, req, st)).0,
        scan(rules, 0, req, st).2 == scan(rules.subrange(i, rules.len() as int), i, req, state_before(rules, i, req, st)).2,
    decreases i,
{
    if i == 0 {
        assert(rules.subrange(0, 0) =~= Seq::<(String, Rule)>::empty());
        assert(rules.subrange(0, rules.len() as int) =~= rules);
    } else {
        lemma_scan_skips(rules, i - 1, req, st);
        let prev = rules.subrange(0, i - 1);
        assert(rules.subrange(0, i) =~= prev.push(rules[i - 1]));
        lemma_scan_push(prev, rules[i - 1], 0, req, st);
        assert(!hits(rules, i - 1, req, st));
        let tail = rules.subrange(i - 1, rules.len() as int);
        assert(tail.drop_first() =~= rules.subrange(i, rules.len() as int));
        assert(tail[0] == rules[i - 1]);
    }
}

proof fn lemma_first_hit_or_none(rules: Seq<(String, Rule)>, n: int, req: HttpRequest, st: LimitView)
    requires
        0 <= n <= rules.len(),
    ensures
        (forall|j: int| 0 <= j < n ==> !#[trigger] hits(rules, j, req, st)) || exists|j: int|
            0 <= j < n && #[trigger] hits(rules, j, req, st) && forall|k: int| 0 <= k < j ==> !#[trigger] hits(rules, k, req, st),
    decreases n,
{
    if n > 0 {
        lemma_first_hit_or_none(rules, n - 1, req, st);
    }
}

/// First match wins: evaluation picks rule `i` exactly when rule `i` is
/// enabled and matches, and no enabled rule before it matches (each rule
/// evaluated from the counters and boxes the rules before it leave).
pub proof fn lemma_first_match_wins(rules: Seq<(String, Rule)>, req: HttpRequest, st: LimitView, i: int)
    ensures
        scan(rules, 0, req, st).0 == Some(i) <==> (0 <= i < rules.len() && hits(rules, i, req, st)
            && forall|j: int| 0 <= j < i ==> !#[trigger] hits(rules, j, req, st)),
{
    if 0 <= i < rules.len() && hits(rules, i, req, st) && forall|j: int| 0 <= j < i ==> !#[trigger] hits(rules, j, req, st) {
        lemma_scan_skips(rules, i, req, st);
        let tail = rules.subrange(i, rules.len() as int);
        assert(tail[0] == rules[i]);
    }
    if scan(rules, 0, req, st).0 == Some(i) {
        lemma_first_hit_or_none(rules, rules.len() as int, req, st);
        if forall|j: int| 0 <= j < rules.len() ==> !#[trigger] hits(rules, j, req, st) {
            lemma_scan_skips(rules, rules.len() as int, req, st);
            assert(rules.subrange(rules.len() as int, rules.len() as int) =~= Seq::<(String, Rule)>::empty());
        } else {
            let h = choose|j: int| 0 <= j < rules.len() && #[trigger] hits(rules, j, req, st)
                && forall|k: int| 0 <= k < j ==> !#[trigger] hits(rules, k, req, st);
            lemma_scan_skips(rules, h, req, st);
            let tail = rules.subrange(h, rules.len() as int);
            assert(tail[0] == rules[h]);
        }
    }
}

/// Evaluation from another starting position moves the matched position by
/// the same amount and leaves the same counters and boxes.
proof fn lemma_scan_rebase(rules: Seq<(String, Rule)>, b: int, d: int, req: HttpRequest, st: LimitView)
    ensures
        scan(rules, b + d, req, st).2 == scan(rules, b, req, st).2,
        scan(rules, b + d, req, st).0 == match scan(rules, b, req, st).0 {
            Some(x) => Some(x + d),
            None => None::<int>,
        },
    decreases rules.len(),
{
    if rules.len() > 0 {
        if !rules[0].1.enabled {
            lemma_scan_rebase(rules.drop_first(), b + 1, d, req, st);
        } else {
            let after = leaves(rules[0].1.conditions.rules@, req, st).1;
            lemma_scan_rebase(rules.drop_first(), b + 1, d, req, after);
        }
    }
}

/// `rules` with rule `i` turned off.
pub open spec fn disabled_at(rules: Seq<(String, Rule)>, i: int) -> Seq<(String, Rule)> {
    rules.update(i, (rules[i].0, Rule { enabled: false, ..rules[i].1 }))
}

/// The name and action of the rule evaluation picks, if any.
pub open spec fn verdict(rules: Seq<(String, Rule)>, b: int, req: HttpRequest, st: LimitView) -> Option<(String, crate::rules::Action)> {
    match scan(rules, b, req, st).0 {
        Some(x) => Some((rules[x - b].0, rules[x - b].1.action)),
        None => None,
    }
}

/// Disabled-rule invisibility: turning rule `i` off gives the same verdict,
/// and leaves the same counters and boxes, as removing it.
pub proof fn lemma_disabled_rule_invisible(rules: Seq<(String, Rule)>, i: int, b: int, req: HttpRequest, st: LimitView)
    requires
        0 <= i < rules.len(),
    ensures
        verdict(disabled_at(rules, i), b, req, st) == verdict(rules.remove(i), b, req, st),
        scan(disabled_at(rules, i), b, req, st).2 == scan(rules.remove(i), b, req, st).2,
    decreases rules.len(),
{
    let off = disabled_at(rules, i);
    let gone = rules.remove(i);
    if i == 0 {
        assert(off.drop_first() =~= gone);
        lemma_scan_rebase(gone, b, 1, req, st);
        lemma_scan_range(gone, b, req, st);
        let m = scan(gone, b, req, st).0;
        if m is Some {
            let x = m->0;
            assert(off[x + 1 - b] == gone[x - b]);
        }
    } else {
        assert(off.drop_first() =~= disabled_at(rules.drop_first(), i - 1));
        assert(gone.drop_first() =~= rules.drop_first().remove(i - 1));
        assert(off[0] == rules[0] && gone[0] == rules[0]);
        if !rules[0].1.enabled {
            lemma_disabled_rule_invisible(rules.drop_first(), i - 1, b + 1, req, st);
            lemma_scan_range(off.drop_first(), b + 1, req, st);
            lemma_scan_range(gone.drop_first(), b + 1, req, st);
            let m1 = scan(off.drop_first(), b + 1, req, st).0;
            let m2 = scan(gone.drop_first(), b + 1, req, st).0;
            if m1 is Some {
                assert(off[m1->0 - b] == off.drop_first()[m1->0 - (b + 1)]);
                assert(gone[m2->0 - b] == gone.drop_first()[m2->0 - (b + 1)]);
            }
        } else {
            let after = leaves(rules[0].1.conditions.rules@, req, st).1;
            lemma_disabled_rule_invisible(rules.drop_first(), i - 1, b + 1, req, after);
            lemma_scan_range(off.drop_first(), b + 1, req, after);
            lemma_scan_range(gone.drop_first(), b + 1, req, after);
            let m1 = scan(off.drop_first(), b + 1, req, after).0;
            let m2 = scan(gone.drop_first(), b + 1, req, after).0;
            if m1 is Some {
                assert(off[m1->0 - b] == off.drop_first()[m1->0 - (b + 1)]);
                assert(gone[m2->0 - b] == gone.drop_first()[m2->0 - (b + 1)]);
            }
        }
    }
}

/// Counts never go down and penalty-box entries stay from `a` to `b`.
pub open spec fn state_grows(a: StateView, b: StateView) -> bool {
    &&& (forall|n: Seq<char>, e: Seq<char>| #[trigger] rate_of(b, n, e) >= rate_of(a, n, e))
    &&& (forall|k: (Seq<char>, Seq<char>)| #[trigger] a.boxed.contains(k) ==> b.boxed.contains(k))
}

proof fn lemma_state_grows_trans(a: StateView, b: StateView, c: StateView)
    requires
        state_grows(a, b),
        state_grows(b, c),
    ensures
        state_grows(a, c),
{
    assert forall|n: Seq<char>, e: Seq<char>| #[trigger] rate_of(c, n, e) >= rate_of(a, n, e) by {
        assert(rate_of(b, n, e) >= rate_of(a, n, e));
    }
    assert forall|k: (Seq<char>, Seq<char>)| #[trigger] a.boxed.contains(k) implies c.boxed.contains(k) by {
        assert(b.boxed.contains(k));
    }
}

proof fn lemma_node_step_grows(g: Graph, n: crate::nodes::Node, req: RequestContext, st: StateView)
    ensures
        state_grows(st, node_step(g, n, req, st)),
{
    let after = node_step(g, n, req, st);
    let mid = node_effect(n.kind, req, node_inputs(g, n.id, st), st).1;
    assert forall|a: Seq<char>, e: Seq<char>| #[trigger] rate_of(after, a, e) >= rate_of(st, a, e) by {
        assert(rate_of(after, a, e) == rate_of(mid, a, e));
    }
    assert forall|k: (Seq<char>, Seq<char>)| #[trigger] st.boxed.contains(k) implies after.boxed.contains(k) by {
        assert(after.boxed == mid.boxed);
    }
}

proof fn lemma_run_grows(g: Graph, req: RequestContext, order: Seq<NodeId>, st: StateView)
    ensures
        state_grows(st, run(g, req, order, st).1),
    decreases order.len(),
{
    if order.len() == 0 {
        assert(state_grows(st, st));
    } else {
        match node_index(g.nodes@, order[0]) {
            None => {
                lemma_run_grows(g, req, order.drop_first(), st);
            },
            Some(i) => {
                let after = node_step(g, g.nodes@[i], req, st);
                lemma_node_step_grows(g, g.nodes@[i], req, st);
                lemma_run_grows(g, req, order.drop_first(), after);
                lemma_state_grows_trans(st, after, run(g, req, order.drop_first(), after).1);
            },
        }
    }
}

/// Rate-limit monotonicity and penalty-box absorbing in graph form: a run
/// never lowers a count and never takes an entry out of a penalty box.
pub proof fn lemma_graph_counts_never_decrease(g: Graph, req: RequestContext, st: StateView)
    ensures
        state_grows(st, execution(g, req, st).1),
{
    match topo_order(g) {
        None => {
            assert(state_grows(st, st));
        },
        Some(order) => {
            lemma_run_grows(g, req, order, st);
        },
    }
}

/// The graph has no rate-limit node.
pub open spec fn without_rate_limits(g: Graph) -> bool {
    forall|i: int| 0 <= i < g.nodes@.len() ==> !((#[trigger] g.nodes@[i]).kind is RateLimit)
}

/// A node of this kind records an output on port 0 when it runs.
pub open spec fn emits(k: NodeKind) -> bool {
    k is Request || k is Condition || k is And || k is Or || k is Not
}

/// `key` is an output that some node of `g` records.
pub open spec fn written_by(g: Graph, key: (NodeId, u8)) -> bool {
    key.1 == 0 && exists|i: int| 0 <= i < g.nodes@.len() && (#[trigger] g.nodes@[i]).id == key.0 && emits(g.nodes@[i].kind)
}

/// Two states hold the same output, or none, under `key`.
pub open spec fn agree_on(a: Map<(NodeId, u8), ValueView>, b: Map<(NodeId, u8), ValueView>, key: (NodeId, u8)) -> bool {
    a.contains_key(key) == b.contains_key(key) && (a.contains_key(key) ==> a[key] == b[key])
}

proof fn lemma_node_index(nodes: Seq<Node>, id: NodeId)
    ensures
        match node_index(nodes, id) {
            Some(i) => 0 <= i < nodes.len() && nodes[i].id == id,
            None => !has_node(nodes, id),
        },
    decreases nodes.len(),
{
    if nodes.len() > 0 {
        lemma_node_index(nodes.drop_first(), id);
        if node_index(nodes, id) is None {
            assert forall|i: int| 0 <= i < nodes.len() implies (#[trigger] nodes[i]).id != id by {
                if i > 0 {
                    assert(nodes[i] == nodes.drop_first()[i - 1]);
                }
            }
        }
    }
}

proof fn lemma_gather_agree(ins: Seq<Edge>, o1: Map<(NodeId, u8), ValueView>, o2: Map<(NodeId, u8), ValueView>, acc: Seq<ValueView>)
    requires
        forall|m: int| 0 <= m < ins.len() ==> agree_on(o1, o2, (#[trigger] ins[m].from_node, ins[m].from_port)),
    ensures
        gather(ins, o1, acc) == gather(ins, o2, acc),
    decreases ins.len(),
{
    if ins.len() > 0 {
        assert(agree_on(o1, o2, (ins[0].from_node, ins[0].from_port)));
        let e = ins[0];
        let next = if o1.contains_key((e.from_node, e.from_port)) && (e.to_port as int) < acc.len() {
            acc.update(e.to_port as int, o1[(e.from_node, e.from_port)])
        } else {
            acc
        };
        assert forall|m: int| 0 <= m < ins.drop_first().len() implies agree_on(o1, o2, (#[trigger] ins.drop_first()[m].from_node, ins.drop_first()[m].from_port)) by {
            assert(ins.drop_first()[m] == ins[m + 1]);
        }
        lemma_gather_agree(ins.drop_first(), o1, o2, next);
    }
}

proof fn lemma_edges_into_sub(edges: Seq<Edge>, id: NodeId)
    ensures
        forall|m: int| 0 <= m < edges_into(edges, id).len() ==> (#[trigger] edges_into(edges, id)[m]).to_node == id
            && edges.contains(edges_into(edges, id)[m]),
{
    crate::graph::lemma_edges_where_sub(edges, |e: Edge| e.to_node == id);
}

/// Some position of `order` from `i` on holds `x`.
pub open spec fn pending(order: Seq<NodeId>, i: int, x: NodeId) -> bool {
    exists|p: int| i <= p < order.len() && order[p] == x
}

/// The two runs agree on every output but those still to be recorded by
/// nodes at positions from `i` on.
pub open spec fn agree_but_pending(g: Graph, order: Seq<NodeId>, i: int, o1: Map<(NodeId, u8), ValueView>, o2: Map<(NodeId, u8), ValueView>) -> bool {
    forall|key: (NodeId, u8)| !(written_by(g, key) && pending(order, i, key.0)) ==> #[trigger] agree_on(o1, o2, key)
}

proof fn lemma_run_agree(g: Graph, req: RequestContext, order: Seq<NodeId>, i: int, s1: StateView, s2: StateView)
    requires
        0 <= i <= order.len(),
        g.wf(),
        without_rate_limits(g),
        distinct(order),
        sources_first(g.edges@, order),
        agree_but_pending(g, order, i, s1.outputs, s2.outputs),
    ensures
        run(g, req, order.subrange(i, order.len() as int), s1).0 == run(g, req, order.subrange(i, order.len() as int), s2).0,
    decreases order.len() - i,
{
    let rest = order.subrange(i, order.len() as int);
    if i < order.len() {
        let x = order[i];
        assert(rest[0] == x);
        assert(rest.drop_first() =~= order.subrange(i + 1, order.len() as int));
        lemma_node_index(g.nodes@, x);
        match node_index(g.nodes@, x) {
            None => {
                assert forall|key: (NodeId, u8)| !(written_by(g, key) && pending(order, i + 1, key.0)) implies #[trigger] agree_on(s1.outputs, s2.outputs, key) by {
                    if written_by(g, key) && pending(order, i, key.0) {
                        let p = choose|p: int| i <= p < order.len() && order[p] == key.0;
                        if p == i {
                            let q = choose|q: int| 0 <= q < g.nodes@.len() && (#[trigger] g.nodes@[q]).id == key.0 && emits(g.nodes@[q].kind);
                            assert(has_node(g.nodes@, x));
                        }
                    }
                }
                lemma_run_agree(g, req, order, i + 1, s1, s2);
            },
            Some(j) => {
                let n = g.nodes@[j];
                assert(!(n.kind is RateLimit));
                let ins = edges_into(g.edges@, x);
                lemma_edges_into_sub(g.edges@, x);
                assert forall|m: int| 0 <= m < ins.len() implies agree_on(s1.outputs, s2.outputs, (#[trigger] ins[m].from_node, ins[m].from_port)) by {
                    let e = ins[m];
                    let je = choose|je: int| 0 <= je < g.edges@.len() && g.edges@[je] == e;
                    assert(g.edges@[je].to_node == order[i]);
                    let k = choose|k: int| 0 <= k < i && order[k] == g.edges@[je].from_node;
                    if pending(order, i, e.from_node) {
                        let p = choose|p: int| i <= p < order.len() && order[p] == e.from_node;
                        assert(order[k] != order[p]);
                    }
                    assert(agree_on(s1.outputs, s2.outputs, (e.from_node, e.from_port)));
                }
                let arity_init = Seq::new(crate::nodes::input_arity(n.kind), |k: int| ValueView::Null);
                lemma_gather_agree(ins, s1.outputs, s2.outputs, arity_init);
                assert(node_inputs(g, x, s1) == node_inputs(g, x, s2));
                let a1 = node_step(g, n, req, s1);
                let a2 = node_step(g, n, req, s2);
                assert(n.id == x);
                assert forall|key: (NodeId, u8)| !(written_by(g, key) && pending(order, i + 1, key.0)) implies #[trigger] agree_on(a1.outputs, a2.outputs, key) by {
                    if key != (x, 0u8) {
                        if written_by(g, key) && pending(order, i, key.0) {
                            let p = choose|p: int| i <= p < order.len() && order[p] == key.0;
                            if p == i {
                                assert(key.0 == x);
                                assert(key.1 == 0);
                            }
                        }
                        assert(agree_on(s1.outputs, s2.outputs, key));
                    } else {
                        if !emits(n.kind) {
                            if written_by(g, key) {
                                let q = choose|q: int| 0 <= q < g.nodes@.len() && (#[trigger] g.nodes@[q]).id == key.0 && emits(g.nodes@[q].kind);
                                assert(q == j);
                            }
                            assert(agree_on(s1.outputs, s2.outputs, key));
                        }
                    }
                }
                assert forall|m: int| 0 <= m < ins.len() implies agree_on(a1.outputs, a2.outputs, (#[trigger] ins[m].from_node, ins[m].from_port)) by {
                    let e = ins[m];
                    let je = choose|je: int| 0 <= je < g.edges@.len() && g.edges@[je] == e;
                    assert(g.edges@[je].to_node == order[i]);
                    let k = choose|k: int| 0 <= k < i && order[k] == g.edges@[je].from_node;
                    if pending(order, i + 1, e.from_node) {
                        let p = choose|p: int| i + 1 <= p < order.len() && order[p] == e.from_node;
                        assert(order[k] != order[p]);
                    }
                    assert(agree_on(a1.outputs, a2.outputs, (e.from_node, e.from_port)));
                }
                lemma_gather_agree(ins, a1.outputs, a2.outputs, arity_init);
                assert(verdict_of(g, n, a1) == verdict_of(g, n, a2));
                if verdict_of(g, n, a1) is None {
                    lemma_run_agree(g, req, order, i + 1, a1, a2);
                }
            },
        }
    }
}

proof fn lemma_run_writes_only(g: Graph, req: RequestContext, order: Seq<NodeId>, st: StateView)
    requires
        without_rate_limits(g),
    ensures
        forall|key: (NodeId, u8)| !written_by(g, key) ==> #[trigger] agree_on(st.outputs, run(g, req, order, st).1.outputs, key),
    decreases order.len(),
{
    if order.len() == 0 {
        assert forall|key: (NodeId, u8)| !written_by(g, key) implies #[trigger] agree_on(st.outputs, run(g, req, order, st).1.outputs, key) by {
            assert(run(g, req, order, st).1 == st);
        }
    } else {
        lemma_node_index(g.nodes@, order[0]);
        match node_index(g.nodes@, order[0]) {
            None => {
                lemma_run_writes_only(g, req, order.drop_first(), st);
                assert forall|key: (NodeId, u8)| !written_by(g, key) implies #[trigger] agree_on(st.outputs, run(g, req, order, st).1.outputs, key) by {
                    assert(run(g, req, order, st) == run(g, req, order.drop_first(), st));
                    assert(agree_on(st.outputs, run(g, req, order.drop_first(), st).1.outputs, key));
                }
            },
            Some(j) => {
                let n = g.nodes@[j];
                assert(!(n.kind is RateLimit));
                let after = node_step(g, n, req, st);
                lemma_run_writes_only(g, req, order.drop_first(), after);
                assert forall|key: (NodeId, u8)| !written_by(g, key) implies #[trigger] agree_on(st.outputs, run(g, req, order, st).1.outputs, key) by {
                    if key == (n.id, 0u8) && emits(n.kind) {
                        assert(written_by(g, key));
                    }
                    assert(agree_on(st.outputs, after.outputs, key));
                    if verdict_of(g, n, after) is None {
                        assert(agree_on(after.outputs, run(g, req, order.drop_first(), after).1.outputs, key));
                    }
                }
            },
        }
    }
}

/// Graph determinism: for an acyclic graph without rate-limit nodes, two
/// runs from states that agree on every output the graph does not record
/// itself give the same verdict.
pub proof fn lemma_runs_agree_off_graph_outputs(g: Graph, req: RequestContext, s1: StateView, s2: StateView)
    requires
        g.wf(),
        without_rate_limits(g),
        acyclic(g.edges@),
        g.edges@.len() < usize::MAX,
        forall|key: (NodeId, u8)| !written_by(g, key) ==> #[trigger] agree_on(s1.outputs, s2.outputs, key),
    ensures
        execution(g, req, s1).0 == execution(g, req, s2).0,
{
    lemma_acyclic_has_order(g);
    let order = topo_order(g)->0;
    lemma_topo_order_sound(g);
    assert forall|key: (NodeId, u8)| !(written_by(g, key) && pending(order, 0, key.0)) implies #[trigger] agree_on(s1.outputs, s2.outputs, key) by {
        if written_by(g, key) {
            let q = choose|q: int| 0 <= q < g.nodes@.len() && (#[trigger] g.nodes@[q]).id == key.0 && emits(g.nodes@[q].kind);
            assert(order.contains(g.nodes@[q].id));
        }
    }
    assert(order.subrange(0, order.len() as int) =~= order);
    lemma_run_agree(g, req, order, 0, s1, s2);
}

/// Graph determinism: running an acyclic graph without rate-limit nodes a
/// second time, from the state the first run left, gives the same verdict.
pub proof fn lemma_rerun_same_verdict(g: Graph, req: RequestContext, st: StateView)
    requires
        g.wf(),
        without_rate_limits(g),
        acyclic(g.edges@),
        g.edges@.len() < usize::MAX,
    ensures
        execution(g, req, execution(g, req, st).1).0 == execution(g, req, st).0,
{
    lemma_acyclic_has_order(g);
    let order = topo_order(g)->0;
    lemma_run_writes_only(g, req, order, st);
    let after = execution(g, req, st).1;
    assert forall|key: (NodeId, u8)| !written_by(g, key) implies #[trigger] agree_on(after.outputs, st.outputs, key) by {
        assert(agree_on(st.outputs, after.outputs, key));
    }
    lemma_runs_agree_off_graph_outputs(g, req, after, st);
}

} // verus!
