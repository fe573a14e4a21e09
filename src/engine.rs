//! The flat rule engine: evaluates named rules in order, first match wins.

use vstd::prelude::*;
use crate::net::{in_any_v4_block, regex_finds, regex_matches, text_v4_block_contains, ClientIp};
use crate::rules::{
    box_name_of, counter_name_of, Action, Condition, ConditionRule, DeviceOperator, HeaderOperator,
    IpOperator, LogicOperator, Rule, StringOperator, Window,
};
use crate::state::{bump, ExecutionState};
use crate::text::{
    contains, decimal, eq_ignore_ascii_case, is_infix, is_prefix, join2, same_ignoring_ascii_case,
    same_text, starts_with, decimal_text,
};
use crate::value::{texts, texts_contain, IpAddress};

verus! {

/// What the host's device detection reports for the user agent.
#[derive(Debug, Clone, Copy, PartialEq, Eq, Structural)]
pub struct DeviceClass {
    pub is_mobile: Option<bool>,
    pub is_tablet: Option<bool>,
    pub is_desktop: Option<bool>,
}

/// The parts of an incoming request that flat rules read.
#[derive(Debug)]
pub struct HttpRequest {
    pub path: String,
    pub client_ip: Option<ClientIp>,
    /// Header names and values in arrival order; names compare without ASCII case.
    pub headers: Vec<(String, String)>,
    /// Device class of the user agent; `None` without a user agent or a detection result.
    pub device: Option<DeviceClass>,
    /// Arrival time, in seconds since the Unix epoch.
    pub now_secs: u64,
}

/// The value of the first header whose name equals `name` up to ASCII case.
pub open spec fn header_ci(h: Seq<(String, String)>, name: Seq<char>) -> Option<Seq<char>>
    decreases h.len(),
{
    if h.len() == 0 {
        None
    } else if eq_ignore_ascii_case(h[0].0@, name) {
        Some(h[0].1@)
    } else {
        header_ci(h.drop_first(), name)
    }
}

impl HttpRequest {
    /// The value of header `name`, names compared without ASCII case.
    pub fn header(&self, name: &str) -> (r: Option<&String>)
        ensures
            match header_ci(self.headers@, name@) {
                Some(v) => r is Some && r->0@ == v,
                None => r is None,
            },
    {
        let mut i: usize = 0;
        assert(self.headers@.subrange(0, self.headers@.len() as int) =~= self.headers@);
        while i < self.headers.len()
            invariant
                i <= self.headers@.len(),
                header_ci(self.headers@, name@) == header_ci(self.headers@.subrange(i as int, self.headers@.len() as int), name@),
            decreases self.headers@.len() - i,
        {
            let ghost rest = self.headers@.subrange(i as int, self.headers@.len() as int);
            assert(rest.drop_first() =~= self.headers@.subrange(i + 1, self.headers@.len() as int));
            assert(rest[0] == self.headers@[i as int]);
            if same_ignoring_ascii_case(self.headers[i].0.as_str(), name) {
                return Some(&self.headers[i].1);
            }
            i += 1;
        }
        None
    }
}

/// Counters and penalty boxes of the flat form.
pub struct LimitView {
    /// Count of each (counter name, entry).
    pub counts: Map<(Seq<char>, Seq<char>), u32>,
    /// For each (box name, entry) put in a box: the second until which it stays there.
    pub until: Map<(Seq<char>, Seq<char>), u64>,
}

impl LimitView {
    pub open spec fn count(self, counter: Seq<char>, entry: Seq<char>) -> u32 {
        if self.counts.contains_key((counter, entry)) { self.counts[(counter, entry)] } else { 0 }
    }

    /// `entry` is in box `name` at second `now`.
    pub open spec fn boxed_at(self, name: Seq<char>, entry: Seq<char>, now: u64) -> bool {
        self.until.contains_key((name, entry)) && now < self.until[(name, entry)]
    }
}

/// `now + ttl`, or the largest `u64` when that overflows.
pub open spec fn expiry(now: u64, ttl: u32) -> u64 {
    if now as int + ttl as int <= u64::MAX as int { (now + ttl) as u64 } else { u64::MAX }
}

/// Which device flag a leaf value selects.
pub open spec fn device_flag(d: DeviceClass, value: Seq<char>) -> Option<Option<bool>> {
    if value == "mobile"@ {
        Some(d.is_mobile)
    } else if value == "tablet"@ {
        Some(d.is_tablet)
    } else if value == "desktop"@ {
        Some(d.is_desktop)
    } else {
        None
    }
}

pub open spec fn flag_set(f: Option<bool>) -> bool {
    f == Some(true)
}

/// Whether a string leaf operator holds of `subject`.
pub open spec fn string_op_holds(op: StringOperator, subject: Seq<char>, value: Seq<char>) -> bool {
    match op {
        StringOperator::Equals => subject == value,
        StringOperator::StartsWith => is_prefix(value, subject),
        StringOperator::Contains => is_infix(value, subject),
        StringOperator::Matches => regex_finds(value, subject),
    }
}

/// Outcome of one leaf: whether it matched, and the counters and boxes after it.
pub open spec fn leaf(rule: ConditionRule, req: HttpRequest, st: LimitView) -> (bool, LimitView) {
    match rule {
        ConditionRule::Path { operator, value } => (string_op_holds(operator, req.path@, value@), st),
        ConditionRule::IP { operator, value } => (match req.client_ip {
            None => false,
            Some(c) => match operator {
                IpOperator::Equals => texts(value@).contains(c.text@),
                IpOperator::InRange => match c.addr {
                    IpAddress::V4(a) => exists|i: int| 0 <= i < value@.len() && text_v4_block_contains(#[trigger] value@[i]@, a),
                    IpAddress::V6(_) => false,
                },
            },
        }, st),
        ConditionRule::Device { operator, value } => (match req.device {
            None => false,
            Some(d) => match device_flag(d, value@) {
                None => false,
                Some(f) => match operator {
                    DeviceOperator::Is => flag_set(f),
                    DeviceOperator::IsNot => !flag_set(f),
                },
            },
        }, st),
        ConditionRule::UserAgent { operator, value } => (match header_ci(req.headers@, "user-agent"@) {
            None => false,
            Some(ua) => string_op_holds(operator, ua, value@),
        }, st),
        ConditionRule::Header { key, operator } => (match operator {
            HeaderOperator::Exists => header_ci(req.headers@, key@) is Some,
            HeaderOperator::NotExists => header_ci(req.headers@, key@) is None,
            HeaderOperator::Equals => header_ci(req.headers@, key@) == Some(key@),
            HeaderOperator::Contains => match header_ci(req.headers@, key@) {
                Some(v) => is_infix(key@, v),
                None => false,
            },
        }, st),
        ConditionRule::RateLimit { window, max_requests, block_ttl, counter_name, penaltybox_name } => {
            let counter = counter_name_of(window, max_requests, block_ttl, counter_name);
            let pbox = box_name_of(window, max_requests, block_ttl, penaltybox_name);
            match req.client_ip {
                None => (false, st),
                Some(c) => {
                    let e = c.text@;
                    if st.boxed_at(pbox, e, req.now_secs) {
                        (true, st)
                    } else {
                        let n = bump(st.count(counter, e));
                        let counted = LimitView { counts: st.counts.insert((counter, e), n), ..st };
                        if n > max_requests {
                            (true, LimitView { until: counted.until.insert((pbox, e), expiry(req.now_secs, block_ttl)), ..counted })
                        } else {
                            (false, counted)
                        }
                    }
                },
            }
        },
    }
}

/// Outcomes of the leaves of `rs`, evaluated in order.
pub open spec fn leaves(rs: Seq<ConditionRule>, req: HttpRequest, st: LimitView) -> (Seq<bool>, LimitView)
    decreases rs.len(),
{
    if rs.len() == 0 {
        (seq![], st)
    } else {
        let (m, after) = leaf(rs[0], req, st);
        let (ms, last) = leaves(rs.drop_first(), req, after);
        (seq![m] + ms, last)
    }
}

/// How a rule's combinator reads its leaf outcomes.
pub open spec fn combine(op: LogicOperator, ms: Seq<bool>) -> bool {
    match op {
        LogicOperator::And => forall|i: int| 0 <= i < ms.len() ==> #[trigger] ms[i],
        LogicOperator::Or => exists|i: int| 0 <= i < ms.len() && #[trigger] ms[i],
        LogicOperator::Not => !(exists|i: int| 0 <= i < ms.len() && #[trigger] ms[i]),
    }
}

/// One evaluated rule: its position, its leaf outcomes, and whether it matched.
pub struct TraceEntry {
    pub index: int,
    pub results: Seq<bool>,
    pub matched: bool,
}

/// Evaluation of `rules` (the first at position `base`) in order, skipping
/// disabled ones and stopping at the first match: the position of the
/// matching rule, the trace of evaluated rules, and the counters and boxes after.
pub open spec fn scan(rules: Seq<(String, Rule)>, base: int, req: HttpRequest, st: LimitView) -> (Option<int>, Seq<TraceEntry>, LimitView)
    decreases rules.len(),
{
    if rules.len() == 0 {
        (None, seq![], st)
    } else if !rules[0].1.enabled {
        scan(rules.drop_first(), base + 1, req, st)
    } else {
        let (ms, after) = leaves(rules[0].1.conditions.rules@, req, st);
        let ok = combine(rules[0].1.conditions.operator, ms);
        let entry = TraceEntry { index: base, results: ms, matched: ok };
        if ok {
            (Some(base), seq![entry], after)
        } else {
            let (m, t, last) = scan(rules.drop_first(), base + 1, req, after);
            (m, seq![entry] + t, last)
        }
    }
}

/// Evaluation of a leaf: its rule and whether it matched.
#[derive(Debug)]
pub struct ConditionEvaluation {
    pub rule: ConditionRule,
    pub matched: bool,
}

/// Evaluation of a rule: its name, the rule, its leaves, and whether it matched.
#[derive(Debug)]
pub struct RuleEvaluation {
    pub name: String,
    pub rule: Rule,
    pub conditions: Vec<ConditionEvaluation>,
    pub matched: bool,
}

/// Two leaves are the same, the texts of address lists compared by content.
pub open spec fn same_leaf(a: ConditionRule, b: ConditionRule) -> bool {
    match (a, b) {
        (ConditionRule::IP { operator: o1, value: v1 }, ConditionRule::IP { operator: o2, value: v2 }) => o1 == o2 && texts(v1@) == texts(v2@),
        _ => a == b,
    }
}

/// Two rules are the same, leaf for leaf.
pub open spec fn same_rule(a: Rule, b: Rule) -> bool {
    &&& a.enabled == b.enabled
    &&& a.action == b.action
    &&& a.conditions.operator == b.conditions.operator
    &&& a.conditions.rules@.len() == b.conditions.rules@.len()
    &&& forall|i: int| 0 <= i < a.conditions.rules@.len() ==> same_leaf(#[trigger] a.conditions.rules@[i], b.conditions.rules@[i])
}

pub fn copy_leaf(r: &ConditionRule) -> (c: ConditionRule)
    ensures
        same_leaf(c, *r),
{
    match r {
        ConditionRule::Path { operator, value } => ConditionRule::Path { operator: *operator, value: value.clone() },
        ConditionRule::IP { operator, value } => ConditionRule::IP { operator: *operator, value: crate::value::copy_texts(value) },
        ConditionRule::Device { operator, value } => ConditionRule::Device { operator: *operator, value: value.clone() },
        ConditionRule::UserAgent { operator, value } => ConditionRule::UserAgent { operator: *operator, value: value.clone() },
        ConditionRule::Header { key, operator } => ConditionRule::Header { key: key.clone(), operator: *operator },
        ConditionRule::RateLimit { window, max_requests, block_ttl, counter_name, penaltybox_name } => ConditionRule::RateLimit {
            window: *window,
            max_requests: *max_requests,
            block_ttl: *block_ttl,
            counter_name: crate::rules::copy_opt_string(counter_name),
            penaltybox_name: crate::rules::copy_opt_string(penaltybox_name),
        },
    }
}

pub fn copy_rule(r: &Rule) -> (c: Rule)
    ensures
        same_rule(c, *r),
{
    let mut leaves_copy: Vec<ConditionRule> = Vec::new();
    let mut i: usize = 0;
    while i < r.conditions.rules.len()
        invariant
            i <= r.conditions.rules@.len(),
            leaves_copy@.len() == i,
            forall|k: int| 0 <= k < i ==> same_leaf(#[trigger] leaves_copy@[k], r.conditions.rules@[k]),
        decreases r.conditions.rules@.len() - i,
    {
        leaves_copy.push(copy_leaf(&r.conditions.rules[i]));
        i += 1;
    }
    Rule {
        enabled: r.enabled,
        conditions: Condition { operator: r.conditions.operator, rules: leaves_copy },
        action: r.action.clone(),
    }
}

/// One penalty-box cell: box name, entry, and the second until which it holds.
pub type PenaltyCell = (String, String, u64);

/// The hold time of the first cell for `k`.
pub open spec fn until_lookup(s: Seq<PenaltyCell>, k: (Seq<char>, Seq<char>)) -> Option<u64>
    decreases s.len(),
{
    if s.len() == 0 {
        None
    } else if (s[0].0@, s[0].1@) == k {
        Some(s[0].2)
    } else {
        until_lookup(s.drop_first(), k)
    }
}

/// Counters and timed penalty boxes shared by all rules of an engine.
#[derive(Debug)]
pub struct RateLimits {
    /// Counter cells (only their counts are used).
    pub counters: ExecutionState,
    /// Penalty-box cells; the first cell for a box and entry is the one that counts.
    pub penalties: Vec<PenaltyCell>,
}

impl View for RateLimits {
    type V = LimitView;

    open spec fn view(&self) -> LimitView {
        LimitView {
            counts: self.counters@.counts,
            until: Map::new(
                |k: (Seq<char>, Seq<char>)| until_lookup(self.penalties@, k) is Some,
                |k: (Seq<char>, Seq<char>)| until_lookup(self.penalties@, k)->0,
            ),
        }
    }
}

proof fn lemma_until_lookup_update(before: Seq<PenaltyCell>, i: int, after: Seq<PenaltyCell>, q: (Seq<char>, Seq<char>))
    requires
        0 <= i < before.len(),
        forall|j: int| 0 <= j < i ==> (before[j].0@, before[j].1@) != (before[i].0@, before[i].1@),
        after.len() == before.len(),
        after[i].0 == before[i].0 && after[i].1 == before[i].1,
        forall|j: int| 0 <= j < before.len() && j != i ==> after[j] == before[j],
    ensures
        until_lookup(after, q) == if q == (before[i].0@, before[i].1@) { Some(after[i].2) } else { until_lookup(before, q) },
    decreases before.len(),
{
    if i > 0 {
        lemma_until_lookup_update(before.drop_first(), i - 1, after.drop_first(), q);
        assert(after[0] == before[0]);
    } else {
        assert(after.drop_first() =~= before.drop_first());
    }
}

proof fn lemma_until_lookup_push(before: Seq<PenaltyCell>, after: Seq<PenaltyCell>, q: (Seq<char>, Seq<char>))
    requires
        after.len() == before.len() + 1,
        forall|j: int| 0 <= j < before.len() ==> (before[j].0@, before[j].1@) != (after[before.len() as int].0@, after[before.len() as int].1@),
        forall|j: int| 0 <= j < before.len() ==> after[j] == before[j],
    ensures
        until_lookup(after, q) == if q == (after[before.len() as int].0@, after[before.len() as int].1@) {
            Some(after[before.len() as int].2)
        } else {
            until_lookup(before, q)
        },
    decreases before.len(),
{
    if before.len() > 0 {
        lemma_until_lookup_push(before.drop_first(), after.drop_first(), q);
        assert(after[0] == before[0]);
        assert(after.drop_first()[before.drop_first().len() as int] == after[before.len() as int]);
        if (after[0].0@, after[0].1@) != q {
            assert(until_lookup(after, q) == until_lookup(after.drop_first(), q));
            assert(until_lookup(before, q) == until_lookup(before.drop_first(), q));
        }
    } else {
        assert(after.drop_first().len() == 0);
        assert(until_lookup(after.drop_first(), q) is None);
    }
}

impl RateLimits {
    pub fn new() -> (r: Self)
        ensures
            r@.counts == Map::<(Seq<char>, Seq<char>), u32>::empty(),
            r@.until == Map::<(Seq<char>, Seq<char>), u64>::empty(),
    {
        let r = RateLimits { counters: ExecutionState::new(), penalties: Vec::new() };
        assert(r@.until =~= Map::<(Seq<char>, Seq<char>), u64>::empty());
        r
    }

    fn penalty_index(&self, name: &str, entry: &str) -> (r: Option<usize>)
        ensures
            match r {
                Some(i) => i < self.penalties@.len()
                    && until_lookup(self.penalties@, (name@, entry@)) == Some(self.penalties@[i as int].2)
                    && (self.penalties@[i as int].0@, self.penalties@[i as int].1@) == (name@, entry@)
                    && forall|j: int| 0 <= j < i ==> (self.penalties@[j].0@, self.penalties@[j].1@) != (name@, entry@),
                None => until_lookup(self.penalties@, (name@, entry@)) is None
                    && forall|j: int| 0 <= j < self.penalties@.len() ==> (self.penalties@[j].0@, self.penalties@[j].1@) != (name@, entry@),
            },
    {
        let ghost k = (name@, entry@);
        let mut i: usize = 0;
        assert(self.penalties@.subrange(0, self.penalties@.len() as int) =~= self.penalties@);
        while i < self.penalties.len()
            invariant
                i <= self.penalties@.len(),
                k == (name@, entry@),
                forall|j: int| 0 <= j < i ==> (self.penalties@[j].0@, self.penalties@[j].1@) != k,
                until_lookup(self.penalties@, k) == until_lookup(self.penalties@.subrange(i as int, self.penalties@.len() as int), k),
            decreases self.penalties@.len() - i,
        {
            let ghost rest = self.penalties@.subrange(i as int, self.penalties@.len() as int);
            assert(rest.drop_first() =~= self.penalties@.subrange(i + 1, self.penalties@.len() as int));
            assert(rest[0] == self.penalties@[i as int]);
            if same_text(self.penalties[i].0.as_str(), name) && same_text(self.penalties[i].1.as_str(), entry) {
                return Some(i);
            }
            i += 1;
        }
        None
    }

    /// Whether `entry` is in box `name` at second `now`.
    pub fn is_boxed(&self, name: &str, entry: &str, now: u64) -> (r: bool)
        ensures
            r == self@.boxed_at(name@, entry@, now),
    {
        match self.penalty_index(name, entry) {
            Some(i) => now < self.penalties[i].2,
            None => false,
        }
    }

    /// Keeps `entry` in box `name` until second `until`.
    pub fn hold(&mut self, name: &str, entry: &str, until: u64)
        ensures
            final(self)@ == (LimitView { until: old(self)@.until.insert((name@, entry@), until), ..old(self)@ }),
    {
        let ghost k = (name@, entry@);
        let ghost before = self.penalties@;
        match self.penalty_index(name, entry) {
            Some(i) => {
                self.penalties[i].2 = until;
                proof {
                    assert forall|q: (Seq<char>, Seq<char>)| until_lookup(self.penalties@, q) == if q == k { Some(until) } else { until_lookup(before, q) } by {
                        lemma_until_lookup_update(before, i as int, self.penalties@, q);
                    }
                }
            },
            None => {
                self.penalties.push((name.to_owned(), entry.to_owned(), until));
                proof {
                    assert forall|q: (Seq<char>, Seq<char>)| until_lookup(self.penalties@, q) == if q == k { Some(until) } else { until_lookup(before, q) } by {
                        lemma_until_lookup_push(before, self.penalties@, q);
                    }
                }
            },
        }
        assert(self@.until =~= old(self)@.until.insert(k, until));
    }
}

/// A rule set in authoring order, with the counters and penalty boxes its rate-limit leaves share.
#[derive(Debug)]
pub struct RuleEngine {
    /// Rules by name, in the order they were first added; names are unique.
    pub rules: Vec<(String, Rule)>,
    pub limits: RateLimits,
}

/// No two rules share a name.
pub open spec fn names_unique(rules: Seq<(String, Rule)>) -> bool {
    forall|i: int, j: int| 0 <= i < j < rules.len() ==> rules[i].0@ != rules[j].0@
}

/// Position of the rule named `name`.
pub open spec fn rule_position(rules: Seq<(String, Rule)>, name: Seq<char>) -> Option<int> {
    if exists|i: int| 0 <= i < rules.len() && (#[trigger] rules[i]).0@ == name {
        Some(choose|i: int| 0 <= i < rules.len() && (#[trigger] rules[i]).0@ == name)
    } else {
        None
    }
}

fn counter_label(prefix: &str, window: Window, max_requests: u32, block_ttl: u32) -> (r: String)
    ensures
        r@ == prefix@ + crate::rules::window_text(window) + "_"@ + decimal(max_requests as nat) + "_"@ + decimal(block_ttl as nat),
{
    let mut r = join2(prefix, window.text());
    r.append("_");
    let m = decimal_text(max_requests as u64);
    r.append(m.as_str());
    r.append("_");
    let t = decimal_text(block_ttl as u64);
    r.append(t.as_str());
    r
}

fn name_or(name: &Option<String>, prefix: &str, window: Window, max_requests: u32, block_ttl: u32) -> (r: String)
    ensures
        r@ == match *name {
            Some(n) => n@,
            None => prefix@ + crate::rules::window_text(window) + "_"@ + decimal(max_requests as nat) + "_"@ + decimal(block_ttl as nat),
        },
{
    match name {
        Some(n) => n.clone(),
        None => counter_label(prefix, window, max_requests, block_ttl),
    }
}

fn string_op(op: StringOperator, subject: &str, value: &str) -> (r: bool)
    ensures
        r == string_op_holds(op, subject@, value@),
{
    match op {
        StringOperator::Equals => same_text(subject, value),
        StringOperator::StartsWith => starts_with(subject, value),
        StringOperator::Contains => contains(subject, value),
        StringOperator::Matches => regex_matches(value, subject),
    }
}


impl RuleEngine {
    /// An engine with no rules and empty counters and boxes.
    pub fn new() -> (r: Self)
        ensures
            r.rules@.len() == 0,
            r.limits@.counts == Map::<(Seq<char>, Seq<char>), u32>::empty(),
            r.limits@.until == Map::<(Seq<char>, Seq<char>), u64>::empty(),
    {
        RuleEngine { rules: Vec::new(), limits: RateLimits::new() }
    }

    /// The number of rules.
    pub fn rule_count(&self) -> (r: usize)
        ensures
            r == self.rules@.len(),
    {
        self.rules.len()
    }

    /// Adds rule `rule` under `name`; a rule of the same name is replaced where it stands.
    pub fn add_rule(&mut self, name: String, rule: Rule)
        requires
            names_unique(old(self).rules@),
        ensures
            names_unique(final(self).rules@),
            final(self).limits == old(self).limits,
            match rule_position(old(self).rules@, name@) {
                Some(i) => final(self).rules@ == old(self).rules@.update(i, (name, rule)),
                None => final(self).rules@ == old(self).rules@.push((name, rule)),
            },
    {
        let mut i: usize = 0;
        while i < self.rules.len()
            invariant
                i <= self.rules@.len(),
                self.rules@ == old(self).rules@,
                self.limits == old(self).limits,
                names_unique(old(self).rules@),
                forall|k: int| 0 <= k < i ==> self.rules@[k].0@ != name@,
            decreases self.rules@.len() - i,
        {
            if same_text(self.rules[i].0.as_str(), name.as_str()) {
                let ghost nm = name@;
                proof {
                    assert(self.rules@[i as int].0@ == nm);
                    assert(exists|c: int| 0 <= c < self.rules@.len() && (#[trigger] self.rules@[c]).0@ == nm);
                    let c = choose|c: int| 0 <= c < self.rules@.len() && (#[trigger] self.rules@[c]).0@ == nm;
                    if c < i as int {
                        assert(old(self).rules@[c].0@ != old(self).rules@[i as int].0@);
                    } else if c > i as int {
                        assert(old(self).rules@[i as int].0@ != old(self).rules@[c].0@);
                    }
                    assert(rule_position(old(self).rules@, nm) == Some(i as int));
                }
                self.rules[i] = (name, rule);
                assert(self.rules@[i as int].0@ == nm);
                proof {
                    assert forall|a: int, b: int| 0 <= a < b < self.rules@.len() implies self.rules@[a].0@ != self.rules@[b].0@ by {
                        if a != i && b != i {
                            assert(self.rules@[a] == old(self).rules@[a] && self.rules@[b] == old(self).rules@[b]);
                        } else if a == i {
                            assert(old(self).rules@[a].0@ == nm);
                            assert(self.rules@[b] == old(self).rules@[b]);
                        } else {
                            assert(old(self).rules@[b].0@ == nm);
                            assert(self.rules@[a] == old(self).rules@[a]);
                        }
                    }
                }
                return;
            }
            i += 1;
        }
        self.rules.push((name, rule));
        proof {
            assert forall|a: int, b: int| 0 <= a < b < self.rules@.len() implies self.rules@[a].0@ != self.rules@[b].0@ by {
                if b < old(self).rules@.len() {
                    assert(self.rules@[a] == old(self).rules@[a] && self.rules@[b] == old(self).rules@[b]);
                } else {
                    assert(self.rules@[a] == old(self).rules@[a]);
                }
            }
        }
    }

    /// Evaluates every leaf of `condition` in order, then combines them.
    pub fn evaluate_condition_with_details(limits: &mut RateLimits, condition: &Condition, req: &HttpRequest) -> (r: (bool, Vec<ConditionEvaluation>))
        ensures
            ({
                let (ms, after) = leaves(condition.rules@, *req, old(limits)@);
                &&& final(limits)@ == after
                &&& r.0 == combine(condition.operator, ms)
                &&& r.1@.len() == ms.len()
                &&& forall|j: int| 0 <= j < ms.len() ==> (#[trigger] r.1@[j]).matched == ms[j]
                    && same_leaf(r.1@[j].rule, condition.rules@[j])
            }),
    {
        let ghost all = condition.rules@;
        let ghost st0 = limits@;
        let mut evaluations: Vec<ConditionEvaluation> = Vec::new();
        let mut results: Vec<bool> = Vec::new();
        let mut i: usize = 0;
        assert(all.subrange(0, all.len() as int) =~= all);
        assert(results@ + leaves(all, *req, st0).0 =~= leaves(all, *req, st0).0);
        while i < condition.rules.len()
            invariant
                i <= all.len(),
                all == condition.rules@,
                results@.len() == i,
                evaluations@.len() == i,
                forall|j: int| 0 <= j < i ==> (#[trigger] evaluations@[j]).matched == results@[j]
                    && same_leaf(evaluations@[j].rule, all[j]),
                leaves(all, *req, st0).0 == results@ + leaves(all.subrange(i as int, all.len() as int), *req, limits@).0,
                leaves(all, *req, st0).1 == leaves(all.subrange(i as int, all.len() as int), *req, limits@).1,
            decreases all.len() - i,
        {
            let ghost rest = all.subrange(i as int, all.len() as int);
            let ghost before = limits@;
            assert(rest.drop_first() =~= all.subrange(i + 1, all.len() as int));
            assert(rest[0] == all[i as int]);
            let matched = Self::evaluate_rule(limits, &condition.rules[i], req);
            proof {
                let (m, after) = leaf(rest[0], *req, before);
                assert(m == matched && after == limits@);
                assert(leaves(rest, *req, before).0 == seq![m] + leaves(rest.drop_first(), *req, limits@).0);
                assert(results@.push(matched) + leaves(rest.drop_first(), *req, limits@).0
                    =~= results@ + (seq![m] + leaves(rest.drop_first(), *req, limits@).0));
            }
            evaluations.push(ConditionEvaluation { rule: copy_leaf(&condition.rules[i]), matched });
            results.push(matched);
            i += 1;
        }
        proof {
            assert(all.subrange(all.len() as int, all.len() as int) =~= Seq::<ConditionRule>::empty());
            assert(results@ + Seq::<bool>::empty() =~= results@);
        }
        let ghost ms = results@;
        let result = match condition.operator {
            LogicOperator::And => {
                let mut all_true = true;
                let mut k: usize = 0;
                while k < results.len()
                    invariant
                        k <= results@.len(),
                        ms == results@,
                        all_true == forall|j: int| 0 <= j < k ==> #[trigger] ms[j],
                    decreases results@.len() - k,
                {
                    all_true = all_true && results[k];
                    k += 1;
                }
                all_true
            },
            LogicOperator::Or | LogicOperator::Not => {
                let mut any = false;
                let mut k: usize = 0;
                while k < results.len()
                    invariant
                        k <= results@.len(),
                        ms == results@,
                        any == exists|j: int| 0 <= j < k && #[trigger] ms[j],
                    decreases results@.len() - k,
                {
                    proof {
                        if results@[k as int] {
                            assert(ms[k as int]);
                        }
                    }
                    any = any || results[k];
                    k += 1;
                }
                match condition.operator {
                    LogicOperator::Or => any,
                    _ => !any,
                }
            },
        };
        (result, evaluations)
    }

    /// Evaluates the enabled rules in order until one matches: the name and
    /// action of that rule, and the evaluation of every rule tried.
    pub fn evaluate_with_details(&mut self, req: &HttpRequest) -> (r: (Option<(String, Action)>, Vec<RuleEvaluation>))
        ensures
            ({
                let (m, trace, after) = scan(old(self).rules@, 0, *req, old(self).limits@);
                &&& final(self).rules == old(self).rules
                &&& final(self).limits@ == after
                &&& match m {
                    Some(i) => r.0 matches Some((n, a)) && n == old(self).rules@[i].0 && a == old(self).rules@[i].1.action,
                    None => r.0 is None,
                }
                &&& r.1@.len() == trace.len()
                &&& forall|k: int| 0 <= k < trace.len() ==> {
                    let ev = #[trigger] r.1@[k];
                    let idx = trace[k].index;
                    &&& 0 <= idx < old(self).rules@.len()
                    &&& ev.name == old(self).rules@[idx].0
                    &&& same_rule(ev.rule, old(self).rules@[idx].1)
                    &&& ev.matched == trace[k].matched
                    &&& ev.conditions@.len() == trace[k].results.len()
                    &&& forall|j: int| 0 <= j < trace[k].results.len() ==> (#[trigger] ev.conditions@[j]).matched == trace[k].results[j]
                        && same_leaf(ev.conditions@[j].rule, old(self).rules@[idx].1.conditions.rules@[j])
                }
            }),
    {
        let ghost all = self.rules@;
        let ghost st0 = self.limits@;
        let mut evaluations: Vec<RuleEvaluation> = Vec::new();
        let ghost mut done: Seq<TraceEntry> = seq![];
        let mut i: usize = 0;
        assert(all.subrange(0, all.len() as int) =~= all);
        assert(done + scan(all, 0, *req, st0).1 =~= scan(all, 0, *req, st0).1);
        while i < self.rules.len()
            invariant
                i <= all.len(),
                all == self.rules@,
                self.rules == old(self).rules,
                all == old(self).rules@,
                st0 == old(self).limits@,
                scan(all, 0, *req, st0).0 == scan(all.subrange(i as int, all.len() as int), i as int, *req, self.limits@).0,
                scan(all, 0, *req, st0).1 == done + scan(all.subrange(i as int, all.len() as int), i as int, *req, self.limits@).1,
                scan(all, 0, *req, st0).2 == scan(all.subrange(i as int, all.len() as int), i as int, *req, self.limits@).2,
                evaluations@.len() == done.len(),
                forall|k: int| 0 <= k < done.len() ==> {
                    let ev = #[trigger] evaluations@[k];
                    let idx = done[k].index;
                    &&& 0 <= idx < i
                    &&& ev.name == all[idx].0
                    &&& same_rule(ev.rule, all[idx].1)
                    &&& ev.matched == done[k].matched
                    &&& ev.conditions@.len() == done[k].results.len()
                    &&& forall|j: int| 0 <= j < done[k].results.len() ==> (#[trigger] ev.conditions@[j]).matched == done[k].results[j]
                        && same_leaf(ev.conditions@[j].rule, all[idx].1.conditions.rules@[j])
                },
            decreases all.len() - i,
        {
            let ghost rest = all.subrange(i as int, all.len() as int);
            assert(rest.drop_first() =~= all.subrange(i + 1, all.len() as int));
            assert(rest[0] == all[i as int]);
            let ghost before = self.limits@;
            if self.rules[i].1.enabled {
                let (matched, conditions) = Self::evaluate_condition_with_details(&mut self.limits, &self.rules[i].1.conditions, req);
                let ghost entry = TraceEntry { index: i as int, results: leaves(all[i as int].1.conditions.rules@, *req, before).0, matched };
                let eval = RuleEvaluation {
                    name: self.rules[i].0.clone(),
                    rule: copy_rule(&self.rules[i].1),
                    conditions,
                    matched,
                };
                evaluations.push(eval);
                proof {
                    assert(scan(rest, i as int, *req, before).1 == seq![entry] + (if matched { seq![] } else {
                        scan(rest.drop_first(), i + 1, *req, self.limits@).1 }));
                    if !matched {
                        assert(done.push(entry) + scan(rest.drop_first(), i + 1, *req, self.limits@).1
                            =~= done + (seq![entry] + scan(rest.drop_first(), i + 1, *req, self.limits@).1));
                    } else {
                        assert(done.push(entry) =~= done + seq![entry]);
                        assert(scan(rest, i as int, *req, before).0 == Some(i as int));
                        assert(scan(rest, i as int, *req, before).2 == self.limits@);
                    }
                    done = done.push(entry);
                    assert(evaluations@[done.len() - 1] == eval);
                }
                if matched {
                    let name = self.rules[i].0.clone();
                    let action = self.rules[i].1.action.clone();
                    return (Some((name, action)), evaluations);
                }
            }
            i += 1;
        }
        proof {
            assert(all.subrange(all.len() as int, all.len() as int) =~= Seq::<(String, Rule)>::empty());
            assert(done + Seq::<TraceEntry>::empty() =~= done);
        }
        (None, evaluations)
    }

    /// The name and action of the first enabled rule that matches `req`.
    pub fn evaluate(&mut self, req: &HttpRequest) -> (r: Option<(String, Action)>)
        ensures
            ({
                let (m, trace, after) = scan(old(self).rules@, 0, *req, old(self).limits@);
                &&& final(self).rules == old(self).rules
                &&& final(self).limits@ == after
                &&& match m {
                    Some(i) => r matches Some((n, a)) && n == old(self).rules@[i].0 && a == old(self).rules@[i].1.action,
                    None => r is None,
                }
            }),
    {
        self.evaluate_with_details(req).0
    }

    /// Evaluates one leaf against `req`, counting and boxing in `limits`.
    pub fn evaluate_rule(limits: &mut RateLimits, rule: &ConditionRule, req: &HttpRequest) -> (r: bool)
        ensures
            (r, final(limits)@) == leaf(*rule, *req, old(limits)@),
    {
        match rule {
            ConditionRule::Path { operator, value } => string_op(*operator, req.path.as_str(), value.as_str()),
            ConditionRule::IP { operator, value } => match &req.client_ip {
                None => false,
                Some(c) => match operator {
                    IpOperator::Equals => texts_contain(value, c.text.as_str()),
                    IpOperator::InRange => match c.addr {
                        IpAddress::V4(a) => in_any_v4_block(value, a),
                        IpAddress::V6(_) => false,
                    },
                },
            },
            ConditionRule::Device { operator, value } => match req.device {
                None => false,
                Some(d) => {
                    let flag = if same_text(value.as_str(), "mobile") {
                        Some(d.is_mobile)
                    } else if same_text(value.as_str(), "tablet") {
                        Some(d.is_tablet)
                    } else if same_text(value.as_str(), "desktop") {
                        Some(d.is_desktop)
                    } else {
                        None
                    };
                    match flag {
                        None => false,
                        Some(f) => {
                            let set = f == Some(true);
                            match operator {
                                DeviceOperator::Is => set,
                                DeviceOperator::IsNot => !set,
                            }
                        },
                    }
                },
            },
            ConditionRule::UserAgent { operator, value } => match req.header("user-agent") {
                None => false,
                Some(ua) => string_op(*operator, ua.as_str(), value.as_str()),
            },
            ConditionRule::Header { key, operator } => match operator {
                HeaderOperator::Exists => req.header(key.as_str()).is_some(),
                HeaderOperator::NotExists => req.header(key.as_str()).is_none(),
                HeaderOperator::Equals => match req.header(key.as_str()) {
                    Some(v) => same_text(v.as_str(), key.as_str()),
                    None => false,
                },
                HeaderOperator::Contains => match req.header(key.as_str()) {
                    Some(v) => contains(v.as_str(), key.as_str()),
                    None => false,
                },
            },
            ConditionRule::RateLimit { window, max_requests, block_ttl, counter_name, penaltybox_name } => {
                let counter = name_or(counter_name, "rate_counter_", *window, *max_requests, *block_ttl);
                let pbox = name_or(penaltybox_name, "penalty_box_", *window, *max_requests, *block_ttl);
                match &req.client_ip {
                    None => false,
                    Some(c) => {
                        let entry = c.text.as_str();
                        if limits.is_boxed(pbox.as_str(), entry, req.now_secs) {
                            return true;
                        }
                        let n = limits.counters.increment_rate(counter.as_str(), entry);
                        if n > *max_requests {
                            let until = if req.now_secs <= u64::MAX - (*block_ttl as u64) {
                                req.now_secs + *block_ttl as u64
                            } else {
                                u64::MAX
                            };
                            limits.hold(pbox.as_str(), entry, until);
                            true
                        } else {
                            false
                        }
                    },
                }
            },
        }
    }
}

} // verus!
