//! Cross-request state of graph execution: node outputs, rate counters and
//! penalty boxes, each cell addressed by name.

use vstd::prelude::*;
use crate::nodes::{HeaderOp, NodeId};
use crate::value::{Value, ValueView};
use crate::text::same_text;

verus! {

/// One counter cell: counter name, client entry, count.
pub type CounterCell = (String, String, u32);

/// The mathematical content of an [`ExecutionState`].
pub struct StateView {
    /// Output value of each (node, port) that produced one.
    pub outputs: Map<(NodeId, u8), ValueView>,
    /// Count of each (counter name, entry) that was counted.
    pub counts: Map<(Seq<char>, Seq<char>), u32>,
    /// The (box name, entry) pairs held in penalty boxes.
    pub boxed: Set<(Seq<char>, Seq<char>)>,
    /// Header changes to apply when forwarding, in the order they were made.
    pub headers: Seq<(HeaderOp, Seq<char>, Option<Seq<char>>)>,
}

/// A header change that a graph asks for when the request is forwarded.
#[derive(Debug)]
pub struct HeaderChange {
    pub operation: HeaderOp,
    pub name: String,
    /// The new value, for a replacement.
    pub value: Option<String>,
}

/// The content of a header change.
pub open spec fn change_view(c: HeaderChange) -> (HeaderOp, Seq<char>, Option<Seq<char>>) {
    (c.operation, c.name@, match c.value {
        Some(v) => Some(v@),
        None => None,
    })
}

/// Runtime state of graph execution.
#[derive(Debug)]
pub struct ExecutionState {
    /// Node outputs; the first entry for a key is the one that counts.
    pub outputs: Vec<((NodeId, u8), Value)>,
    /// Rate counters; the first cell for a name and entry is the one that counts.
    pub rate_counters: Vec<CounterCell>,
    /// Penalty-box entries as (box name, entry).
    pub penalty_boxes: Vec<(String, String)>,
    /// Header changes registered by header nodes.
    pub header_changes: Vec<HeaderChange>,
}

/// The value of the first output entry for `k`.
pub open spec fn output_lookup(s: Seq<((NodeId, u8), Value)>, k: (NodeId, u8)) -> Option<ValueView>
    decreases s.len(),
{
    if s.len() == 0 {
        None
    } else if s[0].0 == k {
        Some(s[0].1@)
    } else {
        output_lookup(s.drop_first(), k)
    }
}

/// The count of the first cell for `k`.
pub open spec fn count_lookup(s: Seq<CounterCell>, k: (Seq<char>, Seq<char>)) -> Option<u32>
    decreases s.len(),
{
    if s.len() == 0 {
        None
    } else if (s[0].0@, s[0].1@) == k {
        Some(s[0].2)
    } else {
        count_lookup(s.drop_first(), k)
    }
}

/// One more, unless already at the largest `u32`.
pub open spec fn bump(c: u32) -> u32 {
    if c < u32::MAX { (c + 1) as u32 } else { c }
}

/// The count of (`counter`, `entry`); zero when never counted.
pub open spec fn rate_of(st: StateView, counter: Seq<char>, entry: Seq<char>) -> u32 {
    if st.counts.contains_key((counter, entry)) { st.counts[(counter, entry)] } else { 0 }
}

impl StateView {
    pub open spec fn with_output(self, k: (NodeId, u8), v: ValueView) -> StateView {
        StateView { outputs: self.outputs.insert(k, v), ..self }
    }

    pub open spec fn with_count(self, counter: Seq<char>, entry: Seq<char>, c: u32) -> StateView {
        StateView { counts: self.counts.insert((counter, entry), c), ..self }
    }

    pub open spec fn with_boxed(self, name: Seq<char>, entry: Seq<char>) -> StateView {
        StateView { boxed: self.boxed.insert((name, entry)), ..self }
    }

    pub open spec fn with_header(self, change: (HeaderOp, Seq<char>, Option<Seq<char>>)) -> StateView {
        StateView { headers: self.headers.push(change), ..self }
    }
}

impl View for ExecutionState {
    type V = StateView;

    open spec fn view(&self) -> StateView {
        StateView {
            outputs: Map::new(
                |k: (NodeId, u8)| output_lookup(self.outputs@, k) is Some,
                |k: (NodeId, u8)| output_lookup(self.outputs@, k)->0,
            ),
            counts: Map::new(
                |k: (Seq<char>, Seq<char>)| count_lookup(self.rate_counters@, k) is Some,
                |k: (Seq<char>, Seq<char>)| count_lookup(self.rate_counters@, k)->0,
            ),
            boxed: Set::new(
                |p: (Seq<char>, Seq<char>)| exists|i: int|
                    0 <= i < self.penalty_boxes@.len() && (#[trigger] self.penalty_boxes@[i]).0@ == p.0
                        && self.penalty_boxes@[i].1@ == p.1,
            ),
            headers: self.header_changes@.map_values(|c: HeaderChange| change_view(c)),
        }
    }
}

impl ExecutionState {
    pub fn new() -> (r: Self)
        ensures
            r@.outputs == Map::<(NodeId, u8), ValueView>::empty(),
            r@.counts == Map::<(Seq<char>, Seq<char>), u32>::empty(),
            r@.boxed == Set::<(Seq<char>, Seq<char>)>::empty(),
            r@.headers.len() == 0,
    {
        let r = ExecutionState { outputs: Vec::new(), rate_counters: Vec::new(), penalty_boxes: Vec::new(), header_changes: Vec::new() };
        assert(r@.outputs =~= Map::<(NodeId, u8), ValueView>::empty());
        assert(r@.counts =~= Map::<(Seq<char>, Seq<char>), u32>::empty());
        assert(r@.boxed =~= Set::<(Seq<char>, Seq<char>)>::empty());
        r
    }

    fn output_index(&self, k: (NodeId, u8)) -> (r: Option<usize>)
        ensures
            match r {
                Some(i) => i < self.outputs@.len() && self.outputs@[i as int].0 == k
                    && output_lookup(self.outputs@, k) == Some(self.outputs@[i as int].1@)
                    && forall|j: int| 0 <= j < i ==> self.outputs@[j].0 != k,
                None => output_lookup(self.outputs@, k) is None && forall|j: int| 0 <= j < self.outputs@.len() ==> self.outputs@[j].0 != k,
            },
    {
        let mut i: usize = 0;
        assert(self.outputs@.subrange(0, self.outputs@.len() as int) =~= self.outputs@);
        while i < self.outputs.len()
            invariant
                i <= self.outputs@.len(),
                forall|j: int| 0 <= j < i ==> self.outputs@[j].0 != k,
                output_lookup(self.outputs@, k) == output_lookup(self.outputs@.subrange(i as int, self.outputs@.len() as int), k),
            decreases self.outputs@.len() - i,
        {
            let ghost rest = self.outputs@.subrange(i as int, self.outputs@.len() as int);
            assert(rest.drop_first() =~= self.outputs@.subrange(i + 1, self.outputs@.len() as int));
            if self.outputs[i].0.0 == k.0 && self.outputs[i].0.1 == k.1 {
                return Some(i);
            }
            i += 1;
        }
        None
    }

    /// The output of port `port` of node `node_id`, if it produced one.
    pub fn get_output(&self, node_id: NodeId, port: u8) -> (r: Option<&Value>)
        ensures
            match r {
                Some(v) => self@.outputs.contains_key((node_id, port)) && v@ == self@.outputs[(node_id, port)],
                None => !self@.outputs.contains_key((node_id, port)),
            },
    {
        match self.output_index((node_id, port)) {
            Some(i) => Some(&self.outputs[i].1),
            None => None,
        }
    }

    /// Records the output of port `port` of node `node_id`.
    pub fn set_output(&mut self, node_id: NodeId, port: u8, value: Value)
        ensures
            final(self)@ == old(self)@.with_output((node_id, port), value@),
    {
        let k = (node_id, port);
        let ghost v = value@;
        match self.output_index(k) {
            Some(i) => {
                let ghost before = self.outputs@;
                self.outputs[i] = (k, value);
                proof {
                    assert forall|q: (NodeId, u8)| output_lookup(self.outputs@, q) == if q == k { Some(v) } else { output_lookup(before, q) } by {
                        lemma_output_lookup_update(before, i as int, k, self.outputs@, q);
                    }
                }
            },
            None => {
                let ghost before = self.outputs@;
                self.outputs.push((k, value));
                proof {
                    assert forall|q: (NodeId, u8)| output_lookup(self.outputs@, q) == if q == k { Some(v) } else { output_lookup(before, q) } by {
                        lemma_output_lookup_push(before, k, self.outputs@, q);
                    }
                }
            },
        }
        assert(self@.outputs =~= old(self)@.outputs.insert(k, v));
        assert(self@.counts =~= old(self)@.counts);
        assert(self@.boxed =~= old(self)@.boxed);
    }

    /// Whether `entry` is in penalty box `box_name`.
    pub fn is_in_penalty_box(&self, box_name: &str, entry: &str) -> (r: bool)
        ensures
            r == self@.boxed.contains((box_name@, entry@)),
    {
        let mut i: usize = 0;
        while i < self.penalty_boxes.len()
            invariant
                i <= self.penalty_boxes@.len(),
                forall|j: int| 0 <= j < i ==> !((#[trigger] self.penalty_boxes@[j]).0@ == box_name@ && self.penalty_boxes@[j].1@ == entry@),
            decreases self.penalty_boxes@.len() - i,
        {
            if same_text(self.penalty_boxes[i].0.as_str(), box_name) && same_text(self.penalty_boxes[i].1.as_str(), entry) {
                return true;
            }
            i += 1;
        }
        false
    }

    /// Puts `entry` in penalty box `box_name`.
    pub fn add_to_penalty_box(&mut self, box_name: &str, entry: &str)
        ensures
            final(self)@ == old(self)@.with_boxed(box_name@, entry@),
    {
        if !self.is_in_penalty_box(box_name, entry) {
            let ghost before = self.penalty_boxes@;
            self.penalty_boxes.push((box_name.to_owned(), entry.to_owned()));
            proof {
                assert forall|p: (Seq<char>, Seq<char>)| self@.boxed.contains(p) <==> old(self)@.boxed.contains(p) || p == (box_name@, entry@) by {
                    if old(self)@.boxed.contains(p) {
                        let i = choose|i: int| 0 <= i < before.len() && (#[trigger] before[i]).0@ == p.0 && before[i].1@ == p.1;
                        assert(self.penalty_boxes@[i] == before[i]);
                    }
                    if p == (box_name@, entry@) {
                        assert(self.penalty_boxes@[before.len() as int].0@ == p.0);
                    }
                    if self@.boxed.contains(p) {
                        let i = choose|i: int| 0 <= i < self.penalty_boxes@.len() && (#[trigger] self.penalty_boxes@[i]).0@ == p.0
                            && self.penalty_boxes@[i].1@ == p.1;
                        if i < before.len() {
                            assert(before[i] == self.penalty_boxes@[i]);
                        }
                    }
                }
            }
        }
        assert(self@.boxed =~= old(self)@.boxed.insert((box_name@, entry@)));
        assert(self@.outputs =~= old(self)@.outputs);
        assert(self@.counts =~= old(self)@.counts);
    }

    fn counter_index(&self, counter_name: &str, entry: &str) -> (r: Option<usize>)
        ensures
            match r {
                Some(i) => i < self.rate_counters@.len()
                    && count_lookup(self.rate_counters@, (counter_name@, entry@)) == Some(self.rate_counters@[i as int].2)
                    && (self.rate_counters@[i as int].0@, self.rate_counters@[i as int].1@) == (counter_name@, entry@)
                    && forall|j: int| 0 <= j < i ==> (self.rate_counters@[j].0@, self.rate_counters@[j].1@) != (counter_name@, entry@),
                None => count_lookup(self.rate_counters@, (counter_name@, entry@)) is None
                    && forall|j: int| 0 <= j < self.rate_counters@.len()
                        ==> (self.rate_counters@[j].0@, self.rate_counters@[j].1@) != (counter_name@, entry@),
            },
    {
        let ghost k = (counter_name@, entry@);
        let mut i: usize = 0;
        assert(self.rate_counters@.subrange(0, self.rate_counters@.len() as int) =~= self.rate_counters@);
        while i < self.rate_counters.len()
            invariant
                i <= self.rate_counters@.len(),
                k == (counter_name@, entry@),
                forall|j: int| 0 <= j < i ==> (self.rate_counters@[j].0@, self.rate_counters@[j].1@) != k,
                count_lookup(self.rate_counters@, k) == count_lookup(self.rate_counters@.subrange(i as int, self.rate_counters@.len() as int), k),
            decreases self.rate_counters@.len() - i,
        {
            let ghost rest = self.rate_counters@.subrange(i as int, self.rate_counters@.len() as int);
            assert(rest.drop_first() =~= self.rate_counters@.subrange(i + 1, self.rate_counters@.len() as int));
            assert(rest[0] == self.rate_counters@[i as int]);
            if same_text(self.rate_counters[i].0.as_str(), counter_name) && same_text(self.rate_counters[i].1.as_str(), entry) {
                return Some(i);
            }
            i += 1;
        }
        None
    }

    /// Counts one more request of `entry` on counter `counter_name`, and
    /// returns the new count (which stays at the largest `u32` once there).
    pub fn increment_rate(&mut self, counter_name: &str, entry: &str) -> (r: u32)
        ensures
            r == bump(rate_of(old(self)@, counter_name@, entry@)),
            final(self)@ == old(self)@.with_count(counter_name@, entry@, r),
    {
        let ghost k = (counter_name@, entry@);
        let ghost before = self.rate_counters@;
        match self.counter_index(counter_name, entry) {
            Some(i) => {
                let c = self.rate_counters[i].2;
                let n = if c < u32::MAX { c + 1 } else { c };
                self.rate_counters[i].2 = n;
                proof {
                    assert forall|q: (Seq<char>, Seq<char>)| count_lookup(self.rate_counters@, q) == if q == k { Some(n) } else { count_lookup(before, q) } by {
                        lemma_count_lookup_update(before, i as int, self.rate_counters@, q);
                    }
                    assert(self@.counts =~= old(self)@.counts.insert(k, n));
                    assert(self@.outputs =~= old(self)@.outputs);
                    assert(self@.boxed =~= old(self)@.boxed);
                }
                n
            },
            None => {
                self.rate_counters.push((counter_name.to_owned(), entry.to_owned(), 1));
                proof {
                    assert forall|q: (Seq<char>, Seq<char>)| count_lookup(self.rate_counters@, q) == if q == k { Some(1u32) } else { count_lookup(before, q) } by {
                        lemma_count_lookup_push(before, self.rate_counters@, q);
                    }
                    assert(self@.counts =~= old(self)@.counts.insert(k, 1));
                    assert(self@.outputs =~= old(self)@.outputs);
                    assert(self@.boxed =~= old(self)@.boxed);
                }
                1
            },
        }
    }

    /// Registers a header change for forwarding.
    pub fn add_header_change(&mut self, change: HeaderChange)
        ensures
            final(self)@ == old(self)@.with_header(change_view(change)),
    {
        let ghost c = change_view(change);
        self.header_changes.push(change);
        assert(self@.headers =~= old(self)@.headers.push(c));
        assert(self@.outputs =~= old(self)@.outputs);
        assert(self@.counts =~= old(self)@.counts);
        assert(self@.boxed =~= old(self)@.boxed);
    }

    /// The count of `entry` on counter `counter_name`; zero when never counted.
    pub fn get_rate(&self, counter_name: &str, entry: &str) -> (r: u32)
        ensures
            r == rate_of(self@, counter_name@, entry@),
    {
        match self.counter_index(counter_name, entry) {
            Some(i) => self.rate_counters[i].2,
            None => 0,
        }
    }
}

proof fn lemma_output_lookup_update(before: Seq<((NodeId, u8), Value)>, i: int, k: (NodeId, u8), after: Seq<((NodeId, u8), Value)>, q: (NodeId, u8))
    requires
        0 <= i < before.len(),
        before[i].0 == k,
        forall|j: int| 0 <= j < i ==> before[j].0 != k,
        after.len() == before.len(),
        after[i].0 == k,
        forall|j: int| 0 <= j < before.len() && j != i ==> after[j] == before[j],
    ensures
        output_lookup(after, q) == if q == k { Some(after[i].1@) } else { output_lookup(before, q) },
    decreases before.len(),
{
    if i > 0 {
        lemma_output_lookup_update(before.drop_first(), i - 1, k, after.drop_first(), q);
        assert(after[0] == before[0]);
    } else {
        assert(after.drop_first() =~= before.drop_first());
    }
}

proof fn lemma_output_lookup_push(before: Seq<((NodeId, u8), Value)>, k: (NodeId, u8), after: Seq<((NodeId, u8), Value)>, q: (NodeId, u8))
    requires
        forall|j: int| 0 <= j < before.len() ==> before[j].0 != k,
        after.len() == before.len() + 1,
        after[before.len() as int].0 == k,
        forall|j: int| 0 <= j < before.len() ==> after[j] == before[j],
    ensures
        output_lookup(after, q) == if q == k { Some(after[before.len() as int].1@) } else { output_lookup(before, q) },
    decreases before.len(),
{
    if before.len() > 0 {
        lemma_output_lookup_push(before.drop_first(), k, after.drop_first(), q);
        assert(after[0] == before[0]);
        assert(after.drop_first()[before.drop_first().len() as int] == after[before.len() as int]);
        if after[0].0 != q {
            assert(output_lookup(after, q) == output_lookup(after.drop_first(), q));
            assert(output_lookup(before, q) == output_lookup(before.drop_first(), q));
        }
    } else {
        assert(after.drop_first().len() == 0);
        assert(output_lookup(after.drop_first(), q) is None);
    }
}

proof fn lemma_count_lookup_update(before: Seq<CounterCell>, i: int, after: Seq<CounterCell>, q: (Seq<char>, Seq<char>))
    requires
        0 <= i < before.len(),
        forall|j: int| 0 <= j < i ==> (before[j].0@, before[j].1@) != (before[i].0@, before[i].1@),
        after.len() == before.len(),
        after[i].0 == before[i].0 && after[i].1 == before[i].1,
        forall|j: int| 0 <= j < before.len() && j != i ==> after[j] == before[j],
    ensures
        count_lookup(after, q) == if q == (before[i].0@, before[i].1@) { Some(after[i].2) } else { count_lookup(before, q) },
    decreases before.len(),
{
    if i > 0 {
        lemma_count_lookup_update(before.drop_first(), i - 1, after.drop_first(), q);
        assert(after[0] == before[0]);
    } else {
        assert(after.drop_first() =~= before.drop_first());
    }
}

proof fn lemma_count_lookup_push(before: Seq<CounterCell>, after: Seq<CounterCell>, q: (Seq<char>, Seq<char>))
    requires
        after.len() == before.len() + 1,
        forall|j: int| 0 <= j < before.len() ==> (before[j].0@, before[j].1@) != (after[before.len() as int].0@, after[before.len() as int].1@),
        forall|j: int| 0 <= j < before.len() ==> after[j] == before[j],
    ensures
        count_lookup(after, q) == if q == (after[before.len() as int].0@, after[before.len() as int].1@) {
            Some(after[before.len() as int].2)
        } else {
            count_lookup(before, q)
        },
    decreases before.len(),
{
    if before.len() > 0 {
        lemma_count_lookup_push(before.drop_first(), after.drop_first(), q);
        assert(after[0] == before[0]);
        assert(after.drop_first()[before.drop_first().len() as int] == after[before.len() as int]);
        if (after[0].0@, after[0].1@) != q {
            assert(count_lookup(after, q) == count_lookup(after.drop_first(), q));
            assert(count_lookup(before, q) == count_lookup(before.drop_first(), q));
        }
    } else {
        assert(after.drop_first().len() == 0);
        assert(count_lookup(after.drop_first(), q) is None);
    }
}

} // verus!
