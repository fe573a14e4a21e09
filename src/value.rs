//! Runtime values that flow between graph nodes.

use vstd::prelude::*;

verus! {

/// An IP address as its numeric value.
#[derive(Debug, Clone, Copy, PartialEq, Eq, Structural)]
pub enum IpAddress {
    V4(u32),
    V6(u128),
}

/// A value passed between nodes during graph execution.
///
/// Numbers are integers: every numeric request field (the ASN) is one.
#[derive(Debug)]
pub enum Value {
    /// No value.
    Null,
    /// Boolean signal, as used by logic gates and conditions.
    Bool(bool),
    /// Numeric value (rates, counts, thresholds).
    Number(i64),
    /// Text value (paths, headers, fingerprints).
    String(String),
    /// An IP address.
    Ip(IpAddress),
    /// A list of texts.
    List(Vec<String>),
}

/// The mathematical content of a [`Value`].
pub enum ValueView {
    Null,
    Bool(bool),
    Number(i64),
    Text(Seq<char>),
    Ip(IpAddress),
    List(Seq<Seq<char>>),
}

/// The texts held by a vector of strings.
pub open spec fn texts(v: Seq<String>) -> Seq<Seq<char>> {
    v.map_values(|s: String| s@)
}

impl View for Value {
    type V = ValueView;

    open spec fn view(&self) -> ValueView {
        match self {
            Value::Null => ValueView::Null,
            Value::Bool(b) => ValueView::Bool(*b),
            Value::Number(n) => ValueView::Number(*n),
            Value::String(s) => ValueView::Text(s@),
            Value::Ip(ip) => ValueView::Ip(*ip),
            Value::List(l) => ValueView::List(texts(l@)),
        }
    }
}

/// Whether some text of `l` equals `a`.
pub fn texts_contain(l: &Vec<String>, a: &str) -> (r: bool)
    ensures
        r == texts(l@).contains(a@),
{
    let mut i: usize = 0;
    while i < l.len()
        invariant
            i <= l@.len(),
            forall|k: int| 0 <= k < i ==> l@[k]@ != a@,
        decreases l@.len() - i,
    {
        if crate::text::same_text(l[i].as_str(), a) {
            assert(texts(l@)[i as int] == a@);
            return true;
        }
        i += 1;
    }
    proof {
        if texts(l@).contains(a@) {
            let k = choose|k: int| 0 <= k < texts(l@).len() && texts(l@)[k] == a@;
            assert(l@[k]@ == a@);
        }
    }
    false
}

/// A copy of a vector of strings, text for text.
pub fn copy_texts(items: &Vec<String>) -> (out: Vec<String>)
    ensures
        texts(out@) == texts(items@),
        out@.len() == items@.len(),
{
    let mut out: Vec<String> = Vec::new();
    let mut i: usize = 0;
    while i < items.len()
        invariant
            i <= items.len(),
            out@.len() == i,
            forall|k: int| 0 <= k < i ==> #[trigger] out@[k]@ == items@[k]@,
        decreases items.len() - i,
    {
        out.push(items[i].clone());
        i += 1;
    }
    assert(texts(out@) =~= texts(items@));
    out
}

impl Clone for Value {
    fn clone(&self) -> (r: Self)
        ensures
            r@ == self@,
    {
        match self {
            Value::Null => Value::Null,
            Value::Bool(b) => Value::Bool(*b),
            Value::Number(n) => Value::Number(*n),
            Value::String(s) => Value::String(s.clone()),
            Value::Ip(ip) => Value::Ip(*ip),
            Value::List(items) => Value::List(copy_texts(items)),
        }
    }
}

/// Truthiness of a value: what a gate or a trigger port reads from it.
pub open spec fn truthy(v: ValueView) -> bool {
    match v {
        ValueView::Null => false,
        ValueView::Bool(b) => b,
        ValueView::Number(n) => n != 0,
        ValueView::Text(s) => s.len() > 0,
        ValueView::Ip(_) => true,
        ValueView::List(l) => l.len() > 0,
    }
}

impl Value {
    pub fn as_bool(&self) -> (r: Option<bool>)
        ensures
            r == match *self {
                Value::Bool(b) => Some(b),
                Value::Null => Some(false),
                _ => None::<bool>,
            },
    {
        match self {
            Value::Bool(b) => Some(*b),
            Value::Null => Some(false),
            _ => None,
        }
    }

    pub fn as_string(&self) -> (r: Option<&str>)
        ensures
            match *self {
                Value::String(s) => r is Some && r->0@ == s@,
                _ => r is None,
            },
    {
        match self {
            Value::String(s) => Some(s.as_str()),
            _ => None,
        }
    }

    pub fn as_number(&self) -> (r: Option<i64>)
        ensures
            r == match *self {
                Value::Number(n) => Some(n),
                _ => None::<i64>,
            },
    {
        match self {
            Value::Number(n) => Some(*n),
            _ => None,
        }
    }

    pub fn as_ip(&self) -> (r: Option<IpAddress>)
        ensures
            r == match *self {
                Value::Ip(ip) => Some(ip),
                _ => None::<IpAddress>,
            },
    {
        match self {
            Value::Ip(ip) => Some(*ip),
            _ => None,
        }
    }

    pub fn is_truthy(&self) -> (r: bool)
        ensures
            r == truthy(self@),
    {
        match self {
            Value::Null => false,
            Value::Bool(b) => *b,
            Value::Number(n) => *n != 0,
            Value::String(s) => s.as_str().unicode_len() > 0,
            Value::Ip(_) => true,
            Value::List(l) => l.len() > 0,
        }
    }
}

impl Default for Value {
    fn default() -> (r: Self)
        ensures
            r@ == ValueView::Null,
    {
        Value::Null
    }
}

impl From<bool> for Value {
    fn from(b: bool) -> Value {
        Value::Bool(b)
    }
}

impl vstd::std_specs::convert::FromSpecImpl<bool> for Value {
    open spec fn obeys_from_spec() -> bool {
        true
    }

    open spec fn from_spec(b: bool) -> Value {
        Value::Bool(b)
    }
}

impl From<i64> for Value {
    fn from(n: i64) -> Value {
        Value::Number(n)
    }
}

impl vstd::std_specs::convert::FromSpecImpl<i64> for Value {
    open spec fn obeys_from_spec() -> bool {
        true
    }

    open spec fn from_spec(n: i64) -> Value {
        Value::Number(n)
    }
}

impl From<u32> for Value {
    fn from(n: u32) -> Value {
        Value::Number(n as i64)
    }
}

impl vstd::std_specs::convert::FromSpecImpl<u32> for Value {
    open spec fn obeys_from_spec() -> bool {
        true
    }

    open spec fn from_spec(n: u32) -> Value {
        Value::Number(n as i64)
    }
}

impl From<String> for Value {
    fn from(s: String) -> Value {
        Value::String(s)
    }
}

impl vstd::std_specs::convert::FromSpecImpl<String> for Value {
    open spec fn obeys_from_spec() -> bool {
        true
    }

    open spec fn from_spec(s: String) -> Value {
        Value::String(s)
    }
}

impl From<IpAddress> for Value {
    fn from(ip: IpAddress) -> Value {
        Value::Ip(ip)
    }
}

impl vstd::std_specs::convert::FromSpecImpl<IpAddress> for Value {
    open spec fn obeys_from_spec() -> bool {
        true
    }

    open spec fn from_spec(ip: IpAddress) -> Value {
        Value::Ip(ip)
    }
}

} // verus!
