//! Port definitions for node inputs and outputs.

use vstd::prelude::*;

verus! {

/// The type of data a port accepts or produces.
#[derive(Debug, Clone, Copy, PartialEq, Eq, Structural)]
pub enum PortType {
    /// Boolean signal (conditions, logic gates).
    Bool,
    /// Numeric value.
    Number,
    /// Text value.
    String,
    /// IP address.
    Ip,
    /// Any type, for generic nodes.
    Any,
    /// Execution flow, for sequencing.
    Flow,
}

/// Definition of an input port on a node.
#[derive(Debug)]
pub struct InputPort {
    /// Port name, as displayed in the editor.
    pub name: String,
    /// Expected data type.
    pub port_type: PortType,
    /// Whether this port must be connected.
    pub required: bool,
}

/// Definition of an output port on a node.
#[derive(Debug)]
pub struct OutputPort {
    /// Port name, as displayed in the editor.
    pub name: String,
    /// Data type produced.
    pub port_type: PortType,
}

impl InputPort {
    /// A port that must be connected.
    pub fn new(name: &str, port_type: PortType) -> (r: Self)
        ensures
            r.name@ == name@,
            r.port_type == port_type,
            r.required,
    {
        InputPort { name: name.to_owned(), port_type, required: true }
    }

    /// A port that may stay unconnected.
    pub fn optional(name: &str, port_type: PortType) -> (r: Self)
        ensures
            r.name@ == name@,
            r.port_type == port_type,
            !r.required,
    {
        InputPort { name: name.to_owned(), port_type, required: false }
    }
}

impl OutputPort {
    pub fn new(name: &str, port_type: PortType) -> (r: Self)
        ensures
            r.name@ == name@,
            r.port_type == port_type,
    {
        OutputPort { name: name.to_owned(), port_type }
    }
}

} // verus!
