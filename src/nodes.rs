//! Node types of a rule graph, and the metadata an editor shows for them.

use vstd::prelude::*;
use crate::ports::{InputPort, OutputPort, PortType};
use crate::text::{decimal, decimal_text, join2};

verus! {

/// Unique node identifier.
pub type NodeId = u32;

/// A node in a rule graph.
#[derive(Debug)]
pub struct Node {
    /// Identifier, unique within its graph.
    pub id: NodeId,
    /// What the node does.
    pub kind: NodeKind,
    /// Editor position (x, y), each coordinate as the bit pattern of an `f32`.
    pub position: (u32, u32),
}

/// The kinds of node.
#[derive(Debug)]
pub enum NodeKind {
    /// The request: starting point of every graph.
    Request,
    /// Compares one request field with a value.
    Condition { field: RequestField, operator: Operator, value: ConditionValue },
    /// True when all of its inputs are.
    And { input_count: u8 },
    /// True when one of its inputs is.
    Or { input_count: u8 },
    /// Inverts its input.
    Not,
    /// Rate counting and penalty-box operations.
    RateLimit {
        mode: RateLimitMode,
        counter_name: String,
        window: RateWindow,
        threshold: u32,
        penalty_ttl_seconds: u32,
    },
    /// A terminal verdict.
    Action { action: ActionType },
    /// Forward to a named backend.
    Forward { backend: String },
    /// Set or remove a header when forwarding.
    Header { operation: HeaderOp, name: String, value: Option<String> },
    /// Documentation only.
    Comment { text: String },
}

/// The category of a node kind.
pub open spec fn kind_category(k: NodeKind) -> NodeCategory {
    match k {
        NodeKind::Request => NodeCategory::Input,
        NodeKind::Condition { .. } => NodeCategory::Condition,
        NodeKind::And { .. } | NodeKind::Or { .. } | NodeKind::Not => NodeCategory::Logic,
        NodeKind::RateLimit { .. } => NodeCategory::RateLimit,
        NodeKind::Action { .. } => NodeCategory::Action,
        NodeKind::Forward { .. } => NodeCategory::Routing,
        NodeKind::Header { .. } => NodeCategory::Transform,
        NodeKind::Comment { .. } => NodeCategory::Utility,
    }
}

/// The header colour of a category, as red, green and blue.
pub open spec fn category_color(c: NodeCategory) -> (u8, u8, u8) {
    match c {
        NodeCategory::Input => (138, 80, 77),
        NodeCategory::Condition => (100, 80, 120),
        NodeCategory::Logic => (70, 100, 70),
        NodeCategory::RateLimit => (130, 95, 55),
        NodeCategory::Action => (120, 60, 60),
        NodeCategory::Routing => (60, 95, 115),
        NodeCategory::Transform => (110, 95, 55),
        NodeCategory::Utility => (70, 70, 70),
    }
}

/// How many input ports a node kind has.
pub open spec fn input_arity(k: NodeKind) -> nat {
    match k {
        NodeKind::And { input_count } => input_count as nat,
        NodeKind::Or { input_count } => input_count as nat,
        NodeKind::Not => 1,
        NodeKind::RateLimit { mode, .. } => if mode == RateLimitMode::AddToPenaltyBox { 1 } else { 0 },
        NodeKind::Action { .. } | NodeKind::Forward { .. } | NodeKind::Header { .. } => 1,
        _ => 0,
    }
}

/// The name of input port `i` of a node kind.
pub open spec fn input_name(k: NodeKind, i: int) -> Seq<char> {
    match k {
        NodeKind::And { .. } | NodeKind::Or { .. } => "in"@ + decimal(i as nat),
        NodeKind::Not => "in"@,
        _ => "trigger"@,
    }
}

/// The output ports of a node kind, as name and type.
pub open spec fn output_ports(k: NodeKind) -> Seq<(Seq<char>, PortType)> {
    match k {
        NodeKind::Request => seq![("request"@, PortType::Any)],
        NodeKind::Condition { .. } => seq![("match"@, PortType::Bool)],
        NodeKind::And { .. } | NodeKind::Or { .. } | NodeKind::Not => seq![("out"@, PortType::Bool)],
        NodeKind::RateLimit { mode, .. } => match mode {
            RateLimitMode::CheckRate | RateLimitMode::CheckRateAndPenalize => seq![("exceeded"@, PortType::Bool)],
            RateLimitMode::InPenaltyBox => seq![("in_box"@, PortType::Bool)],
            RateLimitMode::AddToPenaltyBox => seq![],
        },
        _ => seq![],
    }
}

/// The title an editor shows for a node kind.
pub open spec fn kind_label(k: NodeKind) -> Seq<char> {
    match k {
        NodeKind::Request => "Request"@,
        NodeKind::Condition { field, operator, .. } => field_label(field) + " "@ + operator_label(operator),
        NodeKind::And { .. } => "AND"@,
        NodeKind::Or { .. } => "OR"@,
        NodeKind::Not => "NOT"@,
        NodeKind::RateLimit { mode, counter_name, threshold, window, .. } => match mode {
            RateLimitMode::CheckRate | RateLimitMode::CheckRateAndPenalize => mode_label(mode) + ": "@
                + counter_name@ + ">"@ + decimal(threshold as nat) + "/"@ + window_label(window),
            _ => mode_label(mode) + ": "@ + counter_name@,
        },
        NodeKind::Action { action } => action_label(action),
        NodeKind::Forward { backend } => "Forward: "@ + backend@,
        NodeKind::Header { operation, name, .. } => match operation {
            HeaderOp::Replace => "Set: "@ + name@,
            HeaderOp::Remove => "Remove: "@ + name@,
        },
        NodeKind::Comment { .. } => "Comment"@,
    }
}

impl NodeKind {
    pub fn display_name(&self) -> (r: String)
        ensures
            r@ == kind_label(*self),
    {
        match self {
            NodeKind::Request => "Request".to_owned(),
            NodeKind::Condition { field, operator, .. } => {
                let mut r = field.display_name().to_owned();
                r.append(" ");
                r.append(operator.display_name());
                r
            },
            NodeKind::And { .. } => "AND".to_owned(),
            NodeKind::Or { .. } => "OR".to_owned(),
            NodeKind::Not => "NOT".to_owned(),
            NodeKind::RateLimit { mode, counter_name, threshold, window, .. } => {
                let mut r = mode.display_name().to_owned();
                r.append(": ");
                r.append(counter_name.as_str());
                match mode {
                    RateLimitMode::CheckRate | RateLimitMode::CheckRateAndPenalize => {
                        r.append(">");
                        let t = decimal_text(*threshold as u64);
                        r.append(t.as_str());
                        r.append("/");
                        r.append(window.display_name());
                    },
                    _ => {},
                }
                r
            },
            NodeKind::Action { action } => action.display_name().to_owned(),
            NodeKind::Forward { backend } => join2("Forward: ", backend.as_str()),
            NodeKind::Header { operation, name, .. } => match operation {
                HeaderOp::Replace => join2("Set: ", name.as_str()),
                HeaderOp::Remove => join2("Remove: ", name.as_str()),
            },
            NodeKind::Comment { .. } => "Comment".to_owned(),
        }
    }

    pub fn category(&self) -> (r: NodeCategory)
        ensures
            r == kind_category(*self),
    {
        match self {
            NodeKind::Request => NodeCategory::Input,
            NodeKind::Condition { .. } => NodeCategory::Condition,
            NodeKind::And { .. } | NodeKind::Or { .. } | NodeKind::Not => NodeCategory::Logic,
            NodeKind::RateLimit { .. } => NodeCategory::RateLimit,
            NodeKind::Action { .. } => NodeCategory::Action,
            NodeKind::Forward { .. } => NodeCategory::Routing,
            NodeKind::Header { .. } => NodeCategory::Transform,
            NodeKind::Comment { .. } => NodeCategory::Utility,
        }
    }

    /// Input port definitions, in port order.
    pub fn inputs(&self) -> (r: Vec<InputPort>)
        ensures
            r@.len() == input_arity(*self),
            forall|i: int| 0 <= i < r@.len() ==> {
                &&& (#[trigger] r@[i]).name@ == input_name(*self, i)
                &&& r@[i].port_type == PortType::Bool
                &&& r@[i].required
            },
    {
        match self {
            NodeKind::And { input_count } | NodeKind::Or { input_count } => {
                let mut r: Vec<InputPort> = Vec::new();
                let mut i: u8 = 0;
                while i < *input_count
                    invariant
                        i <= *input_count,
                        r@.len() == i,
                        input_arity(*self) == *input_count as nat,
                        *self is And || *self is Or,
                        forall|j: int| 0 <= j < r@.len() ==> {
                            &&& (#[trigger] r@[j]).name@ == input_name(*self, j)
                            &&& r@[j].port_type == PortType::Bool
                            &&& r@[j].required
                        },
                    decreases *input_count - i,
                {
                    let digits = decimal_text(i as u64);
                    let name = join2("in", digits.as_str());
                    let port = InputPort::new(name.as_str(), PortType::Bool);
                    assert(port.name@ == input_name(*self, i as int));
                    r.push(port);
                    i += 1;
                }
                r
            },
            NodeKind::Not => vec![InputPort::new("in", PortType::Bool)],
            NodeKind::RateLimit { mode, .. } => match mode {
                RateLimitMode::AddToPenaltyBox => vec![InputPort::new("trigger", PortType::Bool)],
                _ => Vec::new(),
            },
            NodeKind::Action { .. } | NodeKind::Forward { .. } | NodeKind::Header { .. } => {
                vec![InputPort::new("trigger", PortType::Bool)]
            },
            _ => Vec::new(),
        }
    }

    /// Output port definitions, in port order.
    pub fn outputs(&self) -> (r: Vec<OutputPort>)
        ensures
            r@.len() == output_ports(*self).len(),
            forall|i: int| 0 <= i < r@.len() ==> {
                &&& (#[trigger] r@[i]).name@ == output_ports(*self)[i].0
                &&& r@[i].port_type == output_ports(*self)[i].1
            },
    {
        match self {
            NodeKind::Request => vec![OutputPort::new("request", PortType::Any)],
            NodeKind::Condition { .. } => vec![OutputPort::new("match", PortType::Bool)],
            NodeKind::And { .. } | NodeKind::Or { .. } | NodeKind::Not => {
                vec![OutputPort::new("out", PortType::Bool)]
            },
            NodeKind::RateLimit { mode, .. } => match mode {
                RateLimitMode::CheckRate | RateLimitMode::CheckRateAndPenalize => {
                    vec![OutputPort::new("exceeded", PortType::Bool)]
                },
                RateLimitMode::InPenaltyBox => vec![OutputPort::new("in_box", PortType::Bool)],
                RateLimitMode::AddToPenaltyBox => Vec::new(),
            },
            _ => Vec::new(),
        }
    }

    /// The header colour an editor draws for this node.
    pub fn color(&self) -> (r: (u8, u8, u8))
        ensures
            r == category_color(kind_category(*self)),
    {
        match self.category() {
            NodeCategory::Input => (138, 80, 77),
            NodeCategory::Condition => (100, 80, 120),
            NodeCategory::Logic => (70, 100, 70),
            NodeCategory::RateLimit => (130, 95, 55),
            NodeCategory::Action => (120, 60, 60),
            NodeCategory::Routing => (60, 95, 115),
            NodeCategory::Transform => (110, 95, 55),
            NodeCategory::Utility => (70, 70, 70),
        }
    }
}

/// Request fields a condition can read.
#[derive(Debug, PartialEq, Eq)]
pub enum RequestField {
    ClientIp,
    Asn,
    Country,
    Method,
    Path,
    Host,
    UserAgent,
    Ja3,
    Ja4,
    ProxyType,
    ProxyDescription,
    IsHostingProvider,
    Header { name: String },
}

/// The label of a request field.
pub open spec fn field_label(f: RequestField) -> Seq<char> {
    match f {
        RequestField::ClientIp => "Client IP"@,
        RequestField::Asn => "ASN"@,
        RequestField::Country => "Country"@,
        RequestField::Method => "Method"@,
        RequestField::Path => "Path"@,
        RequestField::Host => "Host"@,
        RequestField::UserAgent => "User Agent"@,
        RequestField::Ja3 => "JA3"@,
        RequestField::Ja4 => "JA4"@,
        RequestField::ProxyType => "Proxy Type"@,
        RequestField::ProxyDescription => "Proxy Description"@,
        RequestField::IsHostingProvider => "Is Hosting Provider"@,
        RequestField::Header { .. } => "Header"@,
    }
}

impl RequestField {
    pub fn display_name(&self) -> (r: &'static str)
        ensures
            r@ == field_label(*self),
    {
        match self {
            RequestField::ClientIp => "Client IP",
            RequestField::Asn => "ASN",
            RequestField::Country => "Country",
            RequestField::Method => "Method",
            RequestField::Path => "Path",
            RequestField::Host => "Host",
            RequestField::UserAgent => "User Agent",
            RequestField::Ja3 => "JA3",
            RequestField::Ja4 => "JA4",
            RequestField::ProxyType => "Proxy Type",
            RequestField::ProxyDescription => "Proxy Description",
            RequestField::IsHostingProvider => "Is Hosting Provider",
            RequestField::Header { .. } => "Header",
        }
    }

    /// Every field but the custom header, in picker order.
    pub fn all_standard() -> (r: Vec<RequestField>)
        ensures
            r@ == seq![
                RequestField::ClientIp,
                RequestField::Asn,
                RequestField::Country,
                RequestField::Method,
                RequestField::Path,
                RequestField::Host,
                RequestField::UserAgent,
                RequestField::Ja3,
                RequestField::Ja4,
                RequestField::ProxyType,
                RequestField::ProxyDescription,
                RequestField::IsHostingProvider,
            ],
    {
        let r = vec![
            RequestField::ClientIp,
            RequestField::Asn,
            RequestField::Country,
            RequestField::Method,
            RequestField::Path,
            RequestField::Host,
            RequestField::UserAgent,
            RequestField::Ja3,
            RequestField::Ja4,
            RequestField::ProxyType,
            RequestField::ProxyDescription,
            RequestField::IsHostingProvider,
        ];
        assert(r@ =~= seq![
            RequestField::ClientIp,
            RequestField::Asn,
            RequestField::Country,
            RequestField::Method,
            RequestField::Path,
            RequestField::Host,
            RequestField::UserAgent,
            RequestField::Ja3,
            RequestField::Ja4,
            RequestField::ProxyType,
            RequestField::ProxyDescription,
            RequestField::IsHostingProvider,
        ]);
        r
    }
}

/// Comparison operators of conditions.
#[derive(Debug, Clone, Copy, PartialEq, Eq, Structural)]
pub enum Operator {
    Equals,
    NotEquals,
    Contains,
    NotContains,
    StartsWith,
    EndsWith,
    Matches,
    GreaterThan,
    LessThan,
    GreaterOrEqual,
    LessOrEqual,
    In,
    NotIn,
    InCidr,
    Exists,
    NotExists,
}

pub open spec fn operator_label(o: Operator) -> Seq<char> {
    match o {
        Operator::Equals => "equals"@,
        Operator::NotEquals => "not equals"@,
        Operator::Contains => "contains"@,
        Operator::NotContains => "not contains"@,
        Operator::StartsWith => "starts with"@,
        Operator::EndsWith => "ends with"@,
        Operator::Matches => "matches (regex)"@,
        Operator::GreaterThan => ">"@,
        Operator::LessThan => "<"@,
        Operator::GreaterOrEqual => ">="@,
        Operator::LessOrEqual => "<="@,
        Operator::In => "in list"@,
        Operator::NotIn => "not in list"@,
        Operator::InCidr => "in CIDR"@,
        Operator::Exists => "exists"@,
        Operator::NotExists => "not exists"@,
    }
}

impl Operator {
    pub fn display_name(&self) -> (r: &'static str)
        ensures
            r@ == operator_label(*self),
    {
        match self {
            Operator::Equals => "equals",
            Operator::NotEquals => "not equals",
            Operator::Contains => "contains",
            Operator::NotContains => "not contains",
            Operator::StartsWith => "starts with",
            Operator::EndsWith => "ends with",
            Operator::Matches => "matches (regex)",
            Operator::GreaterThan => ">",
            Operator::LessThan => "<",
            Operator::GreaterOrEqual => ">=",
            Operator::LessOrEqual => "<=",
            Operator::In => "in list",
            Operator::NotIn => "not in list",
            Operator::InCidr => "in CIDR",
            Operator::Exists => "exists",
            Operator::NotExists => "not exists",
        }
    }

    /// Operators offered for text fields.
    pub fn string_operators() -> (r: Vec<Operator>)
        ensures
            r@ == seq![
                Operator::Equals,
                Operator::NotEquals,
                Operator::Contains,
                Operator::NotContains,
                Operator::StartsWith,
                Operator::EndsWith,
                Operator::Matches,
                Operator::In,
                Operator::NotIn,
                Operator::Exists,
                Operator::NotExists,
            ],
    {
        let r = vec![
            Operator::Equals,
            Operator::NotEquals,
            Operator::Contains,
            Operator::NotContains,
            Operator::StartsWith,
            Operator::EndsWith,
            Operator::Matches,
            Operator::In,
            Operator::NotIn,
            Operator::Exists,
            Operator::NotExists,
        ];
        assert(r@ =~= seq![
            Operator::Equals,
            Operator::NotEquals,
            Operator::Contains,
            Operator::NotContains,
            Operator::StartsWith,
            Operator::EndsWith,
            Operator::Matches,
            Operator::In,
            Operator::NotIn,
            Operator::Exists,
            Operator::NotExists,
        ]);
        r
    }

    /// Operators offered for numeric fields.
    pub fn numeric_operators() -> (r: Vec<Operator>)
        ensures
            r@ == seq![
                Operator::Equals,
                Operator::NotEquals,
                Operator::GreaterThan,
                Operator::LessThan,
                Operator::GreaterOrEqual,
                Operator::LessOrEqual,
                Operator::In,
                Operator::NotIn,
            ],
    {
        let r = vec![
            Operator::Equals,
            Operator::NotEquals,
            Operator::GreaterThan,
            Operator::LessThan,
            Operator::GreaterOrEqual,
            Operator::LessOrEqual,
            Operator::In,
            Operator::NotIn,
        ];
        assert(r@ =~= seq![
            Operator::Equals,
            Operator::NotEquals,
            Operator::GreaterThan,
            Operator::LessThan,
            Operator::GreaterOrEqual,
            Operator::LessOrEqual,
            Operator::In,
            Operator::NotIn,
        ]);
        r
    }

    /// Operators offered for IP fields.
    pub fn ip_operators() -> (r: Vec<Operator>)
        ensures
            r@ == seq![
                Operator::Equals,
                Operator::NotEquals,
                Operator::In,
                Operator::NotIn,
                Operator::InCidr,
            ],
    {
        let r = vec![
            Operator::Equals,
            Operator::NotEquals,
            Operator::In,
            Operator::NotIn,
            Operator::InCidr,
        ];
        assert(r@ =~= seq![
            Operator::Equals,
            Operator::NotEquals,
            Operator::In,
            Operator::NotIn,
            Operator::InCidr,
        ]);
        r
    }
}

/// The value a condition compares with.
#[derive(Debug)]
pub enum ConditionValue {
    String(String),
    Number(i64),
    Bool(bool),
    /// For the `In` and `NotIn` operators.
    List(Vec<String>),
    /// For the `InCidr` operator.
    CidrList(Vec<String>),
}

/// Rate-limiting time windows.
#[derive(Debug, Clone, Copy, PartialEq, Eq, Structural)]
pub enum RateWindow {
    OneSec,
    TenSecs,
    SixtySecs,
}

pub open spec fn window_label(w: RateWindow) -> Seq<char> {
    match w {
        RateWindow::OneSec => "1 second"@,
        RateWindow::TenSecs => "10 seconds"@,
        RateWindow::SixtySecs => "60 seconds"@,
    }
}

impl RateWindow {
    pub fn display_name(&self) -> (r: &'static str)
        ensures
            r@ == window_label(*self),
    {
        match self {
            RateWindow::OneSec => "1 second",
            RateWindow::TenSecs => "10 seconds",
            RateWindow::SixtySecs => "60 seconds",
        }
    }
}

/// Rate-limiting modes.
#[derive(Debug, Clone, Copy, PartialEq, Eq, Structural)]
pub enum RateLimitMode {
    /// Count the request and report whether the threshold is exceeded.
    CheckRate,
    /// As `CheckRate`, and put the client in the penalty box when exceeded.
    CheckRateAndPenalize,
    /// Report whether the client is in the penalty box.
    InPenaltyBox,
    /// Put the client in the penalty box when the trigger input is truthy.
    AddToPenaltyBox,
}

pub open spec fn mode_label(m: RateLimitMode) -> Seq<char> {
    match m {
        RateLimitMode::CheckRate => "Check Rate"@,
        RateLimitMode::CheckRateAndPenalize => "Check & Penalize"@,
        RateLimitMode::InPenaltyBox => "In Penalty Box?"@,
        RateLimitMode::AddToPenaltyBox => "Add to Penalty Box"@,
    }
}

impl RateLimitMode {
    pub fn display_name(&self) -> (r: &'static str)
        ensures
            r@ == mode_label(*self),
    {
        match self {
            RateLimitMode::CheckRate => "Check Rate",
            RateLimitMode::CheckRateAndPenalize => "Check & Penalize",
            RateLimitMode::InPenaltyBox => "In Penalty Box?",
            RateLimitMode::AddToPenaltyBox => "Add to Penalty Box",
        }
    }
}

/// What an action node does.
#[derive(Debug)]
pub enum ActionType {
    Block { status_code: u16, message: String },
    Challenge { challenge_type: ChallengeType },
    Tarpit { delay_ms: u32 },
    Log { message: String, severity: LogSeverity },
    Allow,
}

pub open spec fn action_label(a: ActionType) -> Seq<char> {
    match a {
        ActionType::Block { .. } => "Block"@,
        ActionType::Challenge { .. } => "Challenge"@,
        ActionType::Tarpit { .. } => "Tarpit"@,
        ActionType::Log { .. } => "Log"@,
        ActionType::Allow => "Allow"@,
    }
}

impl ActionType {
    pub fn display_name(&self) -> (r: &'static str)
        ensures
            r@ == action_label(*self),
    {
        match self {
            ActionType::Block { .. } => "Block",
            ActionType::Challenge { .. } => "Challenge",
            ActionType::Tarpit { .. } => "Tarpit",
            ActionType::Log { .. } => "Log",
            ActionType::Allow => "Allow",
        }
    }
}

#[derive(Debug, Clone, Copy, PartialEq, Eq, Structural)]
pub enum ChallengeType {
    NonInteractive,
    Interactive,
    Captcha,
}

/// The variant name of a challenge type.
pub open spec fn challenge_name(c: ChallengeType) -> Seq<char> {
    match c {
        ChallengeType::NonInteractive => "NonInteractive"@,
        ChallengeType::Interactive => "Interactive"@,
        ChallengeType::Captcha => "Captcha"@,
    }
}

impl ChallengeType {
    /// The variant name, as a verdict reports it.
    pub fn name(&self) -> (r: &'static str)
        ensures
            r@ == challenge_name(*self),
    {
        match self {
            ChallengeType::NonInteractive => "NonInteractive",
            ChallengeType::Interactive => "Interactive",
            ChallengeType::Captcha => "Captcha",
        }
    }
}

#[derive(Debug, Clone, Copy, PartialEq, Eq, Structural)]
pub enum LogSeverity {
    Debug,
    Info,
    Warning,
    Error,
}

/// The variant name of a log severity.
pub open spec fn severity_name(s: LogSeverity) -> Seq<char> {
    match s {
        LogSeverity::Debug => "Debug"@,
        LogSeverity::Info => "Info"@,
        LogSeverity::Warning => "Warning"@,
        LogSeverity::Error => "Error"@,
    }
}

impl LogSeverity {
    /// The variant name, as a verdict reports it.
    pub fn name(&self) -> (r: &'static str)
        ensures
            r@ == severity_name(*self),
    {
        match self {
            LogSeverity::Debug => "Debug",
            LogSeverity::Info => "Info",
            LogSeverity::Warning => "Warning",
            LogSeverity::Error => "Error",
        }
    }
}

/// Header operations.
#[derive(Debug, Clone, Copy, PartialEq, Eq, Structural)]
pub enum HeaderOp {
    Replace,
    Remove,
}

/// Editor categories of nodes.
#[derive(Debug, Clone, Copy, PartialEq, Eq, Structural)]
pub enum NodeCategory {
    Input,
    Condition,
    Logic,
    RateLimit,
    Action,
    Routing,
    Transform,
    Utility,
}

pub open spec fn category_label(c: NodeCategory) -> Seq<char> {
    match c {
        NodeCategory::Input => "Input"@,
        NodeCategory::Condition => "Condition"@,
        NodeCategory::Logic => "Logic"@,
        NodeCategory::RateLimit => "Rate Limiting"@,
        NodeCategory::Action => "Action"@,
        NodeCategory::Routing => "Routing"@,
        NodeCategory::Transform => "Transform"@,
        NodeCategory::Utility => "Utility"@,
    }
}

impl NodeCategory {
    pub fn display_name(&self) -> (r: &'static str)
        ensures
            r@ == category_label(*self),
    {
        match self {
            NodeCategory::Input => "Input",
            NodeCategory::Condition => "Condition",
            NodeCategory::Logic => "Logic",
            NodeCategory::RateLimit => "Rate Limiting",
            NodeCategory::Action => "Action",
            NodeCategory::Routing => "Routing",
            NodeCategory::Transform => "Transform",
            NodeCategory::Utility => "Utility",
        }
    }

    /// Every category, in editor order.
    pub fn all() -> (r: Vec<NodeCategory>)
        ensures
            r@ == seq![
                NodeCategory::Input,
                NodeCategory::Condition,
                NodeCategory::Logic,
                NodeCategory::RateLimit,
                NodeCategory::Action,
                NodeCategory::Routing,
                NodeCategory::Transform,
                NodeCategory::Utility,
            ],
    {
        let r = vec![
            NodeCategory::Input,
            NodeCategory::Condition,
            NodeCategory::Logic,
            NodeCategory::RateLimit,
            NodeCategory::Action,
            NodeCategory::Routing,
            NodeCategory::Transform,
            NodeCategory::Utility,
        ];
        assert(r@ =~= seq![
            NodeCategory::Input,
            NodeCategory::Condition,
            NodeCategory::Logic,
            NodeCategory::RateLimit,
            NodeCategory::Action,
            NodeCategory::Routing,
            NodeCategory::Transform,
            NodeCategory::Utility,
        ]);
        r
    }
}

} // verus!
