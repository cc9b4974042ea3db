//! Extensible kinds of languages, nodes, edges and evidence.
use crate::error::{GraphError, Result};
use crate::text::{is_trimmed, text_is, trimmed};
use vstd::prelude::*;
use vstd::std_specs::cmp::PartialEqSpecImpl;

verus! {

/// Programming, data, or configuration language associated with a node.
#[derive(Debug, PartialOrd, Ord, Hash)]
#[non_exhaustive]
pub enum Language {
    Rust,
    Go,
    C,
    Cpp,
    Bash,
    Sql,
    JavaScript,
    TypeScript,
    Python,
    Java,
    CSharp,
    Yaml,
    Custom(String),
}

/// Whether `s` is the canonical text of a known language kind.
pub open spec fn reserved_language(s: Seq<char>) -> bool {
    ||| s == "rust"@
    ||| s == "go"@
    ||| s == "c"@
    ||| s == "cpp"@
    ||| s == "bash"@
    ||| s == "sql"@
    ||| s == "javascript"@
    ||| s == "typescript"@
    ||| s == "python"@
    ||| s == "java"@
    ||| s == "csharp"@
    ||| s == "yaml"@
}

impl Language {
    /// The canonical text of this kind.
    pub open spec fn text(&self) -> Seq<char> {
        match self {
            Language::Rust => "rust"@,
            Language::Go => "go"@,
            Language::C => "c"@,
            Language::Cpp => "cpp"@,
            Language::Bash => "bash"@,
            Language::Sql => "sql"@,
            Language::JavaScript => "javascript"@,
            Language::TypeScript => "typescript"@,
            Language::Python => "python"@,
            Language::Java => "java"@,
            Language::CSharp => "csharp"@,
            Language::Yaml => "yaml"@,
            Language::Custom(value) => value@,
        }
    }

    /// Equality of kinds: the same known kind, or custom kinds with equal text.
    pub open spec fn same(&self, other: &Self) -> bool {
        match (self, other) {
            (Language::Custom(a), Language::Custom(b)) => a@ == b@,
            (Language::Custom(_), _) => false,
            (_, Language::Custom(_)) => false,
            _ => self == other,
        }
    }

    pub fn as_str(&self) -> (r: &str)
        ensures
            r@ == self.text(),
    {
        match self {
            Language::Rust => "rust",
            Language::Go => "go",
            Language::C => "c",
            Language::Cpp => "cpp",
            Language::Bash => "bash",
            Language::Sql => "sql",
            Language::JavaScript => "javascript",
            Language::TypeScript => "typescript",
            Language::Python => "python",
            Language::Java => "java",
            Language::CSharp => "csharp",
            Language::Yaml => "yaml",
            Language::Custom(value) => value.as_str(),
        }
    }

    /// Creates an application-specific kind without changing this crate.
    ///
    /// Known texts give the known kind; any other text that is non-empty
    /// and has no surrounding white space gives a custom kind; anything
    /// else is refused.
    pub fn custom(value: &str) -> (r: Result<Self>)
        ensures
            r is Ok <==> is_trimmed(value@),
            r matches Ok(k) ==> k.text() == value@ && (k is Custom <==> !reserved_language(value@)),
            r matches Err(e) ==> e matches GraphError::InvalidKind { category, value: v }
                && category@ == "language"@ && v@ == value@,
    {
        Self::parse_owned(value.to_owned())
    }

    fn parse_owned(value: String) -> (r: Result<Self>)
        ensures
            r is Ok <==> is_trimmed(value@),
            r matches Ok(k) ==> k.text() == value@ && (k is Custom <==> !reserved_language(value@)),
            r matches Err(e) ==> e matches GraphError::InvalidKind { category, value: v }
                && category@ == "language"@ && v@ == value@,
    {
        if !trimmed(value.as_str()) {
            return Err(GraphError::InvalidKind { category: "language", value });
        }
        if text_is(value.as_str(), "rust") {
            return Ok(Language::Rust);
        }
        if text_is(value.as_str(), "go") {
            return Ok(Language::Go);
        }
        if text_is(value.as_str(), "c") {
            return Ok(Language::C);
        }
        if text_is(value.as_str(), "cpp") {
            return Ok(Language::Cpp);
        }
        if text_is(value.as_str(), "bash") {
            return Ok(Language::Bash);
        }
        if text_is(value.as_str(), "sql") {
            return Ok(Language::Sql);
        }
        if text_is(value.as_str(), "javascript") {
            return Ok(Language::JavaScript);
        }
        if text_is(value.as_str(), "typescript") {
            return Ok(Language::TypeScript);
        }
        if text_is(value.as_str(), "python") {
            return Ok(Language::Python);
        }
        if text_is(value.as_str(), "java") {
            return Ok(Language::Java);
        }
        if text_is(value.as_str(), "csharp") {
            return Ok(Language::CSharp);
        }
        if text_is(value.as_str(), "yaml") {
            return Ok(Language::Yaml);
        }
        Ok(Language::Custom(value))
    }
}

impl Clone for Language {
    fn clone(&self) -> (r: Self)
        ensures
            r == *self,
    {
        match self {
            Language::Rust => Language::Rust,
            Language::Go => Language::Go,
            Language::C => Language::C,
            Language::Cpp => Language::Cpp,
            Language::Bash => Language::Bash,
            Language::Sql => Language::Sql,
            Language::JavaScript => Language::JavaScript,
            Language::TypeScript => Language::TypeScript,
            Language::Python => Language::Python,
            Language::Java => Language::Java,
            Language::CSharp => Language::CSharp,
            Language::Yaml => Language::Yaml,
            Language::Custom(value) => Language::Custom(value.clone()),
        }
    }
}

impl PartialEq for Language {
    fn eq(&self, other: &Self) -> (r: bool) {
        match (self, other) {
            (Language::Custom(a), Language::Custom(b)) => text_is(a.as_str(), b.as_str()),
            (Language::Rust, Language::Rust) => true,
            (Language::Go, Language::Go) => true,
            (Language::C, Language::C) => true,
            (Language::Cpp, Language::Cpp) => true,
            (Language::Bash, Language::Bash) => true,
            (Language::Sql, Language::Sql) => true,
            (Language::JavaScript, Language::JavaScript) => true,
            (Language::TypeScript, Language::TypeScript) => true,
            (Language::Python, Language::Python) => true,
            (Language::Java, Language::Java) => true,
            (Language::CSharp, Language::CSharp) => true,
            (Language::Yaml, Language::Yaml) => true,
            _ => false,
        }
    }
}

impl PartialEqSpecImpl for Language {
    open spec fn obeys_eq_spec() -> bool {
        true
    }

    open spec fn eq_spec(&self, other: &Self) -> bool {
        self.same(other)
    }
}

impl Eq for Language {}

impl core::str::FromStr for Language {
    type Err = GraphError;

    fn from_str(value: &str) -> (r: Result<Self>)
        ensures
            r is Ok <==> is_trimmed(value@),
            r matches Ok(k) ==> k.text() == value@ && (k is Custom <==> !reserved_language(value@)),
            r matches Err(e) ==> e matches GraphError::InvalidKind { category, value: v }
                && category@ == "language"@ && v@ == value@,
    {
        Self::parse_owned(value.to_owned())
    }
}

/// Semantic role of a graph node.
#[derive(Debug, PartialOrd, Ord, Hash)]
#[non_exhaustive]
pub enum NodeKind {
    Repository,
    File,
    Module,
    Package,
    Function,
    Method,
    Struct,
    Enum,
    Trait,
    TypeAlias,
    Constant,
    Static,
    Service,
    Endpoint,
    Table,
    Column,
    Topic,
    ConsumerGroup,
    Exchange,
    Queue,
    Binding,
    Collection,
    Index,
    KubernetesResource,
    Container,
    ConfigKey,
    Unknown,
    Custom(String),
}

/// Whether `s` is the canonical text of a known node kind.
pub open spec fn reserved_node_kind(s: Seq<char>) -> bool {
    ||| s == "repository"@
    ||| s == "file"@
    ||| s == "module"@
    ||| s == "package"@
    ||| s == "function"@
    ||| s == "method"@
    ||| s == "struct"@
    ||| s == "enum"@
    ||| s == "trait"@
    ||| s == "type_alias"@
    ||| s == "constant"@
    ||| s == "static"@
    ||| s == "service"@
    ||| s == "endpoint"@
    ||| s == "table"@
    ||| s == "column"@
    ||| s == "topic"@
    ||| s == "consumer_group"@
    ||| s == "exchange"@
    ||| s == "queue"@
    ||| s == "binding"@
    ||| s == "collection"@
    ||| s == "index"@
    ||| s == "kubernetes_resource"@
    ||| s == "container"@
    ||| s == "config_key"@
    ||| s == "unknown"@
}

impl NodeKind {
    /// The canonical text of this kind.
    pub open spec fn text(&self) -> Seq<char> {
        match self {
            NodeKind::Repository => "repository"@,
            NodeKind::File => "file"@,
            NodeKind::Module => "module"@,
            NodeKind::Package => "package"@,
            NodeKind::Function => "function"@,
            NodeKind::Method => "method"@,
            NodeKind::Struct => "struct"@,
            NodeKind::Enum => "enum"@,
            NodeKind::Trait => "trait"@,
            NodeKind::TypeAlias => "type_alias"@,
            NodeKind::Constant => "constant"@,
            NodeKind::Static => "static"@,
            NodeKind::Service => "service"@,
            NodeKind::Endpoint => "endpoint"@,
            NodeKind::Table => "table"@,
            NodeKind::Column => "column"@,
            NodeKind::Topic => "topic"@,
            NodeKind::ConsumerGroup => "consumer_group"@,
            NodeKind::Exchange => "exchange"@,
            NodeKind::Queue => "queue"@,
            NodeKind::Binding => "binding"@,
            NodeKind::Collection => "collection"@,
            NodeKind::Index => "index"@,
            NodeKind::KubernetesResource => "kubernetes_resource"@,
            NodeKind::Container => "container"@,
            NodeKind::ConfigKey => "config_key"@,
            NodeKind::Unknown => "unknown"@,
            NodeKind::Custom(value) => value@,
        }
    }

    /// Equality of kinds: the same known kind, or custom kinds with equal text.
    pub open spec fn same(&self, other: &Self) -> bool {
        match (self, other) {
            (NodeKind::Custom(a), NodeKind::Custom(b)) => a@ == b@,
            (NodeKind::Custom(_), _) => false,
            (_, NodeKind::Custom(_)) => false,
            _ => self == other,
        }
    }

    pub fn as_str(&self) -> (r: &str)
        ensures
            r@ == self.text(),
    {
        match self {
            NodeKind::Repository => "repository",
            NodeKind::File => "file",
            NodeKind::Module => "module",
            NodeKind::Package => "package",
            NodeKind::Function => "function",
            NodeKind::Method => "method",
            NodeKind::Struct => "struct",
            NodeKind::Enum => "enum",
            NodeKind::Trait => "trait",
            NodeKind::TypeAlias => "type_alias",
            NodeKind::Constant => "constant",
            NodeKind::Static => "static",
            NodeKind::Service => "service",
            NodeKind::Endpoint => "endpoint",
            NodeKind::Table => "table",
            NodeKind::Column => "column",
            NodeKind::Topic => "topic",
            NodeKind::ConsumerGroup => "consumer_group",
            NodeKind::Exchange => "exchange",
            NodeKind::Queue => "queue",
            NodeKind::Binding => "binding",
            NodeKind::Collection => "collection",
            NodeKind::Index => "index",
            NodeKind::KubernetesResource => "kubernetes_resource",
            NodeKind::Container => "container",
            NodeKind::ConfigKey => "config_key",
            NodeKind::Unknown => "unknown",
            NodeKind::Custom(value) => value.as_str(),
        }
    }

    /// Creates an application-specific kind without changing this crate.
    ///
    /// Known texts give the known kind; any other text that is non-empty
    /// and has no surrounding white space gives a custom kind; anything
    /// else is refused.
    pub fn custom(value: &str) -> (r: Result<Self>)
        ensures
            r is Ok <==> is_trimmed(value@),
            r matches Ok(k) ==> k.text() == value@ && (k is Custom <==> !reserved_node_kind(value@)),
            r matches Err(e) ==> e matches GraphError::InvalidKind { category, value: v }
                && category@ == "node"@ && v@ == value@,
    {
        Self::parse_owned(value.to_owned())
    }

    fn parse_owned(value: String) -> (r: Result<Self>)
        ensures
            r is Ok <==> is_trimmed(value@),
            r matches Ok(k) ==> k.text() == value@ && (k is Custom <==> !reserved_node_kind(value@)),
            r matches Err(e) ==> e matches GraphError::InvalidKind { category, value: v }
                && category@ == "node"@ && v@ == value@,
    {
        if !trimmed(value.as_str()) {
            return Err(GraphError::InvalidKind { category: "node", value });
        }
        if text_is(value.as_str(), "repository") {
            return Ok(NodeKind::Repository);
        }
        if text_is(value.as_str(), "file") {
            return Ok(NodeKind::File);
        }
        if text_is(value.as_str(), "module") {
            return Ok(NodeKind::Module);
        }
        if text_is(value.as_str(), "package") {
            return Ok(NodeKind::Package);
        }
        if text_is(value.as_str(), "function") {
            return Ok(NodeKind::Function);
        }
        if text_is(value.as_str(), "method") {
            return Ok(NodeKind::Method);
        }
        if text_is(value.as_str(), "struct") {
            return Ok(NodeKind::Struct);
        }
        if text_is(value.as_str(), "enum") {
            return Ok(NodeKind::Enum);
        }
        if text_is(value.as_str(), "trait") {
            return Ok(NodeKind::Trait);
        }
        if text_is(value.as_str(), "type_alias") {
            return Ok(NodeKind::TypeAlias);
        }
        if text_is(value.as_str(), "constant") {
            return Ok(NodeKind::Constant);
        }
        if text_is(value.as_str(), "static") {
            return Ok(NodeKind::Static);
        }
        if text_is(value.as_str(), "service") {
            return Ok(NodeKind::Service);
        }
        if text_is(value.as_str(), "endpoint") {
            return Ok(NodeKind::Endpoint);
        }
        if text_is(value.as_str(), "table") {
            return Ok(NodeKind::Table);
        }
        if text_is(value.as_str(), "column") {
            return Ok(NodeKind::Column);
        }
        if text_is(value.as_str(), "topic") {
            return Ok(NodeKind::Topic);
        }
        if text_is(value.as_str(), "consumer_group") {
            return Ok(NodeKind::ConsumerGroup);
        }
        if text_is(value.as_str(), "exchange") {
            return Ok(NodeKind::Exchange);
        }
        if text_is(value.as_str(), "queue") {
            return Ok(NodeKind::Queue);
        }
        if text_is(value.as_str(), "binding") {
            return Ok(NodeKind::Binding);
        }
        if text_is(value.as_str(), "collection") {
            return Ok(NodeKind::Collection);
        }
        if text_is(value.as_str(), "index") {
            return Ok(NodeKind::Index);
        }
        if text_is(value.as_str(), "kubernetes_resource") {
            return Ok(NodeKind::KubernetesResource);
        }
        if text_is(value.as_str(), "container") {
            return Ok(NodeKind::Container);
        }
        if text_is(value.as_str(), "config_key") {
            return Ok(NodeKind::ConfigKey);
        }
        if text_is(value.as_str(), "unknown") {
            return Ok(NodeKind::Unknown);
        }
        Ok(NodeKind::Custom(value))
    }
}

impl Clone for NodeKind {
    fn clone(&self) -> (r: Self)
        ensures
            r == *self,
    {
        match self {
            NodeKind::Repository => NodeKind::Repository,
            NodeKind::File => NodeKind::File,
            NodeKind::Module => NodeKind::Module,
            NodeKind::Package => NodeKind::Package,
            NodeKind::Function => NodeKind::Function,
            NodeKind::Method => NodeKind::Method,
            NodeKind::Struct => NodeKind::Struct,
            NodeKind::Enum => NodeKind::Enum,
            NodeKind::Trait => NodeKind::Trait,
            NodeKind::TypeAlias => NodeKind::TypeAlias,
            NodeKind::Constant => NodeKind::Constant,
            NodeKind::Static => NodeKind::Static,
            NodeKind::Service => NodeKind::Service,
            NodeKind::Endpoint => NodeKind::Endpoint,
            NodeKind::Table => NodeKind::Table,
            NodeKind::Column => NodeKind::Column,
            NodeKind::Topic => NodeKind::Topic,
            NodeKind::ConsumerGroup => NodeKind::ConsumerGroup,
            NodeKind::Exchange => NodeKind::Exchange,
            NodeKind::Queue => NodeKind::Queue,
            NodeKind::Binding => NodeKind::Binding,
            NodeKind::Collection => NodeKind::Collection,
            NodeKind::Index => NodeKind::Index,
            NodeKind::KubernetesResource => NodeKind::KubernetesResource,
            NodeKind::Container => NodeKind::Container,
            NodeKind::ConfigKey => NodeKind::ConfigKey,
            NodeKind::Unknown => NodeKind::Unknown,
            NodeKind::Custom(value) => NodeKind::Custom(value.clone()),
        }
    }
}

impl PartialEq for NodeKind {
    fn eq(&self, other: &Self) -> (r: bool) {
        match (self, other) {
            (NodeKind::Custom(a), NodeKind::Custom(b)) => text_is(a.as_str(), b.as_str()),
            (NodeKind::Repository, NodeKind::Repository) => true,
            (NodeKind::File, NodeKind::File) => true,
            (NodeKind::Module, NodeKind::Module) => true,
            (NodeKind::Package, NodeKind::Package) => true,
            (NodeKind::Function, NodeKind::Function) => true,
            (NodeKind::Method, NodeKind::Method) => true,
            (NodeKind::Struct, NodeKind::Struct) => true,
            (NodeKind::Enum, NodeKind::Enum) => true,
            (NodeKind::Trait, NodeKind::Trait) => true,
            (NodeKind::TypeAlias, NodeKind::TypeAlias) => true,
            (NodeKind::Constant, NodeKind::Constant) => true,
            (NodeKind::Static, NodeKind::Static) => true,
            (NodeKind::Service, NodeKind::Service) => true,
            (NodeKind::Endpoint, NodeKind::Endpoint) => true,
            (NodeKind::Table, NodeKind::Table) => true,
            (NodeKind::Column, NodeKind::Column) => true,
            (NodeKind::Topic, NodeKind::Topic) => true,
            (NodeKind::ConsumerGroup, NodeKind::ConsumerGroup) => true,
            (NodeKind::Exchange, NodeKind::Exchange) => true,
            (NodeKind::Queue, NodeKind::Queue) => true,
            (NodeKind::Binding, NodeKind::Binding) => true,
            (NodeKind::Collection, NodeKind::Collection) => true,
            (NodeKind::Index, NodeKind::Index) => true,
            (NodeKind::KubernetesResource, NodeKind::KubernetesResource) => true,
            (NodeKind::Container, NodeKind::Container) => true,
            (NodeKind::ConfigKey, NodeKind::ConfigKey) => true,
            (NodeKind::Unknown, NodeKind::Unknown) => true,
            _ => false,
        }
    }
}

impl PartialEqSpecImpl for NodeKind {
    open spec fn obeys_eq_spec() -> bool {
        true
    }

    open spec fn eq_spec(&self, other: &Self) -> bool {
        self.same(other)
    }
}

impl Eq for NodeKind {}

impl core::str::FromStr for NodeKind {
    type Err = GraphError;

    fn from_str(value: &str) -> (r: Result<Self>)
        ensures
            r is Ok <==> is_trimmed(value@),
            r matches Ok(k) ==> k.text() == value@ && (k is Custom <==> !reserved_node_kind(value@)),
            r matches Err(e) ==> e matches GraphError::InvalidKind { category, value: v }
                && category@ == "node"@ && v@ == value@,
    {
        Self::parse_owned(value.to_owned())
    }
}

/// Semantic relationship between two graph nodes.
#[derive(Debug, PartialOrd, Ord, Hash)]
#[non_exhaustive]
pub enum EdgeKind {
    Contains,
    Imports,
    Calls,
    References,
    Method,
    Implements,
    ReExports,
    DependsOn,
    Inherits,
    Publishes,
    Consumes,
    Binds,
    Reads,
    Writes,
    Deploys,
    Exposes,
    Mounts,
    Configures,
    Custom(String),
}

/// Whether `s` is the canonical text of a known edge kind.
pub open spec fn reserved_edge_kind(s: Seq<char>) -> bool {
    ||| s == "contains"@
    ||| s == "imports"@
    ||| s == "calls"@
    ||| s == "references"@
    ||| s == "method"@
    ||| s == "implements"@
    ||| s == "re_exports"@
    ||| s == "depends_on"@
    ||| s == "inherits"@
    ||| s == "publishes"@
    ||| s == "consumes"@
    ||| s == "binds"@
    ||| s == "reads"@
    ||| s == "writes"@
    ||| s == "deploys"@
    ||| s == "exposes"@
    ||| s == "mounts"@
    ||| s == "configures"@
}

impl EdgeKind {
    /// The canonical text of this kind.
    pub open spec fn text(&self) -> Seq<char> {
        match self {
            EdgeKind::Contains => "contains"@,
            EdgeKind::Imports => "imports"@,
            EdgeKind::Calls => "calls"@,
            EdgeKind::References => "references"@,
            EdgeKind::Method => "method"@,
            EdgeKind::Implements => "implements"@,
            EdgeKind::ReExports => "re_exports"@,
            EdgeKind::DependsOn => "depends_on"@,
            EdgeKind::Inherits => "inherits"@,
            EdgeKind::Publishes => "publishes"@,
            EdgeKind::Consumes => "consumes"@,
            EdgeKind::Binds => "binds"@,
            EdgeKind::Reads => "reads"@,
            EdgeKind::Writes => "writes"@,
            EdgeKind::Deploys => "deploys"@,
            EdgeKind::Exposes => "exposes"@,
            EdgeKind::Mounts => "mounts"@,
            EdgeKind::Configures => "configures"@,
            EdgeKind::Custom(value) => value@,
        }
    }

    /// Equality of kinds: the same known kind, or custom kinds with equal text.
    pub open spec fn same(&self, other: &Self) -> bool {
        match (self, other) {
            (EdgeKind::Custom(a), EdgeKind::Custom(b)) => a@ == b@,
            (EdgeKind::Custom(_), _) => false,
            (_, EdgeKind::Custom(_)) => false,
            _ => self == other,
        }
    }

    pub fn as_str(&self) -> (r: &str)
        ensures
            r@ == self.text(),
    {
        match self {
            EdgeKind::Contains => "contains",
            EdgeKind::Imports => "imports",
            EdgeKind::Calls => "calls",
            EdgeKind::References => "references",
            EdgeKind::Method => "method",
            EdgeKind::Implements => "implements",
            EdgeKind::ReExports => "re_exports",
            EdgeKind::DependsOn => "depends_on",
            EdgeKind::Inherits => "inherits",
            EdgeKind::Publishes => "publishes",
            EdgeKind::Consumes => "consumes",
            EdgeKind::Binds => "binds",
            EdgeKind::Reads => "reads",
            EdgeKind::Writes => "writes",
            EdgeKind::Deploys => "deploys",
            EdgeKind::Exposes => "exposes",
            EdgeKind::Mounts => "mounts",
            EdgeKind::Configures => "configures",
            EdgeKind::Custom(value) => value.as_str(),
        }
    }

    /// Creates an application-specific kind without changing this crate.
    ///
    /// Known texts give the known kind; any other text that is non-empty
    /// and has no surrounding white space gives a custom kind; anything
    /// else is refused.
    pub fn custom(value: &str) -> (r: Result<Self>)
        ensures
            r is Ok <==> is_trimmed(value@),
            r matches Ok(k) ==> k.text() == value@ && (k is Custom <==> !reserved_edge_kind(value@)),
            r matches Err(e) ==> e matches GraphError::InvalidKind { category, value: v }
                && category@ == "edge"@ && v@ == value@,
    {
        Self::parse_owned(value.to_owned())
    }

    fn parse_owned(value: String) -> (r: Result<Self>)
        ensures
            r is Ok <==> is_trimmed(value@),
            r matches Ok(k) ==> k.text() == value@ && (k is Custom <==> !reserved_edge_kind(value@)),
            r matches Err(e) ==> e matches GraphError::InvalidKind { category, value: v }
                && category@ == "edge"@ && v@ == value@,
    {
        if !trimmed(value.as_str()) {
            return Err(GraphError::InvalidKind { category: "edge", value });
        }
        if text_is(value.as_str(), "contains") {
            return Ok(EdgeKind::Contains);
        }
        if text_is(value.as_str(), "imports") {
            return Ok(EdgeKind::Imports);
        }
        if text_is(value.as_str(), "calls") {
            return Ok(EdgeKind::Calls);
        }
        if text_is(value.as_str(), "references") {
            return Ok(EdgeKind::References);
        }
        if text_is(value.as_str(), "method") {
            return Ok(EdgeKind::Method);
        }
        if text_is(value.as_str(), "implements") {
            return Ok(EdgeKind::Implements);
        }
        if text_is(value.as_str(), "re_exports") {
            return Ok(EdgeKind::ReExports);
        }
        if text_is(value.as_str(), "depends_on") {
            return Ok(EdgeKind::DependsOn);
        }
        if text_is(value.as_str(), "inherits") {
            return Ok(EdgeKind::Inherits);
        }
        if text_is(value.as_str(), "publishes") {
            return Ok(EdgeKind::Publishes);
        }
        if text_is(value.as_str(), "consumes") {
            return Ok(EdgeKind::Consumes);
        }
        if text_is(value.as_str(), "binds") {
            return Ok(EdgeKind::Binds);
        }
        if text_is(value.as_str(), "reads") {
            return Ok(EdgeKind::Reads);
        }
        if text_is(value.as_str(), "writes") {
            return Ok(EdgeKind::Writes);
        }
        if text_is(value.as_str(), "deploys") {
            return Ok(EdgeKind::Deploys);
        }
        if text_is(value.as_str(), "exposes") {
            return Ok(EdgeKind::Exposes);
        }
        if text_is(value.as_str(), "mounts") {
            return Ok(EdgeKind::Mounts);
        }
        if text_is(value.as_str(), "configures") {
            return Ok(EdgeKind::Configures);
        }
        Ok(EdgeKind::Custom(value))
    }
}

impl Clone for EdgeKind {
    fn clone(&self) -> (r: Self)
        ensures
            r == *self,
    {
        match self {
            EdgeKind::Contains => EdgeKind::Contains,
            EdgeKind::Imports => EdgeKind::Imports,
            EdgeKind::Calls => EdgeKind::Calls,
            EdgeKind::References => EdgeKind::References,
            EdgeKind::Method => EdgeKind::Method,
            EdgeKind::Implements => EdgeKind::Implements,
            EdgeKind::ReExports => EdgeKind::ReExports,
            EdgeKind::DependsOn => EdgeKind::DependsOn,
            EdgeKind::Inherits => EdgeKind::Inherits,
            EdgeKind::Publishes => EdgeKind::Publishes,
            EdgeKind::Consumes => EdgeKind::Consumes,
            EdgeKind::Binds => EdgeKind::Binds,
            EdgeKind::Reads => EdgeKind::Reads,
            EdgeKind::Writes => EdgeKind::Writes,
            EdgeKind::Deploys => EdgeKind::Deploys,
            EdgeKind::Exposes => EdgeKind::Exposes,
            EdgeKind::Mounts => EdgeKind::Mounts,
            EdgeKind::Configures => EdgeKind::Configures,
            EdgeKind::Custom(value) => EdgeKind::Custom(value.clone()),
        }
    }
}

impl PartialEq for EdgeKind {
    fn eq(&self, other: &Self) -> (r: bool) {
        match (self, other) {
            (EdgeKind::Custom(a), EdgeKind::Custom(b)) => text_is(a.as_str(), b.as_str()),
            (EdgeKind::Contains, EdgeKind::Contains) => true,
            (EdgeKind::Imports, EdgeKind::Imports) => true,
            (EdgeKind::Calls, EdgeKind::Calls) => true,
            (EdgeKind::References, EdgeKind::References) => true,
            (EdgeKind::Method, EdgeKind::Method) => true,
            (EdgeKind::Implements, EdgeKind::Implements) => true,
            (EdgeKind::ReExports, EdgeKind::ReExports) => true,
            (EdgeKind::DependsOn, EdgeKind::DependsOn) => true,
            (EdgeKind::Inherits, EdgeKind::Inherits) => true,
            (EdgeKind::Publishes, EdgeKind::Publishes) => true,
            (EdgeKind::Consumes, EdgeKind::Consumes) => true,
            (EdgeKind::Binds, EdgeKind::Binds) => true,
            (EdgeKind::Reads, EdgeKind::Reads) => true,
            (EdgeKind::Writes, EdgeKind::Writes) => true,
            (EdgeKind::Deploys, EdgeKind::Deploys) => true,
            (EdgeKind::Exposes, EdgeKind::Exposes) => true,
            (EdgeKind::Mounts, EdgeKind::Mounts) => true,
            (EdgeKind::Configures, EdgeKind::Configures) => true,
            _ => false,
        }
    }
}

impl PartialEqSpecImpl for EdgeKind {
    open spec fn obeys_eq_spec() -> bool {
        true
    }

    open spec fn eq_spec(&self, other: &Self) -> bool {
        self.same(other)
    }
}

impl Eq for EdgeKind {}

impl core::str::FromStr for EdgeKind {
    type Err = GraphError;

    fn from_str(value: &str) -> (r: Result<Self>)
        ensures
            r is Ok <==> is_trimmed(value@),
            r matches Ok(k) ==> k.text() == value@ && (k is Custom <==> !reserved_edge_kind(value@)),
            r matches Err(e) ==> e matches GraphError::InvalidKind { category, value: v }
                && category@ == "edge"@ && v@ == value@,
    {
        Self::parse_owned(value.to_owned())
    }
}

/// Origin of the evidence supporting an edge.
#[derive(Debug, PartialOrd, Ord, Hash)]
#[non_exhaustive]
pub enum EvidenceKind {
    ExactLsp,
    Extracted,
    ResolvedCanonical,
    Inferred,
    Conflict,
    Parsed,
    Resolved,
    Manifest,
    Literal,
    Toolchain,
    Runtime,
    Custom(String),
}

/// Whether `s` is the canonical text of a known evidence kind.
pub open spec fn reserved_evidence_kind(s: Seq<char>) -> bool {
    ||| s == "EXACT_LSP"@
    ||| s == "EXTRACTED"@
    ||| s == "RESOLVED"@
    ||| s == "INFERRED"@
    ||| s == "CONFLICT"@
    ||| s == "parsed"@
    ||| s == "resolved"@
    ||| s == "manifest"@
    ||| s == "literal"@
    ||| s == "toolchain"@
    ||| s == "runtime"@
}

impl EvidenceKind {
    /// The canonical text of this kind.
    pub open spec fn text(&self) -> Seq<char> {
        match self {
            EvidenceKind::ExactLsp => "EXACT_LSP"@,
            EvidenceKind::Extracted => "EXTRACTED"@,
            EvidenceKind::ResolvedCanonical => "RESOLVED"@,
            EvidenceKind::Inferred => "INFERRED"@,
            EvidenceKind::Conflict => "CONFLICT"@,
            EvidenceKind::Parsed => "parsed"@,
            EvidenceKind::Resolved => "resolved"@,
            EvidenceKind::Manifest => "manifest"@,
            EvidenceKind::Literal => "literal"@,
            EvidenceKind::Toolchain => "toolchain"@,
            EvidenceKind::Runtime => "runtime"@,
            EvidenceKind::Custom(value) => value@,
        }
    }

    /// Equality of kinds: the same known kind, or custom kinds with equal text.
    pub open spec fn same(&self, other: &Self) -> bool {
        match (self, other) {
            (EvidenceKind::Custom(a), EvidenceKind::Custom(b)) => a@ == b@,
            (EvidenceKind::Custom(_), _) => false,
            (_, EvidenceKind::Custom(_)) => false,
            _ => self == other,
        }
    }

    pub fn as_str(&self) -> (r: &str)
        ensures
            r@ == self.text(),
    {
        match self {
            EvidenceKind::ExactLsp => "EXACT_LSP",
            EvidenceKind::Extracted => "EXTRACTED",
            EvidenceKind::ResolvedCanonical => "RESOLVED",
            EvidenceKind::Inferred => "INFERRED",
            EvidenceKind::Conflict => "CONFLICT",
            EvidenceKind::Parsed => "parsed",
            EvidenceKind::Resolved => "resolved",
            EvidenceKind::Manifest => "manifest",
            EvidenceKind::Literal => "literal",
            EvidenceKind::Toolchain => "toolchain",
            EvidenceKind::Runtime => "runtime",
            EvidenceKind::Custom(value) => value.as_str(),
        }
    }

    /// Creates an application-specific kind without changing this crate.
    ///
    /// Known texts give the known kind; any other text that is non-empty
    /// and has no surrounding white space gives a custom kind; anything
    /// else is refused.
    pub fn custom(value: &str) -> (r: Result<Self>)
        ensures
            r is Ok <==> is_trimmed(value@),
            r matches Ok(k) ==> k.text() == value@ && (k is Custom <==> !reserved_evidence_kind(value@)),
            r matches Err(e) ==> e matches GraphError::InvalidKind { category, value: v }
                && category@ == "evidence"@ && v@ == value@,
    {
        Self::parse_owned(value.to_owned())
    }

    fn parse_owned(value: String) -> (r: Result<Self>)
        ensures
            r is Ok <==> is_trimmed(value@),
            r matches Ok(k) ==> k.text() == value@ && (k is Custom <==> !reserved_evidence_kind(value@)),
            r matches Err(e) ==> e matches GraphError::InvalidKind { category, value: v }
                && category@ == "evidence"@ && v@ == value@,
    {
        if !trimmed(value.as_str()) {
            return Err(GraphError::InvalidKind { category: "evidence", value });
        }
        if text_is(value.as_str(), "EXACT_LSP") {
            return Ok(EvidenceKind::ExactLsp);
        }
        if text_is(value.as_str(), "EXTRACTED") {
            return Ok(EvidenceKind::Extracted);
        }
        if text_is(value.as_str(), "RESOLVED") {
            return Ok(EvidenceKind::ResolvedCanonical);
        }
        if text_is(value.as_str(), "INFERRED") {
            return Ok(EvidenceKind::Inferred);
        }
        if text_is(value.as_str(), "CONFLICT") {
            return Ok(EvidenceKind::Conflict);
        }
        if text_is(value.as_str(), "parsed") {
            return Ok(EvidenceKind::Parsed);
        }
        if text_is(value.as_str(), "resolved") {
            return Ok(EvidenceKind::Resolved);
        }
        if text_is(value.as_str(), "manifest") {
            return Ok(EvidenceKind::Manifest);
        }
        if text_is(value.as_str(), "literal") {
            return Ok(EvidenceKind::Literal);
        }
        if text_is(value.as_str(), "toolchain") {
            return Ok(EvidenceKind::Toolchain);
        }
        if text_is(value.as_str(), "runtime") {
            return Ok(EvidenceKind::Runtime);
        }
        Ok(EvidenceKind::Custom(value))
    }
}

impl Clone for EvidenceKind {
    fn clone(&self) -> (r: Self)
        ensures
            r == *self,
    {
        match self {
            EvidenceKind::ExactLsp => EvidenceKind::ExactLsp,
            EvidenceKind::Extracted => EvidenceKind::Extracted,
            EvidenceKind::ResolvedCanonical => EvidenceKind::ResolvedCanonical,
            EvidenceKind::Inferred => EvidenceKind::Inferred,
            EvidenceKind::Conflict => EvidenceKind::Conflict,
            EvidenceKind::Parsed => EvidenceKind::Parsed,
            EvidenceKind::Resolved => EvidenceKind::Resolved,
            EvidenceKind::Manifest => EvidenceKind::Manifest,
            EvidenceKind::Literal => EvidenceKind::Literal,
            EvidenceKind::Toolchain => EvidenceKind::Toolchain,
            EvidenceKind::Runtime => EvidenceKind::Runtime,
            EvidenceKind::Custom(value) => EvidenceKind::Custom(value.clone()),
        }
    }
}

impl PartialEq for EvidenceKind {
    fn eq(&self, other: &Self) -> (r: bool) {
        match (self, other) {
            (EvidenceKind::Custom(a), EvidenceKind::Custom(b)) => text_is(a.as_str(), b.as_str()),
            (EvidenceKind::ExactLsp, EvidenceKind::ExactLsp) => true,
            (EvidenceKind::Extracted, EvidenceKind::Extracted) => true,
            (EvidenceKind::ResolvedCanonical, EvidenceKind::ResolvedCanonical) => true,
            (EvidenceKind::Inferred, EvidenceKind::Inferred) => true,
            (EvidenceKind::Conflict, EvidenceKind::Conflict) => true,
            (EvidenceKind::Parsed, EvidenceKind::Parsed) => true,
            (EvidenceKind::Resolved, EvidenceKind::Resolved) => true,
            (EvidenceKind::Manifest, EvidenceKind::Manifest) => true,
            (EvidenceKind::Literal, EvidenceKind::Literal) => true,
            (EvidenceKind::Toolchain, EvidenceKind::Toolchain) => true,
            (EvidenceKind::Runtime, EvidenceKind::Runtime) => true,
            _ => false,
        }
    }
}

impl PartialEqSpecImpl for EvidenceKind {
    open spec fn obeys_eq_spec() -> bool {
        true
    }

    open spec fn eq_spec(&self, other: &Self) -> bool {
        self.same(other)
    }
}

impl Eq for EvidenceKind {}

impl core::str::FromStr for EvidenceKind {
    type Err = GraphError;

    fn from_str(value: &str) -> (r: Result<Self>)
        ensures
            r is Ok <==> is_trimmed(value@),
            r matches Ok(k) ==> k.text() == value@ && (k is Custom <==> !reserved_evidence_kind(value@)),
            r matches Err(e) ==> e matches GraphError::InvalidKind { category, value: v }
                && category@ == "evidence"@ && v@ == value@,
    {
        Self::parse_owned(value.to_owned())
    }
}

} // verus!
