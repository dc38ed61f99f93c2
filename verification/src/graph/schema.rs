//! Node and edge type definitions for the code graph.

use vstd::prelude::*;

use crate::text::{str_eq, string_from_chars, chars_of, concat};

verus! {

/// Unique identifier for a graph node (e.g. `path#line:col` or `path::name` placeholder).
#[derive(Debug)]
pub struct NodeId(pub String);

impl View for NodeId {
    type V = Seq<char>;

    open spec fn view(&self) -> Seq<char> {
        self.0@
    }
}

impl Clone for NodeId {
    fn clone(&self) -> (res: Self)
        ensures
            res@ == self@,
    {
        NodeId(self.0.clone())
    }
}

impl NodeId {
    /// An id holding exactly the characters of `s`.
    pub fn new(s: &str) -> (res: Self)
        ensures
            res@ == s@,
    {
        NodeId(s.to_owned())
    }

    /// The id's text.
    pub fn as_str(&self) -> (res: &str)
        ensures
            res@ == self@,
    {
        self.0.as_str()
    }
}

/// Type of a graph node.
#[derive(Clone, Copy, Debug, PartialEq, Eq, Hash, Structural)]
pub enum NodeType {
    File,
    Module,
    Function,
    Struct,
    Enum,
    Trait,
    Impl,
    TypeAlias,
    Const,
    Static,
    Macro,
    CrateRoot,
}

/// Type of a directed edge between nodes.
#[derive(Clone, Copy, Debug, PartialEq, Eq, Hash, Structural)]
pub enum EdgeType {
    Contains,
    Imports,
    Calls,
    References,
    ImplementsTrait,
    Owns,
    Borrows,
    ExpandsTo,
    UsesUnsafe,
    LifetimeScope,
    /// Files that changed together in git history.
    ChangesWith,
}

/// `res` is what parsing `s` as a node type gives: the type named `s`, or the refusal message.
pub open spec fn parses_node_type(s: Seq<char>, res: Result<NodeType, String>) -> bool {
    match res {
        Ok(t) => t.name() == s,
        Err(msg) => (forall|t: NodeType| t.name() != s) && msg@ == "unknown node type: "@
            + debug_quoted(s),
    }
}

/// `res` is what parsing `s` as an edge type gives: the type named `s`, or the refusal message.
pub open spec fn parses_edge_type(s: Seq<char>, res: Result<EdgeType, String>) -> bool {
    match res {
        Ok(t) => t.name() == s,
        Err(msg) => (forall|t: EdgeType| t.name() != s) && msg@ == "unknown edge type: "@
            + debug_quoted(s),
    }
}

/// All node types, in declaration order.
pub open spec fn all_node_types() -> Seq<NodeType> {
    seq![
        NodeType::File,
        NodeType::Module,
        NodeType::Function,
        NodeType::Struct,
        NodeType::Enum,
        NodeType::Trait,
        NodeType::Impl,
        NodeType::TypeAlias,
        NodeType::Const,
        NodeType::Static,
        NodeType::Macro,
        NodeType::CrateRoot,
    ]
}

/// All edge types, in declaration order.
pub open spec fn all_edge_types() -> Seq<EdgeType> {
    seq![
        EdgeType::Contains,
        EdgeType::Imports,
        EdgeType::Calls,
        EdgeType::References,
        EdgeType::ImplementsTrait,
        EdgeType::Owns,
        EdgeType::Borrows,
        EdgeType::ExpandsTo,
        EdgeType::UsesUnsafe,
        EdgeType::LifetimeScope,
        EdgeType::ChangesWith,
    ]
}

impl NodeType {
    /// The snake_case name under which the type is stored and displayed.
    pub open spec fn name(self) -> Seq<char> {
        match self {
            NodeType::File => "file"@,
            NodeType::Module => "module"@,
            NodeType::Function => "function"@,
            NodeType::Struct => "struct"@,
            NodeType::Enum => "enum"@,
            NodeType::Trait => "trait"@,
            NodeType::Impl => "impl"@,
            NodeType::TypeAlias => "type_alias"@,
            NodeType::Const => "const"@,
            NodeType::Static => "static"@,
            NodeType::Macro => "macro"@,
            NodeType::CrateRoot => "crate_root"@,
        }
    }

    /// The snake_case name as a string slice.
    pub fn as_str(&self) -> (res: &'static str)
        ensures
            res@ == self.name(),
    {
        match self {
            NodeType::File => "file",
            NodeType::Module => "module",
            NodeType::Function => "function",
            NodeType::Struct => "struct",
            NodeType::Enum => "enum",
            NodeType::Trait => "trait",
            NodeType::Impl => "impl",
            NodeType::TypeAlias => "type_alias",
            NodeType::Const => "const",
            NodeType::Static => "static",
            NodeType::Macro => "macro",
            NodeType::CrateRoot => "crate_root",
        }
    }

    /// The displayed name (what `Display` gives).
    pub fn to_string(&self) -> (res: String)
        ensures
            res@ == self.name(),
    {
        self.as_str().to_owned()
    }

    /// Parses a snake_case node type name; any other text is refused with a message.
    pub fn from_str(s: &str) -> (res: Result<NodeType, String>)
        ensures
            parses_node_type(s@, res),
    {
        let mut i: usize = 0;
        let all = [
            NodeType::File,
            NodeType::Module,
            NodeType::Function,
            NodeType::Struct,
            NodeType::Enum,
            NodeType::Trait,
            NodeType::Impl,
            NodeType::TypeAlias,
            NodeType::Const,
            NodeType::Static,
            NodeType::Macro,
            NodeType::CrateRoot,
        ];
        assert(all@ == all_node_types());
        while i < 12
            invariant
                i <= 12,
                all@ == all_node_types(),
                forall|k: int| 0 <= k < i ==> all_node_types()[k].name() != s@,
            decreases 12 - i,
        {
            if str_eq(all[i].as_str(), s) {
                return Ok(all[i]);
            }
            i = i + 1;
        }
        assert forall|t: NodeType| t.name() != s@ by {
            assert(all_node_types().contains(t)) by {
                match t {
                    NodeType::File => assert(all_node_types()[0] == t),
                    NodeType::Module => assert(all_node_types()[1] == t),
                    NodeType::Function => assert(all_node_types()[2] == t),
                    NodeType::Struct => assert(all_node_types()[3] == t),
                    NodeType::Enum => assert(all_node_types()[4] == t),
                    NodeType::Trait => assert(all_node_types()[5] == t),
                    NodeType::Impl => assert(all_node_types()[6] == t),
                    NodeType::TypeAlias => assert(all_node_types()[7] == t),
                    NodeType::Const => assert(all_node_types()[8] == t),
                    NodeType::Static => assert(all_node_types()[9] == t),
                    NodeType::Macro => assert(all_node_types()[10] == t),
                    NodeType::CrateRoot => assert(all_node_types()[11] == t),
                }
            }
        }
        Err(unknown_message("unknown node type: ", s))
    }
}

impl EdgeType {
    /// The snake_case name under which the type is stored and displayed.
    pub open spec fn name(self) -> Seq<char> {
        match self {
            EdgeType::Contains => "contains"@,
            EdgeType::Imports => "imports"@,
            EdgeType::Calls => "calls"@,
            EdgeType::References => "references"@,
            EdgeType::ImplementsTrait => "implements_trait"@,
            EdgeType::Owns => "owns"@,
            EdgeType::Borrows => "borrows"@,
            EdgeType::ExpandsTo => "expands_to"@,
            EdgeType::UsesUnsafe => "uses_unsafe"@,
            EdgeType::LifetimeScope => "lifetime_scope"@,
            EdgeType::ChangesWith => "changes_with"@,
        }
    }

    /// The snake_case name as a string slice.
    pub fn as_str(&self) -> (res: &'static str)
        ensures
            res@ == self.name(),
    {
        match self {
            EdgeType::Contains => "contains",
            EdgeType::Imports => "imports",
            EdgeType::Calls => "calls",
            EdgeType::References => "references",
            EdgeType::ImplementsTrait => "implements_trait",
            EdgeType::Owns => "owns",
            EdgeType::Borrows => "borrows",
            EdgeType::ExpandsTo => "expands_to",
            EdgeType::UsesUnsafe => "uses_unsafe",
            EdgeType::LifetimeScope => "lifetime_scope",
            EdgeType::ChangesWith => "changes_with",
        }
    }

    /// The displayed name (what `Display` gives).
    pub fn to_string(&self) -> (res: String)
        ensures
            res@ == self.name(),
    {
        self.as_str().to_owned()
    }

    /// Parses a snake_case edge type name; any other text is refused with a message.
    pub fn from_str(s: &str) -> (res: Result<EdgeType, String>)
        ensures
            parses_edge_type(s@, res),
    {
        let mut i: usize = 0;
        let all = [
            EdgeType::Contains,
            EdgeType::Imports,
            EdgeType::Calls,
            EdgeType::References,
            EdgeType::ImplementsTrait,
            EdgeType::Owns,
            EdgeType::Borrows,
            EdgeType::ExpandsTo,
            EdgeType::UsesUnsafe,
            EdgeType::LifetimeScope,
            EdgeType::ChangesWith,
        ];
        assert(all@ == all_edge_types());
        while i < 11
            invariant
                i <= 11,
                all@ == all_edge_types(),
                forall|k: int| 0 <= k < i ==> all_edge_types()[k].name() != s@,
            decreases 11 - i,
        {
            if str_eq(all[i].as_str(), s) {
                return Ok(all[i]);
            }
            i = i + 1;
        }
        assert forall|t: EdgeType| t.name() != s@ by {
            assert(all_edge_types().contains(t)) by {
                match t {
                    EdgeType::Contains => assert(all_edge_types()[0] == t),
                    EdgeType::Imports => assert(all_edge_types()[1] == t),
                    EdgeType::Calls => assert(all_edge_types()[2] == t),
                    EdgeType::References => assert(all_edge_types()[3] == t),
                    EdgeType::ImplementsTrait => assert(all_edge_types()[4] == t),
                    EdgeType::Owns => assert(all_edge_types()[5] == t),
                    EdgeType::Borrows => assert(all_edge_types()[6] == t),
                    EdgeType::ExpandsTo => assert(all_edge_types()[7] == t),
                    EdgeType::UsesUnsafe => assert(all_edge_types()[8] == t),
                    EdgeType::LifetimeScope => assert(all_edge_types()[9] == t),
                    EdgeType::ChangesWith => assert(all_edge_types()[10] == t),
                }
            }
        }
        Err(unknown_message("unknown edge type: ", s))
    }
}

/// The `Debug` rendering of a string: quoted, with escapes.
pub uninterp spec fn debug_quoted(s: Seq<char>) -> Seq<char>;

/// Renders a string as `{:?}` does (std `Debug` for `str`).
#[verifier::external_body]
fn debug_str(s: &str) -> (res: String)
    ensures
        res@ == debug_quoted(s@),
{
    format!("{s:?}")
}

fn unknown_message(prefix: &str, s: &str) -> (res: String)
    ensures
        res@ == prefix@ + debug_quoted(s@),
{
    let q = debug_str(s);
    let a = chars_of(prefix);
    let b = chars_of(q.as_str());
    let c = concat(a.as_slice(), b.as_slice());
    string_from_chars(c.as_slice())
}

/// Each node type is read back from its own name, and names differ between types.
pub proof fn node_type_name_roundtrip(a: NodeType, b: NodeType)
    ensures
        a.name() == b.name() <==> a == b,
{
    reveal_strlit("file");
    reveal_strlit("module");
    reveal_strlit("function");
    reveal_strlit("struct");
    reveal_strlit("enum");
    reveal_strlit("trait");
    reveal_strlit("impl");
    reveal_strlit("type_alias");
    reveal_strlit("const");
    reveal_strlit("static");
    reveal_strlit("macro");
    reveal_strlit("crate_root");
    if a != b && a.name() == b.name() {
        assert(a.name().len() == b.name().len());
        assert(a.name()[0] == b.name()[0]);
        assert(a.name()[1] == b.name()[1]);
        assert(a.name()[2] == b.name()[2]);
    }
}

/// Each edge type is read back from its own name, and names differ between types.
pub proof fn edge_type_name_roundtrip(a: EdgeType, b: EdgeType)
    ensures
        a.name() == b.name() <==> a == b,
{
    reveal_strlit("contains");
    reveal_strlit("imports");
    reveal_strlit("calls");
    reveal_strlit("references");
    reveal_strlit("implements_trait");
    reveal_strlit("owns");
    reveal_strlit("borrows");
    reveal_strlit("expands_to");
    reveal_strlit("uses_unsafe");
    reveal_strlit("lifetime_scope");
    reveal_strlit("changes_with");
    if a != b && a.name() == b.name() {
        assert(a.name().len() == b.name().len());
        assert(a.name()[0] == b.name()[0]);
        assert(a.name()[1] == b.name()[1]);
        assert(a.name()[2] == b.name()[2]);
        assert(a.name()[a.name().len() - 1] == b.name()[b.name().len() - 1]);
    }
}

/// Parsing the displayed name of a node type gives that type back.
pub proof fn node_type_display_parse_law(t: NodeType, res: Result<NodeType, String>)
    requires
        parses_node_type(t.name(), res),
    ensures
        res == Ok::<NodeType, String>(t),
{
    if let Ok(r) = res {
        node_type_name_roundtrip(r, t);
    }
}

/// Parsing the displayed name of an edge type gives that type back.
pub proof fn edge_type_display_parse_law(t: EdgeType, res: Result<EdgeType, String>)
    requires
        parses_edge_type(t.name(), res),
    ensures
        res == Ok::<EdgeType, String>(t),
{
    if let Ok(r) = res {
        edge_type_name_roundtrip(r, t);
    }
}

} // verus!
