//! Syntax extraction: Rust source, parsed by tree-sitter-rust, into graph nodes and edges.
//!
//! The parse is held as a `SyntaxNode` tree of plain values (kind, text, start position,
//! children). A pre-order walk over it makes a node for each item (function, struct, enum,
//! trait, impl, type alias, const, static, macro, module) with id `file#row:col` (both
//! one-based), a `contains` edge from the enclosing item (or the file) to it, and a `calls`
//! edge from the enclosing item to a placeholder `file::callee` for each call.

use vstd::prelude::*;

use crate::graph::schema::{EdgeType, NodeId, NodeType};
use crate::graph::store::{opt_chars_ref, Store};
use crate::text::{
    chars_eq, chars_of, concat, contains, contains_seq, str_eq, string_from_chars, trim,
    trim_chars,
};

verus! {

/// A node of a syntax tree: its grammar kind, its source text, its start position (zero-based
/// row and column) and its children in order.
#[derive(Debug)]
pub struct SyntaxNode {
    pub kind: String,
    pub text: String,
    pub row: usize,
    pub column: usize,
    pub children: Vec<SyntaxNode>,
}

/// The syntax tree that tree-sitter-rust gives for a source text; none when it gives none.
pub uninterp spec fn rust_syntax(source: Seq<char>) -> Option<SyntaxNode>;

/// Declares tree-sitter's syntax node type, which the parse is read from.
#[verifier::external_type_specification]
#[verifier::external_body]
pub struct ExTreeSitterNode<'a>(tree_sitter::Node<'a>);

/// Parses Rust source with tree-sitter (`Parser::new`, `Parser::set_language` with
/// `tree_sitter_rust::LANGUAGE`, `Parser::parse`) and reads the tree into `SyntaxNode`s.
/// Claimed: the result is `rust_syntax` of the source; tree-sitter's error recovery makes a
/// tree for any text, so this is `None` only when the grammar cannot be loaded.
#[verifier::external_body]
fn parse_rust_syntax(source: &str) -> (res: Option<SyntaxNode>)
    ensures
        res == rust_syntax(source@),
{
    let mut parser = tree_sitter::Parser::new();
    if parser.set_language(&tree_sitter_rust::LANGUAGE.into()).is_err() {
        return None;
    }
    let tree = parser.parse(source, None)?;
    Some(syntax_of(tree.root_node(), source))
}

/// Reads a tree-sitter node and its descendants into a `SyntaxNode` (`Node::kind`,
/// `Node::utf8_text`, `Node::start_position`, `Node::child_count`, `Node::child`): the
/// conversion inside `parse_rust_syntax`, which claims nothing of its own.
#[verifier::external_body]
fn syntax_of(node: tree_sitter::Node<'_>, source: &str) -> SyntaxNode {
    let mut children = Vec::new();
    for i in 0..node.child_count() {
        if let Some(c) = node.child(i) {
            children.push(syntax_of(c, source));
        }
    }
    let text = node.utf8_text(source.as_bytes()).unwrap_or("");
    let start = node.start_position();
    SyntaxNode { kind: node.kind().to_string(), text: text.to_string(), row: start.row, column: start.column, children }
}

/// The kind of a node, as characters.
pub open spec fn kind_of(n: SyntaxNode) -> Seq<char> {
    n.kind@
}

/// The decimal digit for `d` (below ten).
pub open spec fn digit_char(d: nat) -> char {
    if d == 0 {
        '0'
    } else if d == 1 {
        '1'
    } else if d == 2 {
        '2'
    } else if d == 3 {
        '3'
    } else if d == 4 {
        '4'
    } else if d == 5 {
        '5'
    } else if d == 6 {
        '6'
    } else if d == 7 {
        '7'
    } else if d == 8 {
        '8'
    } else {
        '9'
    }
}

/// The decimal form of `n`.
pub open spec fn decimal(n: nat) -> Seq<char>
    decreases n,
{
    if n < 10 {
        seq![digit_char(n)]
    } else {
        decimal(n / 10).push(digit_char(n % 10))
    }
}

/// The id of an item node: `file#row:col`, one-based.
pub open spec fn item_id(file: Seq<char>, n: SyntaxNode) -> Seq<char> {
    file + seq!['#'] + decimal((n.row + 1) as nat) + seq![':'] + decimal((n.column + 1) as nat)
}

/// The node type an item kind makes, if it makes one.
pub open spec fn item_type(kind: Seq<char>) -> Option<NodeType> {
    if kind == "function_item"@ {
        Some(NodeType::Function)
    } else if kind == "struct_item"@ {
        Some(NodeType::Struct)
    } else if kind == "enum_item"@ {
        Some(NodeType::Enum)
    } else if kind == "trait_item"@ {
        Some(NodeType::Trait)
    } else if kind == "impl_item"@ {
        Some(NodeType::Impl)
    } else if kind == "type_item"@ {
        Some(NodeType::TypeAlias)
    } else if kind == "const_item"@ {
        Some(NodeType::Const)
    } else if kind == "static_item"@ {
        Some(NodeType::Static)
    } else if kind == "macro_definition"@ {
        Some(NodeType::Macro)
    } else if kind == "mod_declaration"@ || kind == "mod_item"@ {
        Some(NodeType::Module)
    } else {
        None
    }
}

/// The text of the first of the children from `k` on whose kind is `a` or `b`.
pub open spec fn first_child_text(children: Seq<SyntaxNode>, k: nat, a: Seq<char>, b: Seq<char>) -> Option<Seq<char>>
    decreases children.len() - k,
{
    if k >= children.len() {
        None
    } else if kind_of(children[k as int]) == a || kind_of(children[k as int]) == b {
        Some(children[k as int].text@)
    } else {
        first_child_text(children, k + 1, a, b)
    }
}

/// The name of an item: its first `identifier` or `type_identifier` child.
pub open spec fn name_of(n: SyntaxNode) -> Option<Seq<char>> {
    first_child_text(n.children@, 0, "identifier"@, "type_identifier"@)
}

/// The type an impl block is named by: its first `type_identifier` child (`Point` for
/// `impl Point`, `Draw` for `impl Draw for Point`).
pub open spec fn impl_name(n: SyntaxNode) -> Option<Seq<char>> {
    first_child_text(n.children@, 0, "type_identifier"@, "type_identifier"@)
}

/// An attribute node.
pub open spec fn is_attribute_kind(kind: Seq<char>) -> bool {
    kind == "attribute_item"@ || kind == "outer_attribute_list"@
}

/// Some child from `k` on is an identifier spelled `name`, or (not being an identifier) holds
/// one below it.
pub open spec fn children_hold_identifier(n: SyntaxNode, k: nat, name: Seq<char>) -> bool
    decreases n, n.children@.len() - k,
{
    if k >= n.children@.len() {
        false
    } else {
        let c = n.children@[k as int];
        (if kind_of(c) == "identifier"@ {
            c.text@ == name
        } else {
            children_hold_identifier(c, 0, name)
        }) || children_hold_identifier(n, k + 1, name)
    }
}

/// `#[name]`
pub open spec fn attribute_text(name: Seq<char>) -> Seq<char> {
    seq!['#', '['] + name + seq![']']
}

/// An attribute node that names `name`: by an identifier inside it, by the text `#[name]`, or,
/// for `bench`, by the bare text `[bench]` that error recovery can leave.
pub open spec fn attribute_names(m: SyntaxNode, name: Seq<char>) -> bool {
    is_attribute_kind(kind_of(m)) && (children_hold_identifier(m, 0, name) || contains_seq(
        m.text@,
        attribute_text(name),
    ) || (name == "bench"@ && trim(m.text@) == "[bench]"@))
}

/// `m` or a node below it is an attribute that names `name`.
pub open spec fn has_attribute_node(m: SyntaxNode, name: Seq<char>) -> bool
    decreases m, m.children@.len() + 1,
{
    attribute_names(m, name) || children_have_attribute(m, 0, name)
}

/// One of the children from `k` on (or a node below it) is an attribute that names `name`.
pub open spec fn children_have_attribute(n: SyntaxNode, k: nat, name: Seq<char>) -> bool
    decreases n, n.children@.len() - k,
{
    if k >= n.children@.len() {
        false
    } else {
        has_attribute_node(n.children@[k as int], name) || children_have_attribute(n, k + 1, name)
    }
}

/// The sibling just before an item is an attribute that names `name`.
pub open spec fn prev_attribute(prev: Option<SyntaxNode>, name: Seq<char>) -> bool {
    match prev {
        Some(p) => is_attribute_kind(kind_of(p)) && has_attribute_node(p, name),
        None => false,
    }
}

/// The payload of a function: its name after `pub::` when public, `test::` when a test and
/// `bench::` when a benchmark (a test is not also marked a benchmark).
pub open spec fn function_payload(n: SyntaxNode, prev: Option<SyntaxNode>) -> Option<Seq<char>> {
    match name_of(n) {
        None => None,
        Some(name) => {
            let is_pub = n.children@.len() > 0 && kind_of(n.children@[0]) == "visibility_modifier"@;
            let is_test = children_have_attribute(n, 0, "test"@) || prev_attribute(prev, "test"@);
            let is_bench = children_have_attribute(n, 0, "bench"@) || prev_attribute(prev, "bench"@);
            let prefix = if is_pub && is_test {
                "pub::test::"@
            } else if is_test {
                "test::"@
            } else if is_pub && is_bench {
                "pub::bench::"@
            } else if is_bench {
                "bench::"@
            } else if is_pub {
                "pub::"@
            } else {
                Seq::empty()
            };
            Some(prefix + name)
        },
    }
}

/// The payload of an item node.
pub open spec fn item_payload(n: SyntaxNode, prev: Option<SyntaxNode>) -> Option<Seq<char>> {
    if kind_of(n) == "function_item"@ {
        function_payload(n, prev)
    } else if kind_of(n) == "impl_item"@ {
        impl_name(n)
    } else {
        name_of(n)
    }
}

/// The placeholder a call points at: `file::callee` for a call of a name or a path, and
/// `file::method` for a method call.
pub open spec fn call_target(n: SyntaxNode, file: Seq<char>) -> Option<Seq<char>> {
    if kind_of(n) == "call_expression"@ {
        if n.children@.len() > 0 && (kind_of(n.children@[0]) == "identifier"@ || kind_of(
            n.children@[0],
        ) == "scoped_identifier"@) {
            Some(file + seq![':', ':'] + n.children@[0].text@)
        } else {
            None
        }
    } else if kind_of(n) == "method_call_expression"@ {
        match first_child_text(n.children@, 0, "field_identifier"@, "field_identifier"@) {
            Some(m) => Some(file + seq![':', ':'] + m),
            None => None,
        }
    } else {
        None
    }
}

/// An extracted node: (id, type, payload).
pub type ItemV = (Seq<char>, NodeType, Option<Seq<char>>);

/// An extracted edge: (from, to, type).
pub type LinkV = (Seq<char>, Seq<char>, EdgeType);

/// What the walk extracts from `n` (whose previous sibling is `prev`) under `parent`.
pub open spec fn extract_node(n: SyntaxNode, prev: Option<SyntaxNode>, file: Seq<char>, parent: Seq<char>) -> (Seq<ItemV>, Seq<LinkV>)
    decreases n, n.children@.len() + 1,
{
    match item_type(kind_of(n)) {
        Some(t) => {
            let id = item_id(file, n);
            let (cn, ce) = extract_children(n, 0, file, id);
            (seq![(id, t, item_payload(n, prev))] + cn, seq![(parent, id, EdgeType::Contains)] + ce)
        },
        None => {
            let (cn, ce) = extract_children(n, 0, file, parent);
            let calls = match call_target(n, file) {
                Some(c) => seq![(parent, c, EdgeType::Calls)],
                None => Seq::empty(),
            };
            (cn, calls + ce)
        },
    }
}

/// What the walk extracts from the children of `n` from `k` on, under `parent`.
pub open spec fn extract_children(n: SyntaxNode, k: nat, file: Seq<char>, parent: Seq<char>) -> (Seq<ItemV>, Seq<LinkV>)
    decreases n, n.children@.len() - k,
{
    if k >= n.children@.len() {
        (Seq::empty(), Seq::empty())
    } else {
        let prev = if k == 0 {
            None
        } else {
            Some(n.children@[k - 1])
        };
        let (a, b) = extract_node(n.children@[k as int], prev, file, parent);
        let (c, d) = extract_children(n, k + 1, file, parent);
        (a + c, b + d)
    }
}

/// What extraction gives for a file's tree: the file node, then the items and links of the
/// walk from the root, under the file.
pub open spec fn extract_file(root: SyntaxNode, file: Seq<char>) -> (Seq<ItemV>, Seq<LinkV>) {
    let (n, e) = extract_node(root, None, file, file);
    (seq![(file, NodeType::File, None)] + n, e)
}

/// The decimal digit for `d`, computed.
fn digit(d: usize) -> (res: char)
    requires
        d < 10,
    ensures
        res == digit_char(d as nat),
{
    if d == 0 {
        '0'
    } else if d == 1 {
        '1'
    } else if d == 2 {
        '2'
    } else if d == 3 {
        '3'
    } else if d == 4 {
        '4'
    } else if d == 5 {
        '5'
    } else if d == 6 {
        '6'
    } else if d == 7 {
        '7'
    } else if d == 8 {
        '8'
    } else {
        '9'
    }
}

/// The decimal form of `n`, computed.
pub fn decimal_chars(n: usize) -> (res: Vec<char>)
    ensures
        res@ == decimal(n as nat),
    decreases n,
{
    if n < 10 {
        let mut v: Vec<char> = Vec::new();
        v.push(digit(n));
        assert(v@ =~= seq![digit_char(n as nat)]);
        v
    } else {
        let mut v = decimal_chars(n / 10);
        v.push(digit(n % 10));
        v
    }
}

/// The decimal form of `n + 1`, computed without overflow.
pub fn decimal_succ(n: usize) -> (res: Vec<char>)
    ensures
        res@ == decimal((n + 1) as nat),
    decreases n,
{
    if n < 9 {
        let mut v: Vec<char> = Vec::new();
        v.push(digit(n + 1));
        assert(v@ =~= seq![digit_char((n + 1) as nat)]);
        v
    } else if n % 10 == 9 {
        let mut v = decimal_succ(n / 10);
        v.push('0');
        assert((n + 1) as nat / 10 == n / 10 + 1);
        assert((n + 1) as nat % 10 == 0);
        v
    } else {
        let mut v = decimal_chars(n / 10);
        v.push(digit(n % 10 + 1));
        assert((n + 1) as nat / 10 == n / 10);
        assert((n + 1) as nat % 10 == n % 10 + 1);
        v
    }
}

/// The id of an item node, computed.
fn item_id_chars(file: &[char], n: &SyntaxNode) -> (res: Vec<char>)
    ensures
        res@ == item_id(file@, *n),
{
    let mut v: Vec<char> = Vec::new();
    v.extend_from_slice(file);
    v.push('#');
    let r = decimal_succ(n.row);
    v.extend_from_slice(r.as_slice());
    v.push(':');
    let c = decimal_succ(n.column);
    v.extend_from_slice(c.as_slice());
    assert(v@ =~= item_id(file@, *n));
    v
}

/// The node type an item kind makes, computed.
fn item_type_of(kind: &str) -> (res: Option<NodeType>)
    ensures
        res == item_type(kind@),
{
    if str_eq(kind, "function_item") {
        Some(NodeType::Function)
    } else if str_eq(kind, "struct_item") {
        Some(NodeType::Struct)
    } else if str_eq(kind, "enum_item") {
        Some(NodeType::Enum)
    } else if str_eq(kind, "trait_item") {
        Some(NodeType::Trait)
    } else if str_eq(kind, "impl_item") {
        Some(NodeType::Impl)
    } else if str_eq(kind, "type_item") {
        Some(NodeType::TypeAlias)
    } else if str_eq(kind, "const_item") {
        Some(NodeType::Const)
    } else if str_eq(kind, "static_item") {
        Some(NodeType::Static)
    } else if str_eq(kind, "macro_definition") {
        Some(NodeType::Macro)
    } else if str_eq(kind, "mod_declaration") || str_eq(kind, "mod_item") {
        Some(NodeType::Module)
    } else {
        None
    }
}

/// The text of the first child whose kind is `a` or `b`.
fn first_child_text_of(children: &Vec<SyntaxNode>, a: &str, b: &str) -> (res: Option<String>)
    ensures
        match res {
            Some(t) => first_child_text(children@, 0, a@, b@) == Some(t@),
            None => first_child_text(children@, 0, a@, b@) is None,
        },
{
    let mut k: usize = 0;
    while k < children.len()
        invariant
            k <= children.len(),
            first_child_text(children@, 0, a@, b@) == first_child_text(children@, k as nat, a@, b@),
        decreases children.len() - k,
    {
        let c = &children[k];
        if crate::text::str_eq(c.kind.as_str(), a) || crate::text::str_eq(c.kind.as_str(), b) {
            return Some(c.text.clone());
        }
        k = k + 1;
    }
    None
}

/// Whether a node kind is an attribute kind.
fn is_attribute(kind: &str) -> (res: bool)
    ensures
        res == is_attribute_kind(kind@),
{
    crate::text::str_eq(kind, "attribute_item") || crate::text::str_eq(kind, "outer_attribute_list")
}

/// Whether some child of `n` from `k` on is (or holds) an identifier spelled `name`.
fn children_hold_identifier_exec(n: &SyntaxNode, k: usize, name: &str) -> (res: bool)
    ensures
        res == children_hold_identifier(*n, k as nat, name@),
    decreases n, n.children@.len() - k,
{
    if k >= n.children.len() {
        return false;
    }
    let c = &n.children[k];
    let here = if crate::text::str_eq(c.kind.as_str(), "identifier") {
        crate::text::str_eq(c.text.as_str(), name)
    } else {
        children_hold_identifier_exec(c, 0, name)
    };
    here || children_hold_identifier_exec(n, k + 1, name)
}

/// Whether an attribute node names `name`.
fn attribute_names_exec(m: &SyntaxNode, name: &str) -> (res: bool)
    ensures
        res == attribute_names(*m, name@),
{
    if !is_attribute(m.kind.as_str()) {
        return false;
    }
    if children_hold_identifier_exec(m, 0, name) {
        return true;
    }
    let mut needle: Vec<char> = Vec::new();
    needle.push('#');
    needle.push('[');
    needle.extend_from_slice(chars_of(name).as_slice());
    needle.push(']');
    assert(needle@ =~= attribute_text(name@));
    let text = chars_of(m.text.as_str());
    if contains(text.as_slice(), needle.as_slice()) {
        return true;
    }
    crate::text::str_eq(name, "bench") && chars_eq(
        trim_chars(text.as_slice()).as_slice(),
        chars_of("[bench]").as_slice(),
    )
}

/// Whether `m` or a node below it is an attribute that names `name`.
fn has_attribute_node_exec(m: &SyntaxNode, name: &str) -> (res: bool)
    ensures
        res == has_attribute_node(*m, name@),
    decreases m, m.children@.len() + 1,
{
    attribute_names_exec(m, name) || children_have_attribute_exec(m, 0, name)
}

/// Whether a child of `n` from `k` on (or a node below it) is an attribute naming `name`.
fn children_have_attribute_exec(n: &SyntaxNode, k: usize, name: &str) -> (res: bool)
    ensures
        res == children_have_attribute(*n, k as nat, name@),
    decreases n, n.children@.len() - k,
{
    if k >= n.children.len() {
        return false;
    }
    has_attribute_node_exec(&n.children[k], name) || children_have_attribute_exec(n, k + 1, name)
}

/// Whether the previous sibling is an attribute that names `name`.
fn prev_attribute_exec(prev: Option<&SyntaxNode>, name: &str) -> (res: bool)
    ensures
        res == prev_attribute(match prev {
            Some(p) => Some(*p),
            None => None,
        }, name@),
{
    match prev {
        Some(p) => is_attribute(p.kind.as_str()) && has_attribute_node_exec(p, name),
        None => false,
    }
}

/// The views of an optional sibling.
pub open spec fn opt_node(prev: Option<&SyntaxNode>) -> Option<SyntaxNode> {
    match prev {
        Some(p) => Some(*p),
        None => None,
    }
}

/// The payload of a function item, computed.
fn function_payload_exec(n: &SyntaxNode, prev: Option<&SyntaxNode>) -> (res: Option<String>)
    ensures
        match res {
            Some(p) => function_payload(*n, opt_node(prev)) == Some(p@),
            None => function_payload(*n, opt_node(prev)) is None,
        },
{
    let name = match first_child_text_of(&n.children, "identifier", "type_identifier") {
        Some(x) => x,
        None => return None,
    };
    let is_pub = n.children.len() > 0 && crate::text::str_eq(
        n.children[0].kind.as_str(),
        "visibility_modifier",
    );
    let is_test = children_have_attribute_exec(n, 0, "test") || prev_attribute_exec(prev, "test");
    let is_bench = children_have_attribute_exec(n, 0, "bench") || prev_attribute_exec(prev, "bench");
    let prefix = if is_pub && is_test {
        "pub::test::"
    } else if is_test {
        "test::"
    } else if is_pub && is_bench {
        "pub::bench::"
    } else if is_bench {
        "bench::"
    } else if is_pub {
        "pub::"
    } else {
        ""
    };
    proof {
        reveal_strlit("");
    }
    let p = concat(chars_of(prefix).as_slice(), chars_of(name.as_str()).as_slice());
    Some(string_from_chars(p.as_slice()))
}

/// The payload of an item node, computed.
fn item_payload_exec(n: &SyntaxNode, prev: Option<&SyntaxNode>) -> (res: Option<String>)
    ensures
        opt_string_v(res) == item_payload(*n, opt_node(prev)),
{
    if crate::text::str_eq(n.kind.as_str(), "function_item") {
        function_payload_exec(n, prev)
    } else if crate::text::str_eq(n.kind.as_str(), "impl_item") {
        first_child_text_of(&n.children, "type_identifier", "type_identifier")
    } else {
        first_child_text_of(&n.children, "identifier", "type_identifier")
    }
}

/// The characters of an optional string.
pub open spec fn opt_string_v(p: Option<String>) -> Option<Seq<char>> {
    match p {
        Some(s) => Some(s@),
        None => None,
    }
}

/// The placeholder a call points at, computed.
fn call_target_exec(n: &SyntaxNode, file: &[char]) -> (res: Option<Vec<char>>)
    ensures
        match res {
            Some(c) => call_target(*n, file@) == Some(c@),
            None => call_target(*n, file@) is None,
        },
{
    let mut sep: Vec<char> = Vec::new();
    sep.push(':');
    sep.push(':');
    let head = concat(file, sep.as_slice());
    assert(head@ =~= file@ + seq![':', ':']);
    if crate::text::str_eq(n.kind.as_str(), "call_expression") {
        if n.children.len() > 0 && (crate::text::str_eq(n.children[0].kind.as_str(), "identifier")
            || crate::text::str_eq(n.children[0].kind.as_str(), "scoped_identifier")) {
            Some(concat(head.as_slice(), chars_of(n.children[0].text.as_str()).as_slice()))
        } else {
            None
        }
    } else if crate::text::str_eq(n.kind.as_str(), "method_call_expression") {
        match first_child_text_of(&n.children, "field_identifier", "field_identifier") {
            Some(m) => Some(concat(head.as_slice(), chars_of(m.as_str()).as_slice())),
            None => None,
        }
    } else {
        None
    }
}

/// The views of extracted nodes.
pub open spec fn items_v(v: Seq<(NodeId, NodeType, Option<String>)>) -> Seq<ItemV> {
    v.map_values(|x: (NodeId, NodeType, Option<String>)| (x.0@, x.1, opt_string_v(x.2)))
}

/// The views of extracted edges.
pub open spec fn links_v(v: Seq<(NodeId, NodeId, EdgeType)>) -> Seq<LinkV> {
    v.map_values(|x: (NodeId, NodeId, EdgeType)| (x.0@, x.1@, x.2))
}

/// The pre-order walk: appends what `extract_node` gives for `n` under `parent`.
fn traverse(
    n: &SyntaxNode,
    prev: Option<&SyntaxNode>,
    file: &[char],
    parent: &[char],
    nodes: &mut Vec<(NodeId, NodeType, Option<String>)>,
    edges: &mut Vec<(NodeId, NodeId, EdgeType)>,
)
    ensures
        items_v(final(nodes)@) == items_v(old(nodes)@) + extract_node(*n, opt_node(prev), file@, parent@).0,
        links_v(final(edges)@) == links_v(old(edges)@) + extract_node(*n, opt_node(prev), file@, parent@).1,
    decreases n, n.children@.len() + 1,
{
    let ghost n0 = items_v(nodes@);
    let ghost e0 = links_v(edges@);
    match item_type_of(n.kind.as_str()) {
        Some(t) => {
            let id = item_id_chars(file, n);
            let payload = item_payload_exec(n, prev);
            let id_s = string_from_chars(id.as_slice());
            nodes.push((NodeId(id_s.clone()), t, payload));
            edges.push((NodeId(string_from_chars(parent)), NodeId(id_s), EdgeType::Contains));
            proof {
                assert(items_v(nodes@) =~= n0 + seq![(id@, t, item_payload(*n, opt_node(prev)))]);
                assert(links_v(edges@) =~= e0 + seq![(parent@, id@, EdgeType::Contains)]);
            }
            let ghost n1 = items_v(nodes@);
            let ghost e1 = links_v(edges@);
            traverse_children(n, 0, file, id.as_slice(), nodes, edges);
            proof {
                let (cn, ce) = extract_children(*n, 0, file@, id@);
                assert(items_v(nodes@) =~= n0 + (seq![(id@, t, item_payload(*n, opt_node(prev)))] + cn));
                assert(links_v(edges@) =~= e0 + (seq![(parent@, id@, EdgeType::Contains)] + ce));
            }
        },
        None => {
            match call_target_exec(n, file) {
                Some(c) => {
                    edges.push(
                        (
                            NodeId(string_from_chars(parent)),
                            NodeId(string_from_chars(c.as_slice())),
                            EdgeType::Calls,
                        ),
                    );
                    assert(links_v(edges@) =~= e0 + seq![(parent@, c@, EdgeType::Calls)]);
                },
                None => {},
            }
            let ghost e1 = links_v(edges@);
            traverse_children(n, 0, file, parent, nodes, edges);
            proof {
                let (cn, ce) = extract_children(*n, 0, file@, parent@);
                let calls = match call_target(*n, file@) {
                    Some(c) => seq![(parent@, c, EdgeType::Calls)],
                    None => Seq::<LinkV>::empty(),
                };
                assert(e1 == e0 + calls);
                assert(links_v(edges@) =~= e0 + (calls + ce));
            }
        },
    }
}

/// The walk over the children of `n` from `k` on.
fn traverse_children(
    n: &SyntaxNode,
    k: usize,
    file: &[char],
    parent: &[char],
    nodes: &mut Vec<(NodeId, NodeType, Option<String>)>,
    edges: &mut Vec<(NodeId, NodeId, EdgeType)>,
)
    ensures
        items_v(final(nodes)@) == items_v(old(nodes)@) + extract_children(*n, k as nat, file@, parent@).0,
        links_v(final(edges)@) == links_v(old(edges)@) + extract_children(*n, k as nat, file@, parent@).1,
    decreases n, n.children@.len() - k,
{
    if k >= n.children.len() {
        assert(items_v(nodes@) =~= items_v(nodes@) + Seq::<ItemV>::empty());
        assert(links_v(edges@) =~= links_v(edges@) + Seq::<LinkV>::empty());
        return;
    }
    let ghost n0 = items_v(nodes@);
    let ghost e0 = links_v(edges@);
    let prev = if k == 0 {
        None
    } else {
        Some(&n.children[k - 1])
    };
    traverse(&n.children[k], prev, file, parent, nodes, edges);
    traverse_children(n, k + 1, file, parent, nodes, edges);
    proof {
        let p = if k == 0 {
            None
        } else {
            Some(n.children@[k - 1])
        };
        assert(opt_node(prev) == p);
        let (a, b) = extract_node(n.children@[k as int], p, file@, parent@);
        let (c, d) = extract_children(*n, (k + 1) as nat, file@, parent@);
        assert(items_v(nodes@) =~= n0 + (a + c));
        assert(links_v(edges@) =~= e0 + (b + d));
    }
}

/// The nodes and edges of a file's syntax tree: the file node, then for each item a node and
/// a `contains` edge from its enclosing item, and for each call a `calls` edge to its
/// placeholder target.
pub fn extract_syntax(root: &SyntaxNode, file_id: &str) -> (res: (Vec<(NodeId, NodeType, Option<String>)>, Vec<(NodeId, NodeId, EdgeType)>))
    ensures
        (items_v(res.0@), links_v(res.1@)) == extract_file(*root, file_id@),
{
    let file = chars_of(file_id);
    let mut nodes: Vec<(NodeId, NodeType, Option<String>)> = Vec::new();
    nodes.push((NodeId::new(file_id), NodeType::File, None));
    let mut edges: Vec<(NodeId, NodeId, EdgeType)> = Vec::new();
    assert(items_v(nodes@) =~= seq![(file_id@, NodeType::File, None::<Seq<char>>)]);
    assert(links_v(edges@) =~= Seq::<LinkV>::empty());
    traverse(root, None, file.as_slice(), file.as_slice(), &mut nodes, &mut edges);
    assert(links_v(edges@) =~= extract_file(*root, file_id@).1);
    (nodes, edges)
}

/// A node map with the extracted nodes put in, in order (a later node with the same id
/// replaces an earlier one).
pub open spec fn insert_items(
    m: Map<Seq<char>, (Seq<char>, Option<Seq<char>>)>,
    items: Seq<ItemV>,
) -> Map<Seq<char>, (Seq<char>, Option<Seq<char>>)>
    decreases items.len(),
{
    if items.len() == 0 {
        m
    } else {
        insert_items(m, items.drop_last()).insert(items.last().0, (items.last().1.name(), items.last().2))
    }
}

/// The stored rows of extracted edges.
pub open spec fn link_rows(links: Seq<LinkV>) -> Set<(Seq<char>, Seq<char>, Seq<char>)> {
    links.map_values(|l: LinkV| (l.0, l.1, l.2.name())).to_set()
}

/// `new` is `old` with the extraction of `root` for `file` written in.
pub open spec fn extraction_written(old: Store, new: Store, root: SyntaxNode, file: Seq<char>) -> bool {
    &&& new.wf()
    &&& new.node_map() == insert_items(old.node_map(), extract_file(root, file).0)
    &&& new.edge_set() == old.edge_set().union(link_rows(extract_file(root, file).1))
    &&& new.dead_rows() == old.dead_rows()
}

/// Write extracted nodes and edges into the store.
pub fn write_extraction(
    store: &mut Store,
    nodes: &Vec<(NodeId, NodeType, Option<String>)>,
    edges: &Vec<(NodeId, NodeId, EdgeType)>,
)
    requires
        old(store).wf(),
    ensures
        final(store).wf(),
        final(store).node_map() == insert_items(old(store).node_map(), items_v(nodes@)),
        final(store).edge_set() == old(store).edge_set().union(link_rows(links_v(edges@))),
        final(store).dead_rows() == old(store).dead_rows(),
{
    let ghost iv = items_v(nodes@);
    let ghost lv = links_v(edges@);
    let mut i: usize = 0;
    assert(iv.take(0) =~= Seq::<ItemV>::empty());
    while i < nodes.len()
        invariant
            i <= nodes.len(),
            iv == items_v(nodes@),
            store.wf(),
            store.node_map() == insert_items(old(store).node_map(), iv.take(i as int)),
            store.edge_set() == old(store).edge_set(),
            store.dead_rows() == old(store).dead_rows(),
        decreases nodes.len() - i,
    {
        let (id, t, p) = &nodes[i];
        let pr: Option<&str> = match p {
            Some(x) => Some(x.as_str()),
            None => None,
        };
        store.put_node(id, t, pr);
        proof {
            assert(iv.take(i + 1).drop_last() =~= iv.take(i as int));
            assert(iv.take(i + 1).last() == iv[i as int]);
            assert(opt_chars_ref(pr) == iv[i as int].2);
        }
        i = i + 1;
    }
    assert(iv.take(nodes.len() as int) =~= iv);
    let ghost rows = lv.map_values(|l: LinkV| (l.0, l.1, l.2.name()));
    let mut j: usize = 0;
    assert(rows.take(0).to_set() =~= Set::<(Seq<char>, Seq<char>, Seq<char>)>::empty());
    while j < edges.len()
        invariant
            j <= edges.len(),
            lv == links_v(edges@),
            rows == lv.map_values(|l: LinkV| (l.0, l.1, l.2.name())),
            store.wf(),
            store.node_map() == insert_items(old(store).node_map(), iv),
            store.edge_set() == old(store).edge_set().union(rows.take(j as int).to_set()),
            store.dead_rows() == old(store).dead_rows(),
        decreases edges.len() - j,
    {
        let (from, to, t) = &edges[j];
        store.put_edge(from, to, t);
        proof {
            assert(rows[j as int] == (from@, to@, t.name()));
            assert(rows.take(j + 1) =~= rows.take(j as int).push(rows[j as int]));
            crate::pipeline::modules::lemma_push_to_set_insert(rows.take(j as int), rows[j as int]);
            assert(store.edge_set() =~= old(store).edge_set().union(rows.take(j + 1).to_set()));
        }
        j = j + 1;
    }
    assert(rows.take(edges.len() as int) =~= rows);
}

/// Extract graph nodes and edges from Rust source and write them to the store; the file's id
/// is its path. Fails, with the store unchanged, when no syntax tree can be had.
pub fn extract_ast(store: &mut Store, path: &str, content: &str) -> (res: Result<(), String>)
    requires
        old(store).wf(),
    ensures
        match rust_syntax(content@) {
            Some(root) => res is Ok && extraction_written(*old(store), *final(store), root, path@),
            None => res is Err && *final(store) == *old(store),
        },
{
    match parse_rust_syntax(content) {
        None => {
            let msg = concat(
                chars_of("parse failed: no tree returned for ").as_slice(),
                chars_of(path).as_slice(),
            );
            Err(string_from_chars(msg.as_slice()))
        },
        Some(root) => {
            let (nodes, edges) = extract_syntax(&root, path);
            write_extraction(store, &nodes, &edges);
            Ok(())
        },
    }
}

/// The texts of the `use` declarations of a tree, in pre-order.
pub open spec fn use_decl_texts(n: SyntaxNode) -> Seq<Seq<char>>
    decreases n, n.children@.len() + 1,
{
    (if kind_of(n) == "use_declaration"@ {
        seq![n.text@]
    } else {
        Seq::empty()
    }) + use_decl_texts_from(n, 0)
}

/// The `use` declaration texts below the children of `n` from `k` on.
pub open spec fn use_decl_texts_from(n: SyntaxNode, k: nat) -> Seq<Seq<char>>
    decreases n, n.children@.len() - k,
{
    if k >= n.children@.len() {
        Seq::empty()
    } else {
        use_decl_texts(n.children@[k as int]) + use_decl_texts_from(n, k + 1)
    }
}

/// `s` without its trailing `;`s.
pub open spec fn strip_semicolons(s: Seq<char>) -> Seq<char>
    decreases s.len(),
{
    if s.len() > 0 && s.last() == ';' {
        strip_semicolons(s.drop_last())
    } else {
        s
    }
}

/// The path of a `use` declaration: its text without `use `, trailing `;`s and surrounding
/// whitespace; none when nothing is left.
pub open spec fn use_path_of_text(text: Seq<char>) -> Option<Seq<char>> {
    let a = if crate::text::has_prefix(text, "use "@) {
        text.skip("use "@.len() as int)
    } else {
        text
    };
    let b = trim(strip_semicolons(a));
    if b.len() == 0 {
        None
    } else {
        Some(b)
    }
}

/// The paths of the given `use` declaration texts, in order.
pub open spec fn use_paths_of_texts(texts: Seq<Seq<char>>) -> Seq<Seq<char>>
    decreases texts.len(),
{
    if texts.len() == 0 {
        Seq::empty()
    } else {
        let prev = use_paths_of_texts(texts.drop_last());
        match use_path_of_text(texts.last()) {
            Some(p) => prev.push(p),
            None => prev,
        }
    }
}

/// The texts of the `use` declarations, computed.
fn collect_use_texts(n: &SyntaxNode, out: &mut Vec<String>)
    ensures
        crate::graph::store::strings_v(final(out)@) == crate::graph::store::strings_v(old(out)@)
            + use_decl_texts(*n),
    decreases n, n.children@.len() + 1,
{
    let ghost o0 = crate::graph::store::strings_v(out@);
    if str_eq(n.kind.as_str(), "use_declaration") {
        out.push(n.text.clone());
        assert(crate::graph::store::strings_v(out@) =~= o0 + seq![n.text@]);
    } else {
        assert(crate::graph::store::strings_v(out@) =~= o0 + Seq::<Seq<char>>::empty());
    }
    let ghost o1 = crate::graph::store::strings_v(out@);
    collect_use_texts_from(n, 0, out);
    assert(crate::graph::store::strings_v(out@) =~= o0 + use_decl_texts(*n));
}

/// The `use` declaration texts below the children of `n` from `k` on, computed.
fn collect_use_texts_from(n: &SyntaxNode, k: usize, out: &mut Vec<String>)
    ensures
        crate::graph::store::strings_v(final(out)@) == crate::graph::store::strings_v(old(out)@)
            + use_decl_texts_from(*n, k as nat),
    decreases n, n.children@.len() - k,
{
    if k >= n.children.len() {
        assert(crate::graph::store::strings_v(out@) =~= crate::graph::store::strings_v(out@)
            + Seq::<Seq<char>>::empty());
        return;
    }
    let ghost o0 = crate::graph::store::strings_v(out@);
    collect_use_texts(&n.children[k], out);
    collect_use_texts_from(n, k + 1, out);
    assert(crate::graph::store::strings_v(out@) =~= o0 + use_decl_texts_from(*n, k as nat));
}

/// `s` without its trailing `;`s, computed.
fn strip_semicolons_exec(s: &[char]) -> (res: Vec<char>)
    ensures
        res@ == strip_semicolons(s@),
{
    let mut n: usize = s.len();
    assert(s@.take(s.len() as int) =~= s@);
    while n > 0 && s[n - 1] == ';'
        invariant
            n <= s.len(),
            strip_semicolons(s@) == strip_semicolons(s@.take(n as int)),
        decreases n,
    {
        assert(s@.take(n as int).drop_last() =~= s@.take(n - 1));
        n = n - 1;
    }
    slice_range_all(s, n)
}

/// The first `n` characters of `s`.
fn slice_range_all(s: &[char], n: usize) -> (res: Vec<char>)
    requires
        n <= s.len(),
    ensures
        res@ == s@.take(n as int),
{
    let r = crate::text::slice_range(s, 0, n);
    assert(r@ =~= s@.take(n as int));
    r
}

/// The path of a `use` declaration text, computed.
fn use_path_of_text_exec(text: &str) -> (res: Option<String>)
    ensures
        opt_string_v(res) == use_path_of_text(text@),
{
    let t = chars_of(text);
    let pre = chars_of("use ");
    let a = if crate::text::starts_with(t.as_slice(), pre.as_slice()) {
        crate::text::slice_range(t.as_slice(), pre.len(), t.len())
    } else {
        crate::text::slice_range(t.as_slice(), 0, t.len())
    };
    assert(a@ =~= (if crate::text::has_prefix(text@, "use "@) {
        text@.skip("use "@.len() as int)
    } else {
        text@
    }));
    let b = trim_chars(strip_semicolons_exec(a.as_slice()).as_slice());
    if b.len() == 0 {
        None
    } else {
        Some(string_from_chars(b.as_slice()))
    }
}

/// The `use` paths of a syntax tree, in pre-order.
pub fn use_paths_of_tree(root: &SyntaxNode) -> (res: Vec<String>)
    ensures
        crate::graph::store::strings_v(res@) == use_paths_of_texts(use_decl_texts(*root)),
{
    let mut texts: Vec<String> = Vec::new();
    collect_use_texts(root, &mut texts);
    let ghost tv = crate::graph::store::strings_v(texts@);
    assert(tv =~= use_decl_texts(*root));
    let mut res: Vec<String> = Vec::new();
    let mut i: usize = 0;
    assert(tv.take(0) =~= Seq::<Seq<char>>::empty());
    while i < texts.len()
        invariant
            i <= texts.len(),
            tv == crate::graph::store::strings_v(texts@),
            crate::graph::store::strings_v(res@) == use_paths_of_texts(tv.take(i as int)),
        decreases texts.len() - i,
    {
        proof {
            assert(tv.take(i + 1).drop_last() =~= tv.take(i as int));
            assert(tv.take(i + 1).last() == texts@[i as int]@);
        }
        match use_path_of_text_exec(texts[i].as_str()) {
            Some(p) => {
                let ghost before = crate::graph::store::strings_v(res@);
                let ghost pv = p@;
                res.push(p);
                assert(crate::graph::store::strings_v(res@) =~= before.push(pv));
            },
            None => {},
        }
        i = i + 1;
    }
    assert(tv.take(texts.len() as int) =~= tv);
    res
}

/// Collect the `use` paths of Rust source (none when no syntax tree can be had).
pub fn collect_use_paths(content: &str) -> (res: Vec<String>)
    ensures
        match rust_syntax(content@) {
            Some(root) => crate::graph::store::strings_v(res@) == use_paths_of_texts(use_decl_texts(root)),
            None => res@.len() == 0,
        },
{
    match parse_rust_syntax(content) {
        Some(root) => use_paths_of_tree(&root),
        None => Vec::new(),
    }
}

} // verus!

verus! {

/// The `contains` links, in order.
pub open spec fn contains_links(links: Seq<LinkV>) -> Seq<LinkV> {
    links.filter(|l: LinkV| l.2 == EdgeType::Contains)
}

/// The walk's output under `parent` is a tree: the `k`-th `contains` link points at the
/// `k`-th item and comes from `parent` or from an earlier item; every item id is
/// `file#...`; and every `calls` link comes from `parent` or from an item.
pub open spec fn tree_shaped(items: Seq<ItemV>, links: Seq<LinkV>, parent: Seq<char>, file: Seq<char>) -> bool {
    &&& contains_links(links).len() == items.len()
    &&& forall|k: int|
        0 <= k < items.len() ==> #[trigger] contains_links(links)[k].1 == items[k].0 && (
        contains_links(links)[k].0 == parent || exists|j: int| 0 <= j < k && contains_links(links)[k].0 == items[j].0)
    &&& forall|k: int| 0 <= k < items.len() ==> crate::text::has_prefix(#[trigger] items[k].0, file + seq!['#'])
    &&& forall|i: int|
        0 <= i < links.len() && #[trigger] links[i].2 == EdgeType::Calls ==> links[i].0 == parent || exists|j: int|
            0 <= j < items.len() && links[i].0 == items[j].0
}

proof fn lemma_shape_concat(
    a: Seq<ItemV>,
    b: Seq<LinkV>,
    c: Seq<ItemV>,
    d: Seq<LinkV>,
    parent: Seq<char>,
    file: Seq<char>,
)
    requires
        tree_shaped(a, b, parent, file),
        tree_shaped(c, d, parent, file),
    ensures
        tree_shaped(a + c, b + d, parent, file),
{
    broadcast use Seq::filter_distributes_over_add;
    let cb = contains_links(b);
    let cd = contains_links(d);
    assert(contains_links(b + d) == cb + cd);
    let items = a + c;
    let cl = cb + cd;
    assert forall|k: int| 0 <= k < items.len() implies #[trigger] contains_links(b + d)[k].1 == items[k].0 && (
        contains_links(b + d)[k].0 == parent || exists|j: int| 0 <= j < k && contains_links(b + d)[k].0 == items[j].0) by {
        if k < a.len() {
            assert(cl[k] == cb[k] && items[k] == a[k]);
            assert(cb[k].1 == a[k].0);
            if cb[k].0 != parent {
                let j = choose|j: int| 0 <= j < k && cb[k].0 == a[j].0;
                assert(items[j] == a[j]);
            }
        } else {
            let k2 = k - a.len();
            assert(cl[k] == cd[k2] && items[k] == c[k2]);
            assert(cd[k2].1 == c[k2].0);
            if cd[k2].0 != parent {
                let j = choose|j: int| 0 <= j < k2 && cd[k2].0 == c[j].0;
                assert(items[j + a.len()] == c[j]);
            }
        }
    }
    assert forall|k: int| 0 <= k < items.len() implies crate::text::has_prefix(#[trigger] items[k].0, file + seq!['#']) by {
        if k < a.len() {
            assert(items[k] == a[k]);
        } else {
            assert(items[k] == c[k - a.len()]);
        }
    }
    let links = b + d;
    assert forall|i: int|
        0 <= i < links.len() && #[trigger] links[i].2 == EdgeType::Calls implies links[i].0 == parent || exists|j: int|
            0 <= j < items.len() && links[i].0 == items[j].0 by {
        if i < b.len() {
            assert(links[i] == b[i]);
            if b[i].0 != parent {
                let j = choose|j: int| 0 <= j < a.len() && b[i].0 == a[j].0;
                assert(items[j] == a[j]);
            }
        } else {
            assert(links[i] == d[i - b.len()]);
            if d[i - b.len()].0 != parent {
                let j = choose|j: int| 0 <= j < c.len() && d[i - b.len()].0 == c[j].0;
                assert(items[j + a.len()] == c[j]);
            }
        }
    }
}

#[verifier::spinoff_prover]
proof fn lemma_node_shape(n: SyntaxNode, prev: Option<SyntaxNode>, file: Seq<char>, parent: Seq<char>)
    ensures
        tree_shaped(extract_node(n, prev, file, parent).0, extract_node(n, prev, file, parent).1, parent, file),
    decreases n, n.children@.len() + 1,
{
    broadcast use Seq::filter_distributes_over_add;
    match item_type(kind_of(n)) {
        Some(t) => {
            let id = item_id(file, n);
            lemma_children_shape(n, 0, file, id);
            let (cn, ce) = extract_children(n, 0, file, id);
            let head_i = seq![(id, t, item_payload(n, prev))];
            let head_l = seq![(parent, id, EdgeType::Contains)];
            let items = head_i + cn;
            let links = head_l + ce;
            assert(contains_links(head_l) =~= head_l) by {
                reveal_with_fuel(Seq::filter, 2);
            }
            assert(contains_links(links) == head_l + contains_links(ce));
            let cl = contains_links(links);
            let cc = contains_links(ce);
            assert forall|k: int| 0 <= k < items.len() implies #[trigger] contains_links(links)[k].1 == items[k].0 && (
                contains_links(links)[k].0 == parent || exists|j: int| 0 <= j < k && contains_links(links)[k].0 == items[j].0) by {
                if k > 0 {
                    assert(cl[k] == cc[k - 1] && items[k] == cn[k - 1]);
                    assert(cc[k - 1].1 == cn[k - 1].0);
                    if cc[k - 1].0 == id {
                        assert(items[0].0 == id);
                    } else {
                        let j = choose|j: int| 0 <= j < k - 1 && cc[k - 1].0 == cn[j].0;
                        assert(items[j + 1] == cn[j]);
                    }
                }
            }
            assert forall|k: int| 0 <= k < items.len() implies crate::text::has_prefix(#[trigger] items[k].0, file + seq!['#']) by {
                if k == 0 {
                    let rest = decimal((n.row + 1) as nat) + seq![':'] + decimal((n.column + 1) as nat);
                    assert(id =~= (file + seq!['#']) + rest);
                    assert(id.take((file + seq!['#']).len() as int) =~= file + seq!['#']);
                } else {
                    assert(items[k] == cn[k - 1]);
                }
            }
            assert forall|i: int|
                0 <= i < links.len() && #[trigger] links[i].2 == EdgeType::Calls implies links[i].0 == parent || exists|j: int|
                    0 <= j < items.len() && links[i].0 == items[j].0 by {
                if i > 0 {
                    assert(links[i] == ce[i - 1]);
                    if ce[i - 1].0 == id {
                        assert(items[0].0 == id);
                    } else {
                        let j = choose|j: int| 0 <= j < cn.len() && ce[i - 1].0 == cn[j].0;
                        assert(items[j + 1] == cn[j]);
                    }
                }
            }
        },
        None => {
            lemma_children_shape(n, 0, file, parent);
            let (cn, ce) = extract_children(n, 0, file, parent);
            let calls = match call_target(n, file) {
                Some(c) => seq![(parent, c, EdgeType::Calls)],
                None => Seq::empty(),
            };
            let links = calls + ce;
            assert(contains_links(calls) =~= Seq::<LinkV>::empty()) by {
                reveal_with_fuel(Seq::filter, 2);
            }
            assert(contains_links(links) == contains_links(calls) + contains_links(ce));
            assert(contains_links(links) =~= contains_links(ce));
            assert forall|i: int|
                0 <= i < links.len() && #[trigger] links[i].2 == EdgeType::Calls implies links[i].0 == parent || exists|j: int|
                    0 <= j < cn.len() && links[i].0 == cn[j].0 by {
                if i >= calls.len() {
                    assert(links[i] == ce[i - calls.len()]);
                }
            }
        },
    }
}

proof fn lemma_children_shape(n: SyntaxNode, k: nat, file: Seq<char>, parent: Seq<char>)
    ensures
        tree_shaped(extract_children(n, k, file, parent).0, extract_children(n, k, file, parent).1, parent, file),
    decreases n, n.children@.len() - k,
{
    if k >= n.children@.len() {
        assert(contains_links(Seq::<LinkV>::empty()) =~= Seq::<LinkV>::empty());
    } else {
        let prev = if k == 0 {
            None
        } else {
            Some(n.children@[k - 1])
        };
        lemma_node_shape(n.children@[k as int], prev, file, parent);
        lemma_children_shape(n, k + 1, file, parent);
        let (a, b) = extract_node(n.children@[k as int], prev, file, parent);
        let (c, d) = extract_children(n, k + 1, file, parent);
        lemma_shape_concat(a, b, c, d, parent, file);
    }
}

/// The node reached from `n` by following the child positions in `path`.
pub open spec fn node_at(n: SyntaxNode, path: Seq<int>) -> Option<SyntaxNode>
    decreases path.len(),
{
    if path.len() == 0 {
        Some(n)
    } else if 0 <= path[0] < n.children@.len() {
        node_at(n.children@[path[0]], path.skip(1))
    } else {
        None
    }
}

/// The id of the innermost item strictly above the node at `path` below `n`; `parent` when no
/// item stands between them.
pub open spec fn enclosing_id(n: SyntaxNode, path: Seq<int>, file: Seq<char>, parent: Seq<char>) -> Seq<char>
    decreases path.len(),
{
    if path.len() == 0 {
        parent
    } else {
        let here = if item_type(kind_of(n)) is Some {
            item_id(file, n)
        } else {
            parent
        };
        if 0 <= path[0] < n.children@.len() {
            enclosing_id(n.children@[path[0]], path.skip(1), file, here)
        } else {
            here
        }
    }
}

/// What the walk owes for the node `m` whose innermost enclosing item is `from`: an item gets
/// a node `file#row:col` of its type and a `contains` link from `from`; a call gets a `calls`
/// link from `from` to its placeholder.
pub open spec fn found_in(items: Seq<ItemV>, links: Seq<LinkV>, from: Seq<char>, m: SyntaxNode, file: Seq<char>) -> bool {
    match item_type(kind_of(m)) {
        Some(t) => links.contains((from, item_id(file, m), EdgeType::Contains)) && exists|k: int|
            0 <= k < items.len() && #[trigger] items[k].0 == item_id(file, m) && items[k].1 == t,
        None => match call_target(m, file) {
            Some(c) => links.contains((from, c, EdgeType::Calls)),
            None => true,
        },
    }
}

/// Every node below `n` (and `n` itself) is found in the walk's output under `parent`.
pub open spec fn covers(n: SyntaxNode, file: Seq<char>, parent: Seq<char>, items: Seq<ItemV>, links: Seq<LinkV>) -> bool {
    forall|path: Seq<int>|
        #[trigger] node_at(n, path) is Some ==> found_in(
            items,
            links,
            enclosing_id(n, path, file, parent),
            node_at(n, path)->0,
            file,
        )
}

/// Every node below the children of `n` from the `k`-th on is found in the output under
/// `parent`.
pub open spec fn covers_from(n: SyntaxNode, k: nat, file: Seq<char>, parent: Seq<char>, items: Seq<ItemV>, links: Seq<LinkV>) -> bool {
    forall|j: int, path: Seq<int>|
        k <= j < n.children@.len() && #[trigger] node_at(n.children@[j], path) is Some ==> found_in(
            items,
            links,
            enclosing_id(n.children@[j], path, file, parent),
            node_at(n.children@[j], path)->0,
            file,
        )
}

proof fn lemma_found_grows(
    a: Seq<ItemV>,
    b: Seq<LinkV>,
    c: Seq<ItemV>,
    d: Seq<LinkV>,
    from: Seq<char>,
    m: SyntaxNode,
    file: Seq<char>,
    left: bool,
)
    requires
        left ==> found_in(a, b, from, m, file),
        !left ==> found_in(c, d, from, m, file),
    ensures
        found_in(a + c, b + d, from, m, file),
{
    let items = a + c;
    let links = b + d;
    match item_type(kind_of(m)) {
        Some(t) => {
            if left {
                let l = choose|i: int| 0 <= i < b.len() && b[i] == (from, item_id(file, m), EdgeType::Contains);
                assert(links[l] == b[l]);
                let k = choose|k: int| 0 <= k < a.len() && #[trigger] a[k].0 == item_id(file, m) && a[k].1 == t;
                assert(items[k] == a[k]);
            } else {
                let l = choose|i: int| 0 <= i < d.len() && d[i] == (from, item_id(file, m), EdgeType::Contains);
                assert(links[l + b.len()] == d[l]);
                let k = choose|k: int| 0 <= k < c.len() && #[trigger] c[k].0 == item_id(file, m) && c[k].1 == t;
                assert(items[k + a.len()] == c[k]);
            }
        },
        None => match call_target(m, file) {
            Some(cc) => {
                if left {
                    let l = choose|i: int| 0 <= i < b.len() && b[i] == (from, cc, EdgeType::Calls);
                    assert(links[l] == b[l]);
                } else {
                    let l = choose|i: int| 0 <= i < d.len() && d[i] == (from, cc, EdgeType::Calls);
                    assert(links[l + b.len()] == d[l]);
                }
            },
            None => {},
        },
    }
}

proof fn lemma_node_covers(n: SyntaxNode, prev: Option<SyntaxNode>, file: Seq<char>, parent: Seq<char>)
    ensures
        covers(n, file, parent, extract_node(n, prev, file, parent).0, extract_node(n, prev, file, parent).1),
    decreases n, n.children@.len() + 1,
{
    let here = if item_type(kind_of(n)) is Some {
        item_id(file, n)
    } else {
        parent
    };
    lemma_children_cover(n, 0, file, here);
    let (cn, ce) = extract_children(n, 0, file, here);
    let (items, links) = extract_node(n, prev, file, parent);
    let head_i: Seq<ItemV> = match item_type(kind_of(n)) {
        Some(t) => seq![(item_id(file, n), t, item_payload(n, prev))],
        None => Seq::empty(),
    };
    let head_l: Seq<LinkV> = match item_type(kind_of(n)) {
        Some(t) => seq![(parent, item_id(file, n), EdgeType::Contains)],
        None => match call_target(n, file) {
            Some(c) => seq![(parent, c, EdgeType::Calls)],
            None => Seq::empty(),
        },
    };
    assert(items =~= head_i + cn);
    assert(links =~= head_l + ce);
    assert forall|path: Seq<int>| #[trigger] node_at(n, path) is Some implies found_in(
        items,
        links,
        enclosing_id(n, path, file, parent),
        node_at(n, path)->0,
        file,
    ) by {
        if path.len() == 0 {
            assert(node_at(n, path) == Some(n));
            assert(enclosing_id(n, path, file, parent) == parent);
            match item_type(kind_of(n)) {
                Some(t) => {
                    assert(head_l[0] == (parent, item_id(file, n), EdgeType::Contains));
                    assert(head_i[0].0 == item_id(file, n) && head_i[0].1 == t);
                },
                None => {
                    match call_target(n, file) {
                        Some(c) => {
                            assert(head_l[0] == (parent, c, EdgeType::Calls));
                        },
                        None => {},
                    }
                },
            }
            lemma_found_grows(head_i, head_l, cn, ce, parent, n, file, true);
        } else {
            let j = path[0];
            let rest = path.skip(1);
            assert(node_at(n.children@[j], rest) is Some);
            assert(enclosing_id(n, path, file, parent) == enclosing_id(n.children@[j], rest, file, here));
            lemma_found_grows(
                head_i,
                head_l,
                cn,
                ce,
                enclosing_id(n, path, file, parent),
                node_at(n, path)->0,
                file,
                false,
            );
        }
    }
}

proof fn lemma_children_cover(n: SyntaxNode, k: nat, file: Seq<char>, parent: Seq<char>)
    ensures
        covers_from(n, k, file, parent, extract_children(n, k, file, parent).0, extract_children(n, k, file, parent).1),
    decreases n, n.children@.len() - k,
{
    if k < n.children@.len() {
        let prev = if k == 0 {
            None
        } else {
            Some(n.children@[k - 1])
        };
        let ck = n.children@[k as int];
        lemma_node_covers(ck, prev, file, parent);
        lemma_children_cover(n, k + 1, file, parent);
        let (a, b) = extract_node(ck, prev, file, parent);
        let (c, d) = extract_children(n, k + 1, file, parent);
        assert forall|j: int, path: Seq<int>|
            k <= j < n.children@.len() && #[trigger] node_at(n.children@[j], path) is Some implies found_in(
                a + c,
                b + d,
                enclosing_id(n.children@[j], path, file, parent),
                node_at(n.children@[j], path)->0,
                file,
            ) by {
            lemma_found_grows(
                a,
                b,
                c,
                d,
                enclosing_id(n.children@[j], path, file, parent),
                node_at(n.children@[j], path)->0,
                file,
                j == k,
            );
        }
    }
}

/// The link `l` is what the walk owes for the node at `path` below `n` (under `parent`): a
/// `contains` link from its innermost enclosing item to an item, or a `calls` link from there
/// to a call's placeholder.
pub open spec fn link_owed(n: SyntaxNode, path: Seq<int>, file: Seq<char>, parent: Seq<char>, l: LinkV) -> bool {
    match node_at(n, path) {
        Some(m) => l.0 == enclosing_id(n, path, file, parent) && match item_type(kind_of(m)) {
            Some(t) => l.1 == item_id(file, m) && l.2 == EdgeType::Contains,
            None => call_target(m, file) == Some(l.1) && l.2 == EdgeType::Calls,
        },
        None => false,
    }
}

/// The item `it` is the node of the item at `path` below `n`: id `file#row:col`, its type.
pub open spec fn item_owed(n: SyntaxNode, path: Seq<int>, file: Seq<char>, it: ItemV) -> bool {
    match node_at(n, path) {
        Some(m) => item_type(kind_of(m)) == Some(it.1) && it.0 == item_id(file, m),
        None => false,
    }
}

/// The link `l` is owed to some node below `n`.
pub open spec fn link_sourced(n: SyntaxNode, file: Seq<char>, parent: Seq<char>, l: LinkV) -> bool {
    exists|path: Seq<int>| #[trigger] link_owed(n, path, file, parent, l)
}

/// The item `it` is owed to some item below `n`.
pub open spec fn item_sourced(n: SyntaxNode, file: Seq<char>, it: ItemV) -> bool {
    exists|path: Seq<int>| #[trigger] item_owed(n, path, file, it)
}

/// Every item and link of the output under `parent` is owed to a node below `n`.
pub open spec fn sourced(n: SyntaxNode, file: Seq<char>, parent: Seq<char>, items: Seq<ItemV>, links: Seq<LinkV>) -> bool {
    &&& forall|i: int| 0 <= i < links.len() ==> #[trigger] link_sourced(n, file, parent, links[i])
    &&& forall|k: int| 0 <= k < items.len() ==> #[trigger] item_sourced(n, file, items[k])
}

/// The link `l` is owed to a node below a child of `n` from the `k`-th on.
pub open spec fn link_sourced_from(n: SyntaxNode, k: nat, file: Seq<char>, parent: Seq<char>, l: LinkV) -> bool {
    exists|j: int, path: Seq<int>|
        k <= j < n.children@.len() && #[trigger] link_owed(n.children@[j], path, file, parent, l)
}

/// The item `it` is owed to an item below a child of `n` from the `k`-th on.
pub open spec fn item_sourced_from(n: SyntaxNode, k: nat, file: Seq<char>, it: ItemV) -> bool {
    exists|j: int, path: Seq<int>|
        k <= j < n.children@.len() && #[trigger] item_owed(n.children@[j], path, file, it)
}

/// Every item and link is owed to a node below a child of `n` from the `k`-th on.
pub open spec fn sourced_from(n: SyntaxNode, k: nat, file: Seq<char>, parent: Seq<char>, items: Seq<ItemV>, links: Seq<LinkV>) -> bool {
    &&& forall|i: int| 0 <= i < links.len() ==> #[trigger] link_sourced_from(n, k, file, parent, links[i])
    &&& forall|q: int| 0 <= q < items.len() ==> #[trigger] item_sourced_from(n, k, file, items[q])
}

/// Stepping into the `j`-th child: the path `[j] + p` below `n` is the path `p` below it.
proof fn lemma_step_into(n: SyntaxNode, j: int, p: Seq<int>, file: Seq<char>, parent: Seq<char>)
    requires
        0 <= j < n.children@.len(),
    ensures
        node_at(n, seq![j] + p) == node_at(n.children@[j], p),
        enclosing_id(n, seq![j] + p, file, parent) == enclosing_id(
            n.children@[j],
            p,
            file,
            if item_type(kind_of(n)) is Some {
                item_id(file, n)
            } else {
                parent
            },
        ),
{
    let path = seq![j] + p;
    assert(path[0] == j);
    assert(path.skip(1) =~= p);
}

proof fn lemma_node_sourced(n: SyntaxNode, prev: Option<SyntaxNode>, file: Seq<char>, parent: Seq<char>)
    ensures
        sourced(n, file, parent, extract_node(n, prev, file, parent).0, extract_node(n, prev, file, parent).1),
    decreases n, n.children@.len() + 1,
{
    let here = if item_type(kind_of(n)) is Some {
        item_id(file, n)
    } else {
        parent
    };
    lemma_children_sourced(n, 0, file, here);
    let cn = extract_children(n, 0, file, here).0;
    let ce = extract_children(n, 0, file, here).1;
    let items = extract_node(n, prev, file, parent).0;
    let links = extract_node(n, prev, file, parent).1;
    let head_i: Seq<ItemV> = match item_type(kind_of(n)) {
        Some(t) => seq![(item_id(file, n), t, item_payload(n, prev))],
        None => Seq::empty(),
    };
    let head_l: Seq<LinkV> = match item_type(kind_of(n)) {
        Some(t) => seq![(parent, item_id(file, n), EdgeType::Contains)],
        None => match call_target(n, file) {
            Some(c) => seq![(parent, c, EdgeType::Calls)],
            None => Seq::empty(),
        },
    };
    assert(items =~= head_i + cn);
    assert(links =~= head_l + ce);
    assert(items == extract_node(n, prev, file, parent).0 && links == extract_node(n, prev, file, parent).1);
    let root: Seq<int> = Seq::empty();
    assert(node_at(n, root) == Some(n));
    assert(enclosing_id(n, root, file, parent) == parent);
    assert forall|i: int| 0 <= i < links.len() implies #[trigger] link_sourced(n, file, parent, links[i]) by {
        if i < head_l.len() {
            assert(link_owed(n, root, file, parent, links[i]));
        } else {
            assert(links[i] == ce[i - head_l.len()]);
            assert(link_sourced_from(n, 0, file, here, ce[i - head_l.len()]));
            let (j, p) = choose|j: int, p: Seq<int>|
                0 <= j < n.children@.len() && #[trigger] link_owed(n.children@[j], p, file, here, ce[i - head_l.len()]);
            lemma_step_into(n, j, p, file, parent);
            assert(link_owed(n, seq![j] + p, file, parent, links[i]));
        }
    }
    assert forall|k: int| 0 <= k < items.len() implies #[trigger] item_sourced(n, file, items[k]) by {
        if k < head_i.len() {
            assert(item_owed(n, root, file, items[k]));
        } else {
            assert(items[k] == cn[k - head_i.len()]);
            assert(item_sourced_from(n, 0, file, cn[k - head_i.len()]));
            let (j, p) = choose|j: int, p: Seq<int>|
                0 <= j < n.children@.len() && #[trigger] item_owed(n.children@[j], p, file, cn[k - head_i.len()]);
            lemma_step_into(n, j, p, file, parent);
            assert(item_owed(n, seq![j] + p, file, items[k]));
        }
    }
    assert(sourced(n, file, parent, items, links));
}

proof fn lemma_children_sourced(n: SyntaxNode, k: nat, file: Seq<char>, parent: Seq<char>)
    ensures
        sourced_from(n, k, file, parent, extract_children(n, k, file, parent).0, extract_children(n, k, file, parent).1),
    decreases n, n.children@.len() - k,
{
    if k < n.children@.len() {
        let prev = if k == 0 {
            None
        } else {
            Some(n.children@[k - 1])
        };
        let ck = n.children@[k as int];
        lemma_node_sourced(ck, prev, file, parent);
        lemma_children_sourced(n, k + 1, file, parent);
        let a = extract_node(ck, prev, file, parent).0;
        let b = extract_node(ck, prev, file, parent).1;
        let c = extract_children(n, k + 1, file, parent).0;
        let d = extract_children(n, k + 1, file, parent).1;
        let items = a + c;
        let links = b + d;
        assert(items == extract_children(n, k, file, parent).0 && links == extract_children(n, k, file, parent).1);
        assert forall|i: int| 0 <= i < links.len() implies #[trigger] link_sourced_from(n, k, file, parent, links[i]) by {
            if i < b.len() {
                assert(links[i] == b[i]);
                assert(link_sourced(ck, file, parent, b[i]));
                let p = choose|p: Seq<int>| #[trigger] link_owed(ck, p, file, parent, b[i]);
                assert(link_owed(n.children@[k as int], p, file, parent, links[i]));
            } else {
                assert(links[i] == d[i - b.len()]);
                assert(link_sourced_from(n, k + 1, file, parent, d[i - b.len()]));
                let (j, p) = choose|j: int, p: Seq<int>|
                    k + 1 <= j < n.children@.len() && #[trigger] link_owed(n.children@[j], p, file, parent, d[i - b.len()]);
                assert(link_owed(n.children@[j], p, file, parent, links[i]));
            }
        }
        assert forall|q: int| 0 <= q < items.len() implies #[trigger] item_sourced_from(n, k, file, items[q]) by {
            if q < a.len() {
                assert(items[q] == a[q]);
                assert(item_sourced(ck, file, a[q]));
                let p = choose|p: Seq<int>| #[trigger] item_owed(ck, p, file, a[q]);
                assert(item_owed(n.children@[k as int], p, file, items[q]));
            } else {
                assert(items[q] == c[q - a.len()]);
                assert(item_sourced_from(n, k + 1, file, c[q - a.len()]));
                let (j, p) = choose|j: int, p: Seq<int>|
                    k + 1 <= j < n.children@.len() && #[trigger] item_owed(n.children@[j], p, file, c[q - a.len()]);
                assert(item_owed(n.children@[j], p, file, items[q]));
            }
        }
    }
}

/// A file's extraction is a tree rooted at the file node. After the file node, the `k`-th
/// `contains` link points at the `k`-th item and comes from the file or from an earlier item.
/// Every item of the syntax tree (at any `path` below the root) gets a node with id
/// `file#row:col` (one-based start of the item) and its type, and a `contains` link from its
/// innermost enclosing item (or the file); every call gets a `calls` link from its innermost
/// enclosing item (or the file) to its placeholder. Conversely, every node and link of the
/// output is one of these.
pub proof fn law_extraction_is_a_tree(root: SyntaxNode, file: Seq<char>)
    ensures
        extract_file(root, file).0[0] == (file, NodeType::File, None::<Seq<char>>),
        tree_shaped(extract_node(root, None, file, file).0, extract_node(root, None, file, file).1, file, file),
        extract_file(root, file).0 == seq![(file, NodeType::File, None::<Seq<char>>)] + extract_node(
            root,
            None,
            file,
            file,
        ).0,
        extract_file(root, file).1 == extract_node(root, None, file, file).1,
        covers(root, file, file, extract_node(root, None, file, file).0, extract_node(root, None, file, file).1),
        sourced(root, file, file, extract_node(root, None, file, file).0, extract_node(root, None, file, file).1),
{
    lemma_node_shape(root, None, file, file);
    lemma_node_covers(root, None, file, file);
    lemma_node_sourced(root, None, file, file);
}

/// Each item kind is named after the node type it makes: `X_item` makes the type named `X`,
/// and the three kinds with other names make type aliases (`type_item`), macros
/// (`macro_definition`) and modules (`mod_item`, `mod_declaration`).
pub proof fn law_item_kind_names_its_type(kind: Seq<char>, t: NodeType)
    requires
        item_type(kind) == Some(t),
    ensures
        kind == t.name() + "_item"@ || (t == NodeType::TypeAlias && kind == "type_item"@) || (t
            == NodeType::Macro && kind == "macro_definition"@) || (t == NodeType::Module && (kind
            == "mod_item"@ || kind == "mod_declaration"@)),
{
    reveal_strlit("_item");
    reveal_strlit("function");
    reveal_strlit("function_item");
    reveal_strlit("struct");
    reveal_strlit("struct_item");
    reveal_strlit("enum");
    reveal_strlit("enum_item");
    reveal_strlit("trait");
    reveal_strlit("trait_item");
    reveal_strlit("impl");
    reveal_strlit("impl_item");
    reveal_strlit("const");
    reveal_strlit("const_item");
    reveal_strlit("static");
    reveal_strlit("static_item");
    match t {
        NodeType::Function => assert("function"@ + "_item"@ =~= "function_item"@),
        NodeType::Struct => assert("struct"@ + "_item"@ =~= "struct_item"@),
        NodeType::Enum => assert("enum"@ + "_item"@ =~= "enum_item"@),
        NodeType::Trait => assert("trait"@ + "_item"@ =~= "trait_item"@),
        NodeType::Impl => assert("impl"@ + "_item"@ =~= "impl_item"@),
        NodeType::Const => assert("const"@ + "_item"@ =~= "const_item"@),
        NodeType::Static => assert("static"@ + "_item"@ =~= "static_item"@),
        _ => {},
    }
}

} // verus!
