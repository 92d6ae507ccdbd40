use std::collections::VecDeque;

use tree_sitter::Parser;
use vstd::prelude::*;
use vstd::string::StringSliceAdditionalSpecFns;
use vstd::utf8::{decode_utf8, decode_utf8_encode_utf8, encode_utf8, valid_utf8};

use crate::index::{modules_view, Module, ModuleView};
use crate::text::{join_strings, seq_join, strings_view, text_is, utf8_string};

verus! {

/// One node of an Elixir syntax tree, flattened: the tree is a vector of nodes in
/// breadth-first order, each naming the index of its parent (the root names itself).
pub struct SyntaxNode {
    pub kind: String,
    pub named: bool,
    /// The row (counted from 0) where the node starts.
    pub row: usize,
    pub start_byte: usize,
    pub end_byte: usize,
    pub parent: usize,
}

/// What a [`SyntaxNode`] holds, as mathematical values.
pub struct SyntaxNodeView {
    pub kind: Seq<char>,
    pub named: bool,
    pub row: usize,
    pub start_byte: usize,
    pub end_byte: usize,
    pub parent: usize,
}

impl View for SyntaxNode {
    type V = SyntaxNodeView;

    open spec fn view(&self) -> SyntaxNodeView {
        SyntaxNodeView {
            kind: self.kind@,
            named: self.named,
            row: self.row,
            start_byte: self.start_byte,
            end_byte: self.end_byte,
            parent: self.parent,
        }
    }
}

pub open spec fn nodes_view(nodes: Seq<SyntaxNode>) -> Seq<SyntaxNodeView> {
    nodes.map_values(|n: SyntaxNode| n@)
}

/// The flattened syntax tree that the Elixir grammar of tree-sitter gives for `source`.
pub uninterp spec fn elixir_syntax(source: Seq<char>) -> Seq<SyntaxNodeView>;

/// Parses `source_code` with tree-sitter's Elixir grammar (`Parser::set_language`,
/// `Parser::parse`) and lists the nodes of the tree breadth-first (`Node::children`,
/// `Node::kind`, `Node::is_named`, `Node::start_position`, `Node::start_byte`,
/// `Node::end_byte`).
/// Claimed: the list is a function of the source alone, and it starts with the root.
/// The grammar is compiled in and no timeout is set, so neither call fails.
#[verifier::external_body]
fn elixir_syntax_nodes(source_code: &str) -> (nodes: Vec<SyntaxNode>)
    ensures
        nodes_view(nodes@) == elixir_syntax(source_code@),
        nodes@.len() >= 1,
{
    let mut parser = Parser::new();
    parser.set_language(&tree_sitter_elixir::LANGUAGE.into()).expect("Error creating Elixir parser");
    let tree = parser.parse(source_code, None).expect("Error parsing source code");
    let mut nodes = Vec::new();
    let mut queue = VecDeque::from([(tree.root_node(), 0)]);
    while let Some((node, parent)) = queue.pop_front() {
        queue.extend(node.children(&mut node.walk()).map(|child| (child, nodes.len())));
        nodes.push(SyntaxNode { kind: node.kind().to_string(), named: node.is_named(), row: node.start_position().row, start_byte: node.start_byte(), end_byte: node.end_byte(), parent });
    }
    nodes
}

// ---------------------------------------------------------------------------
// Tree structure
// ---------------------------------------------------------------------------

/// The children of node `i` among the nodes before index `j`: the later nodes whose parent is
/// `i`, in index order.
pub open spec fn child_list(nodes: Seq<SyntaxNodeView>, i: int, j: int) -> Seq<int>
    decreases j - i,
{
    if j <= i + 1 {
        Seq::empty()
    } else {
        child_list(nodes, i, j - 1) + if nodes[j - 1].parent == i {
            seq![j - 1]
        } else {
            Seq::empty()
        }
    }
}

/// The children of node `i`, in order.
pub open spec fn children(nodes: Seq<SyntaxNodeView>, i: int) -> Seq<int> {
    child_list(nodes, i, nodes.len() as int)
}

/// The named ones among `kids`, in order.
pub open spec fn named_only(nodes: Seq<SyntaxNodeView>, kids: Seq<int>) -> Seq<int>
    decreases kids.len(),
{
    if kids.len() == 0 {
        Seq::empty()
    } else {
        named_only(nodes, kids.drop_last()) + if nodes[kids.last()].named {
            seq![kids.last()]
        } else {
            Seq::empty()
        }
    }
}

/// The named children of node `i`, in order.
pub open spec fn named_children(nodes: Seq<SyntaxNodeView>, i: int) -> Seq<int> {
    named_only(nodes, children(nodes, i))
}

/// The view of a list of node indices.
pub open spec fn indices_view(v: Seq<usize>) -> Seq<int> {
    v.map_values(|x: usize| x as int)
}

pub proof fn lemma_child_list_range(nodes: Seq<SyntaxNodeView>, i: int, j: int)
    ensures
        forall|k: int|
            0 <= k < child_list(nodes, i, j).len() ==> i < #[trigger] child_list(nodes, i, j)[k]
                < j,
    decreases j - i,
{
    if j > i + 1 {
        lemma_child_list_range(nodes, i, j - 1);
        let prev = child_list(nodes, i, j - 1);
        let all = child_list(nodes, i, j);
        assert forall|k: int| 0 <= k < all.len() implies i < #[trigger] all[k] < j by {
            if k < prev.len() {
                assert(all[k] == prev[k]);
            }
        }
    }
}

pub proof fn lemma_named_only_range(nodes: Seq<SyntaxNodeView>, kids: Seq<int>, lo: int, hi: int)
    requires
        forall|k: int| 0 <= k < kids.len() ==> lo < #[trigger] kids[k] < hi,
    ensures
        forall|k: int|
            0 <= k < named_only(nodes, kids).len() ==> lo < #[trigger] named_only(nodes, kids)[k]
                < hi,
    decreases kids.len(),
{
    if kids.len() > 0 {
        let front = kids.drop_last();
        assert forall|k: int| 0 <= k < front.len() implies lo < #[trigger] front[k] < hi by {
            assert(front[k] == kids[k]);
        }
        lemma_named_only_range(nodes, front, lo, hi);
        let prev = named_only(nodes, front);
        let all = named_only(nodes, kids);
        assert(kids.last() == kids[kids.len() - 1]);
        assert forall|k: int| 0 <= k < all.len() implies lo < #[trigger] all[k] < hi by {
            if k < prev.len() {
                assert(all[k] == prev[k]);
            }
        }
    }
}

pub proof fn lemma_kids_range(nodes: Seq<SyntaxNodeView>, i: int)
    ensures
        forall|k: int|
            0 <= k < children(nodes, i).len() ==> i < #[trigger] children(nodes, i)[k]
                < nodes.len(),
        forall|k: int|
            0 <= k < named_children(nodes, i).len() ==> i < #[trigger] named_children(nodes, i)[k]
                < nodes.len(),
{
    lemma_child_list_range(nodes, i, nodes.len() as int);
    lemma_named_only_range(nodes, children(nodes, i), i, nodes.len() as int);
}

/// A flattened syntax tree whose child lists are indexed.
pub struct SyntaxTree {
    nodes: Vec<SyntaxNode>,
    kids: Vec<Vec<usize>>,
}

impl View for SyntaxTree {
    type V = Seq<SyntaxNodeView>;

    closed spec fn view(&self) -> Seq<SyntaxNodeView> {
        nodes_view(self.nodes@)
    }
}

impl SyntaxTree {
    #[verifier::type_invariant]
    closed spec fn wf(self) -> bool {
        &&& self.kids@.len() == self.nodes@.len()
        &&& forall|i: int|
            0 <= i < self.nodes@.len() ==> indices_view(#[trigger] self.kids@[i]@) == children(
                nodes_view(self.nodes@),
                i,
            )
    }

    /// Indexes the children of every node of `nodes`.
    pub fn from_nodes(nodes: Vec<SyntaxNode>) -> (tree: SyntaxTree)
        ensures
            tree@ == nodes_view(nodes@),
    {
        let n = nodes.len();
        let ghost nv = nodes_view(nodes@);
        let mut kids: Vec<Vec<usize>> = Vec::new();
        let mut i: usize = 0;
        while i < n
            invariant
                i <= n,
                kids@.len() == i,
                forall|k: int| 0 <= k < i ==> (#[trigger] kids@[k])@ == Seq::<usize>::empty(),
            decreases n - i,
        {
            kids.push(Vec::new());
            i = i + 1;
        }
        let mut j: usize = 1;
        proof {
            assert forall|k: int| 0 <= k < n implies indices_view(#[trigger] kids@[k]@) == child_list(nv, k, 1) by {
                assert(indices_view(kids@[k]@) =~= Seq::<int>::empty());
            }
        }
        while j < n
            invariant
                n == nodes@.len(),
                nv == nodes_view(nodes@),
                1 <= j <= n || n == 0,
                kids@.len() == n,
                forall|k: int| 0 <= k < n ==> indices_view(#[trigger] kids@[k]@) == child_list(nv, k, j as int),
            decreases n - j,
        {
            let p = nodes[j].parent;
            let ghost before = kids@;
            if p < j {
                let mut list: Vec<usize> = Vec::new();
                std::mem::swap(&mut list, &mut kids[p]);
                list.push(j);
                std::mem::swap(&mut list, &mut kids[p]);
            }
            proof {
                assert forall|k: int| 0 <= k < n implies indices_view(#[trigger] kids@[k]@) == child_list(
                    nv,
                    k,
                    j + 1,
                ) by {
                    assert(nv[j as int].parent == p);
                    if k != p || p >= j {
                        assert(kids@[k] == before[k]);
                        if k >= j {
                            assert(child_list(nv, k, j + 1) =~= Seq::<int>::empty());
                        } else {
                            assert(child_list(nv, k, j + 1) =~= child_list(nv, k, j as int));
                        }
                    } else {
                        assert(child_list(nv, k, j + 1) =~= child_list(nv, k, j as int).push(j as int));
                        assert(indices_view(kids@[k]@) =~= indices_view(before[k]@).push(j as int));
                    }
                }
            }
            j = j + 1;
        }
        proof {
            if n > 0 {
                assert forall|k: int| 0 <= k < n implies indices_view(#[trigger] kids@[k]@) == children(nv, k) by {}
            }
        }
        SyntaxTree { nodes, kids }
    }

    /// The number of nodes.
    pub fn len(&self) -> (n: usize)
        ensures
            n == self@.len(),
    {
        self.nodes.len()
    }
}

/// Parses Elixir source code into a syntax tree.
pub fn parse_elixir(source_code: &str) -> (tree: SyntaxTree)
    ensures
        tree@ == elixir_syntax(source_code@),
        tree@.len() >= 1,
{
    let nodes = elixir_syntax_nodes(source_code);
    SyntaxTree::from_nodes(nodes)
}

// ---------------------------------------------------------------------------
// Collecting the modules of a tree
// ---------------------------------------------------------------------------

/// Why the modules of a tree could not be collected.
#[derive(Clone, Copy, Debug, PartialEq, Eq)]
pub enum ScanError {
    /// A node whose text had to be read does not cover valid UTF-8 inside the source.
    NodeText,
    /// A module starts on a row whose line number does not fit in `usize`.
    LineOverflow,
}

/// The state that the walk carries: the names of the enclosing modules, innermost last, and
/// the modules found so far.
pub type WalkState = (Seq<Seq<char>>, Seq<(Seq<char>, usize)>);

/// The source text that node `j` covers, when its byte range lies in `src` and is valid UTF-8.
pub open spec fn node_text(nodes: Seq<SyntaxNodeView>, src: Seq<u8>, j: int) -> Option<Seq<char>> {
    let n = nodes[j];
    if n.start_byte <= n.end_byte && n.end_byte <= src.len() && valid_utf8(
        src.subrange(n.start_byte as int, n.end_byte as int),
    ) {
        Some(decode_utf8(src.subrange(n.start_byte as int, n.end_byte as int)))
    } else {
        None
    }
}

/// Whether node `j` is the identifier `defmodule`; `None` when its text cannot be read (the
/// text is read whatever the node's kind).
pub open spec fn is_defmodule(nodes: Seq<SyntaxNodeView>, src: Seq<u8>, j: int) -> Option<bool> {
    match node_text(nodes, src, j) {
        Some(text) => Some(nodes[j].kind == "identifier"@ && text == "defmodule"@),
        None => None,
    }
}

/// The line number (counted from 1) of a row (counted from 0), when it fits in `usize`.
pub open spec fn module_line(row: usize) -> Option<usize> {
    if row < usize::MAX {
        Some((row + 1) as usize)
    } else {
        None
    }
}

/// Entering node `i`: a `call` whose first named child is `defmodule` and which has a second
/// named child opens a module named by the text of that second child; the module is recorded
/// under the names of all enclosing modules joined with `.`, at the line of the call.
pub open spec fn enter_node(nodes: Seq<SyntaxNodeView>, src: Seq<u8>, i: int, state: WalkState) -> Option<WalkState> {
    let named = named_children(nodes, i);
    if nodes[i].kind == "call"@ && named.len() >= 2 {
        match is_defmodule(nodes, src, named[0]) {
            None => None,
            Some(false) => Some(state),
            Some(true) => match node_text(nodes, src, named[1]) {
                None => None,
                Some(name) => {
                    let parts = state.0.push(name);
                    match module_line(nodes[i].row) {
                        None => None,
                        Some(line) => Some((parts, state.1.push((seq_join(parts, "."@), line)))),
                    }
                },
            },
        }
    } else {
        Some(state)
    }
}

/// `parts` without its last name, if it has one.
pub open spec fn pop_part(parts: Seq<Seq<char>>) -> Seq<Seq<char>> {
    if parts.len() > 0 {
        parts.drop_last()
    } else {
        parts
    }
}

/// Scanning `kids` from position `k` for the identifier `defmodule`: the first one found
/// closes the innermost module.
pub open spec fn leave_scan(
    nodes: Seq<SyntaxNodeView>,
    src: Seq<u8>,
    kids: Seq<int>,
    k: int,
    parts: Seq<Seq<char>>,
) -> Option<Seq<Seq<char>>>
    decreases kids.len() - k,
{
    if k < 0 || k >= kids.len() {
        Some(parts)
    } else {
        match is_defmodule(nodes, src, kids[k]) {
            None => None,
            Some(true) => Some(pop_part(parts)),
            Some(false) => leave_scan(nodes, src, kids, k + 1, parts),
        }
    }
}

/// Leaving node `i`: a `call` with any child that is the identifier `defmodule` closes the
/// innermost module.
pub open spec fn leave_node(nodes: Seq<SyntaxNodeView>, src: Seq<u8>, i: int, parts: Seq<Seq<char>>) -> Option<Seq<Seq<char>>> {
    if nodes[i].kind == "call"@ {
        leave_scan(nodes, src, children(nodes, i), 0, parts)
    } else {
        Some(parts)
    }
}

/// The walk over the subtree of node `i`: enter the node, walk its named children in order,
/// leave the node. `None` when a text that the walk reads cannot be read or a line overflows.
pub open spec fn walk(nodes: Seq<SyntaxNodeView>, src: Seq<u8>, i: int, state: WalkState) -> Option<WalkState>
    decreases nodes.len() - i, 1int, 0int,
{
    match enter_node(nodes, src, i, state) {
        None => None,
        Some(entered) => match walk_named(nodes, src, i, 0, entered) {
            None => None,
            Some(walked) => match leave_node(nodes, src, i, walked.0) {
                None => None,
                Some(parts) => Some((parts, walked.1)),
            },
        },
    }
}

/// The walks over the named children of node `i` from position `k` on, one after another.
pub open spec fn walk_named(nodes: Seq<SyntaxNodeView>, src: Seq<u8>, i: int, k: int, state: WalkState) -> Option<WalkState>
    decreases nodes.len() - i, 0int, named_children(nodes, i).len() - k,
{
    let named = named_children(nodes, i);
    if k < 0 || k >= named.len() {
        Some(state)
    } else {
        proof {
            lemma_kids_range(nodes, i);
            assert(i < named[k] < nodes.len());
        }
        match walk(nodes, src, named[k], state) {
            None => None,
            Some(next) => walk_named(nodes, src, i, k + 1, next),
        }
    }
}

impl SyntaxTree {
    /// The source text of node `j`.
    fn node_text(&self, j: usize, source_code: &str) -> (text: Result<String, ScanError>)
        requires
            j < self@.len(),
        ensures
            match node_text(self@, source_code.spec_bytes(), j as int) {
                Some(t) => text matches Ok(s) && s@ == t,
                None => text is Err,
            },
    {
        let node = &self.nodes[j];
        let bytes = source_code.as_bytes();
        if node.start_byte <= node.end_byte && node.end_byte <= bytes.len() {
            let piece = vstd::slice::slice_subrange(bytes, node.start_byte, node.end_byte);
            match utf8_string(piece) {
                Some(t) => Ok(t),
                None => Err(ScanError::NodeText),
            }
        } else {
            Err(ScanError::NodeText)
        }
    }

    /// Whether node `j` is the identifier `defmodule`.
    fn is_defmodule(&self, j: usize, source_code: &str) -> (def: Result<bool, ScanError>)
        requires
            j < self@.len(),
        ensures
            match is_defmodule(self@, source_code.spec_bytes(), j as int) {
                Some(b) => def == Ok::<bool, ScanError>(b),
                None => def is Err,
            },
    {
        match self.node_text(j, source_code) {
            Ok(text) => Ok(text_is(self.nodes[j].kind.as_str(), "identifier") && text_is(
                text.as_str(),
                "defmodule",
            )),
            Err(e) => Err(e),
        }
    }

    /// Whether node `i` is a `call`.
    fn is_call(&self, i: usize) -> (call: bool)
        requires
            i < self@.len(),
        ensures
            call == (self@[i as int].kind == "call"@),
    {
        text_is(self.nodes[i].kind.as_str(), "call")
    }

    /// The children of node `i`, in order.
    fn children_of(&self, i: usize) -> (kids: &Vec<usize>)
        requires
            i < self@.len(),
        ensures
            indices_view(kids@) == children(self@, i as int),
            forall|k: int| 0 <= k < kids@.len() ==> i < #[trigger] kids@[k] < self@.len(),
    {
        proof {
            use_type_invariant(self);
            lemma_kids_range(self@, i as int);
            assert forall|k: int| 0 <= k < self.kids@[i as int]@.len() implies i
                < #[trigger] self.kids@[i as int]@[k] < self@.len() by {
                assert(indices_view(self.kids@[i as int]@)[k] == self.kids@[i as int]@[k] as int);
            }
        }
        &self.kids[i]
    }

    /// The named children of node `i`, in order.
    fn named_children_of(&self, i: usize) -> (named: Vec<usize>)
        requires
            i < self@.len(),
        ensures
            indices_view(named@) == named_children(self@, i as int),
            forall|k: int| 0 <= k < named@.len() ==> i < #[trigger] named@[k] < self@.len(),
    {
        let kids = self.children_of(i);
        let ghost all = indices_view(kids@);
        let mut named: Vec<usize> = Vec::new();
        let mut m: usize = 0;
        while m < kids.len()
            invariant
                m <= kids@.len(),
                all == indices_view(kids@),
                all == children(self@, i as int),
                forall|k: int| 0 <= k < kids@.len() ==> i < #[trigger] kids@[k] < self@.len(),
                indices_view(named@) == named_only(self@, all.take(m as int)),
                forall|k: int| 0 <= k < named@.len() ==> i < #[trigger] named@[k] < self@.len(),
            decreases kids@.len() - m,
        {
            let c = kids[m];
            assert(all.take(m + 1).drop_last() =~= all.take(m as int));
            assert(all.take(m + 1).last() == c as int);
            if self.nodes[c].named {
                named.push(c);
                assert(indices_view(named@) =~= named_only(self@, all.take(m as int)).push(c as int));
            } else {
                assert(indices_view(named@) =~= named_only(self@, all.take(m as int)));
            }
            m = m + 1;
        }
        assert(all.take(kids@.len() as int) =~= all);
        named
    }

    /// The step of entering node `i`.
    fn enter(
        &self,
        i: usize,
        named: &Vec<usize>,
        source_code: &str,
        module_parts: &mut Vec<String>,
        path_modules: &mut Vec<Module>,
    ) -> (r: Result<(), ScanError>)
        requires
            i < self@.len(),
            indices_view(named@) == named_children(self@, i as int),
            forall|k: int| 0 <= k < named@.len() ==> i < #[trigger] named@[k] < self@.len(),
        ensures
            match enter_node(
                self@,
                source_code.spec_bytes(),
                i as int,
                (strings_view(old(module_parts)@), modules_view(old(path_modules)@)),
            ) {
                Some(s) => r is Ok && strings_view(final(module_parts)@) == s.0 && modules_view(
                    final(path_modules)@,
                ) == s.1,
                None => r is Err,
            },
    {
        let ghost src = source_code.spec_bytes();
        if self.is_call(i) && named.len() >= 2 {
            assert(indices_view(named@)[0] == named@[0] as int);
            assert(indices_view(named@)[1] == named@[1] as int);
            let first = named[0];
            let second = named[1];
            match self.is_defmodule(first, source_code) {
                Err(e) => {
                    return Err(e);
                },
                Ok(false) => {
                    return Ok(());
                },
                Ok(true) => {},
            }
            let name = match self.node_text(second, source_code) {
                Ok(t) => t,
                Err(e) => {
                    return Err(e);
                },
            };
            module_parts.push(name);
            assert(strings_view(module_parts@) =~= strings_view(old(module_parts)@).push(name@));
            let module_name = join_strings(module_parts, ".");
            let row = self.nodes[i].row;
            if row == usize::MAX {
                return Err(ScanError::LineOverflow);
            }
            let line = row + 1;
            path_modules.push((module_name, line));
            assert(modules_view(path_modules@) =~= modules_view(old(path_modules)@).push(
                (module_name@, line),
            ));
            Ok(())
        } else {
            Ok(())
        }
    }

    /// The step of leaving node `i`.
    fn leave(&self, i: usize, source_code: &str, module_parts: &mut Vec<String>) -> (r: Result<(), ScanError>)
        requires
            i < self@.len(),
        ensures
            match leave_node(self@, source_code.spec_bytes(), i as int, strings_view(old(module_parts)@)) {
                Some(p) => r is Ok && strings_view(final(module_parts)@) == p,
                None => r is Err,
            },
    {
        if !self.is_call(i) {
            return Ok(());
        }
        let kids = self.children_of(i);
        let ghost all = indices_view(kids@);
        let ghost parts = strings_view(module_parts@);
        let mut m: usize = 0;
        while m < kids.len()
            invariant
                m <= kids@.len(),
                all == indices_view(kids@),
                all == children(self@, i as int),
                forall|k: int| 0 <= k < kids@.len() ==> i < #[trigger] kids@[k] < self@.len(),
                strings_view(module_parts@) == parts,
                parts == strings_view(old(module_parts)@),
                self@[i as int].kind == "call"@,
                leave_scan(self@, source_code.spec_bytes(), all, 0, parts) == leave_scan(
                    self@,
                    source_code.spec_bytes(),
                    all,
                    m as int,
                    parts,
                ),
            decreases kids@.len() - m,
        {
            assert(all[m as int] == kids@[m as int] as int);
            match self.is_defmodule(kids[m], source_code) {
                Err(e) => {
                    assert(leave_scan(self@, source_code.spec_bytes(), all, m as int, parts) is None);
                    return Err(e);
                },
                Ok(true) => {
                    let ghost before = module_parts@;
                    let _ = module_parts.pop();
                    assert(strings_view(module_parts@) =~= pop_part(parts)) by {
                        if before.len() > 0 {
                            assert(module_parts@ =~= before.drop_last());
                        }
                    }
                    assert(leave_scan(self@, source_code.spec_bytes(), all, m as int, parts) == Some(pop_part(parts)));
                    return Ok(());
                },
                Ok(false) => {},
            }
            m = m + 1;
        }
        Ok(())
    }
}

/// Collects the modules defined in the subtree of `node`, appending each to `path_modules`
/// with the names of its enclosing modules (kept in `module_parts`) joined with `.`.
/// `source_pathname` names the file the source came from.
pub fn collect_path_modules(
    tree: &SyntaxTree,
    node: usize,
    source_code: &str,
    source_pathname: &str,
    module_parts: &mut Vec<String>,
    path_modules: &mut Vec<Module>,
) -> (r: Result<(), ScanError>)
    requires
        node < tree@.len(),
    ensures
        match walk(
            tree@,
            source_code.spec_bytes(),
            node as int,
            (strings_view(old(module_parts)@), modules_view(old(path_modules)@)),
        ) {
            Some(s) => r is Ok && strings_view(final(module_parts)@) == s.0 && modules_view(
                final(path_modules)@,
            ) == s.1,
            None => r is Err,
        },
    decreases tree@.len() - node,
{
    let ghost src = source_code.spec_bytes();
    let ghost init = (strings_view(module_parts@), modules_view(path_modules@));
    let named = tree.named_children_of(node);
    match tree.enter(node, &named, source_code, module_parts, path_modules) {
        Ok(()) => {},
        Err(e) => {
            return Err(e);
        },
    }
    let ghost entered = (strings_view(module_parts@), modules_view(path_modules@));
    let ghost nv = tree@;
    let mut k: usize = 0;
    while k < named.len()
        invariant
            nv == tree@,
            node < nv.len(),
            k <= named@.len(),
            indices_view(named@) == named_children(nv, node as int),
            forall|j: int| 0 <= j < named@.len() ==> node < #[trigger] named@[j] < nv.len(),
            walk_named(nv, src, node as int, 0, entered) == walk_named(
                nv,
                src,
                node as int,
                k as int,
                (strings_view(module_parts@), modules_view(path_modules@)),
            ),
            src == source_code.spec_bytes(),
            init == (strings_view(old(module_parts)@), modules_view(old(path_modules)@)),
            enter_node(nv, src, node as int, init) == Some(entered),
        decreases named@.len() - k,
    {
        let child = named[k];
        assert(indices_view(named@)[k as int] == child as int);
        assert(named_children(nv, node as int)[k as int] == child as int);
        let ghost before = (strings_view(module_parts@), modules_view(path_modules@));
        match collect_path_modules(tree, child, source_code, source_pathname, module_parts, path_modules) {
            Ok(()) => {},
            Err(e) => {
                assert(walk(nv, src, child as int, before) is None);
                assert(walk_named(nv, src, node as int, k as int, before) is None);
                return Err(e);
            },
        }
        k = k + 1;
    }
    match tree.leave(node, source_code, module_parts) {
        Ok(()) => Ok(()),
        Err(e) => Err(e),
    }
}

/// The modules that a walk from the root of `nodes` finds, starting with no enclosing module.
pub open spec fn tree_modules(nodes: Seq<SyntaxNodeView>, src: Seq<u8>) -> Option<Seq<(Seq<char>, usize)>> {
    match walk(nodes, src, 0, (Seq::empty(), Seq::empty())) {
        Some(s) => Some(s.1),
        None => None,
    }
}

/// The modules defined in the source that `tree` was parsed from, in the order of their
/// `defmodule`s, each with its full dotted name and its line.
pub fn modules_in_tree(tree: &SyntaxTree, source_code: &str, source_pathname: &str) -> (modules: Result<Vec<Module>, ScanError>)
    requires
        tree@.len() >= 1,
    ensures
        match tree_modules(tree@, source_code.spec_bytes()) {
            Some(m) => modules matches Ok(v) && modules_view(v@) == m,
            None => modules is Err,
        },
{
    let mut module_parts: Vec<String> = Vec::new();
    let mut path_modules: Vec<Module> = Vec::new();
    assert(strings_view(module_parts@) =~= Seq::<Seq<char>>::empty());
    assert(modules_view(path_modules@) =~= Seq::<(Seq<char>, usize)>::empty());
    match collect_path_modules(tree, 0, source_code, source_pathname, &mut module_parts, &mut path_modules) {
        Ok(()) => Ok(path_modules),
        Err(e) => Err(e),
    }
}

/// Parses Elixir source code and lists the modules it defines.
pub fn source_modules(source_code: &str, source_pathname: &str) -> (modules: Result<Vec<Module>, ScanError>)
    ensures
        match tree_modules(elixir_syntax(source_code@), source_code.spec_bytes()) {
            Some(m) => modules matches Ok(v) && modules_view(v@) == m,
            None => modules is Err,
        },
{
    let tree = parse_elixir(source_code);
    modules_in_tree(&tree, source_code, source_pathname)
}

// ---------------------------------------------------------------------------
// Laws of the walk
// ---------------------------------------------------------------------------

/// The modules found before a walk stay, in order, at the front of what it finds.
pub proof fn law_walk_keeps_found(nodes: Seq<SyntaxNodeView>, src: Seq<u8>, i: int, state: WalkState)
    requires
        walk(nodes, src, i, state) is Some,
    ensures
        walk(nodes, src, i, state).unwrap().1.len() >= state.1.len(),
        walk(nodes, src, i, state).unwrap().1.take(state.1.len() as int) == state.1,
    decreases nodes.len() - i, 1int, 0int,
{
    let entered = enter_node(nodes, src, i, state)->0;
    assert(entered.1.len() >= state.1.len() && entered.1.take(state.1.len() as int) == state.1) by {
        if entered.1 != state.1 {
            assert(entered.1.take(state.1.len() as int) =~= state.1);
        } else {
            assert(state.1.take(state.1.len() as int) =~= state.1);
        }
    }
    lemma_walk_named_keeps_found(nodes, src, i, 0, entered);
    let walked = walk_named(nodes, src, i, 0, entered)->0;
    assert(walked.1.take(state.1.len() as int) =~= walked.1.take(entered.1.len() as int).take(
        state.1.len() as int,
    ));
}

proof fn lemma_walk_named_keeps_found(nodes: Seq<SyntaxNodeView>, src: Seq<u8>, i: int, k: int, state: WalkState)
    requires
        walk_named(nodes, src, i, k, state) is Some,
    ensures
        walk_named(nodes, src, i, k, state).unwrap().1.len() >= state.1.len(),
        walk_named(nodes, src, i, k, state).unwrap().1.take(state.1.len() as int) == state.1,
    decreases nodes.len() - i, 0int, named_children(nodes, i).len() - k,
{
    let named = named_children(nodes, i);
    if k < 0 || k >= named.len() {
        assert(state.1.take(state.1.len() as int) =~= state.1);
    } else {
        lemma_kids_range(nodes, i);
        law_walk_keeps_found(nodes, src, named[k], state);
        let next = walk(nodes, src, named[k], state)->0;
        lemma_walk_named_keeps_found(nodes, src, i, k + 1, next);
        let done = walk_named(nodes, src, i, k + 1, next)->0;
        assert(done.1.take(state.1.len() as int) =~= done.1.take(next.1.len() as int).take(
            state.1.len() as int,
        ));
    }
}

/// Node `i` opens a module on entry.
pub open spec fn opens_module(nodes: Seq<SyntaxNodeView>, src: Seq<u8>, i: int) -> bool {
    let named = named_children(nodes, i);
    &&& nodes[i].kind == "call"@
    &&& named.len() >= 2
    &&& is_defmodule(nodes, src, named[0]) == Some(true)
}

/// Some child of node `i` from position `k` on is the identifier `defmodule`.
pub open spec fn has_defmodule_child_from(nodes: Seq<SyntaxNodeView>, src: Seq<u8>, i: int, k: int) -> bool {
    exists|m: int|
        k <= m < children(nodes, i).len() && is_defmodule(nodes, src, #[trigger] children(nodes, i)[m])
            == Some(true)
}

/// Every `call` that closes a module on leaving is one that opened it on entering.
pub open spec fn balanced(nodes: Seq<SyntaxNodeView>, src: Seq<u8>) -> bool {
    forall|j: int|
        0 <= j < nodes.len() && #[trigger] nodes[j].kind == "call"@ ==> (opens_module(nodes, src, j)
            <==> has_defmodule_child_from(nodes, src, j, 0))
}

proof fn lemma_leave_scan(nodes: Seq<SyntaxNodeView>, src: Seq<u8>, i: int, k: int, parts: Seq<Seq<char>>)
    requires
        0 <= k,
        leave_scan(nodes, src, children(nodes, i), k, parts) is Some,
    ensures
        leave_scan(nodes, src, children(nodes, i), k, parts)->0 == if has_defmodule_child_from(
            nodes,
            src,
            i,
            k,
        ) {
            pop_part(parts)
        } else {
            parts
        },
    decreases children(nodes, i).len() - k,
{
    let kids = children(nodes, i);
    if k < kids.len() {
        match is_defmodule(nodes, src, kids[k]) {
            Some(true) => {
                assert(has_defmodule_child_from(nodes, src, i, k));
            },
            Some(false) => {
                lemma_leave_scan(nodes, src, i, k + 1, parts);
                if has_defmodule_child_from(nodes, src, i, k) {
                    let m = choose|m: int|
                        k <= m < kids.len() && is_defmodule(nodes, src, #[trigger] kids[m]) == Some(true);
                    assert(m != k);
                    assert(has_defmodule_child_from(nodes, src, i, k + 1));
                } else {
                    assert(!has_defmodule_child_from(nodes, src, i, k + 1));
                }
            },
            None => {},
        }
    } else {
        assert(!has_defmodule_child_from(nodes, src, i, k));
    }
}

/// After a walk over the subtree of a node, the enclosing module names are as before, when
/// every `call` that closes a module opened it.
pub proof fn law_walk_restores_parts(nodes: Seq<SyntaxNodeView>, src: Seq<u8>, i: int, state: WalkState)
    requires
        balanced(nodes, src),
        0 <= i < nodes.len(),
        walk(nodes, src, i, state) is Some,
    ensures
        walk(nodes, src, i, state).unwrap().0 == state.0,
    decreases nodes.len() - i, 1int, 0int,
{
    let entered = enter_node(nodes, src, i, state)->0;
    lemma_walk_named_restores_parts(nodes, src, i, 0, entered);
    let walked = walk_named(nodes, src, i, 0, entered)->0;
    assert(walked.0 == entered.0);
    if nodes[i].kind == "call"@ {
        lemma_leave_scan(nodes, src, i, 0, walked.0);
        if opens_module(nodes, src, i) {
            assert(entered.0 == state.0.push(node_text(nodes, src, named_children(nodes, i)[1])->0));
            assert(pop_part(entered.0) =~= state.0);
        } else {
            assert(entered.0 == state.0);
        }
    } else {
        assert(entered.0 == state.0);
    }
}

proof fn lemma_walk_named_restores_parts(nodes: Seq<SyntaxNodeView>, src: Seq<u8>, i: int, k: int, state: WalkState)
    requires
        balanced(nodes, src),
        0 <= i < nodes.len(),
        walk_named(nodes, src, i, k, state) is Some,
    ensures
        walk_named(nodes, src, i, k, state).unwrap().0 == state.0,
    decreases nodes.len() - i, 0int, named_children(nodes, i).len() - k,
{
    let named = named_children(nodes, i);
    if 0 <= k < named.len() {
        lemma_kids_range(nodes, i);
        law_walk_restores_parts(nodes, src, named[k], state);
        let next = walk(nodes, src, named[k], state)->0;
        lemma_walk_named_restores_parts(nodes, src, i, k + 1, next);
    }
}

/// The modules defined in the subtree of node `i`, in pre-order of the `call`s that open them:
/// each is named by `parts` (the enclosing modules outside the subtree), the names of the
/// opening calls above it in the subtree, and its own name, joined with `.`, and carries the
/// line of its call.
pub open spec fn defined_modules(nodes: Seq<SyntaxNodeView>, src: Seq<u8>, i: int, parts: Seq<Seq<char>>) -> Seq<ModuleView>
    decreases nodes.len() - i, 1int, 0int,
{
    if opens_module(nodes, src, i) {
        let inner = parts.push(node_text(nodes, src, named_children(nodes, i)[1]).unwrap());
        seq![(seq_join(inner, "."@), (nodes[i].row + 1) as usize)] + defined_in_named(
            nodes,
            src,
            i,
            0,
            inner,
        )
    } else {
        defined_in_named(nodes, src, i, 0, parts)
    }
}

/// The modules defined in the subtrees of the named children of node `i` from position `k` on,
/// one subtree after another.
pub open spec fn defined_in_named(nodes: Seq<SyntaxNodeView>, src: Seq<u8>, i: int, k: int, parts: Seq<Seq<char>>) -> Seq<ModuleView>
    decreases nodes.len() - i, 0int, named_children(nodes, i).len() - k,
{
    let named = named_children(nodes, i);
    if k < 0 || k >= named.len() {
        Seq::empty()
    } else {
        proof {
            lemma_kids_range(nodes, i);
            assert(i < named[k] < nodes.len());
        }
        defined_modules(nodes, src, named[k], parts) + defined_in_named(nodes, src, i, k + 1, parts)
    }
}

/// When every `call` that closes a module opened it, a walk over the subtree of a node finds
/// exactly the modules defined there, in pre-order, appended to those found before, and leaves
/// the enclosing module names as they were.
pub proof fn law_walk_finds_defined_modules(nodes: Seq<SyntaxNodeView>, src: Seq<u8>, i: int, state: WalkState)
    requires
        balanced(nodes, src),
        0 <= i < nodes.len(),
        walk(nodes, src, i, state) is Some,
    ensures
        walk(nodes, src, i, state).unwrap() == (state.0, state.1 + defined_modules(nodes, src, i, state.0)),
    decreases nodes.len() - i, 1int, 0int,
{
    law_walk_restores_parts(nodes, src, i, state);
    let entered = enter_node(nodes, src, i, state).unwrap();
    lemma_walk_named_finds(nodes, src, i, 0, entered);
    let walked = walk_named(nodes, src, i, 0, entered).unwrap();
    if opens_module(nodes, src, i) {
        let inner = state.0.push(node_text(nodes, src, named_children(nodes, i)[1]).unwrap());
        assert(entered.0 == inner);
        assert(walked.1 =~= state.1 + defined_modules(nodes, src, i, state.0));
    } else {
        assert(entered == state);
    }
}

proof fn lemma_walk_named_finds(nodes: Seq<SyntaxNodeView>, src: Seq<u8>, i: int, k: int, state: WalkState)
    requires
        balanced(nodes, src),
        0 <= i < nodes.len(),
        walk_named(nodes, src, i, k, state) is Some,
    ensures
        walk_named(nodes, src, i, k, state).unwrap() == (state.0, state.1 + defined_in_named(nodes, src, i, k, state.0)),
    decreases nodes.len() - i, 0int, named_children(nodes, i).len() - k,
{
    let named = named_children(nodes, i);
    if 0 <= k < named.len() {
        lemma_kids_range(nodes, i);
        law_walk_finds_defined_modules(nodes, src, named[k], state);
        let next = walk(nodes, src, named[k], state).unwrap();
        lemma_walk_named_finds(nodes, src, i, k + 1, next);
        assert(walk_named(nodes, src, i, k, state).unwrap().1 =~= state.1 + defined_in_named(
            nodes,
            src,
            i,
            k,
            state.0,
        ));
    } else {
        assert(state.1 + Seq::<ModuleView>::empty() =~= state.1);
    }
}

/// Node `j`'s byte range lies inside the source and is valid UTF-8.
pub open spec fn node_readable(nodes: Seq<SyntaxNodeView>, src: Seq<u8>, j: int) -> bool {
    &&& nodes[j].start_byte <= nodes[j].end_byte <= src.len()
    &&& valid_utf8(src.subrange(nodes[j].start_byte as int, nodes[j].end_byte as int))
}

/// A node has a text exactly when its byte range is readable, whatever the range holds, and
/// the text is what those bytes encode.
pub proof fn law_node_text_is_its_bytes(nodes: Seq<SyntaxNodeView>, src: Seq<u8>, j: int)
    ensures
        node_text(nodes, src, j) is Some <==> node_readable(nodes, src, j),
        node_text(nodes, src, j) matches Some(t) ==> encode_utf8(t) == src.subrange(
            nodes[j].start_byte as int,
            nodes[j].end_byte as int,
        ),
{
    if node_readable(nodes, src, j) {
        decode_utf8_encode_utf8(src.subrange(nodes[j].start_byte as int, nodes[j].end_byte as int));
    }
}

/// Every node is readable and starts on a row whose line number fits in `usize` (as in every
/// tree that tree-sitter builds from a `str`).
pub open spec fn all_readable(nodes: Seq<SyntaxNodeView>, src: Seq<u8>) -> bool {
    forall|j: int| 0 <= j < nodes.len() ==> node_readable(nodes, src, j) && #[trigger] nodes[j].row < usize::MAX
}

proof fn lemma_leave_scan_some(nodes: Seq<SyntaxNodeView>, src: Seq<u8>, i: int, k: int, parts: Seq<Seq<char>>)
    requires
        all_readable(nodes, src),
        0 <= i,
    ensures
        leave_scan(nodes, src, children(nodes, i), k, parts) is Some,
    decreases children(nodes, i).len() - k,
{
    let kids = children(nodes, i);
    if 0 <= k < kids.len() {
        lemma_kids_range(nodes, i);
        let c = kids[k];
        assert(0 <= c < nodes.len());
        assert(nodes[c].row < usize::MAX);
        lemma_leave_scan_some(nodes, src, i, k + 1, parts);
    }
}

/// On a tree whose nodes are all readable, the walk from any node never fails.
pub proof fn law_readable_tree_walks(nodes: Seq<SyntaxNodeView>, src: Seq<u8>, i: int, state: WalkState)
    requires
        all_readable(nodes, src),
        0 <= i < nodes.len(),
    ensures
        walk(nodes, src, i, state) is Some,
    decreases nodes.len() - i, 1int, 0int,
{
    lemma_kids_range(nodes, i);
    let named = named_children(nodes, i);
    assert(nodes[i].row < usize::MAX);
    if named.len() >= 2 {
        assert(0 <= named[0] < nodes.len() && 0 <= named[1] < nodes.len());
        assert(nodes[named[0]].row < usize::MAX);
        assert(nodes[named[1]].row < usize::MAX);
    }
    let entered = enter_node(nodes, src, i, state).unwrap();
    lemma_walk_named_some(nodes, src, i, 0, entered);
    let walked = walk_named(nodes, src, i, 0, entered).unwrap();
    lemma_leave_scan_some(nodes, src, i, 0, walked.0);
}

proof fn lemma_walk_named_some(nodes: Seq<SyntaxNodeView>, src: Seq<u8>, i: int, k: int, state: WalkState)
    requires
        all_readable(nodes, src),
        0 <= i < nodes.len(),
    ensures
        walk_named(nodes, src, i, k, state) is Some,
    decreases nodes.len() - i, 0int, named_children(nodes, i).len() - k,
{
    let named = named_children(nodes, i);
    if 0 <= k < named.len() {
        lemma_kids_range(nodes, i);
        law_readable_tree_walks(nodes, src, named[k], state);
        let next = walk(nodes, src, named[k], state).unwrap();
        lemma_walk_named_some(nodes, src, i, k + 1, next);
    }
}

/// On a tree whose nodes are all readable and whose every closing `call` opened a module,
/// collecting modules succeeds and gives exactly the modules defined in the tree, in pre-order
/// of their `defmodule` calls, each named by its enclosing modules' names and its own joined
/// with `.`, with the line of its call.
pub proof fn law_readable_tree_modules(nodes: Seq<SyntaxNodeView>, src: Seq<u8>)
    requires
        all_readable(nodes, src),
        balanced(nodes, src),
        nodes.len() >= 1,
    ensures
        tree_modules(nodes, src) == Some(defined_modules(nodes, src, 0, Seq::empty())),
{
    let start: WalkState = (Seq::empty(), Seq::empty());
    law_readable_tree_walks(nodes, src, 0, start);
    law_walk_finds_defined_modules(nodes, src, 0, start);
    assert(start.1 + defined_modules(nodes, src, 0, Seq::empty()) =~= defined_modules(nodes, src, 0, Seq::empty()));
}

} // verus!
