//! The syntax tree of Python source, as the tree-sitter Python grammar parses it.
//!
//! The parser reports the tree as a preorder walk: an `Open` event for each node
//! as it is entered and a `Close` event as it is left. The walk is rebuilt here
//! into a node list in preorder where each node knows its parent.
use crate::tangle::TangleString;
use crate::schedule::in_order;
use crate::text::chars_of;
use tree_sitter::Parser;
use vstd::prelude::*;

verus! {

/// A place in source text: zero-based row and byte column.
#[derive(Clone, Copy, Debug, PartialEq, Eq, Structural)]
pub struct Position {
    pub row: usize,
    pub column: usize,
}

/// The start and end of a stretch of source text.
pub type DocRange = (Position, Position);

/// One node of a syntax tree.
#[derive(Debug)]
pub struct SyntaxNode {
    /// The grammar's name for the node (`identifier`, `assignment`, ...).
    pub kind: String,
    /// Whether the grammar names the node (punctuation is unnamed).
    pub named: bool,
    /// The field of its parent the node fills, if any (`name`, `left`, ...).
    pub field: Option<String>,
    /// The source text the node spans.
    pub text: String,
    pub start: Position,
    pub end: Position,
}

/// A step of a preorder walk over a syntax tree.
#[derive(Debug)]
pub enum SyntaxEvent {
    Open(SyntaxNode),
    Close,
}

/// The preorder walk of the tree the Python grammar gives `source`.
pub uninterp spec fn python_syntax(source: Seq<char>) -> Seq<SyntaxEvent>;

fn node_event(
    kind: &str,
    named: bool,
    field: Option<&str>,
    text: &str,
    start_row: usize,
    start_column: usize,
    end_row: usize,
    end_column: usize,
) -> (r: SyntaxEvent)
    ensures
        r matches SyntaxEvent::Open(n) && n.kind@ == kind@ && n.named == named && n.text@ == text@
            && n.start == (Position { row: start_row, column: start_column }) && n.end == (Position {
            row: end_row,
            column: end_column,
        }) && match field {
            Some(f) => n.field matches Some(g) && g@ == f@,
            None => n.field is None,
        },
{
    SyntaxEvent::Open(
        SyntaxNode {
            kind: kind.to_string(),
            named,
            field: match field {
                Some(f) => Some(f.to_string()),
                None => None,
            },
            text: text.to_string(),
            start: Position { row: start_row, column: start_column },
            end: Position { row: end_row, column: end_column },
        },
    )
}

/// Relies on `tree_sitter::Parser` with `tree_sitter_python::language()`:
/// parses the source and walks the tree with a `TreeCursor`; no events when
/// the grammar cannot be loaded, for then `parse` returns `None`.
#[verifier::external_body]
pub(crate) fn parse_python(src: &TangleString) -> (r: Vec<SyntaxEvent>)
    ensures
        r@ == python_syntax(src.0@),
{
    let mut p = Parser::new();
    let mut out = Vec::new();
    let _ = p.set_language(tree_sitter_python::language());
    let Some(tree) = p.parse(src.0, None) else { return out; };
    let mut c = tree.walk();
    loop {
        let n = c.node();
        out.push(node_event(n.kind(), n.is_named(), c.field_name(), &src.0[n.byte_range()], n.start_position().row, n.start_position().column, n.end_position().row, n.end_position().column));
        if c.goto_first_child() { continue; }
        out.push(SyntaxEvent::Close);
        while !c.goto_next_sibling() {
            if !c.goto_parent() { return out; }
            out.push(SyntaxEvent::Close);
        }
    }
}

/// The state of rebuilding a walk: nodes so far, their parents, and the
/// nodes entered and not yet left.
pub type BuildState = (Seq<SyntaxNode>, Seq<Option<usize>>, Seq<usize>);

pub open spec fn build_step(st: BuildState, e: SyntaxEvent) -> BuildState {
    match e {
        SyntaxEvent::Open(n) => (
            st.0.push(n),
            st.1.push(
                if st.2.len() > 0 {
                    Some(st.2.last())
                } else {
                    None
                },
            ),
            st.2.push(st.0.len() as usize),
        ),
        SyntaxEvent::Close => (st.0, st.1, if st.2.len() > 0 {
            st.2.drop_last()
        } else {
            st.2
        }),
    }
}

pub open spec fn build_state(events: Seq<SyntaxEvent>) -> BuildState
    decreases events.len(),
{
    if events.len() == 0 {
        (Seq::<SyntaxNode>::empty(), Seq::<Option<usize>>::empty(), Seq::<usize>::empty())
    } else {
        build_step(build_state(events.drop_last()), events.last())
    }
}

/// A syntax tree as a preorder node list with each node's parent.
pub struct SyntaxTree {
    pub nodes: Vec<SyntaxNode>,
    pub parent: Vec<Option<usize>>,
}

/// A syntax tree as values: the nodes in preorder and each node's parent.
pub struct TreeView {
    pub nodes: Seq<SyntaxNode>,
    pub parent: Seq<Option<usize>>,
}

impl View for SyntaxTree {
    type V = TreeView;

    open spec fn view(&self) -> TreeView {
        TreeView { nodes: self.nodes@, parent: self.parent@ }
    }
}

impl SyntaxTree {
    pub open spec fn wf(&self) -> bool {
        self@.wf()
    }

    /// The tree the walk describes.
    pub open spec fn from_events(events: Seq<SyntaxEvent>) -> TreeView {
        let st = build_state(events);
        TreeView { nodes: st.0, parent: st.1 }
    }
}

impl TreeView {
    /// Each node's parent precedes it.
    pub open spec fn wf(&self) -> bool {
        &&& self.nodes.len() == self.parent.len()
        &&& forall|j: int|
            0 <= j < self.parent.len() ==> (#[trigger] self.parent[j] matches Some(p) ==> (p as int)
                < j)
    }

    pub open spec fn kind(&self, i: int) -> Seq<char> {
        self.nodes[i].kind@
    }

    pub open spec fn text(&self, i: int) -> Seq<char> {
        self.nodes[i].text@
    }

    pub open spec fn field_is(&self, i: int, f: Seq<char>) -> bool {
        self.nodes[i].field matches Some(g) && g@ == f
    }

    /// `j` is a child of `i`.
    pub open spec fn is_child(&self, j: int, i: int) -> bool {
        0 <= j < self.parent.len() && self.parent[j] == Some(i as usize) && 0 <= i
    }

    /// `j` is a child of the root: a top-level node.
    pub open spec fn top_level(&self, j: int) -> bool {
        0 <= j < self.parent.len() && (self.parent[j] matches Some(p) && self.parent[p as int]
            is None)
    }
}

proof fn lemma_build_state(events: Seq<SyntaxEvent>)
    ensures
        build_state(events).0.len() == build_state(events).1.len(),
        forall|j: int|
            0 <= j < build_state(events).1.len() ==> (#[trigger] build_state(events).1[j] matches Some(
                p,
            ) ==> (p as int) < j),
        forall|k: int|
            0 <= k < build_state(events).2.len() ==> (#[trigger] build_state(events).2[k] as int)
                < build_state(events).0.len(),
    decreases events.len(),
{
    if events.len() > 0 {
        lemma_build_state(events.drop_last());
        let st = build_state(events.drop_last());
        let st2 = build_state(events);
        match events.last() {
            SyntaxEvent::Open(n) => {
                assert forall|j: int| 0 <= j < st2.1.len() implies (#[trigger] st2.1[j] matches Some(
                    p,
                ) ==> (p as int) < j) by {
                    if j < st.1.len() {
                        assert(st2.1[j] == st.1[j]);
                    }
                }
                assert forall|k: int| 0 <= k < st2.2.len() implies (#[trigger] st2.2[k] as int)
                    < st2.0.len() by {
                    if k < st.2.len() {
                        assert(st2.2[k] == st.2[k]);
                    }
                }
            },
            SyntaxEvent::Close => {
                if st.2.len() > 0 {
                    assert forall|k: int| 0 <= k < st2.2.len() implies (#[trigger] st2.2[k] as int)
                        < st2.0.len() by {
                        assert(st2.2[k] == st.2[k]);
                    }
                }
            },
        }
    }
}

impl SyntaxNode {
    /// A copy of the node.
    pub fn copy(&self) -> (r: SyntaxNode)
        ensures
            r == *self,
    {
        SyntaxNode {
            kind: self.kind.clone(),
            named: self.named,
            field: match &self.field {
                Some(f) => Some(f.clone()),
                None => None,
            },
            text: self.text.clone(),
            start: self.start,
            end: self.end,
        }
    }
}

/// Rebuilds the tree from a preorder walk.
pub fn build_tree(events: &Vec<SyntaxEvent>) -> (t: SyntaxTree)
    ensures
        t@ == SyntaxTree::from_events(events@),
        t.wf(),
{
    let mut nodes: Vec<SyntaxNode> = Vec::new();
    let mut parent: Vec<Option<usize>> = Vec::new();
    let mut stack: Vec<usize> = Vec::new();
    let mut i: usize = 0;
    while i < events.len()
        invariant
            i <= events.len(),
            (nodes@, parent@, stack@) == build_state(events@.subrange(0, i as int)),
        decreases events.len() - i,
    {
        proof {
            lemma_build_state(events@.subrange(0, i as int));
        }
        assert(events@.subrange(0, i + 1).drop_last() == events@.subrange(0, i as int));
        match &events[i] {
            SyntaxEvent::Open(n) => {
                let up = if stack.len() > 0 {
                    Some(stack[stack.len() - 1])
                } else {
                    None
                };
                let idx = nodes.len();
                nodes.push(n.copy());
                parent.push(up);
                stack.push(idx);
            },
            SyntaxEvent::Close => {
                if stack.len() > 0 {
                    stack.pop();
                }
            },
        }
        i = i + 1;
    }
    assert(events@.subrange(0, i as int) == events@);
    proof {
        lemma_build_state(events@);
    }
    SyntaxTree { nodes, parent }
}

/// Whether the text is `lit`.
pub fn text_is(s: &String, lit: &str) -> (r: bool)
    ensures
        r == (s@ == lit@),
{
    let a = chars_of(s.as_str());
    let b = chars_of(lit);
    assert(a@ == s@);
    assert(b@ == lit@);
    if a.len() != b.len() {
        return false;
    }
    let mut i: usize = 0;
    while i < a.len()
        invariant
            i <= a.len() == b.len(),
            a@ == s@,
            b@ == lit@,
            a@.subrange(0, i as int) == b@.subrange(0, i as int),
        decreases a.len() - i,
    {
        if a[i] != b[i] {
            assert(a@[i as int] != b@[i as int]);
            assert(a@ != b@);
            return false;
        }
        i = i + 1;
        assert(a@.subrange(0, i as int) =~= b@.subrange(0, i as int)) by {
            assert forall|k: int| 0 <= k < i implies a@.subrange(0, i as int)[k] == b@.subrange(0, i as int)[k] by {
                if k < i - 1 {
                    assert(a@.subrange(0, i - 1)[k] == b@.subrange(0, i - 1)[k]);
                }
            }
        }
    }
    assert(a@ =~= a@.subrange(0, i as int));
    assert(b@ =~= b@.subrange(0, i as int));
    true
}

impl SyntaxTree {
    /// Whether node `i` is of kind `k`.
    pub fn kind_is(&self, i: usize, k: &str) -> (r: bool)
        requires
            i < self.nodes@.len(),
        ensures
            r == (self@.kind(i as int) == k@),
    {
        text_is(&self.nodes[i].kind, k)
    }

    /// Whether node `i` fills field `f` of its parent.
    pub fn field_of(&self, i: usize, f: &str) -> (r: bool)
        requires
            i < self.nodes@.len(),
        ensures
            r == self@.field_is(i as int, f@),
    {
        match &self.nodes[i].field {
            Some(g) => text_is(g, f),
            None => false,
        }
    }

    /// The parent of node `i`, if it has one.
    pub fn parent_of(&self, i: usize) -> (r: Option<usize>)
        requires
            self.wf(),
            i < self.nodes@.len(),
        ensures
            r == self.parent@[i as int],
            r matches Some(p) ==> p < i,
    {
        self.parent[i]
    }

    /// Whether node `i` is a child of the root.
    pub fn is_top_level(&self, i: usize) -> (r: bool)
        requires
            self.wf(),
            i < self.nodes@.len(),
        ensures
            r == self@.top_level(i as int),
    {
        match self.parent[i] {
            Some(p) => self.parent[p].is_none(),
            None => false,
        }
    }
}


impl TreeView {
    /// The named children of `i`, in order.
    pub open spec fn named_kids(&self, i: int) -> Seq<int> {
        in_order(
            self.nodes.len() as int,
            Set::new(|j: int| self.is_child(j, i) && self.nodes[j].named),
        )
    }

    /// The first of the first `k` nodes that is a child of `i` in field `f`, or -1.
    pub open spec fn field_kid_upto(&self, i: int, f: Seq<char>, k: int) -> int
        decreases k,
    {
        if k <= 0 {
            -1
        } else if self.field_kid_upto(i, f, k - 1) >= 0 {
            self.field_kid_upto(i, f, k - 1)
        } else if self.is_child(k - 1, i) && self.field_is(k - 1, f) {
            k - 1
        } else {
            -1
        }
    }

    /// The child of `i` in field `f`, or -1.
    pub open spec fn field_kid(&self, i: int, f: Seq<char>) -> int {
        self.field_kid_upto(i, f, self.nodes.len() as int)
    }

    /// The first named child of `x`, or -1.
    pub open spec fn first_named(&self, x: int) -> int {
        if self.named_kids(x).len() > 0 {
            self.named_kids(x)[0]
        } else {
            -1
        }
    }

    proof fn lemma_field_kid_found(&self, i: int, f: Seq<char>, k: int)
        requires
            0 <= k <= self.nodes.len(),
            self.field_kid_upto(i, f, k) >= 0,
        ensures
            self.field_kid(i, f) == self.field_kid_upto(i, f, k),
        decreases self.nodes.len() - k,
    {
        if k < self.nodes.len() {
            self.lemma_field_kid_found(i, f, k + 1);
        }
    }

}

impl SyntaxTree {
    /// The named children of node `i`, in order.
    pub fn named_children(&self, i: usize) -> (r: Vec<usize>)
        requires
            self.wf(),
        ensures
            r@.map_values(|j: usize| j as int) == self@.named_kids(i as int),
            forall|k: int| 0 <= k < r@.len() ==> (#[trigger] r@[k] as int) < self.nodes@.len(),
    {
        let ghost s = Set::new(|j: int| self@.is_child(j, i as int) && self.nodes@[j].named);
        let n = self.nodes.len();
        let mut r: Vec<usize> = Vec::new();
        let mut j: usize = 0;
        while j < n
            invariant
                j <= n == self.nodes@.len() == self.parent@.len(),
                s == Set::new(|j: int| self@.is_child(j, i as int) && self.nodes@[j].named),
                r@.map_values(|j: usize| j as int) == in_order(j as int, s),
                forall|k: int| 0 <= k < r@.len() ==> (#[trigger] r@[k] as int) < j,
            decreases n - j,
        {
            if self.parent[j] == Some(i) && self.nodes[j].named {
                r.push(j);
            }
            j = j + 1;
            assert(r@.map_values(|j: usize| j as int) =~= in_order(j as int, s));
        }
        r
    }

    /// The child of node `i` in field `f`, if it has one.
    pub fn field_child(&self, i: usize, f: &str) -> (r: Option<usize>)
        requires
            self.wf(),
        ensures
            match r {
                Some(j) => j == self@.field_kid(i as int, f@) && j < self.nodes@.len(),
                None => self@.field_kid(i as int, f@) == -1,
            },
    {
        let n = self.nodes.len();
        let mut j: usize = 0;
        while j < n
            invariant
                j <= n == self.nodes@.len() == self.parent@.len(),
                self@.field_kid_upto(i as int, f@, j as int) == -1,
            decreases n - j,
        {
            if self.parent[j] == Some(i) && self.field_of(j, f) {
                assert(self@.field_kid_upto(i as int, f@, j + 1) == j);
                proof {
                    self@.lemma_field_kid_found(i as int, f@, j + 1);
                }
                return Some(j);
            }
            j = j + 1;
        }
        None
    }

}

} // verus!
