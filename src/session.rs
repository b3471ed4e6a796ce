//! An editing session: named cells, each with its source, the leaf last
//! analysed from it and its identifier map. Editing re-analyses one cell and
//! leaves every other cell as it was.
use crate::cell::{cell_idents, cell_provides, parsed, range_entries};
use crate::names::add_all;
use crate::schedule::{names_view, schedule_names, topo_sort};
use crate::syntax::DocRange;
use crate::tangle::{keyed, name_index, Members, Tangle};
use crate::text::{append_chars, chars_of, string_of};
use indexmap::IndexMap;
use vstd::prelude::*;

verus! {

/// The decimal digits of `n`.
pub open spec fn decimal(n: nat) -> Seq<char>
    decreases n,
{
    if n < 10 {
        seq![digit(n)]
    } else {
        decimal(n / 10).push(digit(n % 10))
    }
}

pub open spec fn digit(d: nat) -> char {
    if d == 0 {
        '0'
    } else if d == 1 {
        '1'
    } else if d == 2 {
        '2'
    } else if d == 3 {
        '3'
    } else if d == 4 {
        '4'
    } else if d == 5 {
        '5'
    } else if d == 6 {
        '6'
    } else if d == 7 {
        '7'
    } else if d == 8 {
        '8'
    } else {
        '9'
    }
}

fn digit_char(d: usize) -> (c: char)
    requires
        d < 10,
    ensures
        c == digit(d as nat),
{
    if d == 0 {
        '0'
    } else if d == 1 {
        '1'
    } else if d == 2 {
        '2'
    } else if d == 3 {
        '3'
    } else if d == 4 {
        '4'
    } else if d == 5 {
        '5'
    } else if d == 6 {
        '6'
    } else if d == 7 {
        '7'
    } else if d == 8 {
        '8'
    } else {
        '9'
    }
}

fn decimal_chars(n: usize) -> (r: Vec<char>)
    ensures
        r@ == decimal(n as nat),
    decreases n,
{
    if n < 10 {
        let mut v: Vec<char> = Vec::new();
        v.push(digit_char(n));
        v
    } else {
        let mut v = decimal_chars(n / 10);
        v.push(digit_char(n % 10));
        v
    }
}

/// `prefix` followed by the decimal digits of `n`.
fn numbered(prefix: &str, n: usize) -> (r: String)
    ensures
        r@ == prefix@ + decimal(n as nat),
{
    let mut v = chars_of(prefix);
    let d = decimal_chars(n);
    append_chars(&mut v, &d);
    string_of(&v)
}

impl Tangle {
    /// A new empty leaf named `tangle_<n>` after the counter, which is then
    /// advanced.
    pub fn fresh(counter: &mut usize) -> (r: Tangle)
        requires
            *old(counter) < usize::MAX,
        ensures
            *final(counter) == *old(counter) + 1,
            r is Leaf,
            r.spec_name() == "tangle_"@ + decimal(*old(counter) as nat),
            r.spec_provides() == Seq::<Seq<char>>::empty(),
            r.spec_requires() == Seq::<Seq<char>>::empty(),
            r->code@ == Seq::<char>::empty(),
    {
        let name = numbered("tangle_", *counter);
        *counter = *counter + 1;
        Tangle::Leaf {
            name,
            provides: crate::names::empty_names(),
            requires: crate::names::empty_names(),
            code: String::new(),
        }
    }
}

/// The name of the `k`th fresh cell.
pub open spec fn node_name(k: nat) -> Seq<char> {
    "node_"@ + decimal(k)
}

/// Some cell is named `x`.
pub open spec fn name_taken(nodes: Seq<EditableNode>, x: Seq<char>) -> bool {
    exists|i: int| 0 <= i < nodes.len() && #[trigger] nodes[i].name@ == x
}

/// A cell of the session.
pub struct EditableNode {
    pub name: String,
    /// The source as last edited.
    pub code: String,
    /// The leaf last analysed from the source.
    pub leaf: Tangle,
    /// Where each identifier of the analysed source first occurs.
    pub ident: IndexMap<String, DocRange>,
}

impl EditableNode {
    /// A cell analysed from `code`, and the interpreter's error if it could
    /// not report what the cell requires.
    pub fn new<E>(name: &String, code: &String, inferred: Result<Vec<String>, E>) -> (r: (
        EditableNode,
        Option<E>,
    ))
        ensures
            r.0.name@ == name@,
            r.0.code@ == code@,
            r.0.leaf is Leaf,
            r.0.leaf.spec_name() == name@,
            r.0.leaf->code@ == code@,
            match inferred {
                Ok(req) => r.1 is None && r.0.leaf.spec_requires() == add_all(
                    Seq::empty(),
                    req@.map_values(|x: String| x@),
                ),
                Err(e) => r.1 == Some(e) && r.0.leaf.spec_requires() == Seq::<Seq<char>>::empty(),
            },
            r.0.leaf.spec_provides() == cell_provides(parsed(code@)),
            range_entries(r.0.ident) == cell_idents(parsed(code@)),
    {
        match Tangle::from_cell(name.clone(), code, inferred) {
            Ok((leaf, ident)) => (EditableNode { name: name.clone(), code: code.clone(), leaf, ident }, None),
            Err((err, (leaf, ident))) => (
                EditableNode { name: name.clone(), code: code.clone(), leaf, ident },
                Some(err),
            ),
        }
    }
}

/// The cells of a session in order, with the counter that names new cells.
pub struct TangleApp {
    pub nodes: Vec<EditableNode>,
    pub last_id: usize,
}

impl TangleApp {
    /// Every cell holds a leaf named as the cell.
    pub open spec fn wf(&self) -> bool {
        forall|i: int|
            0 <= i < self.nodes@.len() ==> (#[trigger] self.nodes@[i]).leaf is Leaf
                && self.nodes@[i].leaf.spec_name() == self.nodes@[i].name@
    }

    pub open spec fn leaves(&self) -> Seq<Tangle> {
        self.nodes@.map_values(|n: EditableNode| n.leaf)
    }

    /// An empty session.
    pub fn new() -> (r: TangleApp)
        ensures
            r.nodes@.len() == 0,
            r.last_id == 0,
            r.wf(),
    {
        TangleApp { nodes: Vec::new(), last_id: 0 }
    }

    /// Whether a cell is named `x`.
    fn has_node(&self, x: &String) -> (r: bool)
        ensures
            r == name_taken(self.nodes@, x@),
    {
        let mut i: usize = 0;
        while i < self.nodes.len()
            invariant
                i <= self.nodes@.len(),
                forall|k: int| 0 <= k < i ==> #[trigger] self.nodes@[k].name@ != x@,
            decreases self.nodes.len() - i,
        {
            if self.nodes[i].name.eq(x) {
                return true;
            }
            i = i + 1;
        }
        false
    }

    /// Adds an empty cell named `node_<k>`, `k` the least counter value from
    /// `last_id` on that no cell uses as a name, and sets the counter to
    /// `k + 1`. When the counter reaches its largest value first, that value
    /// is used.
    pub fn fresh_node(&mut self)
        requires
            old(self).wf(),
        ensures
            final(self).wf(),
            final(self).nodes@.len() == old(self).nodes@.len() + 1,
            forall|i: int|
                0 <= i < old(self).nodes@.len() ==> #[trigger] final(self).nodes@[i] == old(
                    self,
                ).nodes@[i],
            ({
                let n = final(self).nodes@.last();
                &&& n.code@ == Seq::<char>::empty()
                &&& n.leaf.spec_requires() == Seq::<Seq<char>>::empty()
                &&& n.leaf.spec_provides() == cell_provides(parsed(Seq::<char>::empty()))
                &&& exists|k: usize|
                    {
                        &&& #[trigger] node_name(k as nat) == n.name@
                        &&& old(self).last_id <= k
                        &&& forall|j: usize|
                            old(self).last_id <= j < k ==> #[trigger] name_taken(
                                old(self).nodes@,
                                node_name(j as nat),
                            )
                        &&& k < usize::MAX ==> !name_taken(old(self).nodes@, node_name(k as nat))
                            && final(self).last_id == k + 1
                        &&& k == usize::MAX ==> final(self).last_id == k
                    }
            }),
    {
        let mut name = numbered("node_", self.last_id);
        while self.has_node(&name) && self.last_id < usize::MAX
            invariant
                name@ == node_name(self.last_id as nat),
                self.nodes == old(self).nodes,
                old(self).last_id <= self.last_id,
                forall|j: usize|
                    old(self).last_id <= j < self.last_id ==> #[trigger] name_taken(
                        old(self).nodes@,
                        node_name(j as nat),
                    ),
            decreases usize::MAX - self.last_id,
        {
            self.last_id = self.last_id + 1;
            name = numbered("node_", self.last_id);
        }
        let k = self.last_id;
        let code = String::new();
        let (node, _) = EditableNode::new::<()>(&name, &code, Ok(Vec::new()));
        proof {
            assert(Seq::<String>::empty().map_values(|x: String| x@) =~= Seq::<Seq<char>>::empty());
        }
        self.nodes.push(node);
        if self.last_id < usize::MAX {
            self.last_id = self.last_id + 1;
        }
        assert(forall|i: int| 0 <= i < old(self).nodes@.len() ==> self.nodes@[i] == old(self).nodes@[i]);
        assert(node_name(k as nat) == self.nodes@.last().name@);
    }

    /// The dataflow of all cells, named `dataflow`.
    pub fn compile(&self) -> (r: Tangle)
        requires
            self.wf(),
        ensures
            r is Dataflow,
            r.spec_name() == "dataflow"@,
            r.wf(),
            r.members().len() == keyed(self.leaves()).len(),
            forall|i: int|
                0 <= i < r.members().len() ==> (#[trigger] r.members()[i]).same_leaf(
                    &keyed(self.leaves())[i],
                ),
    {
        let mut copies: Vec<Tangle> = Vec::new();
        let mut i: usize = 0;
        while i < self.nodes.len()
            invariant
                self.wf(),
                i <= self.nodes@.len(),
                copies@.len() == i,
                forall|k: int| 0 <= k < i ==> (#[trigger] copies@[k]).same_leaf(&self.nodes@[k].leaf),
            decreases self.nodes.len() - i,
        {
            assert(self.nodes@[i as int].leaf is Leaf);
            copies.push(self.nodes[i].leaf.clone_leaf());
            i = i + 1;
        }
        let ghost cs = copies@;
        let r = Tangle::from_leaves(String::from_str("dataflow"), Members::from_nodes(copies));
        proof {
            reveal_strlit("dataflow");
            lemma_keyed_same(cs, self.leaves());
        }
        r
    }

    /// The levels the cells are laid out in.
    pub fn bfs_ui(&self) -> (r: Vec<Vec<String>>)
        ensures
            exists|g: Seq<&Tangle>|
                g.len() == self.nodes@.len() && (forall|i: int|
                    0 <= i < g.len() ==> *#[trigger] g[i] == self.nodes@[i].leaf) && names_view(r@)
                    == schedule_names(g),
    {
        let mut refs: Vec<&Tangle> = Vec::new();
        let mut i: usize = 0;
        while i < self.nodes.len()
            invariant
                i <= self.nodes@.len(),
                refs@.len() == i,
                forall|k: int| 0 <= k < i ==> *#[trigger] refs@[k] == self.nodes@[k].leaf,
            decreases self.nodes.len() - i,
        {
            refs.push(&self.nodes[i].leaf);
            i = i + 1;
        }
        let ghost g = refs@;
        let r = topo_sort(refs);
        assert(g.len() == self.nodes@.len() && (forall|i: int|
            0 <= i < g.len() ==> *#[trigger] g[i] == self.nodes@[i].leaf) && names_view(r@)
            == schedule_names(g));
        r
    }

    /// Replaces the source of cell `i`; its leaf stays as last analysed.
    pub fn edit(&mut self, i: usize, code: String)
        requires
            i < old(self).nodes@.len(),
        ensures
            final(self).nodes@.len() == old(self).nodes@.len(),
            final(self).nodes@[i as int].code@ == code@,
            final(self).nodes@[i as int].name == old(self).nodes@[i as int].name,
            final(self).nodes@[i as int].leaf == old(self).nodes@[i as int].leaf,
            final(self).nodes@[i as int].ident == old(self).nodes@[i as int].ident,
            forall|j: int|
                0 <= j < old(self).nodes@.len() && j != i ==> #[trigger] final(self).nodes@[j]
                    == old(self).nodes@[j],
            final(self).last_id == old(self).last_id,
            old(self).wf() ==> final(self).wf(),
    {
        self.nodes[i].code = code;
    }

    /// Whether cell `i`'s source differs from the code of its leaf.
    pub fn is_changed(&self, i: usize) -> (r: bool)
        requires
            self.wf(),
            i < self.nodes@.len(),
        ensures
            r == (self.nodes@[i as int].code@ != self.nodes@[i as int].leaf->code@),
    {
        assert(self.nodes@[i as int].leaf is Leaf);
        !self.nodes[i].code.eq(self.nodes[i].leaf.code())
    }

    /// Re-analyses cell `i` from its source with what the interpreter reported
    /// it requires; every other cell is left as it was. On an error the cell
    /// keeps a leaf that provides what its source binds and requires nothing,
    /// and the error is returned.
    pub fn reanalyze<E>(&mut self, i: usize, inferred: Result<Vec<String>, E>) -> (r: Option<E>)
        requires
            i < old(self).nodes@.len(),
        ensures
            final(self).nodes@.len() == old(self).nodes@.len(),
            forall|j: int|
                0 <= j < old(self).nodes@.len() && j != i ==> #[trigger] final(self).nodes@[j]
                    == old(self).nodes@[j],
            final(self).last_id == old(self).last_id,
            final(self).nodes@[i as int].name@ == old(self).nodes@[i as int].name@,
            final(self).nodes@[i as int].code@ == old(self).nodes@[i as int].code@,
            final(self).nodes@[i as int].leaf is Leaf,
            final(self).nodes@[i as int].leaf.spec_name() == old(self).nodes@[i as int].name@,
            final(self).nodes@[i as int].leaf->code@ == old(self).nodes@[i as int].code@,
            match inferred {
                Ok(req) => r is None && final(self).nodes@[i as int].leaf.spec_requires() == add_all(
                    Seq::empty(),
                    req@.map_values(|x: String| x@),
                ),
                Err(e) => r == Some(e) && final(self).nodes@[i as int].leaf.spec_requires() == Seq::<
                    Seq<char>,
                >::empty(),
            },
            final(self).nodes@[i as int].leaf.spec_provides() == cell_provides(
                parsed(old(self).nodes@[i as int].code@),
            ),
            range_entries(final(self).nodes@[i as int].ident) == cell_idents(
                parsed(old(self).nodes@[i as int].code@),
            ),
            old(self).wf() ==> final(self).wf(),
    {
        let (node, err) = EditableNode::new(&self.nodes[i].name, &self.nodes[i].code, inferred);
        let ghost old_nodes = self.nodes@;
        self.nodes.set(i, node);
        assert(forall|j: int| 0 <= j < old_nodes.len() && j != i ==> self.nodes@[j] == old_nodes[j]);
        err
    }

    /// Removes cell `i`; the others keep their order.
    pub fn remove_node(&mut self, i: usize)
        requires
            i < old(self).nodes@.len(),
        ensures
            final(self).nodes@ == old(self).nodes@.remove(i as int),
            final(self).last_id == old(self).last_id,
            old(self).wf() ==> final(self).wf(),
    {
        self.nodes.remove(i);
    }
}

/// Keying copies keys the originals alike.
proof fn lemma_keyed_same(cs: Seq<Tangle>, ls: Seq<Tangle>)
    requires
        cs.len() == ls.len(),
        forall|k: int| 0 <= k < cs.len() ==> (#[trigger] cs[k]).same_leaf(&ls[k]),
    ensures
        keyed(cs).len() == keyed(ls).len(),
        forall|k: int| 0 <= k < keyed(cs).len() ==> (#[trigger] keyed(cs)[k]).same_leaf(&keyed(ls)[k]),
    decreases cs.len(),
{
    if cs.len() > 0 {
        assert forall|k: int| 0 <= k < cs.len() - 1 implies (#[trigger] cs.drop_last()[k]).same_leaf(
            &ls.drop_last()[k],
        ) by {
            assert(cs.drop_last()[k] == cs[k]);
            assert(ls.drop_last()[k] == ls[k]);
        }
        lemma_keyed_same(cs.drop_last(), ls.drop_last());
        let kc = keyed(cs.drop_last());
        let kl = keyed(ls.drop_last());
        let x = cs.last().spec_name();
        assert(cs.last().same_leaf(&ls.last())) by {
            assert(cs[cs.len() - 1].same_leaf(&ls[ls.len() - 1]));
        }
        assert(ls.last().spec_name() == x);
        lemma_name_index_same(kc, kl, x);
        crate::tangle::lemma_name_index(kc, x);
        let i = name_index(kc, x);
        if i >= 0 {
            assert(keyed(cs) == kc.update(i, cs.last()));
            assert(keyed(ls) == kl.update(i, ls.last()));
            assert forall|k: int| 0 <= k < keyed(cs).len() implies (#[trigger] keyed(cs)[k]).same_leaf(
                &keyed(ls)[k],
            ) by {
                if k != i {
                    assert(kc[k].same_leaf(&kl[k]));
                }
            }
        } else {
            assert(keyed(cs) == kc.push(cs.last()));
            assert(keyed(ls) == kl.push(ls.last()));
            assert forall|k: int| 0 <= k < keyed(cs).len() implies (#[trigger] keyed(cs)[k]).same_leaf(
                &keyed(ls)[k],
            ) by {
                if k < kc.len() {
                    assert(kc[k].same_leaf(&kl[k]));
                }
            }
        }
    }
}

proof fn lemma_name_index_same(a: Seq<Tangle>, b: Seq<Tangle>, x: Seq<char>)
    requires
        a.len() == b.len(),
        forall|k: int| 0 <= k < a.len() ==> (#[trigger] a[k]).same_leaf(&b[k]),
    ensures
        name_index(a, x) == name_index(b, x),
    decreases a.len(),
{
    if a.len() > 0 {
        assert forall|k: int| 0 <= k < a.len() - 1 implies (#[trigger] a.drop_last()[k]).same_leaf(
            &b.drop_last()[k],
        ) by {
            assert(a.drop_last()[k] == a[k]);
            assert(b.drop_last()[k] == b[k]);
        }
        lemma_name_index_same(a.drop_last(), b.drop_last(), x);
        assert(a[a.len() - 1].same_leaf(&b[b.len() - 1]));
    }
}

} // verus!
