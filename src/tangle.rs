//! Graph nodes: leaves that wrap one cell, and dataflows that aggregate members.
use crate::names::{
    add_all, clone_names, empty_names, extend_names, insert_name, lemma_add_all_contains,
    name_at, names_len, names_of,
};
use crate::emit::{call_order, concat_levels, member_ifaces};
use crate::schedule::{levels_view, schedule, schedule_indices};
use indexmap::{IndexMap, IndexSet};
use vstd::prelude::*;

verus! {

/// A node of the dataflow graph.
///
/// Both variants carry a name, the names they provide and the names they
/// require. A leaf holds the code of one cell; a dataflow holds its members,
/// keyed by their names, in declaration order.
#[derive(Debug)]
pub enum Tangle {
    Dataflow {
        name: String,
        nodes: Members,
        provides: IndexSet<String>,
        requires: IndexSet<String>,
    },
    Leaf {
        name: String,
        provides: IndexSet<String>,
        requires: IndexSet<String>,
        code: String,
    },
}

/// Why a dataflow could not be built from source text.
#[derive(Debug)]
pub enum Error {
    /// A flow calls a name that no cell in the source declares.
    MissingLeaf(String),
    /// The source holds no flow declaration named as the entry point.
    NoDataflowFound,
    /// A flow call passes other names than the cell requires.
    RequiresMismatch { expected: IndexSet<String>, found: IndexSet<String> },
    /// A flow call binds other names than the cell provides.
    ProvidesMismatch { expected: IndexSet<String>, found: IndexSet<String> },
}

/// Source text handed to the syntax layer.
#[derive(Clone, Copy, Debug, Default)]
pub struct TangleString<'a>(pub &'a str);

impl<'a> From<&'a str> for TangleString<'a> {
    fn from(s: &'a str) -> (r: Self)
        ensures
            r.0 == s,
    {
        TangleString(s)
    }
}

impl<'a> vstd::std_specs::convert::FromSpecImpl<&'a str> for TangleString<'a> {
    open spec fn obeys_from_spec() -> bool {
        true
    }

    open spec fn from_spec(v: &'a str) -> Self {
        TangleString(v)
    }
}

impl<'a> TangleString<'a> {
    /// The text held.
    pub fn text(&self) -> (r: &'a str)
        ensures
            r == self.0,
    {
        self.0
    }
}

/// The members of a dataflow, keyed by their names in insertion order, held
/// in an `indexmap::IndexMap<String, Tangle>`. The map sits in a struct of its
/// own because Verus refuses `Tangle` inside a declared outside map type.
#[verifier::external_body]
#[derive(Debug)]
pub struct Members {
    map: IndexMap<String, Tangle>,
}

/// The entries a member map holds, in index order: each key with its node.
pub uninterp spec fn member_entries(m: Members) -> Seq<(Seq<char>, Tangle)>;

/// The position of the entry keyed `k`, or -1.
pub open spec fn key_index(es: Seq<(Seq<char>, Tangle)>, k: Seq<char>) -> int
    decreases es.len(),
{
    if es.len() == 0 {
        -1
    } else if key_index(es.drop_last(), k) >= 0 {
        key_index(es.drop_last(), k)
    } else if es.last().0 == k {
        es.len() - 1
    } else {
        -1
    }
}

/// Relies on `IndexMap::new`: a new map is empty.
#[verifier::external_body]
fn members_new() -> (r: Members)
    ensures
        member_entries(r) == Seq::<(Seq<char>, Tangle)>::empty(),
{
    Members { map: IndexMap::new() }
}

/// Relies on `IndexMap::insert`: a key already present keeps its place and
/// takes the new node; a new key is placed last.
#[verifier::external_body]
fn members_insert(m: &mut Members, k: String, t: Tangle)
    ensures
        member_entries(*final(m)) == if key_index(member_entries(*old(m)), k@) >= 0 {
            member_entries(*old(m)).update(key_index(member_entries(*old(m)), k@), (k@, t))
        } else {
            member_entries(*old(m)).push((k@, t))
        },
{
    m.map.insert(k, t);
}

/// Relies on `IndexMap::len`.
#[verifier::external_body]
fn members_len(m: &Members) -> (r: usize)
    ensures
        r == member_entries(*m).len(),
{
    m.map.len()
}

/// Relies on `IndexMap::get_index`: the entry at a position in index order.
#[verifier::external_body]
fn members_get_index(m: &Members, i: usize) -> (r: (&String, &Tangle))
    requires
        i < member_entries(*m).len(),
    ensures
        r.0@ == member_entries(*m)[i as int].0,
        *r.1 == member_entries(*m)[i as int].1,
{
    m.map.get_index(i).unwrap()
}

impl View for Members {
    type V = Seq<Tangle>;

    /// The member nodes in order.
    open spec fn view(&self) -> Seq<Tangle> {
        member_entries(*self).map_values(|e: (Seq<char>, Tangle)| e.1)
    }
}

impl Members {
    /// Each member is keyed by its own name, and no name is used twice.
    pub open spec fn wf(&self) -> bool {
        &&& forall|i: int|
            0 <= i < member_entries(*self).len() ==> (#[trigger] member_entries(*self)[i]).0
                == member_entries(*self)[i].1.spec_name()
        &&& names_distinct(self@)
    }

    /// An empty member map.
    pub fn new() -> (r: Members)
        ensures
            r@ == Seq::<Tangle>::empty(),
            r.wf(),
    {
        let r = members_new();
        assert(r@ =~= Seq::<Tangle>::empty());
        r
    }

    /// Adds `t` under its name: in place of the member of that name, or last.
    pub fn insert(&mut self, t: Tangle)
        requires
            old(self).wf(),
        ensures
            final(self)@ == upsert(old(self)@, t),
            final(self).wf(),
    {
        let ghost es = member_entries(*self);
        let ghost x = t.spec_name();
        proof {
            lemma_key_index(es, x);
            lemma_name_index(self@, x);
        }
        let k = t.name().clone();
        members_insert(self, k, t);
        let ghost es2 = member_entries(*self);
        proof {
            if key_index(es, x) >= 0 {
                assert(self@ =~= old(self)@.update(key_index(es, x), t));
            } else {
                assert(self@ =~= old(self)@.push(t));
            }
        }
        assert(forall|i: int| 0 <= i < es2.len() ==> (#[trigger] es2[i]).0 == es2[i].1.spec_name());
        assert(names_distinct(self@)) by {
            assert forall|i: int, j: int| 0 <= i < j < self@.len() implies #[trigger] self@[i].spec_name()
                != #[trigger] self@[j].spec_name() by {
                if key_index(es, x) < 0 && j == self@.len() - 1 {
                    assert(self@[i] == old(self)@[i]);
                } else if key_index(es, x) >= 0 && (i == key_index(es, x) || j == key_index(es, x)) {
                    assert(old(self)@[i].spec_name() == self@[i].spec_name());
                    assert(old(self)@[j].spec_name() == self@[j].spec_name());
                } else {
                    assert(self@[i] == old(self)@[i]);
                    assert(self@[j] == old(self)@[j]);
                }
            }
        }
    }

    /// A member map keyed by the nodes' names: a later node replaces an
    /// earlier one of the same name in its place.
    pub fn from_nodes(nodes: Vec<Tangle>) -> (r: Members)
        ensures
            r@ == keyed(nodes@),
            r.wf(),
    {
        let ghost orig = nodes@;
        let total = nodes.len();
        let mut rest = nodes;
        let mut m = Members::new();
        let mut k: usize = 0;
        while rest.len() > 0
            invariant
                k + rest@.len() == orig.len(),
                rest@ == orig.subrange(k as int, orig.len() as int),
                m@ == keyed(orig.subrange(0, k as int)),
                m.wf(),
                orig.len() == total,
            decreases rest@.len(),
        {
            let t = rest.remove(0);
            m.insert(t);
            k = k + 1;
            assert(orig.subrange(0, k as int).drop_last() == orig.subrange(0, k - 1));
            assert(rest@ =~= orig.subrange(k as int, orig.len() as int));
        }
        assert(orig.subrange(0, k as int) == orig);
        m
    }

    /// The number of members.
    pub fn len(&self) -> (r: usize)
        ensures
            r == self@.len(),
    {
        members_len(self)
    }

    /// The member at position `i`.
    pub fn get(&self, i: usize) -> (r: &Tangle)
        requires
            i < self@.len(),
        ensures
            *r == self@[i as int],
    {
        members_get_index(self, i).1
    }
}

/// Keys that are the members' names find a member where its name does.
proof fn lemma_key_index(es: Seq<(Seq<char>, Tangle)>, x: Seq<char>)
    requires
        forall|i: int| 0 <= i < es.len() ==> (#[trigger] es[i]).0 == es[i].1.spec_name(),
    ensures
        key_index(es, x) == name_index(es.map_values(|e: (Seq<char>, Tangle)| e.1), x),
    decreases es.len(),
{
    if es.len() > 0 {
        let init = es.drop_last();
        assert forall|i: int| 0 <= i < init.len() implies (#[trigger] init[i]).0 == init[i].1.spec_name() by {
            assert(init[i] == es[i]);
        }
        lemma_key_index(init, x);
        assert(es.map_values(|e: (Seq<char>, Tangle)| e.1).drop_last() =~= init.map_values(
            |e: (Seq<char>, Tangle)| e.1,
        ));
        assert(es[es.len() - 1].0 == es[es.len() - 1].1.spec_name());
    }
}

impl Tangle {
    pub open spec fn spec_name(&self) -> Seq<char> {
        match self {
            Tangle::Dataflow { name, .. } => name@,
            Tangle::Leaf { name, .. } => name@,
        }
    }

    pub open spec fn spec_provides(&self) -> Seq<Seq<char>> {
        match self {
            Tangle::Dataflow { provides, .. } => names_of(*provides),
            Tangle::Leaf { provides, .. } => names_of(*provides),
        }
    }

    pub open spec fn spec_requires(&self) -> Seq<Seq<char>> {
        match self {
            Tangle::Dataflow { requires: req, .. } => names_of(*req),
            Tangle::Leaf { requires: req, .. } => names_of(*req),
        }
    }

    pub open spec fn provides_set(&self) -> Set<Seq<char>> {
        Set::new(|x: Seq<char>| self.spec_provides().contains(x))
    }

    pub open spec fn requires_set(&self) -> Set<Seq<char>> {
        Set::new(|x: Seq<char>| self.spec_requires().contains(x))
    }

    pub open spec fn is_leaf(&self) -> bool {
        self is Leaf
    }

    /// Two nodes with the same name, variant, interface and (for leaves) code.
    pub open spec fn same_leaf(&self, o: &Tangle) -> bool {
        match (self, o) {
            (
                Tangle::Leaf { name: n1, provides: p1, requires: r1, code: c1 },
                Tangle::Leaf { name: n2, provides: p2, requires: r2, code: c2 },
            ) => n1@ == n2@ && names_of(*p1) == names_of(*p2) && names_of(*r1) == names_of(*r2)
                && c1@ == c2@,
            _ => false,
        }
    }

    /// The node's name.
    pub fn name(&self) -> (r: &String)
        ensures
            r@ == self.spec_name(),
    {
        match self {
            Tangle::Dataflow { name, .. } => name,
            Tangle::Leaf { name, .. } => name,
        }
    }

    /// The names the node requires and the names it provides, in that order.
    pub fn deps(&self) -> (r: (&IndexSet<String>, &IndexSet<String>))
        ensures
            names_of(*r.0) == self.spec_requires(),
            names_of(*r.1) == self.spec_provides(),
    {
        match self {
            Tangle::Dataflow { requires: req, provides, .. } => (req, provides),
            Tangle::Leaf { requires: req, provides, .. } => (req, provides),
        }
    }

    /// The code of a leaf; a dataflow has none.
    pub fn code(&self) -> (r: &String)
        requires
            self.is_leaf(),
        ensures
            r@ == self->code@,
    {
        match self {
            Tangle::Leaf { code, .. } => code,
            // excluded by the precondition
            Tangle::Dataflow { name, .. } => name,
        }
    }

    /// A copy of a leaf.
    pub fn clone_leaf(&self) -> (r: Tangle)
        requires
            self.is_leaf(),
        ensures
            r.same_leaf(self),
    {
        match self {
            Tangle::Leaf { name, provides, requires: req, code } => Tangle::Leaf {
                name: name.clone(),
                provides: clone_names(provides),
                requires: clone_names(req),
                code: code.clone(),
            },
            // excluded by the precondition
            Tangle::Dataflow { name, .. } => Tangle::Leaf {
                name: name.clone(),
                provides: crate::names::empty_names(),
                requires: crate::names::empty_names(),
                code: String::new(),
            },
        }
    }
}


/// The position of the first node named `x`, or -1.
pub open spec fn name_index(ms: Seq<Tangle>, x: Seq<char>) -> int
    decreases ms.len(),
{
    if ms.len() == 0 {
        -1
    } else if name_index(ms.drop_last(), x) >= 0 {
        name_index(ms.drop_last(), x)
    } else if ms.last().spec_name() == x {
        ms.len() - 1
    } else {
        -1
    }
}

/// `t` put in place of the member of the same name, or added last.
pub open spec fn upsert(ms: Seq<Tangle>, t: Tangle) -> Seq<Tangle> {
    let i = name_index(ms, t.spec_name());
    if i >= 0 {
        ms.update(i, t)
    } else {
        ms.push(t)
    }
}

/// The members keyed by name: a later node replaces an earlier one of the
/// same name in its place.
pub open spec fn keyed(ts: Seq<Tangle>) -> Seq<Tangle>
    decreases ts.len(),
{
    if ts.len() == 0 {
        Seq::<Tangle>::empty()
    } else {
        upsert(keyed(ts.drop_last()), ts.last())
    }
}

/// The names the members provide, in member order, each once.
pub open spec fn union_provides(ms: Seq<Tangle>) -> Seq<Seq<char>>
    decreases ms.len(),
{
    if ms.len() == 0 {
        Seq::<Seq<char>>::empty()
    } else {
        add_all(union_provides(ms.drop_last()), ms.last().spec_provides())
    }
}

/// The names the members require, in member order, each once.
pub open spec fn union_requires(ms: Seq<Tangle>) -> Seq<Seq<char>>
    decreases ms.len(),
{
    if ms.len() == 0 {
        Seq::<Seq<char>>::empty()
    } else {
        add_all(union_requires(ms.drop_last()), ms.last().spec_requires())
    }
}

/// The members in schedule order.
pub open spec fn ordered(ms: Seq<Tangle>) -> Seq<Tangle> {
    call_order(ms).map_values(|i: int| ms[i])
}

/// The names the members require that no member provides.
pub open spec fn open_requires(ms: Seq<Tangle>) -> Seq<Seq<char>> {
    union_requires(ms).filter(|x: Seq<char>| !union_provides(ms).contains(x))
}

pub open spec fn names_distinct(ms: Seq<Tangle>) -> bool {
    forall|i: int, j: int|
        0 <= i < j < ms.len() ==> #[trigger] ms[i].spec_name() != #[trigger] ms[j].spec_name()
}

impl Tangle {
    /// A dataflow's members have distinct names and its interface is derived
    /// from theirs, taken in schedule order; a leaf's interface holds each name
    /// once.
    pub open spec fn wf(&self) -> bool {
        match self {
            Tangle::Dataflow { nodes, provides, requires: req, .. } => nodes.wf()
                && names_of(*provides) == union_provides(ordered(nodes@)) && names_of(*req)
                == open_requires(ordered(nodes@)),
            Tangle::Leaf { provides, requires: req, .. } => names_of(*provides).no_duplicates()
                && names_of(*req).no_duplicates(),
        }
    }

    pub open spec fn members(&self) -> Seq<Tangle> {
        match self {
            Tangle::Dataflow { nodes, .. } => nodes@,
            Tangle::Leaf { .. } => Seq::<Tangle>::empty(),
        }
    }

    /// Builds a dataflow named `name` from its members, with the interface
    /// derived from theirs, taken in schedule order.
    pub fn from_leaves(name: String, nodes: Members) -> (r: Tangle)
        requires
            nodes.wf(),
        ensures
            r is Dataflow,
            r.spec_name() == name@,
            r.members() == nodes@,
            r.spec_provides() == union_provides(ordered(nodes@)),
            r.spec_requires() == open_requires(ordered(nodes@)),
            r.wf(),
    {
        let members = nodes;
        let ghost ms = members@;
        let ghost sch = schedule(member_ifaces(ms));
        let idx = {
            let refs = crate::emit::member_refs(&members);
            schedule_indices(&refs)
        };
        proof {
            crate::schedule::lemma_schedule_places_each_node_once(member_ifaces(ms));
        }
        let mut provides = empty_names();
        let mut all_requires = empty_names();
        let ghost mut done: Seq<int> = Seq::empty();
        let mut k: usize = 0;
        while k < idx.len()
            invariant
                k <= idx.len() == sch.len(),
                members@ == ms,
                levels_view(idx@) == sch,
                sch == schedule(member_ifaces(ms)),
                forall|a: int, b: int|
                    0 <= a < sch.len() && 0 <= b < sch[a].len() ==> 0 <= #[trigger] sch[a][b]
                        < ms.len(),
                done == concat_levels(sch.subrange(0, k as int)),
                names_of(provides) == union_provides(done.map_values(|i: int| ms[i])),
                names_of(all_requires) == union_requires(done.map_values(|i: int| ms[i])),
            decreases idx.len() - k,
        {
            let lvl = &idx[k];
            assert(lvl@.map_values(|i: usize| i as int) == sch[k as int]);
            let ghost start = done;
            let mut j: usize = 0;
            while j < lvl.len()
                invariant
                    k < sch.len(),
                    members@ == ms,
                    j <= lvl.len() == sch[k as int].len(),
                    lvl@.map_values(|i: usize| i as int) == sch[k as int],
                    forall|b: int|
                        0 <= b < sch[k as int].len() ==> 0 <= #[trigger] sch[k as int][b] < ms.len(),
                    done == start + sch[k as int].subrange(0, j as int),
                    names_of(provides) == union_provides(done.map_values(|i: int| ms[i])),
                    names_of(all_requires) == union_requires(done.map_values(|i: int| ms[i])),
                decreases lvl.len() - j,
            {
                let m = lvl[j];
                assert(sch[k as int][j as int] == m as int);
                let (req, prov) = members.get(m).deps();
                extend_names(&mut provides, prov);
                extend_names(&mut all_requires, req);
                proof {
                    let before = done.map_values(|i: int| ms[i]);
                    done = done.push(m as int);
                    assert(done.map_values(|i: int| ms[i]) =~= before.push(ms[m as int]));
                    assert(before.push(ms[m as int]).drop_last() =~= before);
                    assert(sch[k as int].subrange(0, j + 1) =~= sch[k as int].subrange(0, j as int).push(
                        m as int,
                    ));
                    assert(done =~= start + sch[k as int].subrange(0, j + 1));
                }
                j = j + 1;
            }
            assert(sch[k as int].subrange(0, j as int) == sch[k as int]);
            k = k + 1;
            assert(sch.subrange(0, k as int).drop_last() =~= sch.subrange(0, k - 1));
        }
        assert(sch.subrange(0, k as int) == sch);
        assert(done == call_order(ms));
        let open_req = without(&all_requires, &provides);
        Tangle::Dataflow { name, nodes: members, provides, requires: open_req }
    }

    /// Wraps a leaf as a dataflow of one member, named as the leaf, with the
    /// interface derived as for any dataflow: it provides what the leaf
    /// provides and requires what the leaf requires and does not provide. A
    /// dataflow is returned as it is.
    pub fn singleton(leaf: Tangle) -> (r: Tangle)
        ensures
            r is Dataflow,
            leaf is Leaf ==> {
                &&& r.spec_name() == leaf.spec_name()
                &&& r.members() == seq![leaf]
                &&& r.spec_provides() == union_provides(ordered(seq![leaf]))
                &&& r.spec_requires() == open_requires(ordered(seq![leaf]))
                &&& r.wf()
            },
            leaf is Dataflow ==> r == leaf,
    {
        match leaf {
            Tangle::Leaf { .. } => {
                let name = leaf.name().clone();
                let ghost l = leaf;
                let mut nodes: Vec<Tangle> = Vec::new();
                nodes.push(leaf);
                assert(nodes@ == seq![l]);
                assert(keyed(seq![l]) == upsert(keyed(Seq::<Tangle>::empty()), l)) by {
                    assert(seq![l].drop_last() =~= Seq::<Tangle>::empty());
                }
                Tangle::from_leaves(name, Members::from_nodes(nodes))
            },
            flow => flow,
        }
    }
}

/// The position of the member named `x`.
pub(crate) fn find_member(ms: &Vec<Tangle>, x: &String) -> (r: Option<usize>)
    ensures
        match r {
            Some(i) => i == name_index(ms@, x@) && i < ms@.len(),
            None => name_index(ms@, x@) == -1,
        },
{
    let mut i: usize = 0;
    while i < ms.len()
        invariant
            i <= ms.len(),
            name_index(ms@.subrange(0, i as int), x@) == -1,
        decreases ms.len() - i,
    {
        assert(ms@.subrange(0, i + 1).drop_last() == ms@.subrange(0, i as int));
        if ms[i].name().eq(x) {
            proof {
                assert(ms@.subrange(0, i + 1).last() == ms@[i as int]);
                assert(name_index(ms@.subrange(0, i + 1), x@) == i);
                lemma_name_index_prefix(ms@, x@, i as int + 1);
            }
            return Some(i);
        }
        i = i + 1;
    }
    assert(ms@.subrange(0, i as int) == ms@);
    None
}

proof fn lemma_name_index_prefix(ms: Seq<Tangle>, x: Seq<char>, k: int)
    requires
        0 <= k <= ms.len(),
        name_index(ms.subrange(0, k), x) >= 0,
    ensures
        name_index(ms, x) == name_index(ms.subrange(0, k), x),
    decreases ms.len() - k,
{
    if k < ms.len() {
        assert(ms.subrange(0, k + 1).drop_last() == ms.subrange(0, k));
        lemma_name_index_prefix(ms, x, k + 1);
    } else {
        assert(ms.subrange(0, k) == ms);
    }
}

pub proof fn lemma_name_index(ms: Seq<Tangle>, x: Seq<char>)
    ensures
        -1 <= name_index(ms, x) < ms.len(),
        name_index(ms, x) >= 0 ==> ms[name_index(ms, x)].spec_name() == x,
        name_index(ms, x) == -1 ==> forall|i: int| 0 <= i < ms.len() ==> #[trigger] ms[i].spec_name() != x,
    decreases ms.len(),
{
    if ms.len() > 0 {
        lemma_name_index(ms.drop_last(), x);
        assert forall|i: int| 0 <= i < ms.len() - 1 implies ms.drop_last()[i] == #[trigger] ms[i] by {}
    }
}

/// The names of `s` that `t` does not hold, in order.
fn without(s: &IndexSet<String>, t: &IndexSet<String>) -> (r: IndexSet<String>)
    ensures
        names_of(r) == names_of(*s).filter(|x: Seq<char>| !names_of(*t).contains(x)),
{
    let ghost keep = |x: Seq<char>| !names_of(*t).contains(x);
    let n = names_len(s);
    let mut r = empty_names();
    let mut i: usize = 0;
    while i < n
        invariant
            i <= n == names_of(*s).len(),
            keep == (|x: Seq<char>| !names_of(*t).contains(x)),
            names_of(r) == names_of(*s).subrange(0, i as int).filter(keep),
        decreases n - i,
    {
        let x = name_at(s, i);
        let ghost pre = names_of(*s).subrange(0, i as int);
        assert(names_of(*s).subrange(0, i + 1).drop_last() == pre);
        assert(names_of(*s).subrange(0, i + 1).last() == x@);
        if !crate::names::contains_name(t, x) {
            assert(!pre.contains(x@));
            assert(!pre.filter(keep).contains(x@)) by {
                if pre.filter(keep).contains(x@) {
                    pre.lemma_filter_contains_rev(keep, x@);
                }
            }
            insert_name(&mut r, x.clone());
        }
        i = i + 1;
        assert(names_of(*s).subrange(0, i as int).filter(keep) == if keep(x@) {
            pre.filter(keep).push(x@)
        } else {
            pre.filter(keep)
        }) by {
            pre.lemma_filter_push(x@, keep);
            assert(names_of(*s).subrange(0, i as int) == pre.push(x@));
        }
    }
    assert(names_of(*s).subrange(0, n as int) == names_of(*s));
    r
}

/// A dataflow's interface follows from its members: it provides what any
/// member provides, and requires what a member requires and no member
/// provides.
pub proof fn lemma_dataflow_interface(t: Tangle)
    requires
        t is Dataflow,
        t.wf(),
    ensures
        forall|x: Seq<char>|
            #[trigger] t.provides_set().contains(x) <==> exists|i: int|
                0 <= i < t.members().len() && #[trigger] t.members()[i].provides_set().contains(x),
        forall|x: Seq<char>|
            #[trigger] t.requires_set().contains(x) <==> ((exists|i: int|
                0 <= i < t.members().len() && #[trigger] t.members()[i].requires_set().contains(x))
                && !t.provides_set().contains(x)),
{
    let ms = t.members();
    let os = ordered(ms);
    crate::emit::lemma_call_order_range(ms);
    assert forall|x: Seq<char>| #[trigger] t.provides_set().contains(x) <==> exists|i: int|
        0 <= i < ms.len() && #[trigger] ms[i].provides_set().contains(x) by {
        lemma_union_provides(os, x);
        lemma_ordered_same(ms, x);
    }
    assert forall|x: Seq<char>| #[trigger] t.requires_set().contains(x) <==> ((exists|i: int|
        0 <= i < ms.len() && #[trigger] ms[i].requires_set().contains(x)) && !t.provides_set().contains(x)) by {
        lemma_union_requires(os, x);
        lemma_union_provides(os, x);
        lemma_ordered_same(ms, x);
        let keep = |y: Seq<char>| !union_provides(os).contains(y);
        if union_requires(os).filter(keep).contains(x) {
            union_requires(os).lemma_filter_contains_rev(keep, x);
        }
        if union_requires(os).contains(x) && keep(x) {
            let j = choose|j: int| 0 <= j < union_requires(os).len() && union_requires(os)[j] == x;
            union_requires(os).lemma_filter_contains(keep, j);
        }
    }
}

/// The members in schedule order are the members, each at least once.
proof fn lemma_ordered_same(ms: Seq<Tangle>, x: Seq<char>)
    ensures
        (exists|k: int| 0 <= k < ordered(ms).len() && #[trigger] ordered(ms)[k].provides_set().contains(x))
            <==> (exists|i: int| 0 <= i < ms.len() && #[trigger] ms[i].provides_set().contains(x)),
        (exists|k: int| 0 <= k < ordered(ms).len() && #[trigger] ordered(ms)[k].requires_set().contains(x))
            <==> (exists|i: int| 0 <= i < ms.len() && #[trigger] ms[i].requires_set().contains(x)),
{
    let o = call_order(ms);
    crate::emit::lemma_call_order_range(ms);
    if exists|i: int| 0 <= i < ms.len() && #[trigger] ms[i].provides_set().contains(x) {
        let i = choose|i: int| 0 <= i < ms.len() && #[trigger] ms[i].provides_set().contains(x);
        crate::emit::lemma_call_order_covers(ms, i);
        let p = choose|p: int| 0 <= p < o.len() && #[trigger] o[p] == i;
        assert(ordered(ms)[p] == ms[i]);
    }
    if exists|i: int| 0 <= i < ms.len() && #[trigger] ms[i].requires_set().contains(x) {
        let i = choose|i: int| 0 <= i < ms.len() && #[trigger] ms[i].requires_set().contains(x);
        crate::emit::lemma_call_order_covers(ms, i);
        let p = choose|p: int| 0 <= p < o.len() && #[trigger] o[p] == i;
        assert(ordered(ms)[p] == ms[i]);
    }
    if exists|k: int| 0 <= k < ordered(ms).len() && #[trigger] ordered(ms)[k].provides_set().contains(x) {
        let k = choose|k: int| 0 <= k < ordered(ms).len() && #[trigger] ordered(ms)[k].provides_set().contains(x);
        assert(ms[o[k]].provides_set().contains(x));
    }
    if exists|k: int| 0 <= k < ordered(ms).len() && #[trigger] ordered(ms)[k].requires_set().contains(x) {
        let k = choose|k: int| 0 <= k < ordered(ms).len() && #[trigger] ordered(ms)[k].requires_set().contains(x);
        assert(ms[o[k]].requires_set().contains(x));
    }
}

proof fn lemma_union_provides(ms: Seq<Tangle>, x: Seq<char>)
    ensures
        union_provides(ms).contains(x) <==> exists|i: int|
            0 <= i < ms.len() && #[trigger] ms[i].provides_set().contains(x),
    decreases ms.len(),
{
    if ms.len() > 0 {
        let init = ms.drop_last();
        lemma_union_provides(init, x);
        lemma_add_all_contains(union_provides(init), ms.last().spec_provides(), x);
        assert forall|i: int| 0 <= i < init.len() implies init[i] == ms[i] by {}
        if union_provides(ms).contains(x) {
            if union_provides(init).contains(x) {
                let i = choose|i: int| 0 <= i < init.len() && #[trigger] init[i].provides_set().contains(x);
                assert(ms[i].provides_set().contains(x));
            } else {
                assert(ms[ms.len() - 1].provides_set().contains(x));
            }
        }
        if exists|i: int| 0 <= i < ms.len() && #[trigger] ms[i].provides_set().contains(x) {
            let i = choose|i: int| 0 <= i < ms.len() && #[trigger] ms[i].provides_set().contains(x);
            if i < ms.len() - 1 {
                assert(init[i].provides_set().contains(x));
            } else {
                assert(ms.last().spec_provides().contains(x));
            }
        }
    }
}

proof fn lemma_union_requires(ms: Seq<Tangle>, x: Seq<char>)
    ensures
        union_requires(ms).contains(x) <==> exists|i: int|
            0 <= i < ms.len() && #[trigger] ms[i].requires_set().contains(x),
    decreases ms.len(),
{
    if ms.len() > 0 {
        let init = ms.drop_last();
        lemma_union_requires(init, x);
        lemma_add_all_contains(union_requires(init), ms.last().spec_requires(), x);
        assert forall|i: int| 0 <= i < init.len() implies init[i] == ms[i] by {}
        if union_requires(ms).contains(x) {
            if union_requires(init).contains(x) {
                let i = choose|i: int| 0 <= i < init.len() && #[trigger] init[i].requires_set().contains(x);
                assert(ms[i].requires_set().contains(x));
            } else {
                assert(ms[ms.len() - 1].requires_set().contains(x));
            }
        }
        if exists|i: int| 0 <= i < ms.len() && #[trigger] ms[i].requires_set().contains(x) {
            let i = choose|i: int| 0 <= i < ms.len() && #[trigger] ms[i].requires_set().contains(x);
            if i < ms.len() - 1 {
                assert(init[i].requires_set().contains(x));
            } else {
                assert(ms.last().spec_requires().contains(x));
            }
        }
    }
}

/// Keying members whose names are already distinct changes nothing.
pub proof fn lemma_keyed_distinct(ts: Seq<Tangle>)
    requires
        names_distinct(ts),
    ensures
        keyed(ts) == ts,
    decreases ts.len(),
{
    if ts.len() > 0 {
        let init = ts.drop_last();
        assert(names_distinct(init)) by {
            assert forall|i: int, j: int| 0 <= i < j < init.len() implies #[trigger] init[i].spec_name()
                != #[trigger] init[j].spec_name() by {
                assert(init[i] == ts[i] && init[j] == ts[j]);
            }
        }
        lemma_keyed_distinct(init);
        lemma_name_index(init, ts.last().spec_name());
        if name_index(init, ts.last().spec_name()) >= 0 {
            let i = name_index(init, ts.last().spec_name());
            assert(init[i] == ts[i]);
            assert(ts[i].spec_name() != ts[ts.len() - 1].spec_name());
        }
        assert(init.push(ts.last()) =~= ts);
    }
}
} // verus!
