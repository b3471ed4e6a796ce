//! Cell analysis: the names a cell binds at top level, where each identifier
//! first occurs, and the leaf a cell becomes.
use crate::names::{add_all, empty_names, insert_name, names_from, names_of};
use crate::syntax::{build_tree, parse_python, python_syntax, DocRange, Position, SyntaxTree, TreeView};
use crate::tangle::{Tangle, TangleString};
use indexmap::{IndexMap, IndexSet};
use vstd::prelude::*;

verus! {

/// `indexmap::IndexMap`, held opaque; `range_entries` names what an
/// identifier map holds.
#[verifier::external_type_specification]
#[verifier::external_body]
#[verifier::reject_recursive_types(K)]
#[verifier::reject_recursive_types(V)]
#[verifier::reject_recursive_types(S)]
pub struct ExIndexMap<K, V, S>(IndexMap<K, V, S>);

/// The entries of an identifier map, in insertion order.
pub uninterp spec fn range_entries(m: IndexMap<String, DocRange>) -> Seq<(Seq<char>, DocRange)>;

/// The position of the entry for `k`, or -1.
pub open spec fn entry_index(es: Seq<(Seq<char>, DocRange)>, k: Seq<char>) -> int
    decreases es.len(),
{
    if es.len() == 0 {
        -1
    } else if entry_index(es.drop_last(), k) >= 0 {
        entry_index(es.drop_last(), k)
    } else if es.last().0 == k {
        es.len() - 1
    } else {
        -1
    }
}

pub open spec fn lookup(es: Seq<(Seq<char>, DocRange)>, k: Seq<char>) -> Option<DocRange> {
    if entry_index(es, k) >= 0 {
        Some(es[entry_index(es, k)].1)
    } else {
        None
    }
}

/// The entries after setting `k` to `v`: in place when `k` is there, else last.
pub open spec fn put(es: Seq<(Seq<char>, DocRange)>, k: Seq<char>, v: DocRange) -> Seq<
    (Seq<char>, DocRange),
> {
    if entry_index(es, k) >= 0 {
        es.update(entry_index(es, k), (k, v))
    } else {
        es.push((k, v))
    }
}

/// Relies on `IndexMap::new`: a new map is empty.
#[verifier::external_body]
fn range_map_new() -> (r: IndexMap<String, DocRange>)
    ensures
        range_entries(r) == Seq::<(Seq<char>, DocRange)>::empty(),
{
    IndexMap::new()
}

/// Relies on `IndexMap::insert`: a key already present keeps its place and
/// takes the new value; a new key is placed last.
#[verifier::external_body]
fn range_map_insert(m: &mut IndexMap<String, DocRange>, k: String, v: DocRange)
    ensures
        range_entries(*final(m)) == put(range_entries(*old(m)), k@, v),
{
    m.insert(k, v);
}

/// Relies on `IndexMap::get`: the value of the entry for `k`.
#[verifier::external_body]
fn range_map_get<'a>(m: &'a IndexMap<String, DocRange>, k: &String) -> (r: Option<&'a DocRange>)
    ensures
        match r {
            Some(v) => lookup(range_entries(*m), k@) == Some(*v),
            None => lookup(range_entries(*m), k@) is None,
        },
{
    m.get(k)
}

pub open spec fn before(p: Position, q: Position) -> bool {
    p.row < q.row || (p.row == q.row && p.column < q.column)
}

/// Orders two identifiers by where they first occur; `None` when either has
/// no entry.
pub fn identifier_occurs_before(
    ident: &IndexMap<String, DocRange>,
    id1: &String,
    id2: &String,
) -> (r: Option<std::cmp::Ordering>)
    ensures
        r == match (lookup(range_entries(*ident), id1@), lookup(range_entries(*ident), id2@)) {
            (Some(p1), Some(p2)) => Some(
                if before(p1.0, p2.0) {
                    std::cmp::Ordering::Less
                } else {
                    std::cmp::Ordering::Greater
                },
            ),
            _ => None,
        },
{
    match (range_map_get(ident, id1), range_map_get(ident, id2)) {
        (Some(r1), Some(r2)) => {
            let (p1, p2) = (r1.0, r2.0);
            if p1.row < p2.row || (p1.row == p2.row && p1.column < p2.column) {
                Some(std::cmp::Ordering::Less)
            } else {
                Some(std::cmp::Ordering::Greater)
            }
        },
        _ => None,
    }
}

pub open spec fn is_pattern_kind(k: Seq<char>) -> bool {
    k == "pattern_list"@ || k == "tuple_pattern"@ || k == "list_pattern"@
}

/// `p` defines a function or class at top level, bare or decorated.
pub open spec fn top_definition(t: TreeView, p: int) -> bool {
    (t.kind(p) == "function_definition"@ || t.kind(p) == "class_definition"@) && (t.top_level(p)
        || (t.parent[p] matches Some(d) && t.kind(d as int) == "decorated_definition"@
        && t.field_is(p, "definition"@) && t.top_level(d as int)))
}

/// `a` is an assignment that forms a top-level statement, or the value of
/// such an assignment (`b = 1` in `a = b = 1`).
pub open spec fn top_assignment(t: TreeView, a: int) -> bool
    decreases a,
{
    0 <= a && t.kind(a) == "assignment"@ && match t.parent[a] {
        Some(s) => {
            let s = s as int;
            (t.kind(s) == "expression_statement"@ && t.top_level(s)) || (0 <= s < a && t.field_is(
                a,
                "right"@,
            ) && top_assignment(t, s))
        },
        None => false,
    }
}

/// `q` is the list or tuple of targets of a top-level assignment.
pub open spec fn top_targets(t: TreeView, q: int) -> bool {
    is_pattern_kind(t.kind(q)) && t.field_is(q, "left"@) && (t.parent[q] matches Some(a)
        && top_assignment(t, a as int))
}

/// `s` is a top-level import statement.
pub open spec fn top_import(t: TreeView, s: int) -> bool {
    (t.kind(s) == "import_statement"@ || t.kind(s) == "import_from_statement"@) && t.top_level(s)
}

/// Identifier `j` is a name the cell binds at top level: a defined function
/// or class, an assignment target (bare, in a chain of assignments, or in a
/// list or tuple of targets, starred or not), or an imported name (its alias,
/// or the first part of a dotted name).
pub open spec fn binds(t: TreeView, j: int) -> bool {
    0 <= j < t.nodes.len() && t.kind(j) == "identifier"@ && match t.parent[j] {
        None => false,
        Some(p) => {
            let p = p as int;
            (t.field_is(j, "name"@) && top_definition(t, p)) || (t.field_is(j, "left"@)
                && top_assignment(t, p)) || top_targets(t, p) || (t.kind(p) == "list_splat_pattern"@
                && (t.parent[p] matches Some(q) && top_targets(t, q as int))) || (t.field_is(
                j,
                "alias"@,
            ) && t.kind(p) == "aliased_import"@ && t.field_is(p, "name"@) && (
            t.parent[p] matches Some(s) && top_import(t, s as int))) || (t.kind(p)
                == "dotted_name"@ && j == p + 1 && t.field_is(p, "name"@) && (
            t.parent[p] matches Some(s) && top_import(t, s as int)))
        },
    }
}

/// The texts of the binding identifiers among the first `k` nodes, in order.
pub open spec fn bound_texts(t: TreeView, k: int) -> Seq<Seq<char>>
    decreases k,
{
    if k <= 0 {
        Seq::<Seq<char>>::empty()
    } else if binds(t, k - 1) {
        bound_texts(t, k - 1).push(t.text(k - 1))
    } else {
        bound_texts(t, k - 1)
    }
}

/// The names a cell provides: those it binds at top level, each once, in
/// order of first occurrence.
pub open spec fn cell_provides(t: TreeView) -> Seq<Seq<char>> {
    add_all(Seq::empty(), bound_texts(t, t.nodes.len() as int))
}

/// The map the identifier scan has built after the first `k` nodes: an
/// identifier seen for the first time is added last; one seen before takes
/// the new range only when it starts earlier.
pub open spec fn ident_entries(t: TreeView, k: int) -> Seq<(Seq<char>, DocRange)>
    decreases k,
{
    if k <= 0 {
        Seq::<(Seq<char>, DocRange)>::empty()
    } else {
        let es = ident_entries(t, k - 1);
        let n = t.nodes[k - 1];
        if t.kind(k - 1) != "identifier"@ {
            es
        } else {
            match lookup(es, n.text@) {
                Some(old) => if before(n.start, old.0) {
                    put(es, n.text@, (n.start, n.end))
                } else {
                    es
                },
                None => put(es, n.text@, (n.start, n.end)),
            }
        }
    }
}

/// Node `j` is an identifier.
pub open spec fn is_ident(t: TreeView, j: int) -> bool {
    0 <= j < t.nodes.len() && t.kind(j) == "identifier"@
}

pub open spec fn ident_range(t: TreeView, j: int) -> DocRange {
    (t.nodes[j].start, t.nodes[j].end)
}

/// The texts of the identifiers among the first `k` nodes, each once, in
/// order of first occurrence.
pub open spec fn ident_keys(t: TreeView, k: int) -> Seq<Seq<char>>
    decreases k,
{
    if k <= 0 {
        Seq::<Seq<char>>::empty()
    } else if is_ident(t, k - 1) && !ident_keys(t, k - 1).contains(t.text(k - 1)) {
        ident_keys(t, k - 1).push(t.text(k - 1))
    } else {
        ident_keys(t, k - 1)
    }
}

/// Among the first `k` nodes, `j` is the occurrence of identifier `x` with
/// the least start; of several with that start, the first.
pub open spec fn earliest(t: TreeView, x: Seq<char>, k: int, j: int) -> bool {
    &&& 0 <= j < k
    &&& is_ident(t, j)
    &&& t.text(j) == x
    &&& forall|i: int|
        0 <= i < k && is_ident(t, i) && #[trigger] t.text(i) == x ==> !before(
            t.nodes[i].start,
            t.nodes[j].start,
        ) && (i < j ==> before(t.nodes[j].start, t.nodes[i].start))
}

/// A cell's identifier map: each identifier's text, in order of first
/// occurrence, with the range of its occurrence that starts first.
pub open spec fn cell_idents(t: TreeView) -> Seq<(Seq<char>, DocRange)> {
    let n = t.nodes.len() as int;
    ident_keys(t, n).map_values(
        |x: Seq<char>| (x, ident_range(t, choose|j: int| earliest(t, x, n, j))),
    )
}

proof fn lemma_entry_index(es: Seq<(Seq<char>, DocRange)>, x: Seq<char>)
    ensures
        -1 <= entry_index(es, x) < es.len(),
        entry_index(es, x) >= 0 ==> es[entry_index(es, x)].0 == x,
        entry_index(es, x) == -1 ==> forall|p: int| 0 <= p < es.len() ==> #[trigger] es[p].0 != x,
    decreases es.len(),
{
    if es.len() > 0 {
        lemma_entry_index(es.drop_last(), x);
        assert forall|p: int| 0 <= p < es.len() - 1 implies es.drop_last()[p] == #[trigger] es[p] by {}
    }
}

proof fn lemma_earliest_unique(t: TreeView, x: Seq<char>, k: int, j1: int, j2: int)
    requires
        earliest(t, x, k, j1),
        earliest(t, x, k, j2),
    ensures
        j1 == j2,
{
    assert(!before(t.nodes[j1].start, t.nodes[j2].start));
    assert(!before(t.nodes[j2].start, t.nodes[j1].start));
}

/// What the scan has built after `k` nodes: the identifier texts in order of
/// first occurrence, each with the range of its earliest occurrence so far.
proof fn lemma_ident_entries(t: TreeView, k: int)
    requires
        0 <= k <= t.nodes.len(),
    ensures
        ({
            let es = ident_entries(t, k);
            let ks = ident_keys(t, k);
            &&& es.len() == ks.len()
            &&& ks.no_duplicates()
            &&& forall|i: int| 0 <= i < k && is_ident(t, i) ==> ks.contains(#[trigger] t.text(i))
            &&& forall|p: int|
                0 <= p < es.len() ==> (#[trigger] es[p]).0 == ks[p] && exists|j: int|
                    earliest(t, ks[p], k, j) && es[p].1 == ident_range(t, j)
        }),
    decreases k,
{
    if k > 0 {
        lemma_ident_entries(t, k - 1);
        let es0 = ident_entries(t, k - 1);
        let ks0 = ident_keys(t, k - 1);
        let es = ident_entries(t, k);
        let ks = ident_keys(t, k);
        let m = k - 1;
        let x = t.text(m);
        lemma_entry_index(es0, x);
        if !is_ident(t, m) {
            assert(es == es0 && ks == ks0);
            assert forall|p: int| 0 <= p < es.len() implies (#[trigger] es[p]).0 == ks[p] && exists|j: int|
                earliest(t, ks[p], k, j) && es[p].1 == ident_range(t, j) by {
                let j = choose|j: int| earliest(t, ks0[p], k - 1, j) && es0[p].1 == ident_range(t, j);
                assert(earliest(t, ks[p], k, j));
            }
        } else if !ks0.contains(x) {
            assert(entry_index(es0, x) == -1) by {
                if entry_index(es0, x) >= 0 {
                    assert(ks0[entry_index(es0, x)] == x);
                }
            }
            assert(es == es0.push((x, ident_range(t, m))));
            assert(ks == ks0.push(x));
            assert forall|i: int| 0 <= i < k && is_ident(t, i) implies ks.contains(#[trigger] t.text(i)) by {
                if i < m {
                    let q = choose|q: int| 0 <= q < ks0.len() && ks0[q] == t.text(i);
                    assert(ks[q] == t.text(i));
                } else {
                    assert(ks[ks0.len() as int] == x);
                }
            }
            assert forall|p: int| 0 <= p < es.len() implies (#[trigger] es[p]).0 == ks[p] && exists|j: int|
                earliest(t, ks[p], k, j) && es[p].1 == ident_range(t, j) by {
                if p < es0.len() {
                    let j = choose|j: int| earliest(t, ks0[p], k - 1, j) && es0[p].1 == ident_range(t, j);
                    assert(ks0[p] != x);
                    assert(earliest(t, ks[p], k, j));
                } else {
                    assert forall|i: int| 0 <= i < k && is_ident(t, i) && #[trigger] t.text(i) == x implies i
                        == m by {
                        if i < m {
                            assert(ks0.contains(t.text(i)));
                        }
                    }
                    assert(earliest(t, ks[p], k, m));
                }
            }
        } else {
            let p0 = choose|q: int| 0 <= q < ks0.len() && ks0[q] == x;
            assert(entry_index(es0, x) == p0) by {
                if entry_index(es0, x) == -1 {
                    assert(es0[p0].0 != x);
                }
                let e = entry_index(es0, x);
                if e >= 0 && e != p0 {
                    assert(ks0[e] == x);
                }
            }
            let j0 = choose|j: int| earliest(t, ks0[p0], k - 1, j) && es0[p0].1 == ident_range(t, j);
            assert(ks == ks0);
            let nk = t.nodes[m];
            if before(nk.start, t.nodes[j0].start) {
                assert(es == es0.update(p0, (x, ident_range(t, m))));
            } else {
                assert(es == es0);
            }
            assert forall|p: int| 0 <= p < es.len() implies (#[trigger] es[p]).0 == ks[p] && exists|j: int|
                earliest(t, ks[p], k, j) && es[p].1 == ident_range(t, j) by {
                if p != p0 {
                    let j = choose|j: int| earliest(t, ks0[p], k - 1, j) && es0[p].1 == ident_range(t, j);
                    assert(ks0[p] != x);
                    assert(earliest(t, ks[p], k, j));
                } else if before(nk.start, t.nodes[j0].start) {
                    assert(earliest(t, x, k, m));
                } else {
                    assert(earliest(t, x, k, j0));
                }
            }
        }
    }
}

/// The scan builds exactly the cell's identifier map.
proof fn lemma_cell_idents(t: TreeView)
    ensures
        ident_entries(t, t.nodes.len() as int) == cell_idents(t),
{
    let n = t.nodes.len() as int;
    lemma_ident_entries(t, n);
    let es = ident_entries(t, n);
    assert forall|p: int| 0 <= p < es.len() implies #[trigger] es[p] == cell_idents(t)[p] by {
        let x = ident_keys(t, n)[p];
        let j = choose|j: int| earliest(t, x, n, j) && es[p].1 == ident_range(t, j);
        let c = choose|j: int| earliest(t, x, n, j);
        lemma_earliest_unique(t, x, n, j, c);
    }
    assert(es =~= cell_idents(t));
}

/// The tree the parser gives the text.
pub open spec fn parsed(code: Seq<char>) -> TreeView {
    SyntaxTree::from_events(python_syntax(code))
}

pub(crate) fn in_top_definition(t: &SyntaxTree, p: usize) -> (r: bool)
    requires
        t.wf(),
        p < t.nodes@.len(),
    ensures
        r == top_definition(t@, p as int),
{
    if !(t.kind_is(p, "function_definition") || t.kind_is(p, "class_definition")) {
        return false;
    }
    if t.is_top_level(p) {
        return true;
    }
    match t.parent_of(p) {
        Some(d) => t.kind_is(d, "decorated_definition") && t.field_of(p, "definition")
            && t.is_top_level(d),
        None => false,
    }
}

fn is_top_assignment(t: &SyntaxTree, a: usize) -> (r: bool)
    requires
        t.wf(),
        a < t.nodes@.len(),
    ensures
        r == top_assignment(t@, a as int),
{
    let mut x = a;
    loop
        invariant
            t.wf(),
            x < t.nodes@.len(),
            top_assignment(t@, a as int) == top_assignment(t@, x as int),
        decreases x,
    {
        if !t.kind_is(x, "assignment") {
            return false;
        }
        match t.parent_of(x) {
            Some(s) => {
                if t.kind_is(s, "expression_statement") && t.is_top_level(s) {
                    return true;
                }
                if !t.field_of(x, "right") {
                    return false;
                }
                x = s;
            },
            None => {
                return false;
            },
        }
    }
}

fn is_top_targets(t: &SyntaxTree, q: usize) -> (r: bool)
    requires
        t.wf(),
        q < t.nodes@.len(),
    ensures
        r == top_targets(t@, q as int),
{
    if !((t.kind_is(q, "pattern_list") || t.kind_is(q, "tuple_pattern") || t.kind_is(
        q,
        "list_pattern",
    )) && t.field_of(q, "left")) {
        return false;
    }
    match t.parent_of(q) {
        Some(a) => is_top_assignment(t, a),
        None => false,
    }
}

fn is_top_import(t: &SyntaxTree, s: usize) -> (r: bool)
    requires
        t.wf(),
        s < t.nodes@.len(),
    ensures
        r == top_import(t@, s as int),
{
    (t.kind_is(s, "import_statement") || t.kind_is(s, "import_from_statement"))
        && t.is_top_level(s)
}

fn is_binding(t: &SyntaxTree, j: usize) -> (r: bool)
    requires
        t.wf(),
        j < t.nodes@.len(),
    ensures
        r == binds(t@, j as int),
{
    if !t.kind_is(j, "identifier") {
        return false;
    }
    let p = match t.parent_of(j) {
        Some(p) => p,
        None => {
            return false;
        },
    };
    if t.field_of(j, "name") && in_top_definition(t, p) {
        return true;
    }
    if t.field_of(j, "left") && is_top_assignment(t, p) {
        return true;
    }
    if is_top_targets(t, p) {
        return true;
    }
    if t.kind_is(p, "list_splat_pattern") {
        match t.parent_of(p) {
            Some(q) => {
                if is_top_targets(t, q) {
                    return true;
                }
            },
            None => {},
        }
    }
    if t.field_of(j, "alias") && t.kind_is(p, "aliased_import") && t.field_of(p, "name") {
        match t.parent_of(p) {
            Some(s) => {
                if is_top_import(t, s) {
                    return true;
                }
            },
            None => {},
        }
    }
    if t.kind_is(p, "dotted_name") && j == p + 1 && t.field_of(p, "name") {
        match t.parent_of(p) {
            Some(s) => {
                if is_top_import(t, s) {
                    return true;
                }
            },
            None => {},
        }
    }
    false
}

/// The names a cell binds at top level, and the range of the earliest
/// occurrence of each identifier in it.
pub fn get_provides(code: &String) -> (r: (IndexSet<String>, IndexMap<String, DocRange>))
    ensures
        names_of(r.0) == cell_provides(parsed(code@)),
        range_entries(r.1) == cell_idents(parsed(code@)),
{
    let events = parse_python(&TangleString(code.as_str()));
    let t = build_tree(&events);
    let n = t.nodes.len();
    let mut provides = empty_names();
    let mut ident = range_map_new();
    let mut j: usize = 0;
    while j < n
        invariant
            j <= n == t.nodes@.len(),
            t.wf(),
            names_of(provides) == add_all(Seq::empty(), bound_texts(t@, j as int)),
            range_entries(ident) == ident_entries(t@, j as int),
        decreases n - j,
    {
        if is_binding(&t, j) {
            assert(bound_texts(t@, j + 1).drop_last() == bound_texts(t@, j as int));
            insert_name(&mut provides, t.nodes[j].text.clone());
        }
        if t.kind_is(j, "identifier") {
            let node = &t.nodes[j];
            let earlier = match range_map_get(&ident, &node.text) {
                Some(old) => {
                    let (s, o) = (node.start, old.0);
                    s.row < o.row || (s.row == o.row && s.column < o.column)
                },
                None => true,
            };
            if earlier {
                range_map_insert(&mut ident, node.text.clone(), (node.start, node.end));
            }
        }
        j = j + 1;
    }
    assert(t@ == parsed(code@));
    proof {
        lemma_cell_idents(t@);
    }
    (provides, ident)
}

impl Tangle {
    /// Analyses a cell into a leaf named `name` that holds the cell's code and
    /// provides the names the cell binds at top level, with the cell's
    /// identifier map. `inferred` is what the interpreter reported the cell
    /// requires: on an error the leaf requires nothing and the error is
    /// returned beside it.
    pub fn from_cell<E>(name: String, cell: &String, inferred: Result<Vec<String>, E>) -> (r: Result<
        (Tangle, IndexMap<String, DocRange>),
        (E, (Tangle, IndexMap<String, DocRange>)),
    >)
        ensures
            ({
                let (leaf, ident) = match r {
                    Ok(p) => p,
                    Err(e) => e.1,
                };
                &&& leaf is Leaf
                &&& leaf.spec_name() == name@
                &&& leaf->code@ == cell@
                &&& leaf.spec_provides() == cell_provides(parsed(cell@))
                &&& range_entries(ident) == cell_idents(parsed(cell@))
            }),
            match inferred {
                Ok(req) => r matches Ok(p) && p.0.spec_requires() == add_all(
                    Seq::empty(),
                    req@.map_values(|x: String| x@),
                ),
                Err(e) => r matches Err(f) && f.0 == e && f.1.0.spec_requires() == Seq::<
                    Seq<char>,
                >::empty(),
            },
    {
        let (provides, ident) = get_provides(cell);
        match inferred {
            Ok(req) => Ok(
                (Tangle::Leaf { code: cell.clone(), provides, requires: names_from(&req), name }, ident),
            ),
            Err(err) => Err(
                (err, (Tangle::Leaf { code: cell.clone(), provides, requires: empty_names(), name }, ident)),
            ),
        }
    }
}

} // verus!
