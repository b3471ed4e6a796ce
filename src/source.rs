//! Building a dataflow from source text that declares its cells as functions
//! and its entry point as a function named `dataflow` whose body calls them.
//!
//! Each top-level function is a leaf: its parameters are the names it
//! requires, the list it returns at the end is the names it provides, and the
//! statements before that return are its code. A function whose body holds
//! calls of the form `[p, q] = leaf(a, b)` is a flow; the one named `dataflow`
//! is checked call by call against the leaves it calls.
use crate::cell::{parsed, top_definition};
use crate::names::{
    add_all, clone_names, empty_names, insert_name, names_of, same_names,
};
use crate::schedule::in_order;
use crate::syntax::{build_tree, parse_python, SyntaxTree, TreeView};
use crate::emit::{call_order, call_text, decorated_text, emit_text, member_ifaces, member_text};
use crate::tangle::{
    open_requires, ordered, union_provides, union_requires, Error, Tangle, TangleString,
};
use crate::text::{chars_of, crlf, dedent_chars, dedent_text, join, join_chars, string_of};
use indexmap::IndexSet;
use vstd::prelude::*;

verus! {

/// A leaf as read from source: name, required names, provided names, code.
pub type LeafModel = (Seq<char>, Seq<Seq<char>>, Seq<Seq<char>>, Seq<char>);

/// A flow call as read from source: callee, arguments, bound targets.
pub type CallModel = (Seq<char>, Seq<Seq<char>>, Seq<Seq<char>>);

/// What building from source comes to.
pub enum Outcome {
    Built(Seq<LeafModel>),
    Missing(Seq<char>),
    RequiresMismatch(Seq<Seq<char>>, Seq<Seq<char>>),
    ProvidesMismatch(Seq<Seq<char>>, Seq<Seq<char>>),
    NoDataflow,
}

/// A leaf node that holds what the model holds.
pub open spec fn leaf_is(t: Tangle, m: LeafModel) -> bool {
    t is Leaf && t.spec_name() == m.0 && t.spec_requires() == m.1 && t.spec_provides() == m.2
        && t->code@ == m.3
}

pub open spec fn is_seq_kind(k: Seq<char>) -> bool {
    k == "list"@ || k == "parameters"@ || k == "list_pattern"@ || k == "argument_list"@ || k
        == "pattern_list"@ || k == "tuple_pattern"@ || k == "tuple"@ || k == "expression_list"@
}

/// The names a node stands for: the texts of its named children for a list,
/// tuple or parameter list, else its own text; each once, in order.
pub open spec fn ids_of(t: TreeView, x: int) -> Seq<Seq<char>> {
    if x < 0 {
        Seq::<Seq<char>>::empty()
    } else if is_seq_kind(t.kind(x)) {
        add_all(Seq::empty(), t.named_kids(x).map_values(|j: int| t.text(j)))
    } else {
        add_all(Seq::empty(), seq![t.text(x)])
    }
}

/// `d` is a named function definition at top level; a definition the parser
/// could not give a name is no cell.
pub open spec fn is_top_function(t: TreeView, d: int) -> bool {
    0 <= d < t.nodes.len() && t.kind(d) == "function_definition"@ && top_definition(t, d)
        && t.field_kid(d, "name"@) >= 0
}

/// The named top-level function definitions, in order.
pub open spec fn top_functions(t: TreeView) -> Seq<int> {
    in_order(t.nodes.len() as int, Set::new(|d: int| is_top_function(t, d)))
}

/// The statements of a function's body.
pub open spec fn def_stmts(t: TreeView, d: int) -> Seq<int> {
    let b = t.field_kid(d, "body"@);
    if b < 0 {
        Seq::<int>::empty()
    } else {
        t.named_kids(b)
    }
}

/// The return statement that ends a function's body, or -1.
pub open spec fn def_return(t: TreeView, d: int) -> int {
    let st = def_stmts(t, d);
    if st.len() > 0 && t.kind(st.last()) == "return_statement"@ {
        st.last()
    } else {
        -1
    }
}

/// The statements before the final return.
pub open spec fn leaf_stmts(t: TreeView, d: int) -> Seq<int> {
    if def_return(t, d) >= 0 {
        def_stmts(t, d).drop_last()
    } else {
        def_stmts(t, d)
    }
}

/// The statements' texts, each dedented by the first one's column, joined
/// with `\r\n`.
pub open spec fn body_code(t: TreeView, st: Seq<int>) -> Seq<char> {
    if st.len() == 0 {
        Seq::<char>::empty()
    } else {
        join(
            st.map_values(|s: int| dedent_text(t.text(s), t.nodes[st[0]].start.column as nat)),
            crlf(),
        )
    }
}

/// The leaf a named function definition declares.
pub open spec fn leaf_model(t: TreeView, d: int) -> LeafModel {
    (
        t.text(t.field_kid(d, "name"@)),
        ids_of(t, t.field_kid(d, "parameters"@)),
        if def_return(t, d) >= 0 {
            ids_of(t, t.first_named(def_return(t, d)))
        } else {
            Seq::<Seq<char>>::empty()
        },
        body_code(t, leaf_stmts(t, d)),
    )
}

/// Statement `s` has the form `targets = callee(arguments)`.
pub open spec fn is_call_stmt(t: TreeView, s: int) -> bool {
    let a = t.first_named(s);
    let c = t.field_kid(a, "right"@);
    let f = t.field_kid(c, "function"@);
    let g = t.field_kid(c, "arguments"@);
    t.kind(s) == "expression_statement"@ && a >= 0 && t.kind(a) == "assignment"@ && c >= 0
        && t.field_kid(a, "left"@) >= 0 && t.kind(c) == "call"@ && f >= 0 && g >= 0 && t.kind(f)
        == "identifier"@ && t.kind(g) == "argument_list"@
}

pub open spec fn call_model(t: TreeView, s: int) -> CallModel {
    let a = t.first_named(s);
    let c = t.field_kid(a, "right"@);
    (
        t.text(t.field_kid(c, "function"@)),
        ids_of(t, t.field_kid(c, "arguments"@)),
        ids_of(t, t.field_kid(a, "left"@)),
    )
}

/// The calls among the first `k` statements.
pub open spec fn calls_upto(t: TreeView, st: Seq<int>, k: int) -> Seq<CallModel>
    decreases k,
{
    if k <= 0 {
        Seq::<CallModel>::empty()
    } else if is_call_stmt(t, st[k - 1]) {
        calls_upto(t, st, k - 1).push(call_model(t, st[k - 1]))
    } else {
        calls_upto(t, st, k - 1)
    }
}

/// The calls a function's body makes, in order.
pub open spec fn def_calls(t: TreeView, d: int) -> Seq<CallModel> {
    calls_upto(t, def_stmts(t, d), def_stmts(t, d).len() as int)
}

/// The position of the first model named `x`, or -1.
pub open spec fn model_index(ms: Seq<LeafModel>, x: Seq<char>) -> int
    decreases ms.len(),
{
    if ms.len() == 0 {
        -1
    } else if model_index(ms.drop_last(), x) >= 0 {
        model_index(ms.drop_last(), x)
    } else if ms.last().0 == x {
        ms.len() - 1
    } else {
        -1
    }
}

/// The leaves of the first `k` definitions, a later one replacing an earlier
/// one of the same name in its place.
pub open spec fn leaves_upto(t: TreeView, defs: Seq<int>, k: int) -> Seq<LeafModel>
    decreases k,
{
    if k <= 0 {
        Seq::<LeafModel>::empty()
    } else {
        let ms = leaves_upto(t, defs, k - 1);
        let m = leaf_model(t, defs[k - 1]);
        let i = model_index(ms, m.0);
        if i >= 0 {
            ms.update(i, m)
        } else {
            ms.push(m)
        }
    }
}

pub open spec fn source_leaves(t: TreeView) -> Seq<LeafModel> {
    leaves_upto(t, top_functions(t), top_functions(t).len() as int)
}

/// The first of the first `k` definitions that is a flow named `dataflow`, or -1.
pub open spec fn flow_def_upto(t: TreeView, defs: Seq<int>, k: int) -> int
    decreases k,
{
    if k <= 0 {
        -1
    } else if flow_def_upto(t, defs, k - 1) >= 0 {
        flow_def_upto(t, defs, k - 1)
    } else if leaf_model(t, defs[k - 1]).0 == "dataflow"@ && def_calls(t, defs[k - 1]).len() > 0 {
        defs[k - 1]
    } else {
        -1
    }
}

/// Checks the calls in order against the leaves; the first failing call decides.
pub open spec fn check_calls(leaves: Seq<LeafModel>, calls: Seq<CallModel>) -> Outcome
    decreases calls.len(),
{
    if calls.len() == 0 {
        Outcome::Built(Seq::empty())
    } else {
        match check_calls(leaves, calls.drop_last()) {
            Outcome::Built(ms) => {
                let c = calls.last();
                let i = model_index(leaves, c.0);
                if i < 0 {
                    Outcome::Missing(c.0)
                } else if leaves[i].1.to_set() != c.1.to_set() {
                    Outcome::RequiresMismatch(c.1, leaves[i].1)
                } else if leaves[i].2.to_set() != c.2.to_set() {
                    Outcome::ProvidesMismatch(c.2, leaves[i].2)
                } else if model_index(ms, c.0) >= 0 {
                    Outcome::Built(ms)
                } else {
                    Outcome::Built(ms.push(leaves[i]))
                }
            },
            e => e,
        }
    }
}

/// What building from the tree comes to.
pub open spec fn source_outcome(t: TreeView) -> Outcome {
    let defs = top_functions(t);
    let d = flow_def_upto(t, defs, defs.len() as int);
    if d < 0 {
        Outcome::NoDataflow
    } else {
        check_calls(source_leaves(t), def_calls(t, d))
    }
}

/// The names node `x` stands for, as `ids_of` gives them.
fn parse_id_or_seq(t: &SyntaxTree, x: Option<usize>) -> (r: IndexSet<String>)
    requires
        t.wf(),
        x matches Some(i) ==> i < t.nodes@.len(),
    ensures
        names_of(r) == ids_of(
            t@,
            match x {
                Some(i) => i as int,
                None => -1,
            },
        ),
{
    let mut r = empty_names();
    let i = match x {
        Some(i) => i,
        None => {
            return r;
        },
    };
    let k = &t.nodes[i].kind;
    let seq_kind = crate::syntax::text_is(k, "list") || crate::syntax::text_is(k, "parameters")
        || crate::syntax::text_is(k, "list_pattern") || crate::syntax::text_is(k, "argument_list")
        || crate::syntax::text_is(k, "pattern_list") || crate::syntax::text_is(k, "tuple_pattern")
        || crate::syntax::text_is(k, "tuple") || crate::syntax::text_is(k, "expression_list");
    if !seq_kind {
        insert_name(&mut r, t.nodes[i].text.clone());
        proof {
            reveal_with_fuel(add_all, 2);
        }
        assert(seq![t@.text(i as int)].drop_last() =~= Seq::<Seq<char>>::empty());
        assert(names_of(r) =~= add_all(Seq::empty(), seq![t@.text(i as int)]));
        return r;
    }
    let kids = t.named_children(i);
    let ghost ts = t@.named_kids(i as int).map_values(|j: int| t@.text(j));
    let mut p: usize = 0;
    while p < kids.len()
        invariant
            t.wf(),
            p <= kids.len(),
            kids@.map_values(|j: usize| j as int) == t@.named_kids(i as int),
            forall|q: int| 0 <= q < kids@.len() ==> (#[trigger] kids@[q] as int) < t.nodes@.len(),
            ts == t@.named_kids(i as int).map_values(|j: int| t@.text(j)),
            names_of(r) == add_all(Seq::empty(), ts.subrange(0, p as int)),
        decreases kids.len() - p,
    {
        let j = kids[p];
        assert(ts[p as int] == t@.text(j as int));
        insert_name(&mut r, t.nodes[j].text.clone());
        p = p + 1;
        assert(ts.subrange(0, p as int).drop_last() == ts.subrange(0, p - 1));
    }
    assert(ts.subrange(0, p as int) == ts);
    r
}

/// The top-level function definitions, in order.
fn top_function_list(t: &SyntaxTree) -> (r: Vec<usize>)
    requires
        t.wf(),
    ensures
        r@.map_values(|j: usize| j as int) == top_functions(t@),
        forall|k: int| 0 <= k < r@.len() ==> (#[trigger] r@[k] as int) < t.nodes@.len(),
        forall|k: int| 0 <= k < r@.len() ==> is_top_function(t@, #[trigger] r@[k] as int),
{
    let ghost s = Set::new(|d: int| is_top_function(t@, d));
    let n = t.nodes.len();
    let mut r: Vec<usize> = Vec::new();
    let mut d: usize = 0;
    while d < n
        invariant
            t.wf(),
            d <= n == t.nodes@.len(),
            s == Set::new(|d: int| is_top_function(t@, d)),
            r@.map_values(|j: usize| j as int) == in_order(d as int, s),
            forall|k: int| 0 <= k < r@.len() ==> (#[trigger] r@[k] as int) < d,
            forall|k: int| 0 <= k < r@.len() ==> is_top_function(t@, #[trigger] r@[k] as int),
        decreases n - d,
    {
        if t.kind_is(d, "function_definition") && crate::cell::in_top_definition(t, d)
            && t.field_child(d, "name").is_some() {
            r.push(d);
        }
        d = d + 1;
        assert(r@.map_values(|j: usize| j as int) =~= in_order(d as int, s));
    }
    r
}

/// The statements of a function's body.
fn def_statements(t: &SyntaxTree, d: usize) -> (r: Vec<usize>)
    requires
        t.wf(),
        d < t.nodes@.len(),
    ensures
        r@.map_values(|j: usize| j as int) == def_stmts(t@, d as int),
        forall|k: int| 0 <= k < r@.len() ==> (#[trigger] r@[k] as int) < t.nodes@.len(),
{
    match t.field_child(d, "body") {
        Some(b) => t.named_children(b),
        None => Vec::new(),
    }
}

/// The first named child of `x`.
fn first_named_child(t: &SyntaxTree, x: usize) -> (r: Option<usize>)
    requires
        t.wf(),
    ensures
        match r {
            Some(j) => j == t@.first_named(x as int) && j < t.nodes@.len(),
            None => t@.first_named(x as int) == -1,
        },
{
    let kids = t.named_children(x);
    if kids.len() > 0 {
        assert(kids@.map_values(|j: usize| j as int)[0] == kids@[0] as int);
        Some(kids[0])
    } else {
        None
    }
}

/// The leaf a function definition declares.
fn leaf_from_match(t: &SyntaxTree, d: usize) -> (r: Tangle)
    requires
        t.wf(),
        d < t.nodes@.len(),
        t@.field_kid(d as int, "name"@) >= 0,
    ensures
        leaf_is(r, leaf_model(t@, d as int)),
{
    let nm = match t.field_child(d, "name") {
        Some(nm) => nm,
        None => {
            proof {
                assert(false);
            }
            0
        },
    };
    let name = t.nodes[nm].text.clone();
    let requires_set = parse_id_or_seq(t, t.field_child(d, "parameters"));
    let st = def_statements(t, d);
    let ghost stv = def_stmts(t@, d as int);
    let mut body_len = st.len();
    let mut provides = empty_names();
    if st.len() > 0 && t.kind_is(st[st.len() - 1], "return_statement") {
        let ret = st[st.len() - 1];
        assert(stv.last() == ret as int);
        provides = parse_id_or_seq(t, first_named_child(t, ret));
        body_len = st.len() - 1;
    }
    let ghost ls = leaf_stmts(t@, d as int);
    assert(ls.len() == body_len);
    assert forall|k: int| 0 <= k < body_len implies ls[k] == st@[k] as int by {
        assert(stv[k] == st@[k] as int);
    }
    let mut code: Vec<char> = Vec::new();
    if body_len > 0 {
        let indent = t.nodes[st[0]].start.column;
        let mut parts: Vec<Vec<char>> = Vec::new();
        let mut k: usize = 0;
        while k < body_len
            invariant
                t.wf(),
                k <= body_len <= st@.len(),
                ls.len() == body_len,
                forall|q: int| 0 <= q < body_len ==> ls[q] == #[trigger] st@[q] as int,
                forall|q: int| 0 <= q < st@.len() ==> (#[trigger] st@[q] as int) < t.nodes@.len(),
                indent == t.nodes@[ls[0]].start.column,
                parts@.map_values(|l: Vec<char>| l@) == ls.subrange(0, k as int).map_values(
                    |s: int| dedent_text(t@.text(s), indent as nat),
                ),
            decreases body_len - k,
        {
            let c = chars_of(t.nodes[st[k]].text.as_str());
            let p = dedent_chars(&c, indent);
            let ghost before = parts@.map_values(|l: Vec<char>| l@);
            let ghost pv = p@;
            parts.push(p);
            k = k + 1;
            assert(parts@.map_values(|l: Vec<char>| l@) =~= before.push(pv));
            assert(ls.subrange(0, k as int).map_values(|s: int| dedent_text(t@.text(s), indent as nat))
                =~= ls.subrange(0, k - 1).map_values(|s: int| dedent_text(t@.text(s), indent as nat)).push(
                dedent_text(t@.text(ls[k - 1]), indent as nat),
            ));
        }
        assert(ls.subrange(0, k as int) == ls);
        let sep = chars_of("\r\n");
        proof {
            reveal_strlit("\r\n");
        }
        assert(sep@ == crlf());
        code = join_chars(&parts, &sep);
    }
    Tangle::Leaf { name, provides, requires: requires_set, code: string_of(&code) }
}

/// The parts of a call statement: callee, arguments, targets.
fn call_parts(t: &SyntaxTree, s: usize) -> (r: Option<(String, IndexSet<String>, IndexSet<String>)>)
    requires
        t.wf(),
        s < t.nodes@.len(),
    ensures
        is_call_stmt(t@, s as int) <==> r is Some,
        r matches Some(c) ==> (c.0@, names_of(c.1), names_of(c.2)) == call_model(t@, s as int),
{
    if !t.kind_is(s, "expression_statement") {
        return None;
    }
    let a = match first_named_child(t, s) {
        Some(a) => a,
        None => {
            return None;
        },
    };
    if !t.kind_is(a, "assignment") {
        return None;
    }
    let (c, l) = match (t.field_child(a, "right"), t.field_child(a, "left")) {
        (Some(c), Some(l)) => (c, l),
        _ => {
            return None;
        },
    };
    if !t.kind_is(c, "call") {
        return None;
    }
    let (f, g) = match (t.field_child(c, "function"), t.field_child(c, "arguments")) {
        (Some(f), Some(g)) => (f, g),
        _ => {
            return None;
        },
    };
    if !t.kind_is(f, "identifier") || !t.kind_is(g, "argument_list") {
        return None;
    }
    Some((t.nodes[f].text.clone(), parse_id_or_seq(t, Some(g)), parse_id_or_seq(t, Some(l))))
}

/// The leaf named `x` among the leaves.
fn find_leaf(leaves: &Vec<Tangle>, models: Ghost<Seq<LeafModel>>, x: &String) -> (r: Option<usize>)
    requires
        leaves@.len() == models@.len(),
        forall|i: int| 0 <= i < leaves@.len() ==> leaf_is(#[trigger] leaves@[i], models@[i]),
    ensures
        match r {
            Some(i) => i == model_index(models@, x@) && i < leaves@.len(),
            None => model_index(models@, x@) == -1,
        },
{
    let mut i: usize = 0;
    while i < leaves.len()
        invariant
            i <= leaves@.len() == models@.len(),
            forall|i: int| 0 <= i < leaves@.len() ==> leaf_is(#[trigger] leaves@[i], models@[i]),
            model_index(models@.subrange(0, i as int), x@) == -1,
        decreases leaves.len() - i,
    {
        assert(models@.subrange(0, i + 1).drop_last() == models@.subrange(0, i as int));
        assert(leaf_is(leaves@[i as int], models@[i as int]));
        if leaves[i].name().eq(x) {
            proof {
                assert(models@.subrange(0, i + 1).last() == models@[i as int]);
                lemma_model_index_prefix(models@, x@, i as int + 1);
            }
            return Some(i);
        }
        i = i + 1;
    }
    assert(models@.subrange(0, i as int) =~= models@);
    None
}

proof fn lemma_model_index_prefix(ms: Seq<LeafModel>, x: Seq<char>, k: int)
    requires
        0 <= k <= ms.len(),
        model_index(ms.subrange(0, k), x) >= 0,
    ensures
        model_index(ms, x) == model_index(ms.subrange(0, k), x),
    decreases ms.len() - k,
{
    if k < ms.len() {
        assert(ms.subrange(0, k + 1).drop_last() == ms.subrange(0, k));
        lemma_model_index_prefix(ms, x, k + 1);
    } else {
        assert(ms.subrange(0, k) == ms);
    }
}

proof fn lemma_model_index(ms: Seq<LeafModel>, x: Seq<char>)
    ensures
        -1 <= model_index(ms, x) < ms.len(),
        model_index(ms, x) >= 0 ==> ms[model_index(ms, x)].0 == x,
        model_index(ms, x) == -1 ==> forall|i: int| 0 <= i < ms.len() ==> #[trigger] ms[i].0 != x,
    decreases ms.len(),
{
    if ms.len() > 0 {
        lemma_model_index(ms.drop_last(), x);
        assert forall|i: int| 0 <= i < ms.len() - 1 implies ms.drop_last()[i] == #[trigger] ms[i] by {}
    }
}

/// The calls a flow definition makes, in order.
fn flow_calls(t: &SyntaxTree, d: usize) -> (r: Vec<(String, IndexSet<String>, IndexSet<String>)>)
    requires
        t.wf(),
        d < t.nodes@.len(),
    ensures
        r@.len() == def_calls(t@, d as int).len(),
        forall|k: int|
            0 <= k < r@.len() ==> ((#[trigger] r@[k]).0@, names_of(r@[k].1), names_of(r@[k].2))
                == def_calls(t@, d as int)[k],
{
    let st = def_statements(t, d);
    let ghost stv = def_stmts(t@, d as int);
    let mut r: Vec<(String, IndexSet<String>, IndexSet<String>)> = Vec::new();
    let mut k: usize = 0;
    while k < st.len()
        invariant
            t.wf(),
            k <= st@.len() == stv.len(),
            st@.map_values(|j: usize| j as int) == stv,
            forall|q: int| 0 <= q < st@.len() ==> (#[trigger] st@[q] as int) < t.nodes@.len(),
            r@.len() == calls_upto(t@, stv, k as int).len(),
            forall|q: int|
                0 <= q < r@.len() ==> ((#[trigger] r@[q]).0@, names_of(r@[q].1), names_of(r@[q].2))
                    == calls_upto(t@, stv, k as int)[q],
        decreases st@.len() - k,
    {
        assert(stv[k as int] == st@[k as int] as int);
        match call_parts(t, st[k]) {
            Some(c) => {
                r.push(c);
            },
            None => {},
        }
        k = k + 1;
    }
    r
}

/// Checks the flow's calls against the leaves and builds the dataflow of the
/// leaves it calls, in call order.
fn flow_from_match(
    calls: Vec<(String, IndexSet<String>, IndexSet<String>)>,
    leaves: &Vec<Tangle>,
    models: Ghost<Seq<LeafModel>>,
    want: Ghost<Seq<CallModel>>,
) -> (r: Result<Tangle, Error>)
    requires
        leaves@.len() == models@.len(),
        forall|i: int| 0 <= i < leaves@.len() ==> leaf_is(#[trigger] leaves@[i], models@[i]),
        calls@.len() == want@.len(),
        forall|k: int|
            0 <= k < calls@.len() ==> ((#[trigger] calls@[k]).0@, names_of(calls@[k].1), names_of(
                calls@[k].2,
            )) == want@[k],
    ensures
        outcome_matches(r, check_calls(models@, want@)),
{
    let mut chosen: Vec<Tangle> = Vec::new();
    let ghost mut chosen_m: Seq<LeafModel> = Seq::empty();
    let mut k: usize = 0;
    let total = calls.len();
    let mut rest = calls;
    while rest.len() > 0
        invariant
            want@.len() == total,
            leaves@.len() == models@.len(),
            forall|i: int| 0 <= i < leaves@.len() ==> leaf_is(#[trigger] leaves@[i], models@[i]),
            k + rest@.len() == want@.len(),
            forall|q: int|
                0 <= q < rest@.len() ==> ((#[trigger] rest@[q]).0@, names_of(rest@[q].1), names_of(
                    rest@[q].2,
                )) == want@[k + q],
            check_calls(models@, want@.subrange(0, k as int)) == Outcome::Built(chosen_m),
            chosen@.len() == chosen_m.len(),
            forall|i: int| 0 <= i < chosen@.len() ==> leaf_is(#[trigger] chosen@[i], chosen_m[i]),
            crate::tangle::names_distinct(chosen@),
        decreases rest@.len(),
    {
        let ghost rest0 = rest@;
        let (callee, req, prov) = rest.remove(0);
        assert(rest0[0] == (callee, req, prov));
        assert forall|q: int| 0 <= q < rest@.len() implies ((#[trigger] rest@[q]).0@, names_of(
            rest@[q].1,
        ), names_of(rest@[q].2)) == want@[k + 1 + q] by {
            assert(rest@[q] == rest0[q + 1]);
        }
        let ghost c = want@[k as int];
        assert(want@.subrange(0, k + 1).drop_last() == want@.subrange(0, k as int));
        assert(want@.subrange(0, k + 1).last() == c);
        proof {
            lemma_model_index(models@, c.0);
        }
        let i = match find_leaf(leaves, models, &callee) {
            Some(i) => i,
            None => {
                proof {
                    lemma_check_calls_sticky(models@, want@, k + 1);
                }
                return Err(Error::MissingLeaf(callee));
            },
        };
        let leaf = &leaves[i];
        assert(leaf_is(*leaf, models@[i as int]));
        let (lreq, lprov) = leaf.deps();
        if !same_names(lreq, &req) {
            proof {
                lemma_check_calls_sticky(models@, want@, k + 1);
            }
            return Err(Error::RequiresMismatch { expected: req, found: clone_names(lreq) });
        }
        if !same_names(lprov, &prov) {
            proof {
                lemma_check_calls_sticky(models@, want@, k + 1);
            }
            return Err(Error::ProvidesMismatch { expected: prov, found: clone_names(lprov) });
        }
        proof {
            lemma_model_index(chosen_m, c.0);
        }
        match crate::tangle::find_member(&chosen, &callee) {
            Some(_) => {
                proof {
                    lemma_same_index(chosen@, chosen_m, c.0);
                }
            },
            None => {
                proof {
                    lemma_same_index(chosen@, chosen_m, c.0);
                }
                let copy = leaf.clone_leaf();
                let ghost before = chosen@;
                chosen.push(copy);
                proof {
                    chosen_m = chosen_m.push(models@[i as int]);
                    assert forall|a: int, b: int| 0 <= a < b < chosen@.len() implies #[trigger] chosen@[a].spec_name()
                        != #[trigger] chosen@[b].spec_name() by {
                        if b == chosen@.len() - 1 {
                            assert(chosen_m[a].0 != c.0);
                            assert(leaf_is(chosen@[a], chosen_m[a]));
                        } else {
                            assert(chosen@[a] == before[a]);
                            assert(chosen@[b] == before[b]);
                        }
                    }
                }
            },
        }
        k = k + 1;
    }
    assert(want@.subrange(0, k as int) =~= want@);
    proof {
        crate::tangle::lemma_keyed_distinct(chosen@);
    }
    let flow = Tangle::from_leaves(String::from_str("dataflow"), crate::tangle::Members::from_nodes(chosen));
    Ok(flow)
}

/// Same names, same positions.
proof fn lemma_same_index(ts: Seq<Tangle>, ms: Seq<LeafModel>, x: Seq<char>)
    requires
        ts.len() == ms.len(),
        forall|i: int| 0 <= i < ts.len() ==> leaf_is(#[trigger] ts[i], ms[i]),
    ensures
        crate::tangle::name_index(ts, x) == model_index(ms, x),
    decreases ts.len(),
{
    if ts.len() > 0 {
        assert forall|i: int| 0 <= i < ts.len() - 1 implies leaf_is(#[trigger] ts.drop_last()[i], ms.drop_last()[i]) by {
            assert(ts.drop_last()[i] == ts[i]);
            assert(leaf_is(ts[i], ms[i]));
        }
        lemma_same_index(ts.drop_last(), ms.drop_last(), x);
        assert(leaf_is(ts[ts.len() - 1], ms[ms.len() - 1]));
    }
}

/// The result agrees with the outcome: the dataflow of the called leaves, or
/// the error for the first failing call.
pub open spec fn outcome_matches(r: Result<Tangle, Error>, o: Outcome) -> bool {
    match (r, o) {
        (Ok(flow), Outcome::Built(ms)) => {
            &&& flow is Dataflow
            &&& flow.spec_name() == "dataflow"@
            &&& flow.wf()
            &&& flow.members().len() == ms.len()
            &&& forall|i: int| 0 <= i < ms.len() ==> leaf_is(#[trigger] flow.members()[i], ms[i])
        },
        (Err(Error::MissingLeaf(n)), Outcome::Missing(m)) => n@ == m,
        (
            Err(Error::RequiresMismatch { expected, found }),
            Outcome::RequiresMismatch(e, f),
        ) => names_of(expected) == e && names_of(found) == f,
        (
            Err(Error::ProvidesMismatch { expected, found }),
            Outcome::ProvidesMismatch(e, f),
        ) => names_of(expected) == e && names_of(found) == f,
        (Err(Error::NoDataflowFound), Outcome::NoDataflow) => true,
        _ => false,
    }
}

impl Tangle {
    /// Builds the dataflow that source text declares: every top-level
    /// function is a leaf (a later one replacing an earlier one of the same
    /// name), and the first flow named `dataflow` is checked call by call.
    pub fn from_code(code: String) -> (r: Result<Tangle, Error>)
        ensures
            outcome_matches(r, source_outcome(parsed(code@))),
    {
        let events = parse_python(&TangleString(code.as_str()));
        let t = build_tree(&events);
        let defs = top_function_list(&t);
        let ghost dv = top_functions(t@);
        assert(t@ == parsed(code@));
        let mut leaves: Vec<Tangle> = Vec::new();
        let ghost mut models: Seq<LeafModel> = Seq::empty();
        let mut k: usize = 0;
        while k < defs.len()
            invariant
                t.wf(),
                k <= defs@.len() == dv.len(),
                dv == top_functions(t@),
                t@ == parsed(code@),
                defs@.map_values(|j: usize| j as int) == dv,
                forall|q: int| 0 <= q < defs@.len() ==> (#[trigger] defs@[q] as int) < t.nodes@.len(),
                forall|q: int| 0 <= q < defs@.len() ==> is_top_function(t@, #[trigger] defs@[q] as int),
                models == leaves_upto(t@, dv, k as int),
                leaves@.len() == models.len(),
                forall|i: int| 0 <= i < leaves@.len() ==> leaf_is(#[trigger] leaves@[i], models[i]),
            decreases defs@.len() - k,
        {
            assert(dv[k as int] == defs@[k as int] as int);
            let d = defs[k];
            let leaf = leaf_from_match(&t, d);
            let ghost m = leaf_model(t@, d as int);
            proof {
                lemma_model_index(models, m.0);
            }
            match find_leaf(&leaves, Ghost(models), leaf.name()) {
                Some(i) => {
                    leaves.set(i, leaf);
                    proof {
                        models = models.update(i as int, m);
                    }
                },
                None => {
                    leaves.push(leaf);
                    proof {
                        models = models.push(m);
                    }
                },
            }
            k = k + 1;
        }
        let mut j: usize = 0;
        while j < defs.len()
            invariant
                t.wf(),
                j <= defs@.len() == dv.len(),
                dv == top_functions(t@),
                t@ == parsed(code@),
                defs@.map_values(|j: usize| j as int) == dv,
                forall|q: int| 0 <= q < defs@.len() ==> (#[trigger] defs@[q] as int) < t.nodes@.len(),
                forall|q: int| 0 <= q < defs@.len() ==> is_top_function(t@, #[trigger] defs@[q] as int),
                flow_def_upto(t@, dv, j as int) == -1,
                models == leaves_upto(t@, dv, dv.len() as int),
                leaves@.len() == models.len(),
                forall|i: int| 0 <= i < leaves@.len() ==> leaf_is(#[trigger] leaves@[i], models[i]),
            decreases defs@.len() - j,
        {
            let d = defs[j];
            assert(dv[j as int] == d as int);
            let named_flow = match t.field_child(d, "name") {
                Some(nm) => {
                    let b = crate::syntax::text_is(&t.nodes[nm].text, "dataflow");
                    assert(leaf_model(t@, d as int).0 == t@.text(nm as int));
                    b
                },
                None => {
                    assert(is_top_function(t@, d as int));
                    false
                },
            };
            assert(named_flow <==> leaf_model(t@, d as int).0 == "dataflow"@);
            if named_flow {
                let calls = flow_calls(&t, d);
                if calls.len() > 0 {
                    proof {
                        assert(flow_def_upto(t@, dv, j as int + 1) == d as int);
                        lemma_flow_def_found(t@, dv, j as int + 1);
                    }
                    let r = flow_from_match(calls, &leaves, Ghost(models), Ghost(def_calls(t@, d as int)));
                    assert(outcome_matches(r, source_outcome(parsed(code@))));
                    return r;
                }
            }
            j = j + 1;
        }
        assert(outcome_matches(Err(Error::NoDataflowFound), source_outcome(parsed(code@))));
        Err(Error::NoDataflowFound)
    }
}

proof fn lemma_check_calls_sticky(ls: Seq<LeafModel>, calls: Seq<CallModel>, j: int)
    requires
        0 <= j <= calls.len(),
        !(check_calls(ls, calls.subrange(0, j)) is Built),
    ensures
        check_calls(ls, calls) == check_calls(ls, calls.subrange(0, j)),
    decreases calls.len() - j,
{
    if j < calls.len() {
        assert(calls.subrange(0, j + 1).drop_last() =~= calls.subrange(0, j));
        lemma_check_calls_sticky(ls, calls, j + 1);
    } else {
        assert(calls.subrange(0, j) =~= calls);
    }
}

proof fn lemma_flow_def_found(t: TreeView, defs: Seq<int>, k: int)
    requires
        0 <= k <= defs.len(),
        flow_def_upto(t, defs, k) >= 0,
    ensures
        flow_def_upto(t, defs, defs.len() as int) == flow_def_upto(t, defs, k),
    decreases defs.len() - k,
{
    if k < defs.len() {
        lemma_flow_def_found(t, defs, k + 1);
    }
}


/// Two builds from the same source emit the same text, with or without a
/// decoration: what is built is fixed by the source alone.
pub proof fn lemma_builds_emit_alike(
    code: Seq<char>,
    r1: Tangle,
    r2: Tangle,
    deco: Option<Seq<char>>,
)
    requires
        outcome_matches(Ok(r1), source_outcome(parsed(code))),
        outcome_matches(Ok(r2), source_outcome(parsed(code))),
    ensures
        decorated_text(r1, deco) == decorated_text(r2, deco),
{
    let a = r1.members();
    let b = r2.members();
    assert(a.len() == b.len());
    assert forall|i: int| 0 <= i < a.len() implies #[trigger] a[i].same_leaf(&b[i]) by {
        if let Outcome::Built(ms) = source_outcome(parsed(code)) {
            assert(leaf_is(a[i], ms[i]));
            assert(leaf_is(b[i], ms[i]));
        }
    }
    assert(member_ifaces(a) =~= member_ifaces(b)) by {
        assert forall|i: int| 0 <= i < a.len() implies #[trigger] member_ifaces(a)[i] == member_ifaces(b)[i] by {
            assert(a[i].same_leaf(&b[i]));
        }
    }
    let o = call_order(a);
    assert(call_order(b) == o);
    crate::emit::lemma_call_order_range(a);
    assert forall|k: int| 0 <= k < ordered(a).len() implies #[trigger] ordered(a)[k].same_leaf(
        &ordered(b)[k],
    ) by {
        assert(a[o[k]].same_leaf(&b[o[k]]));
    }
    lemma_unions_alike(ordered(a), ordered(b));
    let ca = o.map_values(|i: int| call_text(a[i]));
    let cb = o.map_values(|i: int| call_text(b[i]));
    assert(ca =~= cb) by {
        assert forall|k: int| 0 <= k < o.len() implies #[trigger] ca[k] == cb[k] by {
            assert(a[o[k]].same_leaf(&b[o[k]]));
        }
    }
    let ma = a.map_values(|m: Tangle| member_text(m, deco));
    let mb = b.map_values(|m: Tangle| member_text(m, deco));
    assert(ma =~= mb) by {
        assert forall|k: int| 0 <= k < a.len() implies #[trigger] ma[k] == mb[k] by {
            assert(a[k].same_leaf(&b[k]));
        }
    }
    assert(emit_text(r1) == emit_text(r2));
}

/// Members with the same interfaces give a dataflow the same interface.
proof fn lemma_unions_alike(a: Seq<Tangle>, b: Seq<Tangle>)
    requires
        a.len() == b.len(),
        forall|i: int| 0 <= i < a.len() ==> #[trigger] a[i].same_leaf(&b[i]),
    ensures
        union_provides(a) == union_provides(b),
        union_requires(a) == union_requires(b),
        open_requires(a) == open_requires(b),
    decreases a.len(),
{
    if a.len() > 0 {
        assert forall|i: int| 0 <= i < a.len() - 1 implies #[trigger] a.drop_last()[i].same_leaf(
            &b.drop_last()[i],
        ) by {
            assert(a.drop_last()[i] == a[i] && b.drop_last()[i] == b[i]);
        }
        lemma_unions_alike(a.drop_last(), b.drop_last());
        assert(a[a.len() - 1].same_leaf(&b[b.len() - 1]));
    }
}

} // verus!
