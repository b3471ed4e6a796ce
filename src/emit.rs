//! Emission of graph nodes as source text: a function per leaf, and for a
//! dataflow an orchestrating function that calls its members in schedule order.
use crate::names::{name_at, names_len, names_of};
use crate::schedule::{ifaces, schedule, schedule_indices, Iface};
use crate::tangle::{Error, Members, Tangle};
use crate::text::{append_chars, chars_of, crlf, join, join_chars, lines, lines_of, string_of};
use indexmap::IndexSet;
use vstd::prelude::*;

verus! {

pub open spec fn comma_join(xs: Seq<Seq<char>>) -> Seq<char> {
    join(xs, ", "@)
}

/// `def name(r1, r2):`
pub open spec fn head_text(name: Seq<char>, req: Seq<Seq<char>>) -> Seq<char> {
    "def "@ + name + "("@ + comma_join(req) + "):"@
}

/// `    return [p1, p2]`
pub open spec fn return_text(prov: Seq<Seq<char>>) -> Seq<char> {
    "    return ["@ + comma_join(prov) + "]"@
}

/// Each line of the code indented by four spaces.
pub open spec fn body_text(code: Seq<char>) -> Seq<char> {
    join(lines_of(code).map_values(|l: Seq<char>| "    "@ + l), crlf())
}

/// `    [p1, p2] = name(r1, r2)`
pub open spec fn call_text(t: Tangle) -> Seq<char> {
    "    ["@ + comma_join(t.spec_provides()) + "] = "@ + t.spec_name() + "("@ + comma_join(
        t.spec_requires(),
    ) + ")"@
}

pub open spec fn concat_levels(s: Seq<Seq<int>>) -> Seq<int>
    decreases s.len(),
{
    if s.len() == 0 {
        Seq::<int>::empty()
    } else {
        concat_levels(s.drop_last()) + s.last()
    }
}

pub open spec fn member_ifaces(ms: Seq<Tangle>) -> Seq<Iface> {
    ms.map_values(|t: Tangle| (t.spec_requires(), t.spec_provides()))
}

/// The members' positions in schedule order.
pub open spec fn call_order(ms: Seq<Tangle>) -> Seq<int> {
    concat_levels(schedule(member_ifaces(ms)))
}

/// The text a node is emitted as.
pub open spec fn emit_text(t: Tangle) -> Seq<char> {
    match t {
        Tangle::Leaf { name, provides, requires: req, code } => head_text(name@, names_of(req))
            + crlf() + body_text(code@) + crlf() + return_text(names_of(provides)),
        Tangle::Dataflow { name, nodes, provides, requires: req } => head_text(
            name@,
            names_of(req),
        ) + crlf() + join(
            call_order(nodes@).map_values(|i: int| call_text(nodes@[i])),
            crlf(),
        ) + crlf() + return_text(names_of(provides)),
    }
}

/// A member's text, after a decoration line when one is given.
pub open spec fn member_text(m: Tangle, deco: Option<Seq<char>>) -> Seq<char> {
    match deco {
        Some(d) => d + "(\""@ + m.spec_name() + "\")"@ + crlf() + emit_text(m),
        None => emit_text(m),
    }
}

/// A leaf's text, or a dataflow's members followed by its own function.
pub open spec fn decorated_text(t: Tangle, deco: Option<Seq<char>>) -> Seq<char> {
    match t {
        Tangle::Leaf { .. } => emit_text(t),
        Tangle::Dataflow { nodes, .. } => join(
            nodes@.map_values(|m: Tangle| member_text(m, deco)),
            crlf() + crlf(),
        ) + crlf() + crlf() + emit_text(t),
    }
}

pub(crate) fn push_str(out: &mut Vec<char>, s: &str)
    ensures
        final(out)@ == old(out)@ + s@,
{
    let c = chars_of(s);
    append_chars(out, &c);
}

pub(crate) fn push_string(out: &mut Vec<char>, s: &String)
    ensures
        final(out)@ == old(out)@ + s@,
{
    push_str(out, s.as_str());
}

/// The names joined with `, `.
pub(crate) fn comma_names(s: &IndexSet<String>) -> (r: Vec<char>)
    ensures
        r@ == comma_join(names_of(*s)),
{
    let n = names_len(s);
    let mut parts: Vec<Vec<char>> = Vec::new();
    let mut i: usize = 0;
    while i < n
        invariant
            i <= n == names_of(*s).len(),
            parts@.map_values(|l: Vec<char>| l@) == names_of(*s).subrange(0, i as int),
        decreases n - i,
    {
        let x = name_at(s, i);
        let c = chars_of(x.as_str());
        let ghost before = parts@.map_values(|l: Vec<char>| l@);
        parts.push(c);
        i = i + 1;
        assert(parts@.map_values(|l: Vec<char>| l@) =~= before.push(x@));
        assert(names_of(*s).subrange(0, i as int) =~= names_of(*s).subrange(0, i - 1).push(x@));
    }
    assert(names_of(*s).subrange(0, n as int) == names_of(*s));
    let sep = chars_of(", ");
    join_chars(&parts, &sep)
}

fn head_chars(name: &String, req: &IndexSet<String>) -> (r: Vec<char>)
    ensures
        r@ == head_text(name@, names_of(*req)),
{
    let mut out: Vec<char> = Vec::new();
    push_str(&mut out, "def ");
    push_string(&mut out, name);
    push_str(&mut out, "(");
    let c = comma_names(req);
    append_chars(&mut out, &c);
    push_str(&mut out, "):");
    assert(out@ =~= head_text(name@, names_of(*req)));
    out
}

fn return_chars(prov: &IndexSet<String>) -> (r: Vec<char>)
    ensures
        r@ == return_text(names_of(*prov)),
{
    let mut out: Vec<char> = Vec::new();
    push_str(&mut out, "    return [");
    let c = comma_names(prov);
    append_chars(&mut out, &c);
    push_str(&mut out, "]");
    assert(out@ =~= return_text(names_of(*prov)));
    out
}

fn call_chars(t: &Tangle) -> (r: Vec<char>)
    ensures
        r@ == call_text(*t),
{
    let (req, prov) = t.deps();
    let mut out: Vec<char> = Vec::new();
    push_str(&mut out, "    [");
    let p = comma_names(prov);
    append_chars(&mut out, &p);
    push_str(&mut out, "] = ");
    push_string(&mut out, t.name());
    push_str(&mut out, "(");
    let q = comma_names(req);
    append_chars(&mut out, &q);
    push_str(&mut out, ")");
    assert(out@ =~= call_text(*t));
    out
}

fn body_chars(code: &String) -> (r: Vec<char>)
    ensures
        r@ == body_text(code@),
{
    let c = chars_of(code.as_str());
    let ls = lines(&c);
    let ghost lv = lines_of(code@);
    let mut parts: Vec<Vec<char>> = Vec::new();
    let mut i: usize = 0;
    while i < ls.len()
        invariant
            i <= ls.len() == lv.len(),
            ls@.map_values(|l: Vec<char>| l@) == lv,
            parts@.map_values(|l: Vec<char>| l@) == lv.subrange(0, i as int).map_values(
                |l: Seq<char>| "    "@ + l,
            ),
        decreases ls.len() - i,
    {
        let mut p: Vec<char> = Vec::new();
        push_str(&mut p, "    ");
        append_chars(&mut p, &ls[i]);
        assert(ls@[i as int]@ == lv[i as int]);
        let ghost before = parts@.map_values(|l: Vec<char>| l@);
        let ghost pv = p@;
        parts.push(p);
        i = i + 1;
        assert(parts@.map_values(|l: Vec<char>| l@) =~= before.push(pv));
        assert(lv.subrange(0, i as int).map_values(|l: Seq<char>| "    "@ + l) =~= lv.subrange(
            0,
            i - 1,
        ).map_values(|l: Seq<char>| "    "@ + l).push("    "@ + lv[i - 1]));
    }
    assert(lv.subrange(0, i as int) == lv);
    let sep = chars_of("\r\n");
    proof {
        reveal_strlit("\r\n");
    }
    assert(sep@ == crlf());
    join_chars(&parts, &sep)
}

/// References to the members, in order.
pub(crate) fn member_refs(nodes: &Members) -> (refs: Vec<&Tangle>)
    ensures
        ifaces(refs@) == member_ifaces(nodes@),
{
    let mut refs: Vec<&Tangle> = Vec::new();
    let mut i: usize = 0;
    while i < nodes.len()
        invariant
            i <= nodes@.len(),
            refs@.len() == i,
            ifaces(refs@) == member_ifaces(nodes@.subrange(0, i as int)),
        decreases nodes@.len() - i,
    {
        let ghost before = refs@;
        let r = nodes.get(i);
        assert(r.spec_requires() == nodes@[i as int].spec_requires());
        assert(r.spec_provides() == nodes@[i as int].spec_provides());
        refs.push(r);
        assert(refs@ == before.push(r));
        i = i + 1;
        let ghost sub = nodes@.subrange(0, i as int);
        assert(sub.drop_last() =~= nodes@.subrange(0, i - 1));
        assert forall|j: int| 0 <= j < i implies #[trigger] ifaces(refs@)[j] == member_ifaces(sub)[j] by {
            if j < i - 1 {
                assert(ifaces(before)[j] == member_ifaces(sub.drop_last())[j]);
                assert(refs@[j] == before[j]);
                assert(sub[j] == sub.drop_last()[j]);
            } else {
                assert(refs@[j] == r);
                assert(sub[j] == nodes@[j]);
            }
        }
        assert(ifaces(refs@) =~= member_ifaces(nodes@.subrange(0, i as int)));
    }
    assert(nodes@.subrange(0, i as int) == nodes@);
    refs
}

/// The member calls in schedule order.
fn calls_chars(nodes: &Members) -> (r: Vec<char>)
    ensures
        r@ == join(call_order(nodes@).map_values(|i: int| call_text(nodes@[i])), crlf()),
{
    let refs = member_refs(nodes);
    let idx = schedule_indices(&refs);
    let ghost sch = schedule(member_ifaces(nodes@));
    proof {
        crate::schedule::lemma_schedule_places_each_node_once(member_ifaces(nodes@));
    }
    let mut parts: Vec<Vec<char>> = Vec::new();
    let mut k: usize = 0;
    while k < idx.len()
        invariant
            k <= idx.len() == sch.len(),
            crate::schedule::levels_view(idx@) == sch,
            sch == schedule(member_ifaces(nodes@)),
            forall|a: int, b: int|
                0 <= a < sch.len() && 0 <= b < sch[a].len() ==> 0 <= #[trigger] sch[a][b]
                    < nodes@.len(),
            parts@.map_values(|l: Vec<char>| l@) == concat_levels(sch.subrange(0, k as int)).map_values(
                |i: int| call_text(nodes@[i]),
            ),
        decreases idx.len() - k,
    {
        let lvl = &idx[k];
        assert(lvl@.map_values(|i: usize| i as int) == sch[k as int]);
        let ghost start = parts@.map_values(|l: Vec<char>| l@);
        let mut j: usize = 0;
        while j < lvl.len()
            invariant
                k < sch.len(),
                j <= lvl.len() == sch[k as int].len(),
                lvl@.map_values(|i: usize| i as int) == sch[k as int],
                forall|b: int| 0 <= b < sch[k as int].len() ==> 0 <= #[trigger] sch[k as int][b] < nodes@.len(),
                parts@.map_values(|l: Vec<char>| l@) == start + sch[k as int].subrange(0, j as int).map_values(
                    |i: int| call_text(nodes@[i]),
                ),
            decreases lvl.len() - j,
        {
            assert(sch[k as int][j as int] == lvl@[j as int] as int);
            let c = call_chars(nodes.get(lvl[j]));
            let ghost before = parts@.map_values(|l: Vec<char>| l@);
            let ghost cv = c@;
            parts.push(c);
            j = j + 1;
            assert(parts@.map_values(|l: Vec<char>| l@) =~= before.push(cv));
            assert(sch[k as int].subrange(0, j as int).map_values(|i: int| call_text(nodes@[i]))
                =~= sch[k as int].subrange(0, j - 1).map_values(|i: int| call_text(nodes@[i])).push(
                call_text(nodes@[sch[k as int][j - 1]]),
            ));
        }
        assert(sch[k as int].subrange(0, j as int) == sch[k as int]);
        k = k + 1;
        assert(sch.subrange(0, k as int).drop_last() == sch.subrange(0, k - 1));
        assert(concat_levels(sch.subrange(0, k as int)).map_values(|i: int| call_text(nodes@[i]))
            =~= concat_levels(sch.subrange(0, k - 1)).map_values(|i: int| call_text(nodes@[i]))
            + sch[k - 1].map_values(|i: int| call_text(nodes@[i])));
    }
    assert(sch.subrange(0, k as int) == sch);
    let sep = chars_of("\r\n");
    proof {
        reveal_strlit("\r\n");
    }
    assert(sep@ == crlf());
    join_chars(&parts, &sep)
}

fn crlf_chars() -> (r: Vec<char>)
    ensures
        r@ == crlf(),
{
    let sep = chars_of("\r\n");
    proof {
        reveal_strlit("\r\n");
    }
    sep
}

impl Tangle {
    /// The node as source text: a leaf becomes a function of its required
    /// names that runs its code and returns its provided names; a dataflow
    /// becomes a function that calls its members in schedule order.
    pub fn emit(&self) -> (r: String)
        ensures
            r@ == emit_text(*self),
    {
        let mut out: Vec<char>;
        match self {
            Tangle::Leaf { name, provides, requires: req, code } => {
                out = head_chars(name, req);
                let nl = crlf_chars();
                append_chars(&mut out, &nl);
                let b = body_chars(code);
                append_chars(&mut out, &b);
                append_chars(&mut out, &nl);
                let t = return_chars(provides);
                append_chars(&mut out, &t);
            },
            Tangle::Dataflow { name, nodes, provides, requires: req } => {
                out = head_chars(name, req);
                let nl = crlf_chars();
                append_chars(&mut out, &nl);
                let b = calls_chars(nodes);
                append_chars(&mut out, &b);
                append_chars(&mut out, &nl);
                let t = return_chars(provides);
                append_chars(&mut out, &t);
            },
        }
        string_of(&out)
    }

    /// The node as source text with no decoration.
    pub fn emit_all(&self) -> (r: String)
        ensures
            r@ == decorated_text(*self, None),
    {
        self.emit_decorated(&None)
    }

    /// A leaf as `emit` gives it; a dataflow as each member's function, each
    /// after a line `decorator("name")` when a decorator is given, then its
    /// own function.
    pub fn emit_decorated(&self, decorate: &Option<&str>) -> (r: String)
        ensures
            r@ == decorated_text(
                *self,
                match decorate {
                    Some(d) => Some(d@),
                    None => None,
                },
            ),
    {
        let ghost deco = match decorate {
            Some(d) => Some(d@),
            None => None::<Seq<char>>,
        };
        match self {
            Tangle::Leaf { .. } => self.emit(),
            Tangle::Dataflow { nodes, .. } => {
                let mut parts: Vec<Vec<char>> = Vec::new();
                let mut i: usize = 0;
                while i < nodes.len()
                    invariant
                        i <= nodes@.len(),
                        deco == match decorate {
                            Some(d) => Some(d@),
                            None => None::<Seq<char>>,
                        },
                        parts@.map_values(|l: Vec<char>| l@) == nodes@.subrange(0, i as int).map_values(
                            |m: Tangle| member_text(m, deco),
                        ),
                    decreases nodes@.len() - i,
                {
                    let mut p: Vec<char> = Vec::new();
                    match decorate {
                        Some(d) => {
                            push_str(&mut p, d);
                            push_str(&mut p, "(\"");
                            push_string(&mut p, nodes.get(i).name());
                            push_str(&mut p, "\")");
                            let nl = crlf_chars();
                            append_chars(&mut p, &nl);
                        },
                        None => {},
                    }
                    let e = nodes.get(i).emit();
                    push_string(&mut p, &e);
                    assert(p@ =~= member_text(nodes@[i as int], deco));
                    let ghost before = parts@.map_values(|l: Vec<char>| l@);
                    let ghost pv = p@;
                    parts.push(p);
                    i = i + 1;
                    assert(parts@.map_values(|l: Vec<char>| l@) =~= before.push(pv));
                    assert(nodes@.subrange(0, i as int).map_values(|m: Tangle| member_text(m, deco))
                        =~= nodes@.subrange(0, i - 1).map_values(|m: Tangle| member_text(m, deco)).push(
                        member_text(nodes@[i - 1], deco),
                    ));
                }
                assert(nodes@.subrange(0, i as int) == nodes@);
                let nl = crlf_chars();
                let mut sep: Vec<char> = Vec::new();
                append_chars(&mut sep, &nl);
                append_chars(&mut sep, &nl);
                let mut out = join_chars(&parts, &sep);
                append_chars(&mut out, &sep);
                let e = self.emit();
                push_string(&mut out, &e);
                assert(out@ =~= decorated_text(*self, deco));
                string_of(&out)
            },
        }
    }
}

/// The text an error is shown as.
pub open spec fn error_text(e: Error) -> Seq<char> {
    match e {
        Error::MissingLeaf(n) => "missing leaf: "@ + n@,
        Error::NoDataflowFound => "no dataflow found"@,
        Error::RequiresMismatch { expected, found } => "requires mismatch: expected ["@
            + comma_join(names_of(expected)) + "], found ["@ + comma_join(names_of(found)) + "]"@,
        Error::ProvidesMismatch { expected, found } => "provides mismatch: expected ["@
            + comma_join(names_of(expected)) + "], found ["@ + comma_join(names_of(found)) + "]"@,
    }
}

fn mismatch_chars(what: &str, expected: &IndexSet<String>, found: &IndexSet<String>) -> (r: Vec<char>)
    ensures
        r@ == what@ + " mismatch: expected ["@ + comma_join(names_of(*expected)) + "], found ["@
            + comma_join(names_of(*found)) + "]"@,
{
    let mut out: Vec<char> = Vec::new();
    push_str(&mut out, what);
    push_str(&mut out, " mismatch: expected [");
    let e = comma_names(expected);
    append_chars(&mut out, &e);
    push_str(&mut out, "], found [");
    let f = comma_names(found);
    append_chars(&mut out, &f);
    push_str(&mut out, "]");
    assert(out@ =~= what@ + " mismatch: expected ["@ + comma_join(names_of(*expected)) + "], found ["@
        + comma_join(names_of(*found)) + "]"@);
    out
}

impl Error {
    /// The error in words, for display.
    pub fn message(&self) -> (r: String)
        ensures
            r@ == error_text(*self),
    {
        let mut out: Vec<char> = Vec::new();
        match self {
            Error::MissingLeaf(n) => {
                push_str(&mut out, "missing leaf: ");
                push_string(&mut out, n);
            },
            Error::NoDataflowFound => {
                push_str(&mut out, "no dataflow found");
            },
            Error::RequiresMismatch { expected, found } => {
                out = mismatch_chars("requires", expected, found);
                proof {
                    reveal_strlit("requires");
                    reveal_strlit(" mismatch: expected [");
                    reveal_strlit("requires mismatch: expected [");
                }
                assert("requires"@ + " mismatch: expected ["@ =~= "requires mismatch: expected ["@);
            },
            Error::ProvidesMismatch { expected, found } => {
                out = mismatch_chars("provides", expected, found);
                proof {
                    reveal_strlit("provides");
                    reveal_strlit(" mismatch: expected [");
                    reveal_strlit("provides mismatch: expected [");
                }
                assert("provides"@ + " mismatch: expected ["@ =~= "provides mismatch: expected ["@);
            },
        }
        assert(out@ =~= error_text(*self));
        string_of(&out)
    }
}

/// The call order lists member positions only.
pub proof fn lemma_call_order_range(ms: Seq<Tangle>)
    ensures
        forall|k: int| 0 <= k < call_order(ms).len() ==> 0 <= #[trigger] call_order(ms)[k] < ms.len(),
{
    let g = member_ifaces(ms);
    crate::schedule::lemma_schedule_places_each_node_once(g);
    lemma_concat_levels_range(crate::schedule::schedule(g), ms.len() as int);
}

pub proof fn lemma_concat_levels_range(s: Seq<Seq<int>>, n: int)
    requires
        forall|k: int, i: int| 0 <= k < s.len() && 0 <= i < s[k].len() ==> 0 <= #[trigger] s[k][i] < n,
    ensures
        forall|j: int| 0 <= j < concat_levels(s).len() ==> 0 <= #[trigger] concat_levels(s)[j] < n,
    decreases s.len(),
{
    if s.len() > 0 {
        assert forall|k: int, i: int| 0 <= k < s.len() - 1 && 0 <= i < s.drop_last()[k].len() implies 0
            <= #[trigger] s.drop_last()[k][i] < n by {
            assert(s.drop_last()[k] == s[k]);
        }
        lemma_concat_levels_range(s.drop_last(), n);
        let c = concat_levels(s.drop_last());
        assert forall|j: int| 0 <= j < concat_levels(s).len() implies 0 <= #[trigger] concat_levels(s)[j] < n by {
            if j >= c.len() {
                assert(concat_levels(s)[j] == s[s.len() - 1][j - c.len()]);
            } else {
                assert(concat_levels(s)[j] == c[j]);
            }
        }
    }
}

/// Each member's position stands in the call order.
pub proof fn lemma_call_order_covers(ms: Seq<Tangle>, i: int)
    requires
        0 <= i < ms.len(),
    ensures
        exists|p: int| 0 <= p < call_order(ms).len() && #[trigger] call_order(ms)[p] == i,
{
    let g = member_ifaces(ms);
    crate::schedule::lemma_schedule_places_each_node_once(g);
    assert(crate::schedule::placed(schedule(g), i));
    let (kk, j) = choose|kk: int, j: int|
        0 <= kk < schedule(g).len() && 0 <= j < schedule(g)[kk].len() && #[trigger] schedule(g)[kk][j] == i;
    lemma_concat_levels_contains(schedule(g), kk, j);
    let c = concat_levels(schedule(g));
    let p = choose|p: int| 0 <= p < c.len() && #[trigger] c[p] == schedule(g)[kk][j];
    assert(call_order(ms)[p] == i);
}

proof fn lemma_concat_levels_contains(s: Seq<Seq<int>>, kk: int, j: int)
    requires
        0 <= kk < s.len(),
        0 <= j < s[kk].len(),
    ensures
        exists|p: int| 0 <= p < concat_levels(s).len() && #[trigger] concat_levels(s)[p] == s[kk][j],
    decreases s.len(),
{
    let c = concat_levels(s.drop_last());
    if kk == s.len() - 1 {
        assert(concat_levels(s)[c.len() + j] == s[kk][j]);
    } else {
        assert(s.drop_last()[kk] == s[kk]);
        lemma_concat_levels_contains(s.drop_last(), kk, j);
        let p = choose|p: int| 0 <= p < c.len() && #[trigger] c[p] == s[kk][j];
        assert(concat_levels(s)[p] == c[p]);
    }
}
} // verus!
