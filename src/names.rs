//! Ordered name sets, held in `indexmap::IndexSet<String>`.
use indexmap::IndexSet;
use vstd::prelude::*;

verus! {

/// `indexmap::IndexSet`, held opaque; `names_of` names what it holds.
#[verifier::external_type_specification]
#[verifier::external_body]
#[verifier::reject_recursive_types(T)]
#[verifier::reject_recursive_types(S)]
pub struct ExIndexSet<T, S>(IndexSet<T, S>);

/// The names an `IndexSet<String>` holds, in insertion order.
pub uninterp spec fn names_of(s: IndexSet<String>) -> Seq<Seq<char>>;

/// The names as a set, order forgotten.
pub open spec fn name_set(s: IndexSet<String>) -> Set<Seq<char>> {
    names_of(s).to_set()
}

/// `s` followed by each name of `xs` that is not already there, in order.
pub open spec fn add_all(s: Seq<Seq<char>>, xs: Seq<Seq<char>>) -> Seq<Seq<char>>
    decreases xs.len(),
{
    if xs.len() == 0 {
        s
    } else {
        let t = add_all(s, xs.drop_last());
        if t.contains(xs.last()) {
            t
        } else {
            t.push(xs.last())
        }
    }
}

/// Relies on `IndexSet::new`: a new set is empty.
#[verifier::external_body]
pub(crate) fn empty_names() -> (r: IndexSet<String>)
    ensures
        names_of(r) == Seq::<Seq<char>>::empty(),
{
    IndexSet::new()
}

/// Relies on `IndexSet::insert`: a name already present leaves the set as it
/// was; a new one is placed last.
#[verifier::external_body]
pub(crate) fn insert_name(s: &mut IndexSet<String>, x: String) -> (r: bool)
    ensures
        r == !names_of(*old(s)).contains(x@),
        names_of(*final(s)) == if names_of(*old(s)).contains(x@) {
            names_of(*old(s))
        } else {
            names_of(*old(s)).push(x@)
        },
{
    s.insert(x)
}

/// Relies on `IndexSet::contains`.
#[verifier::external_body]
pub(crate) fn contains_name(s: &IndexSet<String>, x: &String) -> (r: bool)
    ensures
        r == names_of(*s).contains(x@),
{
    s.contains(x)
}

/// Relies on `IndexSet::len`.
#[verifier::external_body]
pub(crate) fn names_len(s: &IndexSet<String>) -> (r: usize)
    ensures
        r == names_of(*s).len(),
{
    s.len()
}

/// Relies on `IndexSet::get_index`: the name at a position in insertion
/// order; a set holds no name at two positions.
#[verifier::external_body]
pub(crate) fn name_at(s: &IndexSet<String>, i: usize) -> (r: &String)
    requires
        i < names_of(*s).len(),
    ensures
        r@ == names_of(*s)[i as int],
        forall|j: int| 0 <= j < names_of(*s).len() && j != i ==> names_of(*s)[j] != r@,
{
    s.get_index(i).unwrap()
}

/// A copy holding the same names in the same order.
pub fn clone_names(s: &IndexSet<String>) -> (r: IndexSet<String>)
    ensures
        names_of(r) == names_of(*s),
{
    let n = names_len(s);
    let mut c = empty_names();
    let mut i: usize = 0;
    while i < n
        invariant
            i <= n == names_of(*s).len(),
            names_of(c) == names_of(*s).subrange(0, i as int),
        decreases n - i,
    {
        let x = name_at(s, i);
        assert(!names_of(c).contains(x@));
        insert_name(&mut c, x.clone());
        i = i + 1;
        assert(names_of(*s).subrange(0, i as int) == names_of(*s).subrange(0, i - 1).push(x@));
    }
    assert(names_of(*s).subrange(0, n as int) == names_of(*s));
    c
}

/// Relies on `IndexSet`'s `PartialEq`: equal lengths and one a subset of the
/// other, that is the same names in any order.
#[verifier::external_body]
pub(crate) fn same_names(a: &IndexSet<String>, b: &IndexSet<String>) -> (r: bool)
    ensures
        r == (name_set(*a) == name_set(*b)),
{
    a == b
}

/// A set holding the names of `xs` in order, each once.
pub fn names_from(xs: &Vec<String>) -> (r: IndexSet<String>)
    ensures
        names_of(r) == add_all(Seq::empty(), xs@.map_values(|x: String| x@)),
{
    let ghost v = xs@.map_values(|x: String| x@);
    let mut s = empty_names();
    let mut i: usize = 0;
    while i < xs.len()
        invariant
            i <= xs.len(),
            v == xs@.map_values(|x: String| x@),
            names_of(s) == add_all(Seq::empty(), v.subrange(0, i as int)),
        decreases xs.len() - i,
    {
        insert_name(&mut s, xs[i].clone());
        i = i + 1;
        assert(v.subrange(0, i as int).drop_last() == v.subrange(0, i - 1));
    }
    assert(v.subrange(0, v.len() as int) == v);
    s
}

/// Adds to `s` each name of `xs` that it does not hold yet, in order.
pub fn extend_names(s: &mut IndexSet<String>, xs: &IndexSet<String>)
    ensures
        names_of(*final(s)) == add_all(names_of(*old(s)), names_of(*xs)),
{
    let n = names_len(xs);
    let mut i: usize = 0;
    while i < n
        invariant
            i <= n == names_of(*xs).len(),
            names_of(*s) == add_all(names_of(*old(s)), names_of(*xs).subrange(0, i as int)),
        decreases n - i,
    {
        let x = name_at(xs, i);
        insert_name(s, x.clone());
        i = i + 1;
        assert(names_of(*xs).subrange(0, i as int).drop_last() == names_of(*xs).subrange(
            0,
            i - 1,
        ));
    }
    assert(names_of(*xs).subrange(0, n as int) == names_of(*xs));
}

/// What `add_all` holds: the names of both sequences.
pub proof fn lemma_add_all_contains(s: Seq<Seq<char>>, xs: Seq<Seq<char>>, x: Seq<char>)
    ensures
        add_all(s, xs).contains(x) <==> (s.contains(x) || xs.contains(x)),
    decreases xs.len(),
{
    if xs.len() > 0 {
        lemma_add_all_contains(s, xs.drop_last(), x);
        let t = add_all(s, xs.drop_last());
        if xs.last() == x {
            assert(xs.contains(x));
        }
        if xs.drop_last().contains(x) {
            let j = choose|j: int| 0 <= j < xs.drop_last().len() && xs.drop_last()[j] == x;
            assert(xs[j] == x);
        }
        if xs.contains(x) && xs.last() != x {
            let j = choose|j: int| 0 <= j < xs.len() && xs[j] == x;
            assert(xs.drop_last()[j] == x);
        }
        if !t.contains(xs.last()) {
            if t.push(xs.last()).contains(x) && x != xs.last() {
                let j = choose|j: int| 0 <= j < t.push(xs.last()).len() && t.push(xs.last())[j] == x;
                assert(t[j] == x);
            }
            if t.contains(x) {
                let j = choose|j: int| 0 <= j < t.len() && t[j] == x;
                assert(t.push(xs.last())[j] == x);
            }
            assert(t.push(xs.last())[t.len() as int] == xs.last());
        }
    }
}

} // verus!
