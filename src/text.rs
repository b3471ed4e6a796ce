//! Plain text operations on character sequences: lines, joining, indentation.
use vstd::prelude::*;

verus! {

/// Relies on `str::chars` collected into a `Vec`: the characters of the text in order.
#[verifier::external_body]
pub(crate) fn chars_of(s: &str) -> (r: Vec<char>)
    ensures
        r@ == s@,
{
    s.chars().collect()
}

/// Relies on `String: FromIterator<char>`: the string made of the characters in order.
#[verifier::external_body]
pub(crate) fn string_of(v: &Vec<char>) -> (r: String)
    ensures
        r@ == v@,
{
    v.iter().collect()
}

/// A line with one trailing carriage return removed, as `str::lines` treats a
/// line that a newline ends.
pub open spec fn strip_cr(l: Seq<char>) -> Seq<char> {
    if l.len() > 0 && l.last() == '\r' {
        l.drop_last()
    } else {
        l
    }
}

/// The pieces of `s` between newline characters; always at least one piece.
pub open spec fn split_nl(s: Seq<char>) -> Seq<Seq<char>>
    decreases s.len(),
{
    if s.len() == 0 {
        seq![Seq::<char>::empty()]
    } else {
        let p = split_nl(s.drop_last());
        if s.last() == '\n' {
            p.push(Seq::<char>::empty())
        } else {
            p.update(p.len() - 1, p.last().push(s.last()))
        }
    }
}

/// The lines of `s` as `str::lines` yields them: split at `\n`, a line
/// that a `\n` ends loses one trailing `\r` (a `\r\n` ending), an
/// unterminated last line is kept whole, and no empty line follows a final
/// newline.
pub open spec fn lines_of(s: Seq<char>) -> Seq<Seq<char>> {
    let p = split_nl(s);
    let ended = p.drop_last().map_values(|l: Seq<char>| strip_cr(l));
    if p.last().len() == 0 {
        ended
    } else {
        ended.push(p.last())
    }
}

/// The pieces joined with `sep` between each two of them.
pub open spec fn join(parts: Seq<Seq<char>>, sep: Seq<char>) -> Seq<char>
    decreases parts.len(),
{
    if parts.len() == 0 {
        Seq::<char>::empty()
    } else if parts.len() == 1 {
        parts[0]
    } else {
        join(parts.drop_last(), sep) + sep + parts.last()
    }
}

pub open spec fn crlf() -> Seq<char> {
    seq!['\r', '\n']
}

proof fn lemma_split_nl_nonempty(s: Seq<char>)
    ensures
        split_nl(s).len() >= 1,
    decreases s.len(),
{
    if s.len() > 0 {
        lemma_split_nl_nonempty(s.drop_last());
    }
}

/// Appends the characters of `b` to `a`.
pub fn append_chars(a: &mut Vec<char>, b: &Vec<char>)
    ensures
        final(a)@ == old(a)@ + b@,
{
    let mut i: usize = 0;
    while i < b.len()
        invariant
            i <= b.len(),
            a@ == old(a)@ + b@.subrange(0, i as int),
        decreases b.len() - i,
    {
        a.push(b[i]);
        i = i + 1;
        assert(b@.subrange(0, i as int) == b@.subrange(0, i - 1).push(b@[i - 1]));
    }
    assert(b@.subrange(0, b@.len() as int) == b@);
}

/// Splits `s` into its lines, as `str::lines` does.
pub fn lines(s: &Vec<char>) -> (r: Vec<Vec<char>>)
    ensures
        r@.map_values(|l: Vec<char>| l@) == lines_of(s@),
{
    let mut pieces: Vec<Vec<char>> = Vec::new();
    let mut cur: Vec<char> = Vec::new();
    let mut i: usize = 0;
    while i < s.len()
        invariant
            i <= s.len(),
            pieces@.map_values(|l: Vec<char>| l@).push(cur@) == split_nl(s@.subrange(0, i as int)),
        decreases s.len() - i,
    {
        let c = s[i];
        let ghost pre = s@.subrange(0, i as int);
        assert(s@.subrange(0, i + 1).drop_last() == pre);
        if c == '\n' {
            let done = cur;
            cur = Vec::new();
            pieces.push(done);
            assert(pieces@.map_values(|l: Vec<char>| l@).push(cur@) == split_nl(pre).push(
                Seq::<char>::empty(),
            ));
        } else {
            cur.push(c);
            proof {
                lemma_split_nl_nonempty(pre);
            }
            assert(pieces@.map_values(|l: Vec<char>| l@).push(cur@) == split_nl(pre).update(
                split_nl(pre).len() - 1,
                split_nl(pre).last().push(c),
            ));
        }
        i = i + 1;
    }
    assert(s@.subrange(0, s@.len() as int) == s@);
    let ghost p = split_nl(s@);
    proof {
        lemma_split_nl_nonempty(s@);
    }
    assert(pieces@.map_values(|l: Vec<char>| l@) =~= p.drop_last());
    assert(cur@ == p.last());
    let ghost q = pieces@.map_values(|l: Vec<char>| l@);
    let mut out: Vec<Vec<char>> = Vec::new();
    let mut j: usize = 0;
    while j < pieces.len()
        invariant
            j <= pieces.len(),
            q == pieces@.map_values(|l: Vec<char>| l@),
            out@.map_values(|l: Vec<char>| l@) == q.subrange(0, j as int).map_values(
                |l: Seq<char>| strip_cr(l),
            ),
        decreases pieces.len() - j,
    {
        let line = &pieces[j];
        let mut k: usize = line.len();
        if k > 0 && line[k - 1] == '\r' {
            k = k - 1;
        }
        let mut l: Vec<char> = Vec::new();
        let mut m: usize = 0;
        while m < k
            invariant
                m <= k <= line.len(),
                l@ == line@.subrange(0, m as int),
            decreases k - m,
        {
            l.push(line[m]);
            m = m + 1;
        }
        assert(l@ == strip_cr(line@));
        assert(line@ == q[j as int]);
        let ghost before = out@.map_values(|l: Vec<char>| l@);
        out.push(l);
        assert(out@.map_values(|l: Vec<char>| l@) =~= before.push(strip_cr(q[j as int])));
        j = j + 1;
        assert(q.subrange(0, j as int).map_values(|l: Seq<char>| strip_cr(l)) =~= q.subrange(
            0,
            j - 1,
        ).map_values(|l: Seq<char>| strip_cr(l)).push(strip_cr(q[j - 1])));
    }
    assert(q.subrange(0, q.len() as int) == q);
    if cur.len() > 0 {
        let ghost before = out@.map_values(|l: Vec<char>| l@);
        out.push(cur);
        assert(out@.map_values(|l: Vec<char>| l@) =~= before.push(p.last()));
    }
    out
}

/// Joins the pieces with `sep` between each two of them.
pub fn join_chars(parts: &Vec<Vec<char>>, sep: &Vec<char>) -> (r: Vec<char>)
    ensures
        r@ == join(parts@.map_values(|l: Vec<char>| l@), sep@),
{
    let ghost ps = parts@.map_values(|l: Vec<char>| l@);
    let mut out: Vec<char> = Vec::new();
    let mut i: usize = 0;
    while i < parts.len()
        invariant
            i <= parts.len(),
            ps == parts@.map_values(|l: Vec<char>| l@),
            out@ == join(ps.subrange(0, i as int), sep@),
        decreases parts.len() - i,
    {
        if i > 0 {
            append_chars(&mut out, sep);
        }
        append_chars(&mut out, &parts[i]);
        i = i + 1;
        assert(ps.subrange(0, i as int).drop_last() == ps.subrange(0, i - 1));
    }
    assert(ps.subrange(0, ps.len() as int) == ps);
    out
}


pub open spec fn spaces(n: nat) -> Seq<char> {
    Seq::new(n, |i: int| ' ')
}

/// A line with `by` leading spaces removed, when it starts with that many.
pub open spec fn strip_indent(l: Seq<char>, by: nat) -> Seq<char> {
    if l.len() >= by && l.subrange(0, by as int) == spaces(by) {
        l.subrange(by as int, l.len() as int)
    } else {
        l
    }
}

/// Each line of `s` with `by` leading spaces removed where it has them,
/// joined with `\r\n`; text without lines is kept as it is.
pub open spec fn dedent_text(s: Seq<char>, by: nat) -> Seq<char> {
    if lines_of(s).len() == 0 {
        s
    } else {
        join(lines_of(s).map_values(|l: Seq<char>| strip_indent(l, by)), crlf())
    }
}

/// Whether a line starts with `return`.
pub open spec fn starts_with_return(l: Seq<char>) -> bool {
    l.len() >= 6 && l.subrange(0, 6) == "return"@
}

/// The lines before the first one that starts with `return`.
pub open spec fn lines_before_return(ls: Seq<Seq<char>>) -> Seq<Seq<char>>
    decreases ls.len(),
{
    if ls.len() == 0 {
        ls
    } else if starts_with_return(ls[0]) {
        Seq::<Seq<char>>::empty()
    } else {
        seq![ls[0]] + lines_before_return(ls.drop_first())
    }
}

fn crlf_vec() -> (r: Vec<char>)
    ensures
        r@ == crlf(),
{
    let c = chars_of("\r\n");
    proof {
        reveal_strlit("\r\n");
    }
    c
}

fn strip_line(l: &Vec<char>, by: usize) -> (r: Vec<char>)
    ensures
        r@ == strip_indent(l@, by as nat),
{
    let mut ok = l.len() >= by;
    let mut i: usize = 0;
    while i < by
        invariant
            i <= by,
            ok ==> l@.len() >= by,
            ok ==> forall|k: int| 0 <= k < i ==> l@[k] == ' ',
            !ok ==> !(l@.len() >= by && l@.subrange(0, by as int) == spaces(by as nat)),
        decreases by - i,
    {
        if ok && l[i] != ' ' {
            ok = false;
            assert(l@.subrange(0, by as int)[i as int] != spaces(by as nat)[i as int]);
        }
        i = i + 1;
    }
    if ok {
        assert(l@.subrange(0, by as int) =~= spaces(by as nat));
        let mut r: Vec<char> = Vec::new();
        let mut j: usize = by;
        while j < l.len()
            invariant
                by <= j <= l.len(),
                r@ == l@.subrange(by as int, j as int),
            decreases l.len() - j,
        {
            r.push(l[j]);
            j = j + 1;
            assert(r@ =~= l@.subrange(by as int, j as int));
        }
        r
    } else {
        let mut r: Vec<char> = Vec::new();
        append_chars(&mut r, l);
        r
    }
}

/// Removes `by` leading spaces from each line that has them and joins the
/// lines with `\r\n`.
pub fn dedent(s: String, by: usize) -> (r: String)
    ensures
        r@ == dedent_text(s@, by as nat),
{
    let c = chars_of(s.as_str());
    string_of(&dedent_chars(&c, by))
}

pub(crate) fn dedent_chars(s: &Vec<char>, by: usize) -> (r: Vec<char>)
    ensures
        r@ == dedent_text(s@, by as nat),
{
    let ls = lines(s);
    if ls.len() == 0 {
        let mut r: Vec<char> = Vec::new();
        append_chars(&mut r, s);
        return r;
    }
    let ghost lv = lines_of(s@);
    let mut parts: Vec<Vec<char>> = Vec::new();
    let mut i: usize = 0;
    while i < ls.len()
        invariant
            i <= ls.len() == lv.len(),
            ls@.map_values(|l: Vec<char>| l@) == lv,
            parts@.map_values(|l: Vec<char>| l@) == lv.subrange(0, i as int).map_values(
                |l: Seq<char>| strip_indent(l, by as nat),
            ),
        decreases ls.len() - i,
    {
        let p = strip_line(&ls[i], by);
        assert(ls@[i as int]@ == lv[i as int]);
        let ghost before = parts@.map_values(|l: Vec<char>| l@);
        let ghost pv = p@;
        parts.push(p);
        i = i + 1;
        assert(parts@.map_values(|l: Vec<char>| l@) =~= before.push(pv));
        assert(lv.subrange(0, i as int).map_values(|l: Seq<char>| strip_indent(l, by as nat))
            =~= lv.subrange(0, i - 1).map_values(|l: Seq<char>| strip_indent(l, by as nat)).push(
            strip_indent(lv[i - 1], by as nat),
        ));
    }
    assert(lv.subrange(0, i as int) == lv);
    let sep = crlf_vec();
    join_chars(&parts, &sep)
}

/// The lines of `s` before the first that starts with `return`, joined with
/// `\r\n`; text without lines is kept as it is.
pub fn remove_return(s: String) -> (r: String)
    ensures
        r@ == if lines_of(s@).len() == 0 {
            s@
        } else {
            join(lines_before_return(lines_of(s@)), crlf())
        },
{
    let c = chars_of(s.as_str());
    string_of(&remove_return_chars(&c))
}

fn remove_return_chars(s: &Vec<char>) -> (r: Vec<char>)
    ensures
        r@ == if lines_of(s@).len() == 0 {
            s@
        } else {
            join(lines_before_return(lines_of(s@)), crlf())
        },
{
    let ls = lines(s);
    if ls.len() == 0 {
        let mut r: Vec<char> = Vec::new();
        append_chars(&mut r, s);
        return r;
    }
    let ghost lv = lines_of(s@);
    let ret = chars_of("return");
    proof {
        reveal_strlit("return");
    }
    let mut parts: Vec<Vec<char>> = Vec::new();
    let mut i: usize = 0;
    while i < ls.len()
        invariant
            i <= ls.len() == lv.len(),
            ls@.map_values(|l: Vec<char>| l@) == lv,
            ret@ == "return"@,
            ret@.len() == 6,
            lv == lines_of(s@),
            forall|k: int| 0 <= k < i ==> !starts_with_return(#[trigger] lv[k]),
            parts@.map_values(|l: Vec<char>| l@) == lv.subrange(0, i as int),
        decreases ls.len() - i,
    {
        let l = &ls[i];
        assert(l@ == lv[i as int]);
        let mut starts = l.len() >= 6;
        let mut k: usize = 0;
        while k < 6
            invariant
                k <= 6,
                ret@.len() == 6,
                starts ==> l@.len() >= 6,
                starts ==> forall|m: int| 0 <= m < k ==> l@[m] == ret@[m],
                !starts ==> !starts_with_return(l@),
                ret@ == "return"@,
            decreases 6 - k,
        {
            if starts && l[k] != ret[k] {
                starts = false;
                assert(l@.subrange(0, 6)[k as int] != ret@[k as int]);
            }
            k = k + 1;
        }
        if starts {
            assert(l@.subrange(0, 6) =~= ret@);
            proof {
                lemma_lines_before_return_stop(lv, i as int);
            }
            assert(lv.len() > 0);
            assert(lines_before_return(lv) == lv.subrange(0, i as int));
            let sep = crlf_vec();
            let r = join_chars(&parts, &sep);
            assert(r@ == join(lv.subrange(0, i as int), crlf()));
            return r;
        }
        let mut c: Vec<char> = Vec::new();
        append_chars(&mut c, l);
        let ghost before = parts@.map_values(|l: Vec<char>| l@);
        parts.push(c);
        i = i + 1;
        assert(parts@.map_values(|l: Vec<char>| l@) =~= before.push(lv[i - 1]));
        assert(lv.subrange(0, i as int) =~= lv.subrange(0, i - 1).push(lv[i - 1]));
    }
    proof {
        lemma_lines_before_return_all(lv);
    }
    assert(lv.subrange(0, i as int) == lv);
    let sep = crlf_vec();
    join_chars(&parts, &sep)
}

proof fn lemma_lines_before_return_stop(ls: Seq<Seq<char>>, i: int)
    requires
        0 <= i < ls.len(),
        starts_with_return(ls[i]),
        forall|k: int| 0 <= k < i ==> !starts_with_return(#[trigger] ls[k]),
    ensures
        lines_before_return(ls) == ls.subrange(0, i),
    decreases i,
{
    if i > 0 {
        lemma_lines_before_return_stop(ls.drop_first(), i - 1);
        assert(seq![ls[0]] + ls.drop_first().subrange(0, i - 1) =~= ls.subrange(0, i));
    } else {
        assert(ls.subrange(0, 0) =~= Seq::<Seq<char>>::empty());
    }
}

proof fn lemma_lines_before_return_all(ls: Seq<Seq<char>>)
    requires
        forall|k: int| 0 <= k < ls.len() ==> !starts_with_return(#[trigger] ls[k]),
    ensures
        lines_before_return(ls) == ls,
    decreases ls.len(),
{
    if ls.len() > 0 {
        lemma_lines_before_return_all(ls.drop_first());
        assert(seq![ls[0]] + ls.drop_first() =~= ls);
    }
}
} // verus!
