//! How conditions are put together: a condition whose parts are joined by `&&` is made of the
//! clauses of its parts.

use crate::predicate::{
    ClauseView,
    and_parts,
    clause_of,
    clause_texts,
    clauses_of,
    in_quotes,
    predicate_of,
};
use crate::text::{is_space, trimmed, trimmed_end, trimmed_start};
use vstd::prelude::*;

verus! {

/// Whether a text is nothing but white space.
pub open spec fn is_blank(s: Seq<char>) -> bool {
    forall|i: int| 0 <= i < s.len() ==> is_space(#[trigger] s[i])
}

proof fn lemma_blank_start(sp: Seq<char>, x: Seq<char>)
    requires
        is_blank(sp),
    ensures
        trimmed_start(sp + x) == trimmed_start(x),
    decreases sp.len(),
{
    if sp.len() == 0 {
        assert(sp + x =~= x);
    } else {
        let rest = sp.skip(1);
        assert forall|i: int| 0 <= i < rest.len() implies is_space(#[trigger] rest[i]) by {
            assert(rest[i] == sp[i + 1]);
        }
        lemma_blank_start(rest, x);
        assert((sp + x).skip(1) =~= rest + x);
        assert((sp + x)[0] == sp[0]);
    }
}

proof fn lemma_blank_end(x: Seq<char>, sp: Seq<char>)
    requires
        is_blank(sp),
    ensures
        trimmed_end(x + sp) == trimmed_end(x),
    decreases sp.len(),
{
    if sp.len() == 0 {
        assert(x + sp =~= x);
    } else {
        let init = sp.take(sp.len() - 1);
        assert forall|i: int| 0 <= i < init.len() implies is_space(#[trigger] init[i]) by {
            assert(init[i] == sp[i]);
        }
        lemma_blank_end(x, init);
        assert((x + sp).take((x + sp).len() - 1) =~= x + init);
        assert((x + sp).last() == sp[sp.len() - 1]);
    }
}

/// A text is white space and then what is left of it once that is taken off its start.
proof fn lemma_start(x: Seq<char>) -> (sp: Seq<char>)
    ensures
        is_blank(sp),
        x == sp + trimmed_start(x),
        trimmed_start(x).len() > 0 ==> !is_space(trimmed_start(x)[0]),
    decreases x.len(),
{
    if x.len() > 0 && is_space(x[0]) {
        let rest = lemma_start(x.skip(1));
        let sp = seq![x[0]] + rest;
        assert(x =~= seq![x[0]] + x.skip(1));
        assert(sp + trimmed_start(x) =~= seq![x[0]] + (rest + trimmed_start(x.skip(1))));
        sp
    } else {
        let sp = Seq::<char>::empty();
        assert(x =~= sp + trimmed_start(x));
        sp
    }
}

/// A text is what is left of it once white space is taken off its end, and then that.
proof fn lemma_end(x: Seq<char>) -> (sp: Seq<char>)
    ensures
        is_blank(sp),
        x == trimmed_end(x) + sp,
        trimmed_end(x).len() > 0 ==> !is_space(trimmed_end(x).last()) && trimmed_end(x)[0] == x[0],
    decreases x.len(),
{
    if x.len() > 0 && is_space(x.last()) {
        let init = x.take(x.len() - 1);
        let rest = lemma_end(init);
        let sp = rest.push(x.last());
        assert(x =~= init.push(x.last()));
        assert(trimmed_end(x) + sp =~= (trimmed_end(init) + rest).push(x.last()));
        sp
    } else {
        let sp = Seq::<char>::empty();
        assert(x =~= trimmed_end(x) + sp);
        sp
    }
}

/// A text that begins with anything but white space keeps it when white space is taken off its end.
proof fn lemma_solid_start(x: Seq<char>, y: Seq<char>)
    requires
        x.len() > 0,
        !is_space(x[0]),
    ensures
        trimmed_start(x + y) == x + y,
{
    assert((x + y)[0] == x[0]);
}

proof fn lemma_solid_end(x: Seq<char>, y: Seq<char>)
    requires
        y.len() > 0,
        !is_space(y.last()),
    ensures
        trimmed_end(x + y) == x + y,
{
    assert((x + y).last() == y.last());
}

/// A text with white space around it is trimmed to the text.
proof fn lemma_trimmed_around(before: Seq<char>, x: Seq<char>, after: Seq<char>)
    requires
        is_blank(before),
        is_blank(after),
    ensures
        trimmed(before + x + after) == trimmed(x),
{
    assert(before + x + after =~= before + (x + after));
    lemma_blank_start(before, x + after);
    let sp = lemma_start(x);
    let core = trimmed_start(x);
    assert(x + after =~= sp + (core + after));
    lemma_blank_start(sp, core + after);
    if core.len() > 0 {
        lemma_solid_start(core, after);
        lemma_blank_end(core, after);
    } else {
        assert(core + after =~= after);
        let none = Seq::<char>::empty();
        assert(after =~= after + none);
        lemma_blank_start(after, none);
        assert(trimmed_start(after) =~= none);
        assert(core =~= none);
    }
}

/// A text is its trimmed form with white space around it, and trimming it twice changes nothing.
proof fn lemma_trimmed_parts(x: Seq<char>) -> (r: (Seq<char>, Seq<char>))
    ensures
        is_blank(r.0),
        is_blank(r.1),
        x == r.0 + trimmed(x) + r.1,
        trimmed(x).len() > 0 ==> !is_space(trimmed(x)[0]) && !is_space(trimmed(x).last()),
{
    let before = lemma_start(x);
    let after = lemma_end(trimmed_start(x));
    assert(x =~= before + trimmed(x) + after);
    (before, after)
}

/// Where the last part of a text begins, and whether a string is still open at its end.
spec fn scan_end(s: Seq<char>, last: int, i: int, in_string: bool) -> (int, bool)
    decreases s.len() - i,
{
    if i < 0 || i >= s.len() {
        (last, in_string)
    } else if s[i] == '"' {
        scan_end(s, last, i + 1, !in_string)
    } else if s[i] == '&' && !in_string && i + 1 < s.len() && s[i + 1] == '&' {
        scan_end(s, i + 2, i + 2, in_string)
    } else {
        scan_end(s, last, i + 1, in_string)
    }
}

proof fn lemma_parts_nonempty(s: Seq<char>, last: int, i: int, in_string: bool)
    ensures
        and_parts(s, last, i, in_string).len() > 0,
    decreases s.len() - i,
{
    if 0 <= i < s.len() {
        if s[i] == '"' {
            lemma_parts_nonempty(s, last, i + 1, !in_string);
        } else if s[i] == '&' && !in_string && i + 1 < s.len() && s[i + 1] == '&' {
        } else {
            lemma_parts_nonempty(s, last, i + 1, in_string);
        }
    }
}

/// Text that follows does not change the parts of a text but the last.
proof fn lemma_parts_of_longer(u: Seq<char>, v: Seq<char>, last: int, i: int, in_string: bool)
    requires
        0 <= last <= i <= u.len(),
        v.len() > 0,
        v[0] != '&',
    ensures
        ({
            let (start, open) = scan_end(u, last, i, in_string);
            let parts = and_parts(u, last, i, in_string);
            &&& last <= start <= u.len()
            &&& parts.len() > 0
            &&& parts.last() == u.subrange(start, u.len() as int)
            &&& and_parts(u + v, last, i, in_string) == parts.drop_last() + and_parts(
                u + v,
                start,
                u.len() as int,
                open,
            )
        }),
    decreases u.len() - i,
{
    let s = u + v;
    let parts = and_parts(u, last, i, in_string);
    if i == u.len() {
        assert(parts.drop_last() =~= Seq::<Seq<char>>::empty());
        assert(parts.drop_last() + and_parts(s, last, i, in_string) =~= and_parts(
            s,
            last,
            i,
            in_string,
        ));
    } else {
        assert(s[i] == u[i]);
        if i + 1 < u.len() {
            assert(s[i + 1] == u[i + 1]);
        } else {
            assert(s[i + 1] == v[0]);
        }
        if u[i] == '"' {
            lemma_parts_of_longer(u, v, last, i + 1, !in_string);
        } else if u[i] == '&' && !in_string && i + 1 < u.len() && u[i + 1] == '&' {
            lemma_parts_of_longer(u, v, i + 2, i + 2, in_string);
            let (start, open) = scan_end(u, last, i, in_string);
            let rest = and_parts(u, i + 2, i + 2, in_string);
            assert(s.subrange(last, i) =~= u.subrange(last, i));
            assert(parts.last() == rest.last());
            assert(parts.drop_last() =~= seq![u.subrange(last, i)] + rest.drop_last());
            assert(and_parts(s, last, i, in_string) =~= parts.drop_last() + and_parts(
                s,
                start,
                u.len() as int,
                open,
            ));
        } else {
            lemma_parts_of_longer(u, v, last, i + 1, in_string);
        }
    }
}

/// A string is still open at the end of a text if the quotes before it are odd in number.
proof fn lemma_scan_quotes(s: Seq<char>, last: int, i: int, in_string: bool)
    requires
        0 <= i <= s.len(),
        in_string == in_quotes(s, i),
    ensures
        scan_end(s, last, i, in_string).1 == in_quotes(s, s.len() as int),
    decreases s.len() - i,
{
    if i < s.len() {
        if s[i] == '"' {
            lemma_scan_quotes(s, last, i + 1, !in_string);
        } else if s[i] == '&' && !in_string && i + 1 < s.len() && s[i + 1] == '&' {
            assert(in_quotes(s, i + 1) == in_string);
            assert(in_quotes(s, i + 2) == in_string);
            lemma_scan_quotes(s, i + 2, i + 2, in_string);
        } else {
            lemma_scan_quotes(s, last, i + 1, in_string);
        }
    }
}

/// What comes before does not change whether quotes are open, if it holds none.
proof fn lemma_quotes_after(p: Seq<char>, x: Seq<char>, i: int)
    requires
        forall|k: int| 0 <= k < p.len() ==> #[trigger] p[k] != '"',
        0 <= i <= x.len(),
    ensures
        in_quotes(p + x, p.len() + i) == in_quotes(x, i),
    decreases p.len() + i,
{
    let s = p + x;
    if i > 0 {
        assert(s[p.len() + i - 1] == x[i - 1]);
        lemma_quotes_after(p, x, i - 1);
    } else {
        lemma_no_quotes(s, p.len() as int);
    }
}

proof fn lemma_no_quotes(s: Seq<char>, n: int)
    requires
        0 <= n <= s.len(),
        forall|k: int| 0 <= k < n ==> #[trigger] s[k] != '"',
    ensures
        !in_quotes(s, n),
    decreases n,
{
    if n > 0 {
        lemma_no_quotes(s, n - 1);
    }
}

/// Quotes are open at the end of a text with white space behind it as they are before that.
proof fn lemma_quotes_before(x: Seq<char>, p: Seq<char>, i: int)
    requires
        forall|k: int| 0 <= k < p.len() ==> #[trigger] p[k] != '"',
        0 <= i <= p.len(),
    ensures
        in_quotes(x + p, x.len() + i) == in_quotes(x, x.len() as int),
    decreases i,
{
    if i > 0 {
        assert((x + p)[x.len() + i - 1] == p[i - 1]);
        lemma_quotes_before(x, p, i - 1);
    } else {
        lemma_quotes_prefix(x, p, x.len() as int);
    }
}

proof fn lemma_quotes_prefix(x: Seq<char>, p: Seq<char>, i: int)
    requires
        0 <= i <= x.len(),
    ensures
        in_quotes(x + p, i) == in_quotes(x, i),
    decreases i,
{
    if i > 0 {
        assert((x + p)[i - 1] == x[i - 1]);
        lemma_quotes_prefix(x, p, i - 1);
    }
}

/// White space is passed over.
proof fn lemma_pass_blank(s: Seq<char>, last: int, i: int, j: int)
    requires
        0 <= last <= i <= j <= s.len(),
        forall|k: int| i <= k < j ==> is_space(#[trigger] s[k]),
    ensures
        and_parts(s, last, i, false) == and_parts(s, last, j, false),
    decreases j - i,
{
    if i < j {
        assert(is_space(s[i]));
        lemma_pass_blank(s, last, i + 1, j);
    }
}

/// The parts of the rest of a text, counted from where the rest begins.
proof fn lemma_parts_shift(s: Seq<char>, k: int, last: int, i: int, in_string: bool)
    requires
        0 <= k,
        0 <= last <= i,
        k + i <= s.len(),
    ensures
        and_parts(s, k + last, k + i, in_string) == and_parts(s.skip(k), last, i, in_string),
    decreases s.len() - i,
{
    let rest = s.skip(k);
    if k + i == s.len() {
        assert(s.subrange(k + last, s.len() as int) =~= rest.subrange(last, rest.len() as int));
    } else {
        assert(rest[i] == s[k + i]);
        if k + i + 1 < s.len() {
            assert(rest[i + 1] == s[k + i + 1]);
        }
        if s[k + i] == '"' {
            lemma_parts_shift(s, k, last, i + 1, !in_string);
        } else if s[k + i] == '&' && !in_string && k + i + 1 < s.len() && s[k + i + 1] == '&' {
            lemma_parts_shift(s, k, i + 2, i + 2, in_string);
            assert(s.subrange(k + last, k + i) =~= rest.subrange(last, i));
        } else {
            lemma_parts_shift(s, k, last, i + 1, in_string);
        }
    }
}

/// Where the first part begins changes only the first part.
proof fn lemma_first_part(s: Seq<char>, a: int, b: int, i: int, in_string: bool) -> (end: int)
    requires
        0 <= a <= b <= i <= s.len(),
    ensures
        i <= end <= s.len(),
        and_parts(s, a, i, in_string).len() > 0,
        and_parts(s, a, i, in_string).len() == and_parts(s, b, i, in_string).len(),
        and_parts(s, a, i, in_string)[0] == s.subrange(a, end),
        and_parts(s, b, i, in_string)[0] == s.subrange(b, end),
        forall|k: int|
            0 < k < and_parts(s, a, i, in_string).len() ==> #[trigger] and_parts(
                s,
                a,
                i,
                in_string,
            )[k] == and_parts(s, b, i, in_string)[k],
    decreases s.len() - i,
{
    if i == s.len() {
        i
    } else if s[i] == '"' {
        lemma_first_part(s, a, b, i + 1, !in_string)
    } else if s[i] == '&' && !in_string && i + 1 < s.len() && s[i + 1] == '&' {
        i
    } else {
        lemma_first_part(s, a, b, i + 1, in_string)
    }
}

/// Whether two lists of texts are the same once each text is trimmed.
spec fn same_trimmed(p: Seq<Seq<char>>, q: Seq<Seq<char>>) -> bool {
    p.len() == q.len() && forall|i: int|
        0 <= i < p.len() ==> trimmed(#[trigger] p[i]) == trimmed(q[i])
}

proof fn lemma_same_clauses(p: Seq<Seq<char>>, q: Seq<Seq<char>>, n: nat)
    requires
        same_trimmed(p, q),
        n <= p.len(),
    ensures
        clauses_of(p, n) == clauses_of(q, n),
    decreases n,
{
    if n > 0 {
        lemma_same_clauses(p, q, (n - 1) as nat);
        assert(trimmed(p[n - 1]) == trimmed(q[n - 1]));
    }
}

proof fn lemma_clauses_join(p: Seq<Seq<char>>, q: Seq<Seq<char>>, n: nat)
    requires
        n <= q.len(),
        clauses_of(p, p.len()) is Some,
        clauses_of(q, n) is Some,
    ensures
        clauses_of(p + q, p.len() + n) == Some(
            clauses_of(p, p.len())->Some_0 + clauses_of(q, n)->Some_0,
        ),
    decreases n,
{
    let all = p + q;
    if n == 0 {
        lemma_clauses_prefix(p, q, p.len());
        let cs = clauses_of(p, p.len())->Some_0;
        assert(cs + Seq::<ClauseView>::empty() =~= cs);
    } else {
        lemma_clauses_join(p, q, (n - 1) as nat);
        assert(all[p.len() + n - 1] == q[n - 1]);
        let cs = clauses_of(p, p.len())->Some_0;
        let before = clauses_of(q, (n - 1) as nat)->Some_0;
        let last = clause_of(trimmed(q[n - 1]))->Some_0;
        assert((cs + before).push(last) =~= cs + before.push(last));
    }
}

proof fn lemma_clauses_prefix(p: Seq<Seq<char>>, q: Seq<Seq<char>>, n: nat)
    requires
        n <= p.len(),
    ensures
        clauses_of(p + q, n) == clauses_of(p, n),
    decreases n,
{
    if n > 0 {
        lemma_clauses_prefix(p, q, (n - 1) as nat);
        assert((p + q)[n - 1] == p[n - 1]);
    }
}

/// White space before a text changes its parts only by white space.
proof fn lemma_parts_after_blank(sp: Seq<char>, y: Seq<char>)
    requires
        is_blank(sp),
    ensures
        same_trimmed(clause_texts(sp + y), clause_texts(y)),
{
    let s = sp + y;
    let m = sp.len() as int;
    assert forall|k: int| 0 <= k < m implies is_space(#[trigger] s[k]) by {
        assert(s[k] == sp[k]);
    }
    lemma_pass_blank(s, 0, 0, m);
    let end = lemma_first_part(s, 0, m, m, false);
    lemma_parts_shift(s, m, 0, 0, false);
    assert(s.skip(m) =~= y);
    let p = clause_texts(s);
    let q = clause_texts(y);
    assert(p == and_parts(s, 0, m, false));
    assert(q == and_parts(s, m, m, false));
    let none = Seq::<char>::empty();
    assert(p[0] =~= sp + q[0] + none);
    lemma_trimmed_around(sp, q[0], none);
}

/// Two conditions joined by `&&` are the condition that is made of the clauses of both, the first
/// one's first, as long as the first one closes its quotes.
pub proof fn law_and_joins_conditions(a: Seq<char>, b: Seq<char>)
    requires
        predicate_of(a) is Some,
        predicate_of(b) is Some,
        !in_quotes(a, a.len() as int),
    ensures
        predicate_of(a + " && "@ + b) == Some(predicate_of(a)->Some_0 + predicate_of(b)->Some_0),
{
    reveal_strlit(" && ");
    let sep = " && "@;
    let y = trimmed(a);
    let z = trimmed(b);
    let (sp1, sp2) = lemma_trimmed_parts(a);
    let (sp3, sp4) = lemma_trimmed_parts(b);
    let whole = a + sep + b;
    let v = sp2 + sep + sp3 + z;
    let t = y + v;
    // What is left of the whole once it is trimmed.
    assert(whole =~= sp1 + t + sp4);
    lemma_trimmed_around(sp1, t, sp4);
    lemma_solid_start(y, v);
    lemma_solid_end(y + (sp2 + sep + sp3), z);
    assert(t =~= y + (sp2 + sep + sp3) + z);
    assert(trimmed(whole) == t);
    // The parts of the first condition, and where its last part begins.
    let n = y.len() as int;
    assert(v[0] == if sp2.len() > 0 {
        sp2[0]
    } else {
        ' '
    });
    assert(is_space(v[0]));
    lemma_parts_of_longer(y, v, 0, 0, false);
    let (start, open) = scan_end(y, 0, 0, false);
    lemma_scan_quotes(y, 0, 0, false);
    assert(a =~= sp1 + (y + sp2));
    assert forall|k: int| 0 <= k < sp1.len() implies #[trigger] sp1[k] != '"' by {
        assert(is_space(sp1[k]));
    }
    assert forall|k: int| 0 <= k < sp2.len() implies #[trigger] sp2[k] != '"' by {
        assert(is_space(sp2[k]));
    }
    lemma_quotes_after(sp1, y + sp2, (y + sp2).len() as int);
    lemma_quotes_before(y, sp2, sp2.len() as int);
    assert(!open);
    // Behind it, white space and the separator.
    let j = n + sp2.len() + 1;
    assert forall|k: int| n <= k < j implies is_space(#[trigger] t[k]) by {
        assert(t[k] == v[k - n]);
        if k < n + sp2.len() {
            assert(v[k - n] == sp2[k - n]);
        } else {
            assert(v[k - n] == ' ');
        }
    }
    lemma_pass_blank(t, start, n, j);
    assert(t[j] == '&' && t[j + 1] == '&');
    let first = t.subrange(start, j);
    assert(and_parts(t, start, j, false) == seq![first] + and_parts(t, j + 2, j + 2, false));
    // And then the second condition.
    lemma_parts_shift(t, j + 2, 0, 0, false);
    let gap = seq![' '] + sp3;
    assert(t.skip(j + 2) =~= gap + z);
    assert(is_blank(gap));
    lemma_parts_after_blank(gap, z);
    let p = clause_texts(y);
    let q = clause_texts(z);
    let p2 = p.drop_last().push(first);
    let q2 = clause_texts(gap + z);
    assert(clause_texts(t) =~= p2 + q2);
    assert(same_trimmed(p2, p)) by {
        let none = Seq::<char>::empty();
        let after = sp2 + seq![' '];
        assert(is_blank(after));
        assert(first =~= none + p.last() + after);
        lemma_trimmed_around(none, p.last(), after);
    }
    lemma_same_clauses(p2, p, p.len());
    lemma_same_clauses(q2, q, q.len());
    lemma_clauses_join(p2, q2, q2.len());
}

} // verus!
