//! How conditions are read, and when they hold.

use crate::json::JsonView;
use crate::laws_text::{holds_char, law_parts_are_set_apart, law_white_space_around_goes};
use crate::predicate::{
    ClauseView,
    LiteralView,
    Op,
    PathSegView,
    PredicateParseError,
    all_hold,
    and_parts,
    clause_holds,
    clause_of,
    clause_texts,
    clauses_of,
    digits_end,
    equals_literal,
    first_bad,
    in_quotes,
    indices,
    is_decimal,
    is_parse_error,
    is_word,
    literal_of,
    operator_of,
    path_of,
    plain_from,
    predicate_of,
    resolved,
    same_letter,
    segment_of,
    segments_of,
    sign_end,
    value_at,
    value_meets,
};
use crate::text::{
    decimal,
    decimal_signed,
    first_of,
    is_digit,
    is_space,
    lemma_decimal_digits,
    lemma_first_from,
    occurs,
    occurs_at,
    size_value,
    split,
    trimmed,
};
use vstd::prelude::*;

verus! {

proof fn lemma_path_prefix(root: JsonView, path: Seq<PathSegView>, seg: PathSegView, n: nat)
    requires
        n <= path.len(),
    ensures
        resolved(root, path.push(seg), n) == resolved(root, path, n),
    decreases n,
{
    if n > 0 {
        lemma_path_prefix(root, path, seg, (n - 1) as nat);
        assert(path.push(seg)[n - 1] == path[n - 1]);
    }
}

/// A path without steps leads to the value itself. One more step leads on: to what an object has under
/// the name of a field, or to what a list has at an index, counted from zero.
pub proof fn law_paths_lead_on(root: JsonView, path: Seq<PathSegView>, seg: PathSegView)
    ensures
        value_at(root, Seq::empty()) == Some(root),
        value_at(root, path.push(seg)) == match (value_at(root, path), seg) {
            (Some(v), PathSegView::Field(name)) => v.get(name),
            (Some(JsonView::Array(items)), PathSegView::Index(i)) => if i < items.len() {
                Some(items[i as int])
            } else {
                None
            },
            _ => None,
        },
{
    lemma_path_prefix(root, path, seg, path.len());
    assert(path.push(seg)[path.len() as int] == seg);
}

/// A truth value or a text equals a constant exactly if it is the same; values and constants of
/// different types are never equal.
pub proof fn law_equality_is_by_type(a: bool, b: bool, s: Seq<char>, t: Seq<char>, v: JsonView)
    ensures
        value_meets(Some(JsonView::Bool(a)), Op::Eq, Some(LiteralView::Bool(b))) <==> a == b,
        value_meets(Some(JsonView::String(s)), Op::Eq, Some(LiteralView::String(t))) <==> s == t,
        !(v is Bool) ==> !value_meets(Some(v), Op::Eq, Some(LiteralView::Bool(b))),
        !(v is String) ==> !value_meets(Some(v), Op::Eq, Some(LiteralView::String(t))),
        !(v is Number) ==> !value_meets(Some(v), Op::Eq, Some(LiteralView::Number(t))),
{
}

/// A list contains a constant exactly if one of its items, whichever, equals it; a text contains the
/// texts that stand in it. Nothing else contains anything.
pub proof fn law_containment(
    items: Seq<JsonView>,
    x: JsonView,
    l: LiteralView,
    s: Seq<char>,
    t: Seq<char>,
    v: JsonView,
)
    ensures
        !value_meets(Some(JsonView::Array(Seq::empty())), Op::Contains, Some(l)),
        value_meets(Some(JsonView::Array(items.push(x))), Op::Contains, Some(l)) <==> (value_meets(
            Some(JsonView::Array(items)),
            Op::Contains,
            Some(l),
        ) || value_meets(Some(x), Op::Eq, Some(l))),
        value_meets(Some(JsonView::String(s)), Op::Contains, Some(LiteralView::String(t)))
            <==> occurs(s, t),
        !(v is Array) && !(v is String) ==> !value_meets(Some(v), Op::Contains, Some(l)),
        v is String && !(l is String) ==> !value_meets(Some(v), Op::Contains, Some(l)),
{
    let more = items.push(x);
    assert(more[items.len() as int] == x);
    if value_meets(Some(JsonView::Array(items)), Op::Contains, Some(l)) {
        let i = lemma_item_with(items, l);
        assert(more[i] == items[i]);
        lemma_with_item(more, l, i);
    }
    if value_meets(Some(x), Op::Eq, Some(l)) {
        lemma_with_item(more, l, items.len() as int);
    }
    if value_meets(Some(JsonView::Array(more)), Op::Contains, Some(l)) {
        let i = lemma_item_with(more, l);
        if i < items.len() {
            assert(items[i] == more[i]);
            lemma_with_item(items, l, i);
        }
    }
}

proof fn lemma_item_with(items: Seq<JsonView>, l: LiteralView) -> (i: int)
    requires
        value_meets(Some(JsonView::Array(items)), Op::Contains, Some(l)),
    ensures
        0 <= i < items.len(),
        value_meets(Some(items[i]), Op::Eq, Some(l)),
{
    choose|i: int| 0 <= i < items.len() && equals_literal(#[trigger] items[i], l)
}

proof fn lemma_with_item(items: Seq<JsonView>, l: LiteralView, i: int)
    requires
        0 <= i < items.len(),
        value_meets(Some(items[i]), Op::Eq, Some(l)),
    ensures
        value_meets(Some(JsonView::Array(items)), Op::Contains, Some(l)),
{
    let whole = JsonView::Array(items);
    assert(equals_literal(whole->Array_0[i], l));
}

/// At least is more or equal, at most is less or equal, nothing is both less and more, and only
/// numbers are either. What is not there meets no comparison.
pub proof fn law_comparisons_agree(v: JsonView, l: LiteralView, op: Op, found: Option<JsonView>)
    ensures
        v is Number && l is Number ==> (value_meets(Some(v), Op::Ge, Some(l)) <==> (value_meets(
            Some(v),
            Op::Gt,
            Some(l),
        ) || value_meets(Some(v), Op::Eq, Some(l)))),
        v is Number && l is Number ==> (value_meets(Some(v), Op::Le, Some(l)) <==> (value_meets(
            Some(v),
            Op::Lt,
            Some(l),
        ) || value_meets(Some(v), Op::Eq, Some(l)))),
        !(value_meets(Some(v), Op::Lt, Some(l)) && value_meets(Some(v), Op::Gt, Some(l))),
        (op is Lt || op is Le || op is Gt || op is Ge) && !(v is Number && l is Number)
            ==> !value_meets(Some(v), op, Some(l)),
        !(op is NotExists) ==> !value_meets(None, op, Some(l)),
        value_meets(found, Op::Exists, None) <==> found is Some,
        value_meets(found, Op::NotExists, None) <==> found is None,
        value_meets(Some(v), Op::Ne, Some(l)) <==> !value_meets(Some(v), Op::Eq, Some(l)),
{
}

/// One more clause asks for what it says, besides what the others say.
pub proof fn law_every_clause_counts(clauses: Seq<ClauseView>, c: ClauseView, root: JsonView)
    ensures
        all_hold(Seq::empty(), root),
        all_hold(clauses.push(c), root) <==> (all_hold(clauses, root) && value_meets(
            value_at(root, c.path),
            c.op,
            c.literal,
        )),
{
    let more = clauses.push(c);
    assert(more[clauses.len() as int] == c);
    if all_hold(more, root) {
        assert forall|i: int| 0 <= i < clauses.len() implies clause_holds(
            #[trigger] clauses[i],
            root,
        ) by {
            assert(more[i] == clauses[i]);
        }
        assert(clause_holds(more[clauses.len() as int], root));
    }
}

/// Whether a character is used to write operators.
pub open spec fn is_sign(c: char) -> bool {
    c == '=' || c == '!' || c == '<' || c == '>'
}

/// Whether a text can stand as a path: it has no quotes, signs or white space in it.
pub open spec fn is_bare(p: Seq<char>) -> bool {
    p.len() > 0 && forall|i: int|
        0 <= i < p.len() ==> #[trigger] p[i] != '"' && !is_sign(p[i]) && !is_space(p[i])
}

/// Whether a text can stand as a constant: a text in quotes, or something bare that does not look
/// like the end of `exists`.
pub open spec fn is_constant(l: Seq<char>) -> bool {
    ||| is_bare(l) && l.last() != 's'
    ||| l.len() >= 2 && l[0] == '"' && l.last() == '"' && forall|i: int|
        0 < i < l.len() - 1 ==> #[trigger] l[i] != '"'
}

proof fn lemma_outside(s: Seq<char>, i: int)
    requires
        0 <= i <= s.len(),
        forall|j: int| 0 <= j < i ==> #[trigger] s[j] != '"',
    ensures
        !in_quotes(s, i),
    decreases i,
{
    if i > 0 {
        lemma_outside(s, i - 1);
    }
}

proof fn lemma_inside(s: Seq<char>, q: int, i: int)
    requires
        0 <= q < i <= s.len(),
        s[q] == '"',
        forall|j: int| 0 <= j < i && j != q ==> #[trigger] s[j] != '"',
    ensures
        in_quotes(s, i),
    decreases i,
{
    if i == q + 1 {
        lemma_outside(s, q);
    } else {
        lemma_inside(s, q, i - 1);
    }
}

proof fn lemma_plain_from(s: Seq<char>, pat: Seq<char>, from: int)
    requires
        0 <= from,
    ensures
        match plain_from(s, pat, from) {
            Some(i) => from <= i && occurs_at(s, pat, i) && !in_quotes(s, i) && forall|j: int|
                from <= j < i ==> !(#[trigger] occurs_at(s, pat, j) && !in_quotes(s, j)),
            None => forall|j: int|
                from <= j ==> !(#[trigger] occurs_at(s, pat, j) && !in_quotes(s, j)),
        },
    decreases s.len() - from + 1,
{
    if from + pat.len() > s.len() {
    } else if occurs_at(s, pat, from) && !in_quotes(s, from) {
    } else {
        lemma_plain_from(s, pat, from + 1);
    }
}

/// The text of a comparison.
pub open spec fn comparison(p: Seq<char>, sign: Seq<char>, l: Seq<char>) -> Seq<char> {
    p + " "@ + sign + " "@ + l
}

/// Whether a text has no quotes, signs or spaces in it.
spec fn is_smooth(p: Seq<char>) -> bool {
    forall|i: int| 0 <= i < p.len() ==> #[trigger] p[i] != '"' && !is_sign(p[i]) && p[i] != ' '
}

proof fn lemma_bare(p: Seq<char>)
    requires
        is_bare(p),
    ensures
        is_smooth(p),
        !is_space(p[0]),
        !is_space(p.last()),
{
    assert(is_space(' '));
}

/// What stands where in a comparison.
proof fn lemma_layout(p: Seq<char>, sign: Seq<char>, l: Seq<char>)
    ensures
        ({
            let t = comparison(p, sign, l);
            &&& t.len() == p.len() + sign.len() + l.len() + 2
            &&& forall|i: int| 0 <= i < p.len() ==> #[trigger] t[i] == p[i]
            &&& t[p.len() as int] == ' '
            &&& forall|i: int|
                p.len() < i < p.len() + 1 + sign.len() ==> #[trigger] t[i] == sign[i - p.len() - 1]
            &&& t[(p.len() + 1 + sign.len()) as int] == ' '
            &&& forall|i: int|
                p.len() + sign.len() + 2 <= i < t.len() ==> #[trigger] t[i] == l[i - p.len()
                    - sign.len() - 2]
        }),
{
    reveal_strlit(" ");
}

/// Outside quotes, signs and spaces of a comparison stand where its operator does.
proof fn lemma_signs(p: Seq<char>, sign: Seq<char>, l: Seq<char>, j: int)
    requires
        is_bare(p),
        is_constant(l),
        forall|i: int| 0 <= i < sign.len() ==> #[trigger] sign[i] != '"',
        0 <= j < comparison(p, sign, l).len(),
        !in_quotes(comparison(p, sign, l), j),
        is_sign(comparison(p, sign, l)[j]) || comparison(p, sign, l)[j] == ' ',
    ensures
        p.len() <= j <= p.len() + 1 + sign.len(),
{
    let t = comparison(p, sign, l);
    let k = (p.len() + sign.len() + 2) as int;
    lemma_layout(p, sign, l);
    lemma_bare(p);
    if j < p.len() {
        assert(t[j] == p[j]);
    }
    if j >= k {
        assert(t[j] == l[j - k]);
        if is_bare(l) {
            lemma_bare(l);
        } else {
            assert(t[k] == l[0]);
            if j > k {
                assert forall|i: int| 0 <= i < j && i != k implies #[trigger] t[i] != '"' by {
                    if i > k {
                        assert(t[i] == l[i - k]);
                    }
                }
                lemma_inside(t, k, j);
            }
        }
    }
}

proof fn lemma_before(p: Seq<char>, sign: Seq<char>, l: Seq<char>, j: int)
    requires
        is_bare(p),
        forall|i: int| 0 <= i < sign.len() ==> #[trigger] sign[i] != '"',
        0 <= j <= p.len() + sign.len() + 2,
    ensures
        !in_quotes(comparison(p, sign, l), j),
{
    let t = comparison(p, sign, l);
    lemma_layout(p, sign, l);
    lemma_bare(p);
    lemma_outside(t, j);
}

/// A text with white space around it, but none in itself, is what is left without it.
proof fn lemma_trimmed(s: Seq<char>, a: int, b: int)
    requires
        0 <= a < b <= s.len(),
        !is_space(s[a]),
        !is_space(s[b - 1]),
        forall|i: int| 0 <= i < a ==> is_space(#[trigger] s[i]),
        forall|i: int| b <= i < s.len() ==> is_space(#[trigger] s[i]),
    ensures
        trimmed(s) == s.subrange(a, b),
{
    let (x, y) = law_white_space_around_goes(s);
    if x > a {
        assert(is_space(s[a]));
    }
    if y < b {
        assert(is_space(s[b - 1]));
    }
    if x < a {
        assert(trimmed(s)[0] == s[x]);
    }
    if y > b {
        assert(trimmed(s).last() == s[y - 1]);
    }
}

/// The operator that a sign stands for, outside quotes.
pub open spec fn sign_of(op: Op) -> Seq<char> {
    match op {
        Op::Eq => "=="@,
        Op::Ne => "!="@,
        Op::Gt => ">"@,
        Op::Ge => ">="@,
        Op::Lt => "<"@,
        Op::Le => "<="@,
        _ => "contains"@,
    }
}

proof fn lemma_no_sign(p: Seq<char>, sign: Seq<char>, l: Seq<char>, pat: Seq<char>)
    requires
        is_bare(p),
        is_constant(l),
        forall|i: int| 0 <= i < sign.len() ==> #[trigger] sign[i] != '"',
        pat.len() > 0,
        is_sign(pat[0]),
        forall|j: int|
            p.len() <= j <= p.len() + 1 + sign.len() ==> !#[trigger] occurs_at(
                comparison(p, sign, l),
                pat,
                j,
            ),
    ensures
        plain_from(comparison(p, sign, l), pat, 0) is None,
{
    let t = comparison(p, sign, l);
    lemma_plain_from(t, pat, 0);
    if let Some(j) = plain_from(t, pat, 0) {
        assert(t.subrange(j, j + pat.len())[0] == pat[0]);
        assert(t[j] == pat[0]);
        lemma_signs(p, sign, l, j);
    }
}

proof fn lemma_first_sign(p: Seq<char>, sign: Seq<char>, l: Seq<char>)
    requires
        is_bare(p),
        is_constant(l),
        forall|i: int| 0 <= i < sign.len() ==> #[trigger] sign[i] != '"',
        sign.len() > 0,
        is_sign(sign[0]),
    ensures
        plain_from(comparison(p, sign, l), sign, 0) == Some(p.len() as int + 1),
{
    let t = comparison(p, sign, l);
    let at = p.len() as int + 1;
    lemma_layout(p, sign, l);
    assert(t.subrange(at, at + sign.len()) =~= sign);
    assert(occurs_at(t, sign, at));
    lemma_before(p, sign, l, at);
    lemma_plain_from(t, sign, 0);
    let j = plain_from(t, sign, 0)->Some_0;
    if j < at {
        assert(t.subrange(j, j + sign.len())[0] == sign[0]);
        assert(t[j] == sign[0]);
        lemma_signs(p, sign, l, j);
        assert(t[p.len() as int] == ' ');
    }
}

proof fn lemma_apart(p: Seq<char>, sign: Seq<char>, l: Seq<char>, pat: Seq<char>)
    requires
        pat.len() > 0,
        is_sign(pat[0]),
        forall|k: int|
            0 <= k < sign.len() && #[trigger] sign[k] == pat[0] ==> pat.len() > 1 && (if k + 1
                < sign.len() {
                sign[k + 1] != pat[1]
            } else {
                pat[1] != ' '
            }),
    ensures
        forall|j: int|
            p.len() <= j <= p.len() + 1 + sign.len() ==> !#[trigger] occurs_at(
                comparison(p, sign, l),
                pat,
                j,
            ),
{
    reveal_strlit(" ");
    let t = comparison(p, sign, l);
    assert forall|j: int| p.len() <= j <= p.len() + 1 + sign.len() implies !#[trigger] occurs_at(
        t,
        pat,
        j,
    ) by {
        if occurs_at(t, pat, j) {
            assert(t.subrange(j, j + pat.len())[0] == pat[0]);
            assert(t[j] == pat[0]);
            if p.len() < j < p.len() + 1 + sign.len() {
                let k = j - p.len() - 1;
                assert(t[j] == sign[k]);
                assert(t.subrange(j, j + pat.len())[1] == pat[1]);
                assert(t[j + 1] == pat[1]);
                if k + 1 < sign.len() {
                    assert(t[j + 1] == sign[k + 1]);
                } else {
                    assert(t[j + 1] == ' ');
                }
            } else {
                assert(t[j] == ' ');
            }
        }
    }
}

proof fn lemma_operator(p: Seq<char>, op: Op, l: Seq<char>)
    requires
        is_bare(p),
        is_constant(l),
        !(op is Exists) && !(op is NotExists),
    ensures
        operator_of(comparison(p, sign_of(op), l)) == if op is Contains {
            Some((op, p.len() as int, 10int))
        } else {
            Some((op, p.len() as int + 1, sign_of(op).len() as int))
        },
{
    reveal_strlit("==");
    reveal_strlit("!=");
    reveal_strlit(">=");
    reveal_strlit("<=");
    reveal_strlit(">");
    reveal_strlit("<");
    reveal_strlit("contains");
    reveal_strlit(" contains ");
    reveal_strlit(" ");
    let sign = sign_of(op);
    match op {
        Op::Eq => {
            lemma_first_sign(p, sign, l);
        },
        Op::Ne => {
            lemma_apart(p, sign, l, "=="@);
            lemma_no_sign(p, sign, l, "=="@);
            lemma_first_sign(p, sign, l);
        },
        Op::Ge => {
            lemma_apart(p, sign, l, "=="@);
            lemma_no_sign(p, sign, l, "=="@);
            lemma_apart(p, sign, l, "!="@);
            lemma_no_sign(p, sign, l, "!="@);
            lemma_first_sign(p, sign, l);
        },
        Op::Le => {
            lemma_apart(p, sign, l, "=="@);
            lemma_no_sign(p, sign, l, "=="@);
            lemma_apart(p, sign, l, "!="@);
            lemma_no_sign(p, sign, l, "!="@);
            lemma_apart(p, sign, l, ">="@);
            lemma_no_sign(p, sign, l, ">="@);
            lemma_first_sign(p, sign, l);
        },
        _ => {
            lemma_apart(p, sign, l, "=="@);
            lemma_no_sign(p, sign, l, "=="@);
            lemma_apart(p, sign, l, "!="@);
            lemma_no_sign(p, sign, l, "!="@);
            lemma_apart(p, sign, l, ">="@);
            lemma_no_sign(p, sign, l, ">="@);
            lemma_apart(p, sign, l, "<="@);
            lemma_no_sign(p, sign, l, "<="@);
            if op is Gt {
                lemma_first_sign(p, sign, l);
            } else {
                lemma_apart(p, sign, l, ">"@);
                lemma_no_sign(p, sign, l, ">"@);
                if op is Lt {
                    lemma_first_sign(p, sign, l);
                } else {
                    lemma_apart(p, sign, l, "<"@);
                    lemma_no_sign(p, sign, l, "<"@);
                    lemma_contains(p, l);
                }
            }
        },
    }
}

proof fn lemma_contains(p: Seq<char>, l: Seq<char>)
    requires
        is_bare(p),
        is_constant(l),
    ensures
        plain_from(comparison(p, "contains"@, l), " contains "@, 0) == Some(p.len() as int),
{
    reveal_strlit("contains");
    reveal_strlit(" contains ");
    reveal_strlit(" ");
    let sign = "contains"@;
    let t = comparison(p, sign, l);
    let pat = " contains "@;
    let at = p.len() as int;
    assert(t.subrange(at, at + 10) =~= pat);
    assert(occurs_at(t, pat, at));
    lemma_before(p, sign, l, at);
    lemma_plain_from(t, pat, 0);
    let j = plain_from(t, pat, 0)->Some_0;
    if j < at {
        assert(t.subrange(j, j + 10)[0] == pat[0]);
        assert(t[j] == ' ');
        lemma_signs(p, sign, l, j);
    }
}

/// A path, an operator and a constant, with a space on both sides of the operator, are the clause that
/// they look like, for each of the operators.
pub proof fn law_comparisons_are_read(p: Seq<char>, op: Op, l: Seq<char>)
    requires
        is_bare(p),
        is_constant(l),
        !(op is Exists) && !(op is NotExists),
    ensures
        clause_of(
            p + " "@ + (match op {
                Op::Eq => "=="@,
                Op::Ne => "!="@,
                Op::Gt => ">"@,
                Op::Ge => ">="@,
                Op::Lt => "<"@,
                Op::Le => "<="@,
                _ => "contains"@,
            }) + " "@ + l,
        ) == match (path_of(p), literal_of(l)) {
            (Some(path), Some(literal)) => Some(ClauseView { path, op, literal: Some(literal) }),
            _ => None,
        },
{
    reveal_strlit(" ");
    reveal_strlit("contains");
    reveal_strlit("exists");
    reveal_strlit("not exists");
    let sign = sign_of(op);
    let t = comparison(p, sign, l);
    lemma_operator(p, op, l);
    lemma_sign_lengths();
    assert(t.last() == l.last());
    assert(t.last() != 's');
    if "exists"@.is_suffix_of(t) {
        assert("exists"@[5] == t[t.len() - 1]);
    }
    if "not exists"@.is_suffix_of(t) {
        assert("not exists"@[9] == t[t.len() - 1]);
    }
    let (o, i, n) = operator_of(t)->Some_0;
    assert(p.subrange(0, p.len() as int) =~= p);
    assert(l.subrange(0, l.len() as int) =~= l);
    assert(!is_space(l[0]) && !is_space(l.last()));
    assert(!is_space(p[0]) && !is_space(p.last()));
    if op is Contains {
        assert(t.take(i) =~= p);
        assert(t.skip(i + n) =~= l);
        lemma_trimmed(p, 0, p.len() as int);
        lemma_trimmed(l, 0, l.len() as int);
    } else {
        let left = t.take(i);
        let right = t.skip(i + n);
        assert(left =~= p + " "@);
        assert(right =~= " "@ + l);
        lemma_trimmed(left, 0, p.len() as int);
        lemma_trimmed(right, 1, right.len() as int);
        assert(left.subrange(0, p.len() as int) =~= p);
        assert(right.subrange(1, right.len() as int) =~= l);
    }
}

proof fn lemma_sign_lengths()
    ensures
        "=="@.len() == 2 && "!="@.len() == 2 && ">="@.len() == 2 && "<="@.len() == 2,
        ">"@.len() == 1 && "<"@.len() == 1,
{
    reveal_strlit("==");
    reveal_strlit("!=");
    reveal_strlit(">=");
    reveal_strlit("<=");
    reveal_strlit(">");
    reveal_strlit("<");
}

/// A path followed by `exists`, or by `not exists`, asks whether something is there.
pub proof fn law_existence_is_read(p: Seq<char>)
    requires
        is_bare(p),
        !"not"@.is_suffix_of(p),
    ensures
        clause_of(p + " exists"@) == match path_of(p) {
            Some(path) => Some(ClauseView { path, op: Op::Exists, literal: None }),
            None => None,
        },
        clause_of(p + " not exists"@) == match path_of(p) {
            Some(path) => Some(ClauseView { path, op: Op::NotExists, literal: None }),
            None => None,
        },
{
    reveal_strlit(" exists");
    reveal_strlit(" not exists");
    reveal_strlit("exists");
    reveal_strlit("not exists");
    reveal_strlit("not");
    let a = p + " exists"@;
    let b = p + " not exists"@;
    if "not exists"@.is_suffix_of(a) {
        assert(a.subrange(a.len() - 10, a.len() as int) =~= "not exists"@);
        assert forall|i: int| 0 <= i < 3 implies p[p.len() - 3 + i] == "not"@[i] by {
            assert(a.subrange(a.len() - 10, a.len() as int)[i] == "not exists"@[i]);
            assert(a[a.len() - 10 + i] == p[p.len() - 3 + i]);
        }
        assert(p.subrange(p.len() - 3, p.len() as int) =~= "not"@);
    }
    assert("exists"@ =~= a.subrange(a.len() - 6, a.len() as int));
    assert("not exists"@ =~= b.subrange(b.len() - 10, b.len() as int));
    let left = a.take(a.len() - 6);
    let other = b.take(b.len() - 10);
    assert(left =~= p.push(' '));
    assert(other =~= p.push(' '));
    lemma_trimmed(p.push(' '), 0, p.len() as int);
    assert(p.push(' ').subrange(0, p.len() as int) =~= p);
}

/// `true` and `false` are truth values, a text in quotes is the text, and a whole number in decimal
/// notation is a number.
pub proof fn law_constants_are_read(s: Seq<char>, n: int)
    ensures
        literal_of("true"@) == Some(LiteralView::Bool(true)),
        literal_of("false"@) == Some(LiteralView::Bool(false)),
        literal_of("\""@ + s + "\""@) == Some(LiteralView::String(s)),
        literal_of(decimal_signed(n)) == Some(LiteralView::Number(decimal_signed(n))),
{
    reveal_strlit("true");
    reveal_strlit("false");
    reveal_strlit("\"");
    assert("true"@[0] == 't' && "false"@[0] == 'f');
    let quoted = "\""@ + s + "\""@;
    assert(quoted[0] == '"');
    assert(quoted.subrange(0, 1) =~= "\""@);
    let rest = quoted.skip(1);
    assert(rest =~= s + "\""@);
    assert(rest.subrange(rest.len() - 1, rest.len() as int) =~= "\""@);
    assert(rest.take(rest.len() - 1) =~= s);
    let t = decimal_signed(n);
    let d = if n < 0 {
        decimal((-n) as nat)
    } else {
        decimal(n as nat)
    };
    lemma_decimal_digits(if n < 0 {
        (-n) as nat
    } else {
        n as nat
    });
    let start = if n < 0 {
        1int
    } else {
        0int
    };
    assert(is_digit(d[0]));
    assert(n < 0 ==> t[0] == '-');
    assert(n >= 0 ==> t[0] == d[0]);
    assert(t[0] != 't' && t[0] != 'f' && t[0] != '"');
    if "\""@.is_prefix_of(t) {
        assert(t.subrange(0, 1)[0] == "\""@[0]);
    }
    assert forall|i: int| start <= i < t.len() implies is_digit(#[trigger] t[i]) by {
        assert(t[i] == d[i - start]);
    }
    lemma_digits_end(t, start);
    assert(sign_end(t, 0) == start);
    assert(is_decimal(t, start));
}

proof fn lemma_digits_end(s: Seq<char>, i: int)
    requires
        0 <= i <= s.len(),
        forall|j: int| i <= j < s.len() ==> is_digit(#[trigger] s[j]),
    ensures
        digits_end(s, i) == s.len(),
    decreases s.len() - i,
{
    if i < s.len() {
        lemma_digits_end(s, i + 1);
    }
}

/// A name without dots and brackets is a field. One in front of a dot is a field in front of the
/// others, and one in front of an index in brackets is a field and the index.
pub proof fn law_paths_are_read(name: Seq<char>, rest: Seq<char>, i: usize)
    requires
        name.len() > 0,
        !holds_char(name, '.'),
        !holds_char(name, '['),
        !holds_char(name, ']'),
        rest.len() > 0,
    ensures
        path_of(name) == Some(seq![PathSegView::Field(name)]),
        path_of(name + "."@ + rest) == match path_of(rest) {
            Some(path) => Some(seq![PathSegView::Field(name)] + path),
            None => None,
        },
        path_of(name + "["@ + decimal(i as nat) + "]"@) == Some(
            seq![PathSegView::Field(name), PathSegView::Index(i)],
        ),
{
    reveal_strlit(".");
    reveal_strlit("[");
    reveal_strlit("]");
    reveal_with_fuel(segments_of, 2);
    lemma_field(name);
    law_parts_are_set_apart(name, rest, '.');
    assert(Seq::<PathSegView>::empty() + seq![PathSegView::Field(name)] =~= seq![
        PathSegView::Field(name),
    ]);
    assert(name + "."@ + rest =~= name.push('.') + rest);
    let parts = split(rest, '.');
    let all = seq![name] + parts;
    lemma_segments_shift(name, parts, parts.len());
    assert(all.len() == parts.len() + 1);
    lemma_indexed(name, i);
    let whole = name + "["@ + decimal(i as nat) + "]"@;
    lemma_decimal_digits(i as nat);
    assert forall|k: int| 0 <= k < whole.len() implies #[trigger] whole[k] != '.' by {
        if k < name.len() {
            assert(whole[k] == name[k]);
        } else if name.len() < k < whole.len() - 1 {
            assert(whole[k] == decimal(i as nat)[k - name.len() - 1]);
        }
    }
    law_parts_are_set_apart(whole, rest, '.');
    let both = seq![PathSegView::Field(name), PathSegView::Index(i)];
    assert(Seq::<PathSegView>::empty() + both =~= both);
}

proof fn lemma_field(name: Seq<char>)
    requires
        name.len() > 0,
        !holds_char(name, ']'),
    ensures
        segment_of(name) == Some(seq![PathSegView::Field(name)]),
{
    reveal_strlit("]");
    if "]"@.is_suffix_of(name) {
        assert(name.subrange(name.len() - 1, name.len() as int)[0] == ']');
        assert(name[name.len() - 1] == ']');
    }
}

proof fn lemma_segments_shift(name: Seq<char>, parts: Seq<Seq<char>>, n: nat)
    requires
        n <= parts.len(),
        segment_of(name) == Some(seq![PathSegView::Field(name)]),
    ensures
        segments_of(seq![name] + parts, n + 1) == match segments_of(parts, n) {
            Some(path) => Some(seq![PathSegView::Field(name)] + path),
            None => None,
        },
    decreases n,
{
    let all = seq![name] + parts;
    let first = seq![PathSegView::Field(name)];
    if n == 0 {
        reveal_with_fuel(segments_of, 2);
        assert(all[0] == name);
        assert(Seq::<PathSegView>::empty() + first =~= first);
        assert(first + Seq::<PathSegView>::empty() =~= first);
    } else {
        lemma_segments_shift(name, parts, (n - 1) as nat);
        assert(all[n as int] == parts[n - 1]);
        if segments_of(parts, (n - 1) as nat) is Some && segment_of(parts[n - 1]) is Some {
            let before = segments_of(parts, (n - 1) as nat)->Some_0;
            let last = segment_of(parts[n - 1])->Some_0;
            assert((first + before) + last =~= first + (before + last));
        }
    }
}

proof fn lemma_indexed(name: Seq<char>, i: usize)
    requires
        name.len() > 0,
        !holds_char(name, '['),
    ensures
        segment_of(name + "["@ + decimal(i as nat) + "]"@) == Some(
            seq![PathSegView::Field(name), PathSegView::Index(i)],
        ),
{
    reveal_strlit("[");
    reveal_strlit("]");
    reveal_strlit("][");
    let d = decimal(i as nat);
    lemma_decimal_digits(i as nat);
    let raw = name + "["@ + d + "]"@;
    assert(raw.subrange(raw.len() - 1, raw.len() as int) =~= "]"@);
    let inner = raw.take(raw.len() - 1);
    assert(inner =~= name + "["@ + d);
    lemma_first_from(inner, "["@, 0);
    assert(inner.subrange(name.len() as int, name.len() + 1int) =~= "["@);
    assert(occurs_at(inner, "["@, name.len() as int));
    assert forall|j: int| 0 <= j < name.len() implies !#[trigger] occurs_at(inner, "["@, j) by {
        if occurs_at(inner, "["@, j) {
            assert(inner.subrange(j, j + 1)[0] == '[');
            assert(inner[j] == name[j]);
        }
    }
    assert(first_of(inner, "["@) == Some(name.len() as int));
    assert(inner.skip(name.len() + 1int) =~= d);
    assert(inner.take(name.len() as int) =~= name);
    lemma_first_from(d, "]["@, 0);
    if let Some(k) = first_of(d, "]["@) {
        assert(d.subrange(k, k + 2)[0] == ']');
        assert(is_digit(d[k]));
    }
    assert(is_digit(d[0]));
    assert(size_value(d) == Some(i));
    assert(indices(d) == Some(seq![PathSegView::Index(i)]));
    assert(seq![PathSegView::Field(name)] + seq![PathSegView::Index(i)] =~= seq![
        PathSegView::Field(name),
        PathSegView::Index(i),
    ]);
}

proof fn lemma_and_shift(s: Seq<char>, b: Seq<char>, last: int, i: int, q: bool)
    requires
        s.len() >= b.len(),
        s.skip(s.len() - b.len()) == b,
        0 <= last <= i,
        last <= b.len(),
    ensures
        and_parts(s, s.len() - b.len() + last, s.len() - b.len() + i, q) == and_parts(
            b,
            last,
            i,
            q,
        ),
    decreases b.len() - i,
{
    let d = s.len() - b.len();
    assert forall|k: int| 0 <= k < b.len() implies s[d + k] == b[k] by {
        assert(s.skip(d)[k] == b[k]);
    }
    if i >= b.len() {
        assert(s.subrange(d + last, s.len() as int) =~= b.subrange(last, b.len() as int));
    } else {
        if b[i] == '"' {
            lemma_and_shift(s, b, last, i + 1, !q);
        } else if b[i] == '&' && !q && i + 1 < b.len() && b[i + 1] == '&' {
            assert(s[d + i + 1] == b[i + 1]);
            assert(s.subrange(d + last, d + i) =~= b.subrange(last, i));
            lemma_and_shift(s, b, i + 2, i + 2, q);
        } else {
            lemma_and_shift(s, b, last, i + 1, q);
        }
    }
}

/// Whether a text is one clause, as far as `&` goes: it has none but between two quotes, which come
/// behind everything else.
pub open spec fn is_undivided(a: Seq<char>, x: Seq<char>, y: Seq<char>) -> bool {
    &&& !holds_char(x, '"')
    &&& !holds_char(x, '&')
    &&& !holds_char(y, '"')
    &&& a == x || a == x + "\""@ + y + "\""@
}

proof fn lemma_undivided(a: Seq<char>, x: Seq<char>, y: Seq<char>)
    requires
        is_undivided(a, x, y),
    ensures
        !in_quotes(a, a.len() as int),
        forall|i: int| 0 <= i < a.len() && #[trigger] a[i] == '&' ==> in_quotes(a, i),
{
    reveal_strlit("\"");
    if a == x {
        lemma_outside(a, a.len() as int);
    } else {
        let k = x.len() as int;
        assert(a[k] == '"');
        assert(forall|i: int| 0 <= i < k ==> a[i] == x[i]);
        assert(forall|i: int| k < i < a.len() - 1 ==> a[i] == y[i - k - 1]);
        assert(a[a.len() - 1] == '"');
        assert forall|i: int| 0 <= i < a.len() && #[trigger] a[i] == '&' implies in_quotes(
            a,
            i,
        ) by {
            if i < k {
                assert(x[i] == '&');
            }
            lemma_inside(a, k, i);
        }
        lemma_inside(a, k, a.len() - 1);
    }
}

proof fn lemma_and_first(a: Seq<char>, b: Seq<char>, i: int)
    requires
        0 <= i <= a.len(),
        !in_quotes(a, a.len() as int),
        forall|j: int| 0 <= j < a.len() && #[trigger] a[j] == '&' ==> in_quotes(a, j),
    ensures
        and_parts(a + "&&"@ + b, 0, i, in_quotes(a, i)) == seq![a] + and_parts(b, 0, 0, false),
        and_parts(a, 0, i, in_quotes(a, i)) == seq![a],
    decreases a.len() - i,
{
    reveal_strlit("&&");
    let t = a + "&&"@ + b;
    if i == a.len() {
        assert(t[i] == '&');
        assert(t[i + 1] == '&');
        assert(t.subrange(0, i) =~= a);
        assert(a.subrange(0, i) =~= a);
        assert(t.skip(i + 2) =~= b);
        lemma_and_shift(t, b, 0, 0, false);
    } else {
        assert(t[i] == a[i]);
        lemma_and_first(a, b, i + 1);
    }
}

proof fn lemma_clauses_shift(a: Seq<char>, parts: Seq<Seq<char>>, n: nat)
    requires
        n <= parts.len(),
    ensures
        clauses_of(seq![a] + parts, n + 1) == match (clause_of(trimmed(a)), clauses_of(parts, n)) {
            (Some(c), Some(list)) => Some(seq![c] + list),
            _ => None,
        },
    decreases n,
{
    let all = seq![a] + parts;
    if n == 0 {
        reveal_with_fuel(clauses_of, 2);
        assert(all[0] == a);
        if let Some(c) = clause_of(trimmed(a)) {
            assert(Seq::<ClauseView>::empty().push(c) =~= seq![c] + Seq::<ClauseView>::empty());
        }
    } else {
        lemma_clauses_shift(a, parts, (n - 1) as nat);
        assert(all[n as int] == parts[n - 1]);
        if clause_of(trimmed(a)) is Some && clauses_of(parts, (n - 1) as nat) is Some && clause_of(
            trimmed(parts[n - 1]),
        ) is Some {
            let c = clause_of(trimmed(a))->Some_0;
            let before = clauses_of(parts, (n - 1) as nat)->Some_0;
            let last = clause_of(trimmed(parts[n - 1]))->Some_0;
            assert((seq![c] + before).push(last) =~= seq![c] + before.push(last));
        }
    }
}

/// A text that is one clause is a condition with this clause. In front of `&&` and another condition
/// it is one more clause, in front of the others; whatever stands between quotes divides nothing.
pub proof fn law_conjunctions_are_read(a: Seq<char>, x: Seq<char>, y: Seq<char>, b: Seq<char>)
    requires
        is_undivided(a, x, y),
        a.len() > 0,
        !is_space(a[0]),
        !is_space(a.last()),
        b.len() > 0,
        !is_space(b[0]),
        !is_space(b.last()),
    ensures
        predicate_of(a) == match clause_of(a) {
            Some(c) => Some(seq![c]),
            None => None,
        },
        predicate_of(a + "&&"@ + b) == match (clause_of(a), predicate_of(b)) {
            (Some(c), Some(list)) => Some(seq![c] + list),
            _ => None,
        },
{
    reveal_strlit("&&");
    let t = a + "&&"@ + b;
    lemma_undivided(a, x, y);
    lemma_and_first(a, b, 0);
    lemma_trimmed(a, 0, a.len() as int);
    lemma_trimmed(b, 0, b.len() as int);
    assert(t[0] == a[0]);
    assert(t.last() == b.last());
    lemma_trimmed(t, 0, t.len() as int);
    assert(a.subrange(0, a.len() as int) =~= a);
    assert(b.subrange(0, b.len() as int) =~= b);
    assert(t.subrange(0, t.len() as int) =~= t);
    let parts = clause_texts(b);
    lemma_clauses_shift(a, parts, parts.len());
    let none = Seq::<Seq<char>>::empty();
    lemma_clauses_shift(a, none, 0);
    assert(seq![a] + none =~= seq![a]);
    if let Some(c) = clause_of(a) {
        assert(seq![c] + Seq::<ClauseView>::empty() =~= seq![c]);
    }
}

/// A text of white space alone is no condition, and white space around a condition does not matter.
pub proof fn law_space_around_conditions_does_not_matter(s: Seq<char>, t: Seq<char>)
    requires
        trimmed(s) == trimmed(t),
    ensures
        predicate_of(s) == predicate_of(t),
        (forall|i: int| 0 <= i < s.len() ==> is_space(#[trigger] s[i])) ==> predicate_of(s) is None,
{
    let (a, b) = law_white_space_around_goes(s);
    if trimmed(s).len() > 0 {
        assert(trimmed(s)[0] == s[a]);
    }
}

proof fn lemma_bad_part(parts: Seq<Seq<char>>, k: int, n: nat)
    requires
        0 <= k < n <= parts.len(),
        clause_of(trimmed(parts[k])) is None,
    ensures
        clauses_of(parts, n) is None,
    decreases n,
{
    if k < n - 1 {
        lemma_bad_part(parts, k, (n - 1) as nat);
    }
}

/// What is said of a text that is no condition is true of it: that it is empty where it is nothing but
/// white space, and else which part of it is no clause. Nothing is said of a condition.
pub proof fn law_errors_of_conditions_are_true(source: Seq<char>, e: PredicateParseError)
    requires
        is_parse_error(source, e),
    ensures
        predicate_of(source) is None,
        match e {
            PredicateParseError::Empty => forall|i: int|
                0 <= i < source.len() ==> is_space(#[trigger] source[i]),
            PredicateParseError::BadClause(text) => clause_of(text@) is None && trimmed(
                source,
            ).len() > 0,
            _ => false,
        },
{
    let (a, b) = law_white_space_around_goes(source);
    if let PredicateParseError::BadClause(text) = e {
        let parts = clause_texts(trimmed(source));
        let k = choose|k: int| #[trigger] first_bad(parts, k) && text@ == trimmed(parts[k]);
        lemma_bad_part(parts, k, parts.len());
    }
}

proof fn lemma_digits_stop(s: Seq<char>, i: int, end: int)
    requires
        0 <= i <= end < s.len(),
        forall|j: int| i <= j < end ==> is_digit(#[trigger] s[j]),
        !is_digit(s[end]),
    ensures
        digits_end(s, i) == end,
    decreases end - i,
{
    if i < end {
        lemma_digits_stop(s, i + 1, end);
    }
}

/// A number may have a point in it.
pub proof fn law_fractions_are_read(a: nat, b: nat)
    ensures
        literal_of(decimal(a) + "."@ + decimal(b)) == Some(
            LiteralView::Number(decimal(a) + "."@ + decimal(b)),
        ),
{
    reveal_strlit("true");
    reveal_strlit("false");
    reveal_strlit("\"");
    reveal_strlit(".");
    assert("true"@[0] == 't' && "false"@[0] == 'f');
    let x = decimal(a);
    let y = decimal(b);
    let s = x + "."@ + y;
    lemma_decimal_digits(a);
    lemma_decimal_digits(b);
    assert(s[0] == x[0]);
    assert(is_digit(x[0]));
    if "\""@.is_prefix_of(s) {
        assert(s.subrange(0, 1)[0] == "\""@[0]);
    }
    let point = x.len() as int;
    assert(s[point] == '.');
    assert forall|j: int| 0 <= j < point implies is_digit(#[trigger] s[j]) by {
        assert(s[j] == x[j]);
    }
    assert forall|j: int| point + 1 <= j < s.len() implies is_digit(#[trigger] s[j]) by {
        assert(s[j] == y[j - point - 1]);
    }
    lemma_digits_stop(s, 0, point);
    lemma_digits_end(s, point + 1);
    assert(is_decimal(s, 0));
}

/// Whether a character can begin a word that is a constant.
pub open spec fn begins_constant(c: char) -> bool {
    c == 't' || c == 'f' || c == 'i' || c == 'I' || c == 'n' || c == 'N'
}

/// A word that is no constant is none: a constant begins with a quote, a digit, a sign or a point, or
/// is one of a few words.
pub proof fn law_other_words_are_no_constants(s: Seq<char>)
    requires
        s.len() > 0,
        !is_digit(s[0]),
        s[0] != '"' && s[0] != '+' && s[0] != '-' && s[0] != '.',
        !begins_constant(s[0]),
    ensures
        literal_of(s) is None,
{
    reveal_strlit("true");
    reveal_strlit("false");
    reveal_strlit("\"");
    reveal_strlit("inf");
    reveal_strlit("infinity");
    reveal_strlit("nan");
    assert("true"@[0] == 't' && "false"@[0] == 'f');
    if "\""@.is_prefix_of(s) {
        assert(s.subrange(0, 1)[0] == "\""@[0]);
    }
    assert(s.skip(0) =~= s);
    assert("inf"@[0] == 'i' && "infinity"@[0] == 'i' && "nan"@[0] == 'n');
    if is_word(s, "inf"@) || is_word(s, "infinity"@) {
        assert(same_letter(s[0], 'i'));
    }
    if is_word(s, "nan"@) {
        assert(same_letter(s[0], 'n'));
    }
    assert(digits_end(s, 0) == 0);
}

/// A field may be followed by several indices.
pub proof fn law_indices_follow_each_other(i: usize, rest: Seq<char>)
    ensures
        indices(decimal(i as nat)) == Some(seq![PathSegView::Index(i)]),
        indices(decimal(i as nat) + "]["@ + rest) == match indices(rest) {
            Some(list) => Some(seq![PathSegView::Index(i)] + list),
            None => None,
        },
{
    reveal_strlit("][");
    let d = decimal(i as nat);
    lemma_decimal_digits(i as nat);
    assert(is_digit(d[0]));
    assert(size_value(d) == Some(i));
    lemma_first_from(d, "]["@, 0);
    if let Some(k) = first_of(d, "]["@) {
        assert(d.subrange(k, k + 2)[0] == ']');
        assert(is_digit(d[k]));
    }
    let s = d + "]["@ + rest;
    let at = d.len() as int;
    lemma_first_from(s, "]["@, 0);
    assert(s.subrange(at, at + 2) =~= "]["@);
    assert(occurs_at(s, "]["@, at));
    assert forall|j: int| 0 <= j < at implies !#[trigger] occurs_at(s, "]["@, j) by {
        if occurs_at(s, "]["@, j) {
            assert(s.subrange(j, j + 2)[0] == ']');
            assert(s[j] == d[j]);
            assert(is_digit(d[j]));
        }
    }
    assert(first_of(s, "]["@) == Some(at));
    assert(s.take(at) =~= d);
    assert(s.skip(at + 2) =~= rest);
}

} // verus!
