//! What an expression says: its value as JSON, as far as the text alone determines it, and the
//! resources that it refers to.

use crate::embedded::{embedded_document, law_document_stands_for_its_text, promoted};
use crate::json::{
    Json,
    JsonView,
    insert_entry,
    json_entries,
    json_items,
    lemma_json_model,
    with_entry,
};
use crate::syntax::{
    Piece,
    PieceView,
    Expr,
    ExprView,
    EntryKey,
    EntryKeyView,
    Step,
    StepView,
    element_views,
    entry_views,
    expression_views,
    lemma_element_model,
    lemma_expression_model,
    operator_views,
};
use crate::text::{
    contains,
    decimal,
    join,
    joined,
    occurs,
    plus,
    same_text,
    size_text,
    split,
    split_text,
    texts,
};
use vstd::prelude::*;
use vstd::string::StrSliceExecFns;

verus! {

/// Whether a traversal that begins with `root` never leads into a resource.
pub open spec fn is_reserved(root: Seq<char>) -> bool {
    ||| root == "var"@
    ||| root == "local"@
    ||| root == "data"@
    ||| root == "each"@
    ||| root == "count"@
    ||| root == "self"@
    ||| root == "path"@
    ||| root == "terraform"@
    ||| root == "module"@
}

/// The identifiers that begin a traversal but never name a resource type. Any other traversal is a
/// candidate reference to the resource that its first two names give.
pub const RESERVED_ROOTS: [&'static str; 9] = [
    "var",
    "local",
    "data",
    "each",
    "count",
    "self",
    "path",
    "terraform",
    "module",
];

/// Whether a traversal that begins with `root` never leads into a resource.
pub fn root_is_reserved(root: &str) -> (r: bool)
    ensures
        r == is_reserved(root@),
{
    let mut i: usize = 0;
    while i < RESERVED_ROOTS.len()
        invariant
            i <= 9,
            RESERVED_ROOTS@.len() == 9,
            forall|k: int| 0 <= k < i ==> root@ != (#[trigger] RESERVED_ROOTS@[k])@,
        decreases 9 - i,
    {
        if same_text(root, RESERVED_ROOTS[i]) {
            return true;
        }
        i = i + 1;
    }
    assert(RESERVED_ROOTS@[0]@ == "var"@);
    false
}

/// "The attribute at `attr_path` traverses into `target_id`", where `target_id` is a candidate
/// `type.name` that may or may not be a resource. `full_path` is the traversal as written, as far
/// as it consists of names.
#[derive(Debug, Clone)]
pub struct TraversalRef {
    pub attr_path: String,
    pub target_id: String,
    pub full_path: String,
}

/// The contents of a [`TraversalRef`].
pub struct TraversalRefView {
    pub attr_path: Seq<char>,
    pub target_id: Seq<char>,
    pub full_path: Seq<char>,
}

impl View for TraversalRef {
    type V = TraversalRefView;

    open spec fn view(&self) -> TraversalRefView {
        TraversalRefView {
            attr_path: self.attr_path@,
            target_id: self.target_id@,
            full_path: self.full_path@,
        }
    }
}

/// The contents of a list of references.
pub open spec fn ref_views(refs: Seq<TraversalRef>) -> Seq<TraversalRefView> {
    refs.map_values(|r: TraversalRef| r@)
}

/// The names that a traversal steps through before its first index or splat.
pub open spec fn leading_names(operators: Seq<StepView>) -> Seq<Seq<char>>
    decreases operators.len(),
{
    if operators.len() == 0 {
        Seq::empty()
    } else {
        match operators[0] {
            StepView::GetAttr(name) => seq![name] + leading_names(operators.skip(1)),
            StepView::Other => Seq::empty(),
        }
    }
}

/// A traversal's variable and the names that follow it, with dots between. There is none where the
/// traversal does not begin with a variable, or no name follows it.
pub open spec fn traversal_path(
    base: ExprView,
    operators: Seq<StepView>,
) -> Option<Seq<char>> {
    match base {
        ExprView::Variable(root) => if leading_names(operators).len() > 0 {
            Some(joined(seq![root] + leading_names(operators), "."@))
        } else {
            None
        },
        _ => None,
    }
}

/// The reference that a traversal makes, where its path names a candidate resource.
pub open spec fn traversal_refs(
    base: ExprView,
    operators: Seq<StepView>,
    path: Seq<char>,
) -> Seq<TraversalRefView> {
    match traversal_path(base, operators) {
        Some(full) => {
            let segments = split(full, '.');
            if segments.len() >= 2 && !is_reserved(segments[0]) {
                seq![
                    TraversalRefView {
                        attr_path: path,
                        target_id: segments[0] + "."@ + segments[1],
                        full_path: full,
                    },
                ]
            } else {
                Seq::empty()
            }
        },
        None => Seq::empty(),
    }
}

/// The text of an object key.
pub open spec fn key_text(key: EntryKeyView) -> Seq<char> {
    match key {
        EntryKeyView::Identifier(s) => s,
        EntryKeyView::Rendered(s) => s,
        EntryKeyView::Other => "<unknown-key>"@,
    }
}

/// The path of item `i` of the list at `path`.
pub open spec fn item_path(path: Seq<char>, i: int) -> Seq<char> {
    path + "["@ + decimal(i as nat) + "]"@
}

/// The path of argument `i` of the call at `path`.
pub open spec fn argument_path(path: Seq<char>, i: int) -> Seq<char> {
    path + "/arg"@ + decimal(i as nat)
}

/// The path of the entry `key` of what stands at `path`.
pub open spec fn entry_path(path: Seq<char>, key: Seq<char>) -> Seq<char> {
    if path.len() == 0 {
        key
    } else {
        path + "."@ + key
    }
}

/// The references that the expression at `path` makes, in the order in which they are written.
/// Operations and `for` expressions are not looked into, nor is what decides a conditional.
pub open spec fn refs(e: ExprView, path: Seq<char>) -> Seq<TraversalRefView>
    decreases e,
{
    match e {
        ExprView::Traversal { base, operators, .. } => traversal_refs(*base, operators, path)
            + refs(*base, path),
        ExprView::Array(items) => items_refs(items, path, items.len()),
        ExprView::Object(entries) => entries_refs(entries, path, entries.len()),
        ExprView::FuncCall { args, .. } => arguments_refs(args, path, args.len()),
        ExprView::Parenthesis(inner) => refs(*inner, path),
        ExprView::Template { elements, .. } => match elements {
            Some(list) => elements_refs(list, path, list.len()),
            None => Seq::empty(),
        },
        ExprView::Conditional { true_expr, false_expr, .. } => refs(*true_expr, path) + refs(
            *false_expr,
            path,
        ),
        _ => Seq::empty(),
    }
}

/// The references that the first `n` items of the list at `path` make.
pub open spec fn items_refs(items: Seq<ExprView>, path: Seq<char>, n: nat) -> Seq<
    TraversalRefView,
>
    decreases items, n,
{
    if n == 0 || n > items.len() {
        Seq::empty()
    } else {
        items_refs(items, path, (n - 1) as nat) + refs(items[n - 1], item_path(path, n - 1))
    }
}

/// The references that the first `n` entries of the object at `path` make.
pub open spec fn entries_refs(
    entries: Seq<(EntryKeyView, ExprView)>,
    path: Seq<char>,
    n: nat,
) -> Seq<TraversalRefView>
    decreases entries, n,
    via entries_refs_decreases
{
    if n == 0 || n > entries.len() {
        Seq::empty()
    } else {
        entries_refs(entries, path, (n - 1) as nat) + refs(
            entries[n - 1].1,
            entry_path(path, key_text(entries[n - 1].0)),
        )
    }
}

#[via_fn]
proof fn entries_refs_decreases(
    entries: Seq<(EntryKeyView, ExprView)>,
    path: Seq<char>,
    n: nat,
) {
    if 0 < n <= entries.len() {
        assert(decreases_to!(entries => entries[n - 1]));
        assert(decreases_to!(entries[n - 1] => entries[n - 1].1));
    }
}

/// The references that the first `n` arguments of the call at `path` make.
pub open spec fn arguments_refs(args: Seq<ExprView>, path: Seq<char>, n: nat) -> Seq<
    TraversalRefView,
>
    decreases args, n,
{
    if n == 0 || n > args.len() {
        Seq::empty()
    } else {
        arguments_refs(args, path, (n - 1) as nat) + refs(args[n - 1], argument_path(path, n - 1))
    }
}

/// The references that the first `n` pieces of the template at `path` make.
pub open spec fn elements_refs(list: Seq<PieceView>, path: Seq<char>, n: nat) -> Seq<
    TraversalRefView,
>
    decreases list, n,
{
    if n == 0 || n > list.len() {
        Seq::empty()
    } else {
        elements_refs(list, path, (n - 1) as nat) + element_refs(list[n - 1], path)
    }
}

/// The references that a piece of the template at `path` makes.
pub open spec fn element_refs(e: PieceView, path: Seq<char>) -> Seq<TraversalRefView>
    decreases e,
{
    match e {
        PieceView::Literal => Seq::empty(),
        PieceView::Interpolation(inner) => refs(inner, path),
        PieceView::If { condition, true_part, false_part } => refs(condition, path)
            + elements_refs(true_part, path, true_part.len()) + match false_part {
            Some(list) => elements_refs(list, path, list.len()),
            None => Seq::empty(),
        },
        PieceView::For { collection, body } => refs(collection, path) + elements_refs(
            body,
            path,
            body.len(),
        ),
    }
}

/// A traversal's variable and the names that follow it, with dots between.
fn traversal_root_and_path(base: &Expr, operators: &Vec<Step>) -> (r: Option<
    String,
>)
    ensures
        match r {
            Some(full) => traversal_path(base@, operator_views(operators@)) == Some(full@),
            None => traversal_path(base@, operator_views(operators@)) is None,
        },
{
    let root: String = match base {
        Expr::Variable(name) => name.clone(),
        _ => {
            return None;
        },
    };
    let ghost views = operator_views(operators@);
    let mut parts: Vec<String> = Vec::new();
    parts.push(root);
    let mut i: usize = 0;
    proof {
        assert(views.skip(0) =~= views);
        assert(texts(parts@) =~= seq![root@]);
        assert(seq![root@] + leading_names(views) =~= texts(parts@) + leading_names(views.skip(0)));
    }
    while i < operators.len()
        invariant_except_break
            texts(parts@) + leading_names(views.skip(i as int)) == seq![root@] + leading_names(
                views,
            ),
        invariant
            i <= operators@.len(),
            views == operator_views(operators@),
            parts@.len() >= 1,
        ensures
            texts(parts@) == seq![root@] + leading_names(views),
        decreases operators@.len() - i,
    {
        let ghost before = texts(parts@);
        assert(views.skip(i as int)[0] == operators@[i as int]@);
        match &operators[i] {
            Step::GetAttr(name) => {
                parts.push(name.clone());
                assert(views.skip(i as int).skip(1) =~= views.skip(i + 1));
                assert(texts(parts@) =~= before.push(name@));
                assert(before.push(name@) + leading_names(views.skip(i + 1)) =~= before + (
                seq![name@] + leading_names(views.skip(i + 1))));
            },
            Step::Other => {
                assert(before + leading_names(views.skip(i as int)) =~= before);
                break;
            },
        }
        i = i + 1;
        assert(i == operators@.len() ==> texts(parts@) + leading_names(views.skip(i as int))
            =~= texts(parts@));
    }
    assert(texts(parts@).len() == parts@.len());
    if parts.len() < 2 {
        return None;
    }
    Some(join(&parts, "."))
}

/// The text of an object key.
fn object_key_to_string(key: &EntryKey) -> (r: String)
    ensures
        r@ == key_text(key@),
{
    match key {
        EntryKey::Identifier(s) => s.clone(),
        EntryKey::Rendered(s) => s.clone(),
        EntryKey::Other => "<unknown-key>".to_string(),
    }
}

/// Adds to `out` the references that the expression at `attr_path` makes.
pub fn collect_traversals(expr: &Expr, attr_path: &str, out: &mut Vec<TraversalRef>)
    ensures
        ref_views(final(out)@) == ref_views(old(out)@) + refs(expr@, attr_path@),
    decreases expr,
{
    broadcast use lemma_expression_model;

    let ghost start = ref_views(out@);
    match expr {
        Expr::Traversal { base, operators, .. } => {
            let ghost views = operator_views(operators@);
            if let Some(full_path) = traversal_root_and_path(base, operators) {
                let segments = split_text(full_path.as_str(), '.');
                assert(texts(segments@).len() == segments@.len());
                if segments.len() >= 2 {
                    assert(texts(segments@)[0] == segments@[0]@);
                    assert(texts(segments@)[1] == segments@[1]@);
                    let root = segments[0].as_str();
                    if !root_is_reserved(root) {
                        let target_id = plus(plus(root, ".").as_str(), segments[1].as_str());
                        out.push(
                            TraversalRef { attr_path: attr_path.to_string(), target_id, full_path },
                        );
                    }
                }
            }
            assert(ref_views(out@) =~= start + traversal_refs(base@, views, attr_path@));
            collect_traversals(base, attr_path, out);
            assert(ref_views(out@) =~= start + (traversal_refs(base@, views, attr_path@) + refs(
                base@,
                attr_path@,
            )));
        },
        Expr::Array(items) => {
            let ghost views = expression_views(items@);
            let mut i: usize = 0;
            assert(start + items_refs(views, attr_path@, 0) =~= start);
            while i < items.len()
                invariant
                    decreases_to!(expr => items@),
                    i <= items@.len(),
                    views == expression_views(items@),
                    ref_views(out@) == start + items_refs(views, attr_path@, i as nat),
                decreases items@.len() - i,
            {
                let path = plus(
                    plus(plus(attr_path, "[").as_str(), size_text(i).as_str()).as_str(),
                    "]",
                );
                collect_traversals(&items[i], path.as_str(), out);
                assert(start + items_refs(views, attr_path@, i as nat) + refs(items@[i as int]@, path@)
                    =~= start + items_refs(views, attr_path@, (i + 1) as nat));
                i = i + 1;
            }
        },
        Expr::Object(entries) => {
            let ghost views = entry_views(entries@);
            let mut i: usize = 0;
            assert(start + entries_refs(views, attr_path@, 0) =~= start);
            while i < entries.len()
                invariant
                    decreases_to!(expr => entries@),
                    i <= entries@.len(),
                    views == entry_views(entries@),
                    ref_views(out@) == start + entries_refs(views, attr_path@, i as nat),
                decreases entries@.len() - i,
            {
                let key = object_key_to_string(&entries[i].0);
                let path = if attr_path.unicode_len() == 0 {
                    key
                } else {
                    plus(plus(attr_path, ".").as_str(), key.as_str())
                };
                assert(decreases_to!(entries@ => entries@[i as int]));
                assert(decreases_to!(entries@[i as int] => entries@[i as int].1));
                collect_traversals(&entries[i].1, path.as_str(), out);
                assert(start + entries_refs(views, attr_path@, i as nat) + refs(entries@[i as int].1@, path@)
                    =~= start + entries_refs(views, attr_path@, (i + 1) as nat));
                i = i + 1;
            }
        },
        Expr::FuncCall { args, .. } => {
            let ghost views = expression_views(args@);
            let mut i: usize = 0;
            assert(start + arguments_refs(views, attr_path@, 0) =~= start);
            while i < args.len()
                invariant
                    decreases_to!(expr => args@),
                    i <= args@.len(),
                    views == expression_views(args@),
                    ref_views(out@) == start + arguments_refs(views, attr_path@, i as nat),
                decreases args@.len() - i,
            {
                let path = plus(plus(attr_path, "/arg").as_str(), size_text(i).as_str());
                collect_traversals(&args[i], path.as_str(), out);
                assert(start + arguments_refs(views, attr_path@, i as nat) + refs(args@[i as int]@, path@)
                    =~= start + arguments_refs(views, attr_path@, (i + 1) as nat));
                i = i + 1;
            }
        },
        Expr::Parenthesis(inner) => collect_traversals(inner, attr_path, out),
        Expr::Template { elements, .. } => {
            if let Some(list) = elements {
                collect_elements(list, attr_path, out);
            } else {
                assert(ref_views(out@) =~= start + refs(expr@, attr_path@));
            }
        },
        Expr::Conditional { true_expr, false_expr, .. } => {
            collect_traversals(true_expr, attr_path, out);
            collect_traversals(false_expr, attr_path, out);
            assert(ref_views(out@) =~= start + (refs(true_expr@, attr_path@) + refs(
                false_expr@,
                attr_path@,
            )));
        },
        _ => {
            assert(ref_views(out@) =~= start + refs(expr@, attr_path@));
        },
    }
}

/// Adds to `out` the references that the pieces of the template at `attr_path` make.
fn collect_elements(list: &Vec<Piece>, attr_path: &str, out: &mut Vec<TraversalRef>)
    ensures
        ref_views(final(out)@) == ref_views(old(out)@) + elements_refs(
            element_views(list@),
            attr_path@,
            list@.len(),
        ),
    decreases list,
{
    let ghost start = ref_views(out@);
    let ghost views = element_views(list@);
    let mut i: usize = 0;
    assert(start + elements_refs(views, attr_path@, 0) =~= start);
    while i < list.len()
        invariant
            i <= list@.len(),
            views == element_views(list@),
            ref_views(out@) == start + elements_refs(views, attr_path@, i as nat),
        decreases list@.len() - i,
    {
        collect_template_element(&list[i], attr_path, out);
        assert(start + elements_refs(views, attr_path@, i as nat) + element_refs(list@[i as int]@, attr_path@)
            =~= start + elements_refs(views, attr_path@, (i + 1) as nat));
        i = i + 1;
    }
}

/// Adds to `out` the references that a piece of the template at `attr_path` makes.
fn collect_template_element(element: &Piece, attr_path: &str, out: &mut Vec<TraversalRef>)
    ensures
        ref_views(final(out)@) == ref_views(old(out)@) + element_refs(element@, attr_path@),
    decreases element,
{
    broadcast use lemma_element_model;

    let ghost start = ref_views(out@);
    match element {
        Piece::Literal => {
            assert(ref_views(out@) =~= start + element_refs(element@, attr_path@));
        },
        Piece::Interpolation(inner) => collect_traversals(inner, attr_path, out),
        Piece::If { condition, true_part, false_part } => {
            collect_traversals(condition, attr_path, out);
            collect_elements(true_part, attr_path, out);
            let ghost before = refs(condition@, attr_path@) + elements_refs(
                element_views(true_part@),
                attr_path@,
                true_part@.len(),
            );
            assert(ref_views(out@) =~= start + before);
            if let Some(list) = false_part {
                collect_elements(list, attr_path, out);
                assert(ref_views(out@) =~= start + (before + elements_refs(
                    element_views(list@),
                    attr_path@,
                    list@.len(),
                )));
            } else {
                assert(before + Seq::empty() =~= before);
            }
        },
        Piece::For { collection, body } => {
            collect_traversals(collection, attr_path, out);
            collect_elements(body, attr_path, out);
            assert(ref_views(out@) =~= start + (refs(collection@, attr_path@) + elements_refs(
                element_views(body@),
                attr_path@,
                body@.len(),
            )));
        },
    }
}

/// The value of an expression, as far as the text alone determines it. What it does not determine
/// (a variable, a traversal, a call) stands there as a string that begins with `unresolved:`. The
/// argument of `jsonencode` stands for the call.
pub open spec fn expr_value(e: ExprView) -> JsonView
    decreases e,
{
    match e {
        ExprView::Null => JsonView::Null,
        ExprView::Bool(b) => JsonView::Bool(b),
        ExprView::Number(n) => JsonView::Number(n),
        ExprView::String(s) => JsonView::String(s),
        ExprView::Array(items) => JsonView::Array(
            Seq::new(
                items.len(),
                |i: int|
                    if 0 <= i < items.len() {
                        expr_value(items[i])
                    } else {
                        JsonView::Null
                    },
            ),
        ),
        ExprView::Object(entries) => JsonView::Object(entries_value(entries, entries.len())),
        ExprView::Template { text, .. } => JsonView::String(text),
        ExprView::FuncCall { name, args } => if is_jsonencode(name, args) {
            expr_value(args[0])
        } else {
            JsonView::String("unresolved:call:"@ + name)
        },
        ExprView::Variable(name) => JsonView::String("unresolved:var:"@ + name),
        ExprView::Traversal { text, .. } => JsonView::String("unresolved:ref:"@ + text),
        ExprView::Parenthesis(inner) => expr_value(*inner),
        ExprView::Conditional { text, .. } => JsonView::String("unresolved:expr:"@ + text),
        ExprView::Other { text } => JsonView::String("unresolved:expr:"@ + text),
    }
}

/// Whether a call is one of `jsonencode` with one argument.
pub open spec fn is_jsonencode(name: Seq<char>, args: Seq<ExprView>) -> bool {
    name == "jsonencode"@ && args.len() == 1
}

/// The first `n` entries of an object expression as JSON. A later entry takes the place of an
/// earlier one with the same key.
pub open spec fn entries_value(entries: Seq<(EntryKeyView, ExprView)>, n: nat) -> Seq<
    (Seq<char>, JsonView),
>
    decreases entries, n,
    via entries_value_decreases
{
    if n == 0 || n > entries.len() {
        Seq::empty()
    } else {
        with_entry(
            entries_value(entries, (n - 1) as nat),
            key_text(entries[n - 1].0),
            expr_value(entries[n - 1].1),
        )
    }
}

#[via_fn]
proof fn entries_value_decreases(entries: Seq<(EntryKeyView, ExprView)>, n: nat) {
    if 0 < n <= entries.len() {
        assert(decreases_to!(entries => entries[n - 1]));
        assert(decreases_to!(entries[n - 1] => entries[n - 1].1));
    }
}

/// Whether the text alone leaves open what the expression, or any part of it, stands for.
pub open spec fn expr_unresolved(e: ExprView) -> bool
    decreases e,
    via expr_unresolved_decreases
{
    match e {
        ExprView::Null | ExprView::Bool(_) | ExprView::Number(_)
        | ExprView::String(_) => false,
        ExprView::Array(items) => exists|i: int|
            0 <= i < items.len() && expr_unresolved(#[trigger] items[i]),
        ExprView::Object(entries) => exists|i: int|
            0 <= i < entries.len() && expr_unresolved((#[trigger] entries[i]).1),
        ExprView::Template { text, .. } => occurs(text, "${"@),
        ExprView::FuncCall { name, args } => if is_jsonencode(name, args) {
            expr_unresolved(args[0])
        } else {
            true
        },
        ExprView::Parenthesis(inner) => expr_unresolved(*inner),
        _ => true,
    }
}

#[via_fn]
proof fn expr_unresolved_decreases(e: ExprView) {
    if let ExprView::Object(entries) = e {
        assert forall|i: int| 0 <= i < entries.len() implies decreases_to!(
            e => (#[trigger] entries[i]).1
        ) by {
            assert(decreases_to!(entries => entries[i]));
            assert(decreases_to!(entries[i] => entries[i].1));
        }
    }
}

/// The value of an expression, as far as the text alone determines it, and whether it leaves any
/// of it open.
pub fn expr_to_json(expr: &Expr) -> (r: (Json, bool))
    ensures
        r.0@ == expr_value(expr@),
        r.1 == expr_unresolved(expr@),
    decreases expr,
{
    broadcast use {lemma_expression_model, lemma_json_model};

    match expr {
        Expr::Null => (Json::Null, false),
        Expr::Bool(b) => (Json::Bool(*b), false),
        Expr::Number(n) => (Json::Number(n.clone()), false),
        Expr::String(s) => (Json::String(s.clone()), false),
        Expr::Array(items) => {
            let ghost views = expression_views(items@);
            let mut unresolved = false;
            let mut out: Vec<Json> = Vec::new();
            let mut i: usize = 0;
            while i < items.len()
                invariant
                    decreases_to!(expr => items@),
                    i <= items@.len(),
                    views == expression_views(items@),
                    out@.len() == i,
                    forall|k: int|
                        0 <= k < i ==> (#[trigger] out@[k])@ == expr_value(views[k]),
                    unresolved == (exists|k: int|
                        0 <= k < i && expr_unresolved(#[trigger] views[k])),
                decreases items@.len() - i,
            {
                let (value, open) = expr_to_json(&items[i]);
                assert(views[i as int] == items@[i as int]@);
                unresolved = unresolved || open;
                out.push(value);
                i = i + 1;
            }
            assert(json_items(out@) =~= expr_value(expr@)->Array_0);
            (Json::Array(out), unresolved)
        },
        Expr::Object(entries) => {
            let ghost views = entry_views(entries@);
            let mut unresolved = false;
            let mut out: Vec<(String, Json)> = Vec::new();
            let mut i: usize = 0;
            assert(json_entries(out@) =~= entries_value(views, 0));
            while i < entries.len()
                invariant
                    decreases_to!(expr => entries@),
                    i <= entries@.len(),
                    views == entry_views(entries@),
                    json_entries(out@) == entries_value(views, i as nat),
                    unresolved == (exists|k: int|
                        0 <= k < i && expr_unresolved((#[trigger] views[k]).1)),
                decreases entries@.len() - i,
            {
                assert(decreases_to!(entries@ => entries@[i as int]));
                assert(decreases_to!(entries@[i as int] => entries@[i as int].1));
                let (value, open) = expr_to_json(&entries[i].1);
                assert(views[i as int] == (entries@[i as int].0@, entries@[i as int].1@));
                unresolved = unresolved || open;
                insert_entry(&mut out, object_key_to_string(&entries[i].0), value);
                i = i + 1;
            }
            (Json::Object(out), unresolved)
        },
        Expr::Template { text, .. } => {
            (Json::String(text.clone()), contains(text.as_str(), "${"))
        },
        Expr::FuncCall { name, args } => {
            if same_text(name.as_str(), "jsonencode") && args.len() == 1 {
                expr_to_json(&args[0])
            } else {
                (Json::String(plus("unresolved:call:", name.as_str())), true)
            }
        },
        Expr::Variable(name) => {
            (Json::String(plus("unresolved:var:", name.as_str())), true)
        },
        Expr::Traversal { text, .. } => {
            (Json::String(plus("unresolved:ref:", text.as_str())), true)
        },
        Expr::Parenthesis(inner) => expr_to_json(inner),
        Expr::Conditional { text, .. } => {
            (Json::String(plus("unresolved:expr:", text.as_str())), true)
        },
        Expr::Other { text } => {
            (Json::String(plus("unresolved:expr:", text.as_str())), true)
        },
    }
}

/// Whether the text alone leaves open what an expression stands for as a whole.
pub open spec fn is_open(e: ExprView) -> bool {
    match e {
        ExprView::Variable(_) | ExprView::Traversal { .. } | ExprView::Conditional { .. }
        | ExprView::Other { .. } => true,
        ExprView::FuncCall { name, args } => !is_jsonencode(name, args),
        _ => false,
    }
}

/// What the text leaves open is neither dropped nor guessed at: it stands there as a string that
/// begins with `unresolved:`, and counts as unresolved.
pub proof fn law_open_expressions_are_marked(e: ExprView)
    requires
        is_open(e),
    ensures
        expr_unresolved(e),
        expr_value(e) matches JsonView::String(s) && "unresolved:"@.is_prefix_of(s),
{
    reveal_strlit("unresolved:");
    reveal_strlit("unresolved:call:");
    reveal_strlit("unresolved:var:");
    reveal_strlit("unresolved:ref:");
    reveal_strlit("unresolved:expr:");
    let s = expr_value(e)->String_0;
    assert("unresolved:"@ =~= s.take("unresolved:"@.len() as int));
}

/// A document written with `jsonencode` and the same document written as the text of a template
/// come to the same attributes.
pub proof fn law_jsonencode_and_text_agree(e: ExprView, template: ExprView)
    requires
        template matches ExprView::Template { text, .. } && embedded_document(text) == Some(
            expr_value(e),
        ),
    ensures
        promoted(expr_value(template)) == promoted(
            expr_value(ExprView::FuncCall { name: "jsonencode"@, args: seq![e] }),
        ),
{
    law_document_stands_for_its_text(template->Template_text, expr_value(e));
}

/// No reference leads into what a reserved root begins.
pub proof fn law_reserved_roots_are_no_references(
    base: ExprView,
    operators: Seq<StepView>,
    path: Seq<char>,
)
    requires
        traversal_path(base, operators) matches Some(full) ==> is_reserved(split(full, '.')[0]),
    ensures
        traversal_refs(base, operators, path) == Seq::<TraversalRefView>::empty(),
{
}

} // verus!
