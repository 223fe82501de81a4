//! Reading configuration files.

use crate::embedded::{lift_number, number_contents};
use crate::expr::is_jsonencode;
use crate::graph::{FileView, file_resources, resource_in};
use crate::json::{JsonNumber, JsonNumberView};
use crate::lexical::{
    readable,
    readable_template,
    template_is_readable,
    text_is_unescapable,
    unescapable,
};
use crate::syntax::{
    Attribute,
    Block,
    Piece,
    PieceView,
    Expr,
    ExprView,
    EntryKey,
    EntryKeyView,
    Item,
    ItemView,
    Step,
    StepView,
    body_view,
    element_views,
    entry_views,
    expression_views,
    lemma_element_model,
    lemma_expression_model,
    lemma_structure_model,
    operator_views,
};
use crate::text::{same_text, texts};
use vstd::prelude::*;

verus! {

/// `hcl::Body`, what a file or a block holds.
#[verifier::external_type_specification]
#[verifier::external_body]
pub struct ExBody(hcl::Body);

/// `hcl::Structure`, an attribute or a block.
#[verifier::external_type_specification]
#[verifier::external_body]
pub struct ExStructure(hcl::Structure);

/// `hcl::BlockLabel`, a label of a block.
#[verifier::external_type_specification]
#[verifier::external_body]
pub struct ExBlockLabel(hcl::BlockLabel);

/// `hcl::Expression`, what an attribute is set to.
#[verifier::external_type_specification]
#[verifier::external_body]
pub struct ExExpression(hcl::Expression);

/// `hcl::ObjectKey`, the key of an entry of an object expression.
#[verifier::external_type_specification]
#[verifier::external_body]
pub struct ExObjectKey(hcl::ObjectKey);

/// `hcl::expr::TraversalOperator`, a step of a traversal.
#[verifier::external_type_specification]
#[verifier::external_body]
pub struct ExTraversalOperator(hcl::expr::TraversalOperator);

/// `hcl::expr::TemplateExpr`, a quoted template or a heredoc, not yet taken apart.
#[verifier::external_type_specification]
#[verifier::external_body]
pub struct ExTemplateExpr(hcl::expr::TemplateExpr);

/// `hcl::template::Template`, a template taken apart.
#[verifier::external_type_specification]
#[verifier::external_body]
pub struct ExTemplate(hcl::template::Template);

/// `hcl::template::Element`, a piece of a template.
#[verifier::external_type_specification]
#[verifier::external_body]
pub struct ExElement(hcl::template::Element);

/// `hcl::Number`, a number.
#[verifier::external_type_specification]
#[verifier::external_body]
pub struct ExHclNumber(hcl::Number);

/// `hcl::Error`, why a text could not be read.
#[verifier::external_type_specification]
#[verifier::external_body]
pub struct ExHclError(hcl::Error);

/// What `hcl::from_str` reads in a text: a body, or the text of the error that it reports.
pub uninterp spec fn hcl_document(text: Seq<char>) -> Result<Seq<ItemView>, Seq<char>>;

/// The structures that an `hcl::Body` holds, in order.
pub uninterp spec fn body_contents(body: hcl::Body) -> Seq<ItemView>;

/// What an `hcl::Structure` holds.
pub uninterp spec fn structure_contents(structure: hcl::Structure) -> ItemView;

/// The text of an `hcl::BlockLabel`.
pub uninterp spec fn label_contents(label: hcl::BlockLabel) -> Seq<char>;

/// What an `hcl::Expression` holds, with its rendering where [`ExprView`] keeps one.
pub uninterp spec fn expression_contents(expr: hcl::Expression) -> ExprView;

/// What an `hcl::ObjectKey` holds.
pub uninterp spec fn key_contents(key: hcl::ObjectKey) -> EntryKeyView;

/// What an `hcl::expr::TraversalOperator` holds.
pub uninterp spec fn operator_contents(
    op: hcl::expr::TraversalOperator,
) -> StepView;

/// What an `hcl::expr::TemplateExpr` holds, with its rendering and the elements that
/// `hcl::template::Template::from_expr` finds in it. A template whose escapes cannot be resolved
/// has no rendering: what stands between its quotes takes its place.
pub uninterp spec fn template_expr_contents(template: hcl::expr::TemplateExpr) -> ExprView;

/// The elements that an `hcl::template::Template` holds, in order.
pub uninterp spec fn template_contents(template: hcl::template::Template) -> Seq<PieceView>;

/// What an `hcl::template::Element` holds.
pub uninterp spec fn element_contents(element: hcl::template::Element) -> PieceView;

/// The number that an `hcl::Number` holds: an integer, where it is one of 64 bits with a sign, and
/// else the text of the nearest float. There is none where the number is not finite.
pub uninterp spec fn hcl_number_contents(n: hcl::Number) -> Option<JsonNumberView>;

/// The text of an `hcl::Error`.
pub uninterp spec fn hcl_error_contents(e: hcl::Error) -> Seq<char>;

/// The contents of some structures.
spec fn structures_contents(list: Seq<&hcl::Structure>) -> Seq<ItemView> {
    list.map_values(|s: &hcl::Structure| structure_contents(*s))
}

/// The contents of some labels.
spec fn labels_contents(list: Seq<hcl::BlockLabel>) -> Seq<Seq<char>> {
    list.map_values(|l: hcl::BlockLabel| label_contents(l))
}

/// The contents of some expressions.
spec fn expressions_contents(list: Seq<hcl::Expression>) -> Seq<ExprView> {
    list.map_values(|e: hcl::Expression| expression_contents(e))
}

/// The contents of some entries of an object.
spec fn entries_contents(list: Seq<(&hcl::ObjectKey, &hcl::Expression)>) -> Seq<
    (EntryKeyView, ExprView),
> {
    list.map_values(
        |e: (&hcl::ObjectKey, &hcl::Expression)| (key_contents(*e.0), expression_contents(*e.1)),
    )
}

/// The contents of some steps of a traversal.
spec fn operators_contents(list: Seq<hcl::expr::TraversalOperator>) -> Seq<StepView> {
    list.map_values(|op: hcl::expr::TraversalOperator| operator_contents(op))
}

/// The contents of some elements.
spec fn elements_contents(list: Seq<&hcl::template::Element>) -> Seq<PieceView> {
    list.map_values(|e: &hcl::template::Element| element_contents(*e))
}

/// `hcl::from_str`: reads a configuration file. What it reads is named, not stated.
#[verifier::external_body]
fn read_body(src: &str) -> (r: Result<hcl::Body, hcl::Error>)
    requires
        readable(src@),
    ensures
        match r {
            Ok(body) => hcl_document(src@) == Ok::<Seq<ItemView>, Seq<char>>(
                body_contents(body),
            ),
            Err(e) => hcl_document(src@) == Err::<Seq<ItemView>, Seq<char>>(
                hcl_error_contents(e),
            ),
        },
{
    hcl::from_str(src)
}

/// `hcl::Error`'s `Display`.
#[verifier::external_body]
fn error_text(e: &hcl::Error) -> (r: String)
    ensures
        r@ == hcl_error_contents(*e),
{
    e.to_string()
}

/// `hcl::Body::iter`: the structures of a body, in order.
#[verifier::external_body]
fn body_parts(body: &hcl::Body) -> (r: Vec<&hcl::Structure>)
    ensures
        structures_contents(r@) == body_contents(*body),
{
    body.iter().collect()
}

/// An `hcl::Structure` taken apart, one level deep.
enum StructureParts<'a> {
    Attribute(&'a str, &'a hcl::Expression),
    Block(&'a str, &'a Vec<hcl::BlockLabel>, &'a hcl::Body),
}

/// Tells the variants of `hcl::Structure` apart: an attribute has a key and an expression, a block
/// an identifier, labels and a body.
#[verifier::external_body]
fn structure_parts(structure: &hcl::Structure) -> (r: StructureParts<'_>)
    ensures
        structure_contents(*structure) == match r {
            StructureParts::Attribute(key, expr) => (ItemView::Attribute {
                key: key@,
                expr: expression_contents(*expr),
            }),
            StructureParts::Block(identifier, labels, body) => (ItemView::Block {
                identifier: identifier@,
                labels: labels_contents(labels@),
                body: body_contents(*body),
            }),
        },
{
    match structure {
        hcl::Structure::Attribute(a) => StructureParts::Attribute(a.key(), a.expr()),
        hcl::Structure::Block(b) => StructureParts::Block(b.identifier(), &b.labels, b.body()),
    }
}

/// `hcl::BlockLabel::as_str`.
#[verifier::external_body]
fn label_text(label: &hcl::BlockLabel) -> (r: &str)
    ensures
        r@ == label_contents(*label),
{
    label.as_str()
}

/// An `hcl::Expression` without parts.
enum LiteralParts<'a> {
    Null,
    Bool(bool),
    Number(&'a hcl::Number),
    String(&'a String),
    Variable(&'a str),
}

/// Tells the variants of `hcl::Expression` that have no expressions inside apart.
#[verifier::external_body]
fn literal_parts(expr: &hcl::Expression) -> (r: Option<LiteralParts<'_>>)
    ensures
        match r {
            Some(LiteralParts::Null) => expression_contents(*expr) == ExprView::Null,
            Some(LiteralParts::Bool(b)) => expression_contents(*expr) == ExprView::Bool(b),
            Some(LiteralParts::Number(n)) => expression_contents(*expr)
                == number_expr(hcl_number_contents(*n)),
            Some(LiteralParts::String(s)) => expression_contents(*expr) == ExprView::String(
                s@,
            ),
            Some(LiteralParts::Variable(name)) => expression_contents(*expr)
                == ExprView::Variable(name@),
            None => !is_literal(expression_contents(*expr)),
        },
{
    match expr {
        hcl::Expression::Null => Some(LiteralParts::Null),
        hcl::Expression::Bool(b) => Some(LiteralParts::Bool(*b)),
        hcl::Expression::Number(n) => Some(LiteralParts::Number(n)),
        hcl::Expression::String(s) => Some(LiteralParts::String(s)),
        hcl::Expression::Variable(v) => Some(LiteralParts::Variable(v.as_str())),
        _ => None,
    }
}

/// A number as an expression. One that is not finite has no value.
pub open spec fn number_expr(n: Option<JsonNumberView>) -> ExprView {
    match n {
        Some(n) => ExprView::Number(n),
        None => ExprView::Null,
    }
}

/// Whether an expression has no parts and no rendering of its own.
spec fn is_literal(e: ExprView) -> bool {
    e is Null || e is Bool || e is Number || e is String || e is Variable
}

/// An `hcl::Expression` with parts, taken apart one level deep.
enum CompoundParts<'a> {
    Array(&'a Vec<hcl::Expression>),
    Object(Vec<(&'a hcl::ObjectKey, &'a hcl::Expression)>),
    Template(&'a hcl::expr::TemplateExpr),
    Traversal(&'a hcl::Expression, &'a Vec<hcl::expr::TraversalOperator>),
    FuncCall(&'a str, &'a Vec<hcl::Expression>),
    Parenthesis(&'a hcl::Expression),
    Conditional(&'a hcl::Expression, &'a hcl::Expression),
    Other,
}

/// Tells the other variants of `hcl::Expression` apart. The entries of an object are those that
/// its `iter` gives, in its order.
#[verifier::external_body]
fn compound_parts(expr: &hcl::Expression) -> (r: CompoundParts<'_>)
    requires
        !is_literal(expression_contents(*expr)),
    ensures
        match r {
            CompoundParts::Array(items) => expression_contents(*expr) == ExprView::Array(
                expressions_contents(items@),
            ),
            CompoundParts::Object(entries) => expression_contents(*expr) == ExprView::Object(
                entries_contents(entries@),
            ),
            CompoundParts::Template(t) => expression_contents(*expr) == template_expr_contents(*t)
                && template_expr_contents(*t) is Template,
            CompoundParts::Traversal(base, ops) => expression_contents(*expr)
                matches ExprView::Traversal { base: b, operators, .. } && *b
                == expression_contents(*base) && operators == operators_contents(ops@),
            CompoundParts::FuncCall(name, args) => expression_contents(*expr)
                == (ExprView::FuncCall { name: name@, args: expressions_contents(args@) }),
            CompoundParts::Parenthesis(inner) => expression_contents(*expr)
                matches ExprView::Parenthesis(i) && *i == expression_contents(*inner),
            CompoundParts::Conditional(yes, no) => expression_contents(*expr)
                matches ExprView::Conditional { true_expr, false_expr, .. } && *true_expr
                == expression_contents(*yes) && *false_expr == expression_contents(*no),
            CompoundParts::Other => expression_contents(*expr) is Other,
        },
{
    match expr {
        hcl::Expression::Array(items) => CompoundParts::Array(items),
        hcl::Expression::Object(object) => CompoundParts::Object(object.iter().collect()),
        hcl::Expression::TemplateExpr(t) => CompoundParts::Template(t),
        hcl::Expression::Traversal(t) => CompoundParts::Traversal(&t.expr, &t.operators),
        hcl::Expression::FuncCall(f) => CompoundParts::FuncCall(f.name.as_str(), &f.args),
        hcl::Expression::Parenthesis(inner) => CompoundParts::Parenthesis(inner),
        hcl::Expression::Conditional(c) => CompoundParts::Conditional(&c.true_expr, &c.false_expr),
        _ => CompoundParts::Other,
    }
}

/// `hcl::Expression`'s `Display`: the expression as configuration source.
#[verifier::external_body]
fn expression_text(expr: &hcl::Expression) -> (r: String)
    ensures
        match expression_contents(*expr) {
            ExprView::Traversal { text, .. } => r@ == text,
            ExprView::Conditional { text, .. } => r@ == text,
            ExprView::Other { text } => r@ == text,
            _ => true,
        },
{
    expr.to_string()
}

/// Tells the variants of `hcl::ObjectKey` apart and renders each by its `Display`.
#[verifier::external_body]
fn lift_key(key: &hcl::ObjectKey) -> (r: EntryKey)
    ensures
        r@ == key_contents(*key),
{
    match key {
        hcl::ObjectKey::Identifier(name) => EntryKey::Identifier(name.to_string()),
        hcl::ObjectKey::Expression(expr) => EntryKey::Rendered(expr.to_string()),
        _ => EntryKey::Other,
    }
}

/// Tells the variant of `hcl::expr::TraversalOperator` that names an attribute from the others.
#[verifier::external_body]
fn lift_operator(op: &hcl::expr::TraversalOperator) -> (r: Step)
    ensures
        r@ == operator_contents(*op),
{
    match op {
        hcl::expr::TraversalOperator::GetAttr(name) => Step::GetAttr(name.to_string()),
        _ => Step::Other,
    }
}

/// Tells the variants of `hcl::expr::TemplateExpr` apart: whether the template stands in quotes,
/// and what stands between its delimiters, which takes the place of a rendering where there is none.
#[verifier::external_body]
fn template_source(template: &hcl::expr::TemplateExpr) -> (r: (bool, String))
    ensures
        template_expr_contents(*template) matches ExprView::Template { quoted, raw, text, .. } ==> (
        r.0 == quoted && r.1@ == raw && (quoted && !unescapable(raw) ==> r.1@ == text)),
{
    match template {
        hcl::expr::TemplateExpr::QuotedString(s) => (true, s.clone()),
        hcl::expr::TemplateExpr::Heredoc(h) => (false, h.template.clone()),
    }
}

/// `hcl::expr::TemplateExpr`'s `Display`: the template with its escapes resolved, where it stands in
/// quotes and each of them is one that `hcl` knows, and else as it is.
#[verifier::external_body]
fn template_text(template: &hcl::expr::TemplateExpr) -> (r: String)
    requires
        template_expr_contents(*template) matches ExprView::Template { quoted, raw, .. }
            && (quoted ==> unescapable(raw)),
    ensures
        template_expr_contents(*template) matches ExprView::Template {
            quoted,
            raw,
            text,
            ..
        } ==> r@ == text && (!quoted || !raw.contains('\\') ==> r@ == raw),
{
    template.to_string()
}

/// `hcl::template::Template::from_expr`: the elements of a template, where it is well formed.
#[verifier::external_body]
fn read_template(template: &hcl::expr::TemplateExpr) -> (r: Option<hcl::template::Template>)
    requires
        template_expr_contents(*template) matches ExprView::Template { raw, .. }
            && readable_template(raw),
    ensures
        template_expr_contents(*template) matches ExprView::Template { elements, .. } ==> (
        match r {
            Some(t) => elements == Some(template_contents(t)),
            None => elements is None,
        }),
{
    hcl::template::Template::from_expr(template).ok()
}

/// `hcl::template::Template::elements`: the elements of a template, in order.
#[verifier::external_body]
fn template_parts(template: &hcl::template::Template) -> (r: Vec<&hcl::template::Element>)
    ensures
        elements_contents(r@) == template_contents(*template),
{
    template.elements().iter().collect()
}

/// An `hcl::template::Element` taken apart, one level deep.
enum PieceParts<'a> {
    Literal,
    Interpolation(&'a hcl::Expression),
    If(&'a hcl::Expression, &'a hcl::template::Template, Option<&'a hcl::template::Template>),
    For(&'a hcl::Expression, &'a hcl::template::Template),
}

/// The contents of a template that may be missing.
spec fn optional_template(template: Option<&hcl::template::Template>) -> Option<Seq<PieceView>> {
    match template {
        Some(t) => Some(template_contents(*t)),
        None => None,
    }
}

/// Tells the variants of `hcl::template::Element` and of `hcl::template::Directive` apart.
#[verifier::external_body]
fn element_parts(element: &hcl::template::Element) -> (r: PieceParts<'_>)
    ensures
        element_contents(*element) == match r {
            PieceParts::Literal => PieceView::Literal,
            PieceParts::Interpolation(e) => PieceView::Interpolation(expression_contents(*e)),
            PieceParts::If(condition, yes, no) => (PieceView::If {
                condition: expression_contents(*condition),
                true_part: template_contents(*yes),
                false_part: optional_template(no),
            }),
            PieceParts::For(collection, body) => (PieceView::For {
                collection: expression_contents(*collection),
                body: template_contents(*body),
            }),
        },
{
    match element {
        hcl::template::Element::Literal(_) => PieceParts::Literal,
        hcl::template::Element::Interpolation(i) => PieceParts::Interpolation(&i.expr),
        hcl::template::Element::Directive(hcl::template::Directive::If(d)) => {
            PieceParts::If(&d.cond_expr, &d.true_template, d.false_template.as_ref())
        },
        hcl::template::Element::Directive(hcl::template::Directive::For(d)) => {
            PieceParts::For(&d.collection_expr, &d.template)
        },
    }
}

/// `hcl::Number::as_i64`: the number, where it is an integer of 64 bits with a sign.
#[verifier::external_body]
fn number_int(n: &hcl::Number) -> (r: Option<i64>)
    ensures
        match r {
            Some(i) => hcl_number_contents(*n) == Some(JsonNumberView::from_int(i as int)),
            None => hcl_number_contents(*n) matches Some(v) ==> v is Float,
        },
{
    n.as_i64()
}

/// `hcl::Number::as_f64` and `serde_json::Number::from_f64`: the nearest float, where it is finite.
#[verifier::external_body]
fn number_float(n: &hcl::Number) -> (r: Option<serde_json::Number>)
    ensures
        match r {
            Some(f) => hcl_number_contents(*n) matches Some(v) && (v is Float ==> number_contents(f)
                == v),
            None => hcl_number_contents(*n) is None,
        },
{
    serde_json::Number::from_f64(n.as_f64()?)
}

/// Whether `hcl` can take every template in an expression apart and, where the expression is one
/// whose value is asked for, render those that the value is made of.
pub open spec fn readable_expr(e: ExprView, valued: bool) -> bool
    decreases e,
    via readable_expr_decreases
{
    match e {
        ExprView::Array(items) => forall|i: int|
            0 <= i < items.len() ==> readable_expr(#[trigger] items[i], valued),
        ExprView::Object(entries) => forall|i: int|
            0 <= i < entries.len() ==> readable_expr((#[trigger] entries[i]).1, valued),
        ExprView::Template { quoted, raw, elements, .. } => readable_template(raw) && (valued
            && quoted ==> unescapable(raw)) && (match elements {
            Some(list) => forall|i: int|
                0 <= i < list.len() ==> readable_piece(#[trigger] list[i]),
            None => true,
        }),
        ExprView::Traversal { base, .. } => readable_expr(*base, false),
        ExprView::FuncCall { name, args } => forall|i: int|
            0 <= i < args.len() ==> readable_expr(
                #[trigger] args[i],
                valued && is_jsonencode(name, args),
            ),
        ExprView::Parenthesis(inner) => readable_expr(*inner, valued),
        ExprView::Conditional { true_expr, false_expr, .. } => readable_expr(*true_expr, false)
            && readable_expr(*false_expr, false),
        _ => true,
    }
}

#[via_fn]
proof fn readable_expr_decreases(e: ExprView, valued: bool) {
    if let ExprView::Object(entries) = e {
        assert forall|i: int| 0 <= i < entries.len() implies decreases_to!(
            e => (#[trigger] entries[i]).1
        ) by {
            assert(decreases_to!(entries => entries[i]));
            assert(decreases_to!(entries[i] => entries[i].1));
        }
    }
}

/// Whether `hcl` can take every template in a piece of a template apart.
pub open spec fn readable_piece(e: PieceView) -> bool
    decreases e,
{
    match e {
        PieceView::Literal => true,
        PieceView::Interpolation(inner) => readable_expr(inner, false),
        PieceView::If { condition, true_part, false_part } => {
            &&& readable_expr(condition, false)
            &&& forall|i: int|
                0 <= i < true_part.len() ==> readable_piece(#[trigger] true_part[i])
            &&& match false_part {
                Some(list) => forall|i: int|
                    0 <= i < list.len() ==> readable_piece(#[trigger] list[i]),
                None => true,
            }
        },
        PieceView::For { collection, body } => readable_expr(collection, false) && (forall|i: int|
            0 <= i < body.len() ==> readable_piece(#[trigger] body[i])),
    }
}

/// Whether `hcl` can take every template in an item apart and render those that values are made of.
pub open spec fn readable_item(item: ItemView) -> bool
    decreases item,
{
    match item {
        ItemView::Attribute { expr, .. } => readable_expr(expr, true),
        ItemView::Block { body, .. } => forall|i: int|
            0 <= i < body.len() ==> readable_item(#[trigger] body[i]),
    }
}

/// Whether every item of a body is readable.
pub open spec fn readable_body(body: Seq<ItemView>) -> bool {
    forall|i: int| 0 <= i < body.len() ==> readable_item(#[trigger] body[i])
}

/// A number as this library holds it. One that is not finite has no value.
fn lift_hcl_number(n: &hcl::Number) -> (r: Expr)
    ensures
        r@ == number_expr(hcl_number_contents(*n)),
{
    broadcast use lemma_expression_model;

    if let Some(i) = number_int(n) {
        return Expr::Number(JsonNumber::from_int(i));
    }
    match number_float(n) {
        Some(float) => Expr::Number(lift_number(&float)),
        None => Expr::Null,
    }
}

/// The expressions of a list as this library holds them, if all their templates are readable.
fn lift_list(items: &Vec<hcl::Expression>, valued: bool) -> (r: Option<Vec<Expr>>)
    ensures
        match r {
            Some(out) => expression_views(out@) == expressions_contents(items@) && (forall|i: int|
                0 <= i < items@.len() ==> readable_expr(
                    #[trigger] expressions_contents(items@)[i],
                    valued,
                )),
            None => exists|i: int|
                0 <= i < items@.len() && !readable_expr(
                    #[trigger] expressions_contents(items@)[i],
                    valued,
                ),
        },
    decreases expressions_contents(items@), 0nat,
{
    let ghost views = expressions_contents(items@);
    let mut out: Vec<Expr> = Vec::new();
    let mut i: usize = 0;
    while i < items.len()
        invariant
            views == expressions_contents(items@),
            i <= items@.len(),
            out@.len() == i,
            forall|k: int| 0 <= k < i ==> (#[trigger] out@[k])@ == views[k],
            forall|k: int| 0 <= k < i ==> readable_expr(#[trigger] views[k], valued),
        decreases items@.len() - i,
    {
        proof {
            assert(views[i as int] == expression_contents(items@[i as int]));
            assert(decreases_to!(views => views[i as int]));
        }
        match lift_expression(&items[i], valued) {
            Some(item) => out.push(item),
            None => {
                return None;
            },
        }
        i = i + 1;
    }
    assert(expression_views(out@) =~= views);
    Some(out)
}

/// An expression as this library holds it, if all its templates are readable.
fn lift_expression(expr: &hcl::Expression, valued: bool) -> (r: Option<Expr>)
    ensures
        match r {
            Some(e) => e@ == expression_contents(*expr) && readable_expr(
                expression_contents(*expr),
                valued,
            ),
            None => !readable_expr(expression_contents(*expr), valued),
        },
    decreases expression_contents(*expr), 1nat,
{
    broadcast use lemma_expression_model;

    let ghost whole = expression_contents(*expr);
    if let Some(parts) = literal_parts(expr) {
        return Some(
            match parts {
                LiteralParts::Null => Expr::Null,
                LiteralParts::Bool(b) => Expr::Bool(b),
                LiteralParts::Number(n) => lift_hcl_number(n),
                LiteralParts::String(s) => Expr::String(s.clone()),
                LiteralParts::Variable(name) => Expr::Variable(name.to_string()),
            },
        );
    }
    match compound_parts(expr) {
        CompoundParts::Array(items) => {
            assert(decreases_to!(whole => whole->Array_0));
            match lift_list(items, valued) {
                Some(out) => Some(Expr::Array(out)),
                None => None,
            }
        },
        CompoundParts::Object(entries) => {
            let ghost views = entries_contents(entries@);
            let mut out: Vec<(EntryKey, Expr)> = Vec::new();
            let mut i: usize = 0;
            while i < entries.len()
                invariant
                    whole == expression_contents(*expr),
                    whole == ExprView::Object(views),
                    views == entries_contents(entries@),
                    i <= entries@.len(),
                    out@.len() == i,
                    forall|k: int|
                        0 <= k < i ==> ((#[trigger] out@[k]).0@, out@[k].1@) == views[k],
                    forall|k: int| 0 <= k < i ==> readable_expr((#[trigger] views[k]).1, valued),
                decreases entries@.len() - i,
            {
                proof {
                    let entry = views[i as int];
                    assert(entry == (
                        key_contents(*entries@[i as int].0),
                        expression_contents(*entries@[i as int].1),
                    ));
                    assert(decreases_to!(whole => whole->Object_0[i as int]));
                    assert(decreases_to!(entry => entry.1));
                }
                match lift_expression(entries[i].1, valued) {
                    Some(value) => out.push((lift_key(entries[i].0), value)),
                    None => {
                        assert(!readable_expr(views[i as int].1, valued));
                        return None;
                    },
                }
                i = i + 1;
            }
            assert(entry_views(out@) =~= views);
            Some(Expr::Object(out))
        },
        CompoundParts::Template(template) => lift_template(template, valued),
        CompoundParts::Traversal(base, ops) => {
            let mut operators: Vec<Step> = Vec::new();
            let mut i: usize = 0;
            while i < ops.len()
                invariant
                    i <= ops@.len(),
                    operators@.len() == i,
                    forall|k: int|
                        0 <= k < i ==> (#[trigger] operators@[k])@ == operator_contents(ops@[k]),
                decreases ops@.len() - i,
            {
                operators.push(lift_operator(&ops[i]));
                i = i + 1;
            }
            assert(operator_views(operators@) =~= operators_contents(ops@));
            match lift_expression(base, false) {
                Some(inner) => Some(
                    Expr::Traversal {
                        base: Box::new(inner),
                        operators,
                        text: expression_text(expr),
                    },
                ),
                None => None,
            }
        },
        CompoundParts::FuncCall(name, args) => {
            assert(decreases_to!(whole => whole->args));
            let unwrapped = valued && same_text(name, "jsonencode") && args.len() == 1;
            match lift_list(args, unwrapped) {
                Some(out) => Some(Expr::FuncCall { name: name.to_string(), args: out }),
                None => None,
            }
        },
        CompoundParts::Parenthesis(inner) => {
            match lift_expression(inner, valued) {
                Some(e) => Some(Expr::Parenthesis(Box::new(e))),
                None => None,
            }
        },
        CompoundParts::Conditional(yes, no) => {
            match (lift_expression(yes, false), lift_expression(no, false)) {
                (Some(true_expr), Some(false_expr)) => Some(
                    Expr::Conditional {
                        true_expr: Box::new(true_expr),
                        false_expr: Box::new(false_expr),
                        text: expression_text(expr),
                    },
                ),
                _ => None,
            }
        },
        CompoundParts::Other => Some(Expr::Other { text: expression_text(expr) }),
    }
}

/// A template as this library holds it, if it and all the templates inside it are readable.
fn lift_template(template: &hcl::expr::TemplateExpr, valued: bool) -> (r: Option<Expr>)
    requires
        template_expr_contents(*template) is Template,
    ensures
        match r {
            Some(e) => e@ == template_expr_contents(*template) && readable_expr(
                template_expr_contents(*template),
                valued,
            ),
            None => !readable_expr(template_expr_contents(*template), valued),
        },
    decreases template_expr_contents(*template), 0nat,
{
    broadcast use lemma_expression_model;

    let ghost whole = template_expr_contents(*template);
    let (quoted, raw) = template_source(template);
    if !template_is_readable(raw.as_str()) {
        return None;
    }
    let text = if !quoted || text_is_unescapable(raw.as_str()) {
        template_text(template)
    } else if valued {
        return None;
    } else {
        raw.clone()
    };
    let elements = match read_template(template) {
        Some(parsed) => {
            assert(decreases_to!(whole => whole->elements->Some_0));
            match lift_pieces(&parsed) {
                Some(list) => Some(list),
                None => {
                    return None;
                },
            }
        },
        None => None,
    };
    Some(Expr::Template { quoted, raw, text, elements })
}

/// The elements of a template as this library holds them, if all the templates inside them are
/// readable.
fn lift_pieces(template: &hcl::template::Template) -> (r: Option<Vec<Piece>>)
    ensures
        match r {
            Some(out) => element_views(out@) == template_contents(*template) && (forall|i: int|
                0 <= i < template_contents(*template).len() ==> readable_piece(
                    #[trigger] template_contents(*template)[i],
                )),
            None => exists|i: int|
                0 <= i < template_contents(*template).len() && !readable_piece(
                    #[trigger] template_contents(*template)[i],
                ),
        },
    decreases template_contents(*template), 0nat,
{
    let ghost views = template_contents(*template);
    let list = template_parts(template);
    assert(elements_contents(list@).len() == list@.len());
    let mut out: Vec<Piece> = Vec::new();
    let mut i: usize = 0;
    while i < list.len()
        invariant
            views == template_contents(*template),
            views == elements_contents(list@),
            views.len() == list@.len(),
            i <= list@.len(),
            out@.len() == i,
            forall|k: int| 0 <= k < i ==> (#[trigger] out@[k])@ == views[k],
            forall|k: int| 0 <= k < i ==> readable_piece(#[trigger] views[k]),
        decreases list@.len() - i,
    {
        proof {
            assert(views[i as int] == element_contents(*list@[i as int]));
            assert(decreases_to!(views => views[i as int]));
        }
        match lift_piece(list[i]) {
            Some(piece) => out.push(piece),
            None => {
                return None;
            },
        }
        i = i + 1;
    }
    assert(element_views(out@) =~= views);
    Some(out)
}

/// An element of a template as this library holds it, if all the templates inside it are readable.
fn lift_piece(element: &hcl::template::Element) -> (r: Option<Piece>)
    ensures
        match r {
            Some(e) => e@ == element_contents(*element) && readable_piece(
                element_contents(*element),
            ),
            None => !readable_piece(element_contents(*element)),
        },
    decreases element_contents(*element), 0nat,
{
    broadcast use lemma_element_model;

    let ghost whole = element_contents(*element);
    match element_parts(element) {
        PieceParts::Literal => Some(Piece::Literal),
        PieceParts::Interpolation(inner) => {
            assert(decreases_to!(whole => whole->Interpolation_0));
            match lift_expression(inner, false) {
                Some(e) => Some(Piece::Interpolation(e)),
                None => None,
            }
        },
        PieceParts::If(condition, yes, no) => {
            assert(decreases_to!(whole => whole->condition));
            let condition = match lift_expression(condition, false) {
                Some(e) => e,
                None => {
                    return None;
                },
            };
            assert(decreases_to!(whole => whole->true_part));
            let true_part = match lift_pieces(yes) {
                Some(list) => list,
                None => {
                    return None;
                },
            };
            let false_part = match no {
                Some(template) => {
                    assert(decreases_to!(whole => whole->false_part->Some_0));
                    match lift_pieces(template) {
                        Some(list) => Some(list),
                        None => {
                            return None;
                        },
                    }
                },
                None => None,
            };
            Some(Piece::If { condition, true_part, false_part })
        },
        PieceParts::For(collection, template) => {
            assert(decreases_to!(whole => whole->collection));
            let collection = match lift_expression(collection, false) {
                Some(e) => e,
                None => {
                    return None;
                },
            };
            assert(decreases_to!(whole => whole->body));
            match lift_pieces(template) {
                Some(body) => Some(Piece::For { collection, body }),
                None => None,
            }
        },
    }
}

/// A body as this library holds it, if all its items are readable.
fn lift_body(body: &hcl::Body) -> (r: Option<Vec<Item>>)
    ensures
        match r {
            Some(out) => body_view(out@) == body_contents(*body) && readable_body(
                body_contents(*body),
            ),
            None => !readable_body(body_contents(*body)),
        },
    decreases body_contents(*body), 0nat,
{
    let ghost views = body_contents(*body);
    let list = body_parts(body);
    assert(structures_contents(list@).len() == list@.len());
    let mut out: Vec<Item> = Vec::new();
    let mut i: usize = 0;
    while i < list.len()
        invariant
            views == body_contents(*body),
            views == structures_contents(list@),
            views.len() == list@.len(),
            i <= list@.len(),
            out@.len() == i,
            forall|k: int| 0 <= k < i ==> (#[trigger] out@[k])@ == views[k],
            forall|k: int| 0 <= k < i ==> readable_item(#[trigger] views[k]),
        decreases list@.len() - i,
    {
        proof {
            assert(views[i as int] == structure_contents(*list@[i as int]));
            assert(decreases_to!(views => views[i as int]));
        }
        match lift_item(list[i]) {
            Some(item) => out.push(item),
            None => {
                assert(!readable_item(views[i as int]));
                return None;
            },
        }
        i = i + 1;
    }
    assert(body_view(out@) =~= views);
    Some(out)
}

/// An item as this library holds it, if it is readable.
fn lift_item(structure: &hcl::Structure) -> (r: Option<Item>)
    ensures
        match r {
            Some(item) => item@ == structure_contents(*structure) && readable_item(
                structure_contents(*structure),
            ),
            None => !readable_item(structure_contents(*structure)),
        },
    decreases structure_contents(*structure), 0nat,
{
    let ghost view = structure_contents(*structure);
    match structure_parts(structure) {
        StructureParts::Attribute(key, expr) => match lift_expression(expr, true) {
            Some(e) => Some(Item::Attribute(Attribute { key: key.to_string(), expr: e })),
            None => None,
        },
        StructureParts::Block(identifier, labels, inner) => {
            assert(decreases_to!(view => view->body));
            let mut names: Vec<String> = Vec::new();
            let mut j: usize = 0;
            while j < labels.len()
                invariant
                    j <= labels@.len(),
                    names@.len() == j,
                    forall|k: int|
                        0 <= k < j ==> (#[trigger] names@[k])@ == label_contents(labels@[k]),
                decreases labels@.len() - j,
            {
                names.push(label_text(&labels[j]).to_string());
                j = j + 1;
            }
            assert(texts(names@) =~= labels_contents(labels@));
            match lift_body(inner) {
                Some(items) => {
                    let item = Item::Block(
                        Block { identifier: identifier.to_string(), labels: names, body: items },
                    );
                    proof {
                        lemma_structure_model(item);
                    }
                    Some(item)
                },
                None => None,
            }
        },
    }
}

/// Whether an item declares a resource. Nothing in other items is ever looked at.
pub open spec fn is_declaration(item: ItemView) -> bool {
    resource_in(Seq::empty(), item) is Some
}

/// Whether every item of a body that declares a resource is readable.
pub open spec fn readable_resources(body: Seq<ItemView>) -> bool {
    forall|i: int|
        0 <= i < body.len() && is_declaration(#[trigger] body[i]) ==> readable_item(body[i])
}

/// The first `n` items of a body, without those that declare no resource and are not readable.
pub open spec fn kept_items(body: Seq<ItemView>, n: nat) -> Seq<ItemView>
    decreases n,
{
    if n == 0 || n > body.len() {
        Seq::empty()
    } else {
        let before = kept_items(body, (n - 1) as nat);
        if is_declaration(body[n - 1]) || readable_item(body[n - 1]) {
            before.push(body[n - 1])
        } else {
            before
        }
    }
}

/// Whether a structure declares a resource.
fn declares_resource(structure: &hcl::Structure) -> (r: bool)
    ensures
        r == is_declaration(structure_contents(*structure)),
{
    match structure_parts(structure) {
        StructureParts::Attribute(..) => false,
        StructureParts::Block(identifier, labels, _) => {
            assert(labels_contents(labels@).len() == labels@.len());
            same_text(identifier, "resource") && labels.len() >= 2
        },
    }
}

/// A configuration file: its path and what it holds.
#[derive(Debug)]
pub struct ParsedFile {
    pub path: String,
    pub body: Vec<Item>,
}

/// Why a file could not be read.
#[derive(Debug)]
pub enum ParseError {
    /// The file is not well formed. `message` says where and why.
    Syntax { message: String },
    /// The file is well formed, but a resource holds a template that `hcl` cannot be given.
    UnreadableTemplate,
}

/// Takes over the file at `path`, which `hcl` has read already. An item that declares no resource is
/// left out where it holds a template that `hcl` cannot be given.
pub fn from_body(path: &str, body: &hcl::Body) -> (r: Result<ParsedFile, ParseError>)
    ensures
        match r {
            Ok(file) => file.path@ == path@ && body_view(file.body@) == kept_items(
                body_contents(*body),
                body_contents(*body).len(),
            ) && readable_resources(body_contents(*body)),
            Err(e) => e is UnreadableTemplate && !readable_resources(body_contents(*body)),
        },
{
    let ghost views = body_contents(*body);
    let list = body_parts(body);
    assert(structures_contents(list@).len() == list@.len());
    let mut out: Vec<Item> = Vec::new();
    let mut i: usize = 0;
    assert(body_view(out@) =~= kept_items(views, 0));
    while i < list.len()
        invariant
            views == body_contents(*body),
            views == structures_contents(list@),
            views.len() == list@.len(),
            i <= list@.len(),
            body_view(out@) == kept_items(views, i as nat),
            forall|k: int|
                0 <= k < i && is_declaration(#[trigger] views[k]) ==> readable_item(views[k]),
        decreases list@.len() - i,
    {
        let ghost before = body_view(out@);
        assert(views[i as int] == structure_contents(*list@[i as int]));
        match lift_item(list[i]) {
            Some(item) => {
                out.push(item);
                assert(body_view(out@) =~= before.push(views[i as int]));
            },
            None => {
                if declares_resource(list[i]) {
                    return Err(ParseError::UnreadableTemplate);
                }
            },
        }
        i = i + 1;
    }
    Ok(ParsedFile { path: path.to_string(), body: out })
}

/// Reads the file at `path`, whose text is `src`.
pub fn parse_source(path: &str, src: &str) -> (r: Result<ParsedFile, ParseError>)
    requires
        readable(src@),
    ensures
        match r {
            Ok(file) => file.path@ == path@ && (hcl_document(src@) matches Ok(body) && body_view(
                file.body@,
            ) == kept_items(body, body.len()) && readable_resources(body)),
            Err(ParseError::Syntax { message }) => hcl_document(src@) == Err::<Seq<ItemView>, _>(
                message@,
            ),
            Err(ParseError::UnreadableTemplate) => hcl_document(src@) matches Ok(body)
                && !readable_resources(body),
        },
{
    match read_body(src) {
        Ok(body) => from_body(path, &body),
        Err(e) => Err(ParseError::Syntax { message: error_text(&e) }),
    }
}

/// A file is kept whole where `hcl` can be given all its templates.
pub proof fn law_readable_files_are_kept_whole(body: Seq<ItemView>)
    requires
        readable_body(body),
    ensures
        kept_items(body, body.len()) == body,
{
    lemma_kept_whole(body, body.len());
    assert(body.take(body.len() as int) =~= body);
}

proof fn lemma_kept_whole(body: Seq<ItemView>, n: nat)
    requires
        readable_body(body),
        n <= body.len(),
    ensures
        kept_items(body, n) == body.take(n as int),
    decreases n,
{
    if n > 0 {
        lemma_kept_whole(body, (n - 1) as nat);
        assert(body.take(n as int) =~= body.take(n - 1).push(body[n - 1]));
    } else {
        assert(body.take(0) =~= Seq::empty());
    }
}

/// What is left out of a file declares no resource: the resources of the file are those of what was
/// read.
pub proof fn law_no_resource_is_left_out(path: Seq<char>, body: Seq<ItemView>)
    ensures
        ({
            let kept = kept_items(body, body.len());
            file_resources(FileView { path, body: kept }, kept.len()) == file_resources(
                FileView { path, body },
                body.len(),
            )
        }),
{
    lemma_kept_resources(path, body, body.len());
}

proof fn lemma_kept_resources(path: Seq<char>, body: Seq<ItemView>, n: nat)
    requires
        n <= body.len(),
    ensures
        ({
            let kept = kept_items(body, n);
            file_resources(FileView { path, body: kept }, kept.len()) == file_resources(
                FileView { path, body },
                n,
            )
        }),
    decreases n,
{
    if n > 0 {
        lemma_kept_resources(path, body, (n - 1) as nat);
        let before = kept_items(body, (n - 1) as nat);
        let kept = kept_items(body, n);
        if kept != before {
            lemma_more_items(path, before, kept, before.len());
        }
    }
}

proof fn lemma_more_items(path: Seq<char>, some: Seq<ItemView>, more: Seq<ItemView>, n: nat)
    requires
        n <= some.len() <= more.len(),
        forall|i: int| 0 <= i < some.len() ==> some[i] == #[trigger] more[i],
    ensures
        file_resources(FileView { path, body: more }, n) == file_resources(
            FileView { path, body: some },
            n,
        ),
    decreases n,
{
    if n > 0 {
        lemma_more_items(path, some, more, (n - 1) as nat);
    }
}

} // verus!
