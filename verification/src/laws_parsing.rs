//! What is taken over of a file that has been read: everything that can be, item by item.

use crate::lexical::{readable_template, unescapable};
use crate::parser::{
    is_declaration,
    kept_items,
    readable_body,
    readable_expr,
    readable_item,
    readable_piece,
    readable_resources,
};
use crate::syntax::{EntryKeyView, ExprView, ItemView, PieceView, StepView};
use vstd::prelude::*;

verus! {

proof fn lemma_kept_prefix(body: Seq<ItemView>, item: ItemView, n: nat)
    requires
        n <= body.len(),
    ensures
        kept_items(body.push(item), n) == kept_items(body, n),
    decreases n,
{
    if n > 0 {
        lemma_kept_prefix(body, item, (n - 1) as nat);
        assert(body.push(item)[n - 1] == body[n - 1]);
    }
}

/// Whether an item declares a resource.
pub open spec fn is_resource(item: ItemView) -> bool {
    item matches ItemView::Block { identifier, labels, .. } && identifier == "resource"@
        && labels.len() >= 2
}

/// One more item of a file is kept behind the others if it is readable or declares a resource, and the
/// file is refused exactly if one that declares a resource is not readable.
pub proof fn law_items_are_kept(body: Seq<ItemView>, item: ItemView)
    ensures
        kept_items(Seq::empty(), 0) == Seq::<ItemView>::empty(),
        kept_items(body.push(item), body.len() + 1) == if is_resource(item) || readable_item(item) {
            kept_items(body, body.len()).push(item)
        } else {
            kept_items(body, body.len())
        },
        readable_resources(Seq::empty()),
        readable_resources(body.push(item)) <==> (readable_resources(body) && (is_resource(item)
            ==> readable_item(item))),
{
    let more = body.push(item);
    lemma_kept_prefix(body, item, body.len());
    assert(more[body.len() as int] == item);
    assert(is_declaration(item) <==> is_resource(item));
    if readable_resources(more) {
        assert forall|i: int| 0 <= i < body.len() && is_declaration(#[trigger] body[i]) implies readable_item(
        body[i]) by {
            assert(more[i] == body[i]);
        }
    }
    if readable_resources(body) && (is_resource(item) ==> readable_item(item)) {
        assert forall|i: int| 0 <= i < more.len() && is_declaration(#[trigger] more[i]) implies readable_item(
        more[i]) by {
            if i < body.len() {
                assert(more[i] == body[i]);
            }
        }
    }
}

/// An attribute is readable exactly if its expression is, and a block exactly if each of its items is.
pub proof fn law_items_are_readable(
    key: Seq<char>,
    e: ExprView,
    identifier: Seq<char>,
    labels: Seq<Seq<char>>,
    body: Seq<ItemView>,
)
    ensures
        readable_item(ItemView::Attribute { key, expr: e }) <==> readable_expr(e, true),
        readable_item(ItemView::Block { identifier, labels, body }) <==> readable_body(body),
{
    let block = ItemView::Block { identifier, labels, body };
    reveal_with_fuel(readable_item, 2);
    if readable_item(block) {
        assert forall|i: int| 0 <= i < body.len() implies readable_item(#[trigger] body[i]) by {
            assert(block->Block_body[i] == body[i]);
        }
    }
}

/// An expression without parts that is no template is readable. One with parts is readable exactly if
/// its parts are.
pub proof fn law_expressions_are_readable(
    e: ExprView,
    x: ExprView,
    y: ExprView,
    operators: Seq<StepView>,
    text: Seq<char>,
    valued: bool,
)
    ensures
        e is Null || e is Bool || e is Number || e is String || e is Variable || e is Other
            ==> readable_expr(e, valued),
        readable_expr(ExprView::Parenthesis(Box::new(x)), valued) <==> readable_expr(x, valued),
        readable_expr(ExprView::Traversal { base: Box::new(x), operators, text }, valued)
            <==> readable_expr(x, false),
        readable_expr(
            ExprView::Conditional { true_expr: Box::new(x), false_expr: Box::new(y), text },
            valued,
        ) <==> (readable_expr(x, false) && readable_expr(y, false)),
{
    reveal_with_fuel(readable_expr, 2);
}

/// A list is readable exactly if each of its items is, a call exactly if each of its arguments is, an
/// object exactly if each of its values is.
pub proof fn law_parts_are_readable(
    items: Seq<ExprView>,
    x: ExprView,
    name: Seq<char>,
    entries: Seq<(EntryKeyView, ExprView)>,
    valued: bool,
)
    ensures
        readable_expr(ExprView::Array(items), valued) <==> forall|i: int|
            0 <= i < items.len() ==> readable_expr(#[trigger] items[i], valued),
        readable_expr(ExprView::Object(entries), valued) <==> forall|i: int|
            0 <= i < entries.len() ==> readable_expr((#[trigger] entries[i]).1, valued),
        readable_expr(ExprView::FuncCall { name: "jsonencode"@, args: seq![x] }, valued)
            <==> readable_expr(x, valued),
        name != "jsonencode"@ || items.len() != 1 ==> (readable_expr(
            ExprView::FuncCall { name, args: items },
            valued,
        ) <==> forall|i: int| 0 <= i < items.len() ==> readable_expr(#[trigger] items[i], false)),
{
    lemma_readable_list(items, valued);
    lemma_readable_object(entries, valued);
    lemma_readable_call(name, items, valued);
    let one = seq![x];
    lemma_readable_call("jsonencode"@, one, valued);
    assert(one[0] == x);
}

proof fn lemma_readable_list(items: Seq<ExprView>, valued: bool)
    ensures
        readable_expr(ExprView::Array(items), valued) <==> forall|i: int|
            0 <= i < items.len() ==> readable_expr(#[trigger] items[i], valued),
{
    reveal_with_fuel(readable_expr, 2);
    let whole = ExprView::Array(items);
    if readable_expr(whole, valued) {
        assert forall|i: int| 0 <= i < items.len() implies readable_expr(
            #[trigger] items[i],
            valued,
        ) by {
            assert(whole->Array_0[i] == items[i]);
        }
    }
}

proof fn lemma_readable_object(entries: Seq<(EntryKeyView, ExprView)>, valued: bool)
    ensures
        readable_expr(ExprView::Object(entries), valued) <==> forall|i: int|
            0 <= i < entries.len() ==> readable_expr((#[trigger] entries[i]).1, valued),
{
    reveal_with_fuel(readable_expr, 2);
    let whole = ExprView::Object(entries);
    if readable_expr(whole, valued) {
        assert forall|i: int| 0 <= i < entries.len() implies readable_expr(
            (#[trigger] entries[i]).1,
            valued,
        ) by {
            assert(whole->Object_0[i] == entries[i]);
        }
    }
}

proof fn lemma_readable_call(name: Seq<char>, args: Seq<ExprView>, valued: bool)
    ensures
        readable_expr(ExprView::FuncCall { name, args }, valued) <==> forall|i: int|
            0 <= i < args.len() ==> readable_expr(
                #[trigger] args[i],
                valued && name == "jsonencode"@ && args.len() == 1,
            ),
{
    reveal_with_fuel(readable_expr, 2);
    let whole = ExprView::FuncCall { name, args };
    let inner = valued && name == "jsonencode"@ && args.len() == 1;
    if readable_expr(whole, valued) {
        assert forall|i: int| 0 <= i < args.len() implies readable_expr(
            #[trigger] args[i],
            inner,
        ) by {
            assert(whole->args[i] == args[i]);
        }
    }
}

/// A template is readable exactly if its text is, with its escapes where its value is asked for, and
/// each of its pieces is.
pub proof fn law_templates_are_readable(
    quoted: bool,
    raw: Seq<char>,
    text: Seq<char>,
    list: Seq<PieceView>,
    valued: bool,
)
    ensures
        readable_expr(ExprView::Template { quoted, raw, text, elements: Some(list) }, valued) <==> (
        readable_template(raw) && (valued && quoted ==> unescapable(raw)) && forall|i: int|
            0 <= i < list.len() ==> readable_piece(#[trigger] list[i])),
        readable_expr(ExprView::Template { quoted, raw, text, elements: None }, valued) <==> (
        readable_template(raw) && (valued && quoted ==> unescapable(raw))),
{
    reveal_with_fuel(readable_expr, 2);
    let whole = ExprView::Template { quoted, raw, text, elements: Some(list) };
    if readable_expr(whole, valued) {
        assert forall|i: int| 0 <= i < list.len() implies readable_piece(#[trigger] list[i]) by {
            assert(whole->elements->Some_0[i] == list[i]);
        }
    }
}

} // verus!
