//! Which references an expression makes and what it comes to as a value, by its form.

use crate::expr::{
    TraversalRefView,
    arguments_refs,
    element_refs,
    elements_refs,
    entries_refs,
    entries_value,
    entry_path,
    expr_unresolved,
    expr_value,
    items_refs,
    leading_names,
    refs,
    traversal_path,
    traversal_refs,
};
use crate::json::{JsonNumberView, JsonView, law_lookup_after_insert, lemma_key_from, with_entry};
use crate::laws_text::{holds_char, law_parts_are_set_apart};
use crate::syntax::{EntryKeyView, ExprView, PieceView, StepView};
use crate::text::{decimal, joined, occurs, split};
use vstd::prelude::*;

verus! {

/// A traversal from a variable through at least one name.
pub open spec fn traversal(
    root: Seq<char>,
    name: Seq<char>,
    rest: Seq<StepView>,
    text: Seq<char>,
) -> ExprView {
    ExprView::Traversal {
        base: Box::new(ExprView::Variable(root)),
        operators: seq![StepView::GetAttr(name)] + rest,
        text,
    }
}

proof fn lemma_first_two(root: Seq<char>, name: Seq<char>, names: Seq<Seq<char>>)
    requires
        !holds_char(root, '.'),
        !holds_char(name, '.'),
    ensures
        split(joined(seq![root, name] + names, "."@), '.').len() >= 2,
        split(joined(seq![root, name] + names, "."@), '.')[0] == root,
        split(joined(seq![root, name] + names, "."@), '.')[1] == name,
    decreases names.len(),
{
    let all = seq![root, name] + names;
    let tail = lemma_joined_tail(root, name, names);
    let whole = joined(all, "."@);
    assert(whole == root.push('.') + (name + tail));
    law_parts_are_set_apart(root, name + tail, '.');
    if tail.len() == 0 {
        assert(name + tail =~= name);
        law_parts_are_set_apart(name, name, '.');
    } else {
        assert(name + tail =~= name.push('.') + tail.skip(1));
        law_parts_are_set_apart(name, tail.skip(1), '.');
    }
}

proof fn lemma_joined_tail(root: Seq<char>, name: Seq<char>, names: Seq<Seq<char>>) -> (tail: Seq<
    char,
>)
    ensures
        joined(seq![root, name] + names, "."@) == root.push('.') + (name + tail),
        tail.len() > 0 ==> tail[0] == '.',
    decreases names.len(),
{
    reveal_strlit(".");
    reveal_with_fuel(joined, 3);
    let all = seq![root, name] + names;
    if names.len() == 0 {
        let none = Seq::<char>::empty();
        assert(all =~= seq![root, name]);
        assert(seq![root, name].drop_last() =~= seq![root]);
        assert(joined(all, "."@) =~= root.push('.') + (name + none));
        none
    } else {
        let tail = lemma_joined_tail(root, name, names.drop_last());
        assert(all.drop_last() =~= seq![root, name] + names.drop_last());
        let more = tail + "."@ + names.last();
        assert(joined(all, "."@) =~= root.push('.') + (name + more));
        more
    }
}

/// A traversal refers to the resource that its first two names give, whatever follows them, and from
/// where it stands; unless it begins with a word that never names a type of resource.
pub proof fn law_traversals_refer(
    root: Seq<char>,
    name: Seq<char>,
    rest: Seq<StepView>,
    text: Seq<char>,
    path: Seq<char>,
)
    requires
        !holds_char(root, '.'),
        !holds_char(name, '.'),
    ensures
        ({
            let found = refs(traversal(root, name, rest, text), path);
            if root == "var"@ || root == "local"@ || root == "data"@ || root == "each"@ || root
                == "count"@ || root == "self"@ || root == "path"@ || root == "terraform"@ || root
                == "module"@ {
                found.len() == 0
            } else {
                found.len() == 1 && found[0].attr_path == path && found[0].target_id == root + "."@
                    + name
            }
        }),
{
    let operators = seq![StepView::GetAttr(name)] + rest;
    assert(operators.skip(1) =~= rest);
    let names = leading_names(rest);
    assert(leading_names(operators) == seq![name] + names);
    assert(seq![root] + leading_names(operators) =~= seq![root, name] + names);
    lemma_first_two(root, name, names);
    let base = ExprView::Variable(root);
    assert(refs(base, path) =~= Seq::empty());
    assert(refs(traversal(root, name, rest, text), path) =~= traversal_refs(base, operators, path));
}

/// The full path of a reference is all the names of the traversal up to the first index or splat.
pub proof fn law_full_paths_go_to_the_first_index(
    root: Seq<char>,
    names: Seq<Seq<char>>,
    rest: Seq<StepView>,
)
    requires
        names.len() > 0,
        rest.len() > 0 ==> rest[0] is Other,
    ensures
        traversal_path(
            ExprView::Variable(root),
            names.map_values(|n: Seq<char>| StepView::GetAttr(n)) + rest,
        ) == Some(joined(seq![root] + names, "."@)),
{
    lemma_leading(names, rest);
}

proof fn lemma_leading(names: Seq<Seq<char>>, rest: Seq<StepView>)
    requires
        rest.len() > 0 ==> rest[0] is Other,
    ensures
        leading_names(names.map_values(|n: Seq<char>| StepView::GetAttr(n)) + rest) == names,
    decreases names.len(),
{
    let steps = names.map_values(|n: Seq<char>| StepView::GetAttr(n)) + rest;
    if names.len() > 0 {
        lemma_leading(names.skip(1), rest);
        assert(steps.skip(1) =~= names.skip(1).map_values(|n: Seq<char>| StepView::GetAttr(n))
            + rest);
        assert(seq![names[0]] + names.skip(1) =~= names);
    } else if rest.len() > 0 {
        assert(steps[0] is Other);
    } else {
        assert(steps =~= Seq::empty());
    }
}

/// A traversal of something that makes references makes these too.
pub proof fn law_what_is_traversed_refers(
    base: ExprView,
    operators: Seq<StepView>,
    text: Seq<char>,
    path: Seq<char>,
)
    requires
        !(base is Variable),
    ensures
        refs(ExprView::Traversal { base: Box::new(base), operators, text }, path) == refs(
            base,
            path,
        ),
{
}

proof fn lemma_items_prefix(items: Seq<ExprView>, x: ExprView, path: Seq<char>, n: nat)
    requires
        n <= items.len(),
    ensures
        items_refs(items.push(x), path, n) == items_refs(items, path, n),
        arguments_refs(items.push(x), path, n) == arguments_refs(items, path, n),
    decreases n,
{
    if n > 0 {
        lemma_items_prefix(items, x, path, (n - 1) as nat);
        assert(items.push(x)[n - 1] == items[n - 1]);
    }
}

/// One more item of a list makes its references from where it stands, behind those of the others.
pub proof fn law_every_item_refers(items: Seq<ExprView>, x: ExprView, path: Seq<char>)
    ensures
        refs(ExprView::Array(Seq::empty()), path) == Seq::<TraversalRefView>::empty(),
        refs(ExprView::Array(items.push(x)), path) == refs(ExprView::Array(items), path) + refs(
            x,
            path + "["@ + decimal(items.len()) + "]"@,
        ),
{
    let more = items.push(x);
    lemma_items_prefix(items, x, path, items.len());
    assert(items_refs(more, path, more.len()) == items_refs(more, path, items.len()) + refs(
        more[items.len() as int],
        path + "["@ + decimal(items.len()) + "]"@,
    ));
    assert(items_refs(Seq::empty(), path, 0) =~= Seq::empty());
}

/// One more argument of a call makes its references from where it stands, behind those of the
/// others.
pub proof fn law_every_argument_refers(
    name: Seq<char>,
    args: Seq<ExprView>,
    x: ExprView,
    path: Seq<char>,
)
    ensures
        refs(ExprView::FuncCall { name, args: Seq::empty() }, path) == Seq::<
            TraversalRefView,
        >::empty(),
        refs(ExprView::FuncCall { name, args: args.push(x) }, path) == refs(
            ExprView::FuncCall { name, args },
            path,
        ) + refs(x, path + "/arg"@ + decimal(args.len())),
{
    let more = args.push(x);
    lemma_items_prefix(args, x, path, args.len());
    assert(arguments_refs(more, path, more.len()) == arguments_refs(more, path, args.len()) + refs(
        more[args.len() as int],
        path + "/arg"@ + decimal(args.len()),
    ));
    assert(arguments_refs(Seq::empty(), path, 0) =~= Seq::empty());
}

proof fn lemma_entries_prefix(
    entries: Seq<(EntryKeyView, ExprView)>,
    x: (EntryKeyView, ExprView),
    path: Seq<char>,
    n: nat,
)
    requires
        n <= entries.len(),
    ensures
        entries_refs(entries.push(x), path, n) == entries_refs(entries, path, n),
        entries_value(entries.push(x), n) == entries_value(entries, n),
    decreases n,
{
    if n > 0 {
        lemma_entries_prefix(entries, x, path, (n - 1) as nat);
        assert(entries.push(x)[n - 1] == entries[n - 1]);
    }
}

/// The key of an entry as a text.
pub open spec fn key_of(key: EntryKeyView) -> Seq<char> {
    match key {
        EntryKeyView::Identifier(s) => s,
        EntryKeyView::Rendered(s) => s,
        EntryKeyView::Other => "<unknown-key>"@,
    }
}

/// One more entry of an object makes its references from where it stands, behind those of the
/// others.
pub proof fn law_every_entry_refers(
    entries: Seq<(EntryKeyView, ExprView)>,
    key: EntryKeyView,
    x: ExprView,
    path: Seq<char>,
)
    ensures
        refs(ExprView::Object(Seq::empty()), path) == Seq::<TraversalRefView>::empty(),
        path.len() > 0 ==> refs(ExprView::Object(entries.push((key, x))), path) == refs(
            ExprView::Object(entries),
            path,
        ) + refs(x, path + "."@ + key_of(key)),
        refs(ExprView::Object(entries.push((key, x))), Seq::empty()) == refs(
            ExprView::Object(entries),
            Seq::empty(),
        ) + refs(x, key_of(key)),
{
    let more = entries.push((key, x));
    let none = Seq::<char>::empty();
    lemma_entries_prefix(entries, (key, x), path, entries.len());
    lemma_entries_prefix(entries, (key, x), none, entries.len());
    assert(more[entries.len() as int] == (key, x));
    assert(entries_refs(more, path, more.len()) == entries_refs(more, path, entries.len()) + refs(
        x,
        entry_path(path, key_of(key)),
    ));
    assert(entries_refs(more, none, more.len()) == entries_refs(more, none, entries.len()) + refs(
        x,
        entry_path(none, key_of(key)),
    ));
    assert(entries_refs(Seq::empty(), path, 0) =~= Seq::empty());
}

/// A template with its pieces.
pub open spec fn template(
    quoted: bool,
    raw: Seq<char>,
    text: Seq<char>,
    pieces: Seq<PieceView>,
) -> ExprView {
    ExprView::Template { quoted, raw, text, elements: Some(pieces) }
}

proof fn lemma_pieces_prefix(list: Seq<PieceView>, x: PieceView, path: Seq<char>, n: nat)
    requires
        n <= list.len(),
    ensures
        elements_refs(list.push(x), path, n) == elements_refs(list, path, n),
    decreases n,
{
    if n > 0 {
        lemma_pieces_prefix(list, x, path, (n - 1) as nat);
        assert(list.push(x)[n - 1] == list[n - 1]);
    }
}

/// One more piece of a template makes its references behind those of the others, all from where the
/// template stands: an interpolation those of what it holds, a conditional those of its condition and
/// of both of its branches, a loop those of what it runs over and of its body.
pub proof fn law_every_piece_refers(
    quoted: bool,
    raw: Seq<char>,
    text: Seq<char>,
    list: Seq<PieceView>,
    x: PieceView,
    path: Seq<char>,
)
    ensures
        refs(template(quoted, raw, text, Seq::empty()), path) == Seq::<TraversalRefView>::empty(),
        refs(template(quoted, raw, text, list.push(x)), path) == refs(
            template(quoted, raw, text, list),
            path,
        ) + match x {
            PieceView::Literal => Seq::empty(),
            PieceView::Interpolation(inner) => refs(inner, path),
            PieceView::If { condition, true_part, false_part } => refs(condition, path) + refs(
                template(quoted, raw, text, true_part),
                path,
            ) + match false_part {
                Some(other) => refs(template(quoted, raw, text, other), path),
                None => Seq::empty(),
            },
            PieceView::For { collection, body } => refs(collection, path) + refs(
                template(quoted, raw, text, body),
                path,
            ),
        },
{
    lemma_pieces_prefix(list, x, path, list.len());
    let more = list.push(x);
    assert(elements_refs(more, path, more.len()) == elements_refs(more, path, list.len())
        + element_refs(more[list.len() as int], path));
    assert(elements_refs(Seq::empty(), path, 0) =~= Seq::empty());
    match x {
        PieceView::If { condition, true_part, false_part } => {
            assert(refs(template(quoted, raw, text, true_part), path) == elements_refs(
                true_part,
                path,
                true_part.len(),
            ));
            if let Some(other) = false_part {
                assert(refs(template(quoted, raw, text, other), path) == elements_refs(
                    other,
                    path,
                    other.len(),
                ));
            }
        },
        PieceView::For { collection, body } => {
            assert(refs(template(quoted, raw, text, body), path) == elements_refs(
                body,
                path,
                body.len(),
            ));
        },
        _ => {},
    }
}

/// Parentheses change no reference, and both outcomes of a choice make theirs. Values, variables and
/// other expressions make none.
pub proof fn law_other_expressions_refer(
    a: ExprView,
    b: ExprView,
    text: Seq<char>,
    path: Seq<char>,
)
    ensures
        refs(ExprView::Parenthesis(Box::new(a)), path) == refs(a, path),
        refs(
            ExprView::Conditional { true_expr: Box::new(a), false_expr: Box::new(b), text },
            path,
        ) == refs(a, path) + refs(b, path),
        a is Null || a is Bool || a is Number || a is String || a is Variable || a is Other
            ==> refs(a, path) == Seq::<TraversalRefView>::empty(),
{
}

proof fn lemma_open_item(items: Seq<ExprView>, i: int)
    requires
        0 <= i < items.len(),
        expr_unresolved(items[i]),
    ensures
        expr_unresolved(ExprView::Array(items)),
{
    reveal_with_fuel(expr_unresolved, 2);
    let whole = ExprView::Array(items);
    assert(whole->Array_0[i] == items[i]);
}

/// What a list comes to has an item for each of its items, in the same order, and is open exactly if
/// one of them is.
pub proof fn law_lists_keep_their_items(items: Seq<ExprView>, x: ExprView)
    ensures
        expr_value(ExprView::Array(items)) matches JsonView::Array(values) && values.len()
            == items.len() && forall|i: int|
            0 <= i < items.len() ==> #[trigger] values[i] == expr_value(items[i]),
        !expr_unresolved(ExprView::Array(Seq::empty())),
        expr_unresolved(ExprView::Array(items.push(x))) <==> (expr_unresolved(
            ExprView::Array(items),
        ) || expr_unresolved(x)),
{
    let more = items.push(x);
    if expr_unresolved(ExprView::Array(items)) {
        let i = choose|i: int| 0 <= i < items.len() && expr_unresolved(#[trigger] items[i]);
        assert(more[i] == items[i]);
        lemma_open_item(more, i);
    }
    if expr_unresolved(x) {
        lemma_open_item(more, items.len() as int);
    }
    if expr_unresolved(ExprView::Array(more)) {
        let i = choose|i: int| 0 <= i < more.len() && expr_unresolved(#[trigger] more[i]);
        if i < items.len() {
            assert(items[i] == more[i]);
            lemma_open_item(items, i);
        } else {
            assert(more[i] == x);
        }
    }
}

/// What an object comes to has under each key what the last entry with the key comes to, and is open
/// exactly if one of its entries is.
pub proof fn law_last_entries_stand(
    entries: Seq<(EntryKeyView, ExprView)>,
    key: EntryKeyView,
    x: ExprView,
    asked: Seq<char>,
)
    ensures
        expr_value(ExprView::Object(Seq::empty())).get(asked) is None,
        expr_value(ExprView::Object(entries.push((key, x)))) is Object,
        expr_value(ExprView::Object(entries.push((key, x)))).get(key_of(key)) == Some(
            expr_value(x),
        ),
        asked != key_of(key) ==> expr_value(ExprView::Object(entries.push((key, x)))).get(asked)
            == expr_value(ExprView::Object(entries)).get(asked),
        !expr_unresolved(ExprView::Object(Seq::empty())),
        expr_unresolved(ExprView::Object(entries.push((key, x)))) <==> (expr_unresolved(
            ExprView::Object(entries),
        ) || expr_unresolved(x)),
{
    let more = entries.push((key, x));
    lemma_entries_prefix(entries, (key, x), Seq::empty(), entries.len());
    let before = entries_value(entries, entries.len());
    assert(more[entries.len() as int] == (key, x));
    assert(entries_value(more, more.len()) == with_entry(
        entries_value(more, entries.len()),
        key_of(key),
        expr_value(x),
    ));
    assert(entries_value(Seq::empty(), 0) =~= Seq::empty());
    lemma_key_from(Seq::empty(), asked, 0);
    law_lookup_after_insert(before, key_of(key), expr_value(x), asked);
    law_lookup_after_insert(before, key_of(key), expr_value(x), key_of(key));
    if expr_unresolved(ExprView::Object(entries)) {
        let i = choose|i: int| 0 <= i < entries.len() && expr_unresolved((#[trigger] entries[i]).1);
        assert(more[i] == entries[i]);
    }
    if expr_unresolved(x) {
        assert(more[entries.len() as int].1 == x);
    }
    if expr_unresolved(ExprView::Object(more)) {
        let i = choose|i: int| 0 <= i < more.len() && expr_unresolved((#[trigger] more[i]).1);
        if i < entries.len() {
            assert(entries[i] == more[i]);
        }
    }
}

/// Values stand for themselves. So do the texts of templates, which are open exactly if something is
/// to be filled in. `jsonencode` and parentheses stand for what is in them; any other call, variables,
/// traversals and other expressions stand for a mark that says what they are.
pub proof fn law_other_expressions_stand_for(
    b: bool,
    n: JsonNumberView,
    s: Seq<char>,
    name: Seq<char>,
    args: Seq<ExprView>,
    x: ExprView,
    y: ExprView,
    operators: Seq<StepView>,
    quoted: bool,
    raw: Seq<char>,
    pieces: Option<Seq<PieceView>>,
)
    ensures
        expr_value(ExprView::Null) is Null && !expr_unresolved(ExprView::Null),
        expr_value(ExprView::Bool(b)) == JsonView::Bool(b) && !expr_unresolved(ExprView::Bool(b)),
        expr_value(ExprView::Number(n)) == JsonView::Number(n) && !expr_unresolved(
            ExprView::Number(n),
        ),
        expr_value(ExprView::String(s)) == JsonView::String(s) && !expr_unresolved(
            ExprView::String(s),
        ),
        expr_value(ExprView::Template { quoted, raw, text: s, elements: pieces })
            == JsonView::String(s),
        expr_unresolved(ExprView::Template { quoted, raw, text: s, elements: pieces }) <==> occurs(
            s,
            "${"@,
        ),
        expr_value(ExprView::FuncCall { name: "jsonencode"@, args: seq![x] }) == expr_value(x),
        expr_unresolved(ExprView::FuncCall { name: "jsonencode"@, args: seq![x] })
            <==> expr_unresolved(x),
        name != "jsonencode"@ || args.len() != 1 ==> expr_value(ExprView::FuncCall { name, args })
            == JsonView::String("unresolved:call:"@ + name) && expr_unresolved(
            ExprView::FuncCall { name, args },
        ),
        expr_value(ExprView::Parenthesis(Box::new(x))) == expr_value(x),
        expr_unresolved(ExprView::Parenthesis(Box::new(x))) <==> expr_unresolved(x),
        expr_value(ExprView::Variable(name)) == JsonView::String("unresolved:var:"@ + name),
        expr_unresolved(ExprView::Variable(name)),
        expr_value(ExprView::Traversal { base: Box::new(x), operators, text: s })
            == JsonView::String("unresolved:ref:"@ + s),
        expr_unresolved(ExprView::Traversal { base: Box::new(x), operators, text: s }),
        expr_value(
            ExprView::Conditional { true_expr: Box::new(x), false_expr: Box::new(y), text: s },
        ) == JsonView::String("unresolved:expr:"@ + s),
        expr_unresolved(
            ExprView::Conditional { true_expr: Box::new(x), false_expr: Box::new(y), text: s },
        ),
        expr_value(ExprView::Other { text: s }) == JsonView::String("unresolved:expr:"@ + s),
        expr_unresolved(ExprView::Other { text: s }),
{
    reveal_with_fuel(expr_value, 2);
    reveal_with_fuel(expr_unresolved, 2);
    assert(seq![x][0] == x);
}

} // verus!
