//! Configuration files as trees: blocks, attributes and the expressions that attributes hold.

use crate::json::{JsonNumber, JsonNumberView};
use crate::text::texts;
use vstd::prelude::*;

verus! {

/// The key of an entry of an object expression.
#[derive(Debug)]
pub enum EntryKey {
    /// A bare word.
    Identifier(String),
    /// An expression, rendered as text. A quoted key keeps its quotes.
    Rendered(String),
    /// A key of a form that has no rendering.
    Other,
}

/// The contents of an [`EntryKey`].
pub enum EntryKeyView {
    Identifier(Seq<char>),
    Rendered(Seq<char>),
    Other,
}

impl View for EntryKey {
    type V = EntryKeyView;

    open spec fn view(&self) -> EntryKeyView {
        match *self {
            EntryKey::Identifier(s) => EntryKeyView::Identifier(s@),
            EntryKey::Rendered(s) => EntryKeyView::Rendered(s@),
            EntryKey::Other => EntryKeyView::Other,
        }
    }
}

/// One step of a traversal.
#[derive(Debug)]
pub enum Step {
    /// `.name`
    GetAttr(String),
    /// An index or a splat.
    Other,
}

/// The contents of a [`Step`].
pub enum StepView {
    GetAttr(Seq<char>),
    Other,
}

impl View for Step {
    type V = StepView;

    open spec fn view(&self) -> StepView {
        match *self {
            Step::GetAttr(s) => StepView::GetAttr(s@),
            Step::Other => StepView::Other,
        }
    }
}

/// The contents of the steps of a traversal.
pub open spec fn operator_views(operators: Seq<Step>) -> Seq<StepView> {
    operators.map_values(|op: Step| op@)
}

/// An expression. `text` is an expression's rendering as configuration source.
#[derive(Debug)]
pub enum Expr {
    Null,
    Bool(bool),
    Number(JsonNumber),
    /// A string without interpolations.
    String(String),
    Array(Vec<Expr>),
    Object(Vec<(EntryKey, Expr)>),
    /// A quoted string with interpolations, or a heredoc. `raw` is what stands between the
    /// delimiters, `text` the same with its escapes resolved, and `elements` what `raw` is made
    /// of, where it is a well-formed template.
    Template { quoted: bool, raw: String, text: String, elements: Option<Vec<Piece>> },
    Variable(String),
    Traversal { base: Box<Expr>, operators: Vec<Step>, text: String },
    FuncCall { name: String, args: Vec<Expr> },
    Parenthesis(Box<Expr>),
    /// A choice between two expressions. What decides it is not kept.
    Conditional { true_expr: Box<Expr>, false_expr: Box<Expr>, text: String },
    /// An operation, or an expression of any other form.
    Other { text: String },
}

/// One piece of a template.
#[derive(Debug)]
pub enum Piece {
    Literal,
    Interpolation(Expr),
    If { condition: Expr, true_part: Vec<Piece>, false_part: Option<Vec<Piece>> },
    For { collection: Expr, body: Vec<Piece> },
}

/// The contents of an [`Expr`].
pub enum ExprView {
    Null,
    Bool(bool),
    Number(JsonNumberView),
    String(Seq<char>),
    Array(Seq<ExprView>),
    Object(Seq<(EntryKeyView, ExprView)>),
    Template {
        quoted: bool,
        raw: Seq<char>,
        text: Seq<char>,
        elements: Option<Seq<PieceView>>,
    },
    Variable(Seq<char>),
    Traversal {
        base: Box<ExprView>,
        operators: Seq<StepView>,
        text: Seq<char>,
    },
    FuncCall { name: Seq<char>, args: Seq<ExprView> },
    Parenthesis(Box<ExprView>),
    Conditional {
        true_expr: Box<ExprView>,
        false_expr: Box<ExprView>,
        text: Seq<char>,
    },
    Other { text: Seq<char> },
}

/// The contents of a [`Piece`].
pub enum PieceView {
    Literal,
    Interpolation(ExprView),
    If {
        condition: ExprView,
        true_part: Seq<PieceView>,
        false_part: Option<Seq<PieceView>>,
    },
    For { collection: ExprView, body: Seq<PieceView> },
}

impl Expr {
    /// The contents of the expression.
    pub open spec fn model(self) -> ExprView
        decreases self,
    {
        match self {
            Expr::Null => ExprView::Null,
            Expr::Bool(b) => ExprView::Bool(b),
            Expr::Number(n) => ExprView::Number(n@),
            Expr::String(s) => ExprView::String(s@),
            Expr::Array(items) => ExprView::Array(
                Seq::new(
                    items@.len(),
                    |i: int|
                        if 0 <= i < items@.len() {
                            items@[i].model()
                        } else {
                            ExprView::Null
                        },
                ),
            ),
            Expr::Object(entries) => ExprView::Object(
                Seq::new(
                    entries@.len(),
                    |i: int|
                        if 0 <= i < entries@.len() {
                            (entries@[i].0@, entries@[i].1.model())
                        } else {
                            (EntryKeyView::Other, ExprView::Null)
                        },
                ),
            ),
            Expr::Template { quoted, raw, text, elements } => ExprView::Template {
                quoted,
                raw: raw@,
                text: text@,
                elements: match elements {
                    Some(list) => Some(
                        Seq::new(
                            list@.len(),
                            |i: int|
                                if 0 <= i < list@.len() {
                                    list@[i].model()
                                } else {
                                    PieceView::Literal
                                },
                        ),
                    ),
                    None => None,
                },
            },
            Expr::Variable(name) => ExprView::Variable(name@),
            Expr::Traversal { base, operators, text } => ExprView::Traversal {
                base: Box::new(base.model()),
                operators: operator_views(operators@),
                text: text@,
            },
            Expr::FuncCall { name, args } => ExprView::FuncCall {
                name: name@,
                args: Seq::new(
                    args@.len(),
                    |i: int|
                        if 0 <= i < args@.len() {
                            args@[i].model()
                        } else {
                            ExprView::Null
                        },
                ),
            },
            Expr::Parenthesis(inner) => ExprView::Parenthesis(Box::new(inner.model())),
            Expr::Conditional { true_expr, false_expr, text } => {
                ExprView::Conditional {
                    true_expr: Box::new(true_expr.model()),
                    false_expr: Box::new(false_expr.model()),
                    text: text@,
                }
            },
            Expr::Other { text } => ExprView::Other { text: text@ },
        }
    }
}

impl Piece {
    /// The contents of the element.
    pub open spec fn model(self) -> PieceView
        decreases self,
    {
        match self {
            Piece::Literal => PieceView::Literal,
            Piece::Interpolation(e) => PieceView::Interpolation(e.model()),
            Piece::If { condition, true_part, false_part } => PieceView::If {
                condition: condition.model(),
                true_part: Seq::new(
                    true_part@.len(),
                    |i: int|
                        if 0 <= i < true_part@.len() {
                            true_part@[i].model()
                        } else {
                            PieceView::Literal
                        },
                ),
                false_part: match false_part {
                    Some(list) => Some(
                        Seq::new(
                            list@.len(),
                            |i: int|
                                if 0 <= i < list@.len() {
                                    list@[i].model()
                                } else {
                                    PieceView::Literal
                                },
                        ),
                    ),
                    None => None,
                },
            },
            Piece::For { collection, body } => PieceView::For {
                collection: collection.model(),
                body: Seq::new(
                    body@.len(),
                    |i: int|
                        if 0 <= i < body@.len() {
                            body@[i].model()
                        } else {
                            PieceView::Literal
                        },
                ),
            },
        }
    }
}

impl View for Expr {
    type V = ExprView;

    open spec fn view(&self) -> ExprView {
        self.model()
    }
}

impl View for Piece {
    type V = PieceView;

    open spec fn view(&self) -> PieceView {
        self.model()
    }
}

/// The contents of a list of expressions.
pub open spec fn expression_views(items: Seq<Expr>) -> Seq<ExprView> {
    items.map_values(|e: Expr| e@)
}

/// The contents of the entries of an object expression.
pub open spec fn entry_views(entries: Seq<(EntryKey, Expr)>) -> Seq<
    (EntryKeyView, ExprView),
> {
    entries.map_values(|e: (EntryKey, Expr)| (e.0@, e.1@))
}

/// The contents of a list of elements.
pub open spec fn element_views(elements: Seq<Piece>) -> Seq<PieceView> {
    elements.map_values(|e: Piece| e@)
}

/// The contents of a list of elements that may be missing.
pub open spec fn element_list_view(elements: Option<Vec<Piece>>) -> Option<Seq<PieceView>> {
    match elements {
        Some(list) => Some(element_views(list@)),
        None => None,
    }
}

/// A compound expression holds the contents of its parts.
pub broadcast proof fn lemma_expression_model(e: Expr)
    ensures
        match e {
            Expr::Array(items) => #[trigger] e.model() == ExprView::Array(
                expression_views(items@),
            ),
            Expr::Object(entries) => e.model() == ExprView::Object(
                entry_views(entries@),
            ),
            Expr::Template { quoted, raw, text, elements } => e.model()
                == (ExprView::Template {
                quoted,
                raw: raw@,
                text: text@,
                elements: element_list_view(elements),
            }),
            Expr::FuncCall { name, args } => e.model() == (ExprView::FuncCall {
                name: name@,
                args: expression_views(args@),
            }),
            _ => true,
        },
{
    match e {
        Expr::Array(items) => {
            assert(e.model()->Array_0 =~= expression_views(items@));
        },
        Expr::Object(entries) => {
            assert(e.model()->Object_0 =~= entry_views(entries@));
        },
        Expr::Template { elements, .. } => {
            if let Some(list) = elements {
                assert(e.model()->Template_elements->Some_0 =~= element_views(list@));
            }
        },
        Expr::FuncCall { args, .. } => {
            assert(e.model()->args =~= expression_views(args@));
        },
        _ => {},
    }
}

/// A directive holds the contents of its parts.
pub broadcast proof fn lemma_element_model(e: Piece)
    ensures
        match e {
            Piece::If { condition, true_part, false_part } => #[trigger] e.model()
                == (PieceView::If {
                condition: condition@,
                true_part: element_views(true_part@),
                false_part: element_list_view(false_part),
            }),
            Piece::For { collection, body } => e.model() == (PieceView::For {
                collection: collection@,
                body: element_views(body@),
            }),
            _ => true,
        },
{
    match e {
        Piece::If { true_part, false_part, .. } => {
            assert(e.model()->true_part =~= element_views(true_part@));
            if let Some(list) = false_part {
                assert(e.model()->false_part->Some_0 =~= element_views(list@));
            }
        },
        Piece::For { body, .. } => {
            assert(e.model()->body =~= element_views(body@));
        },
        _ => {},
    }
}

/// `key = expr`
#[derive(Debug)]
pub struct Attribute {
    pub key: String,
    pub expr: Expr,
}

/// `identifier "label" ... { ... }`
#[derive(Debug)]
pub struct Block {
    pub identifier: String,
    pub labels: Vec<String>,
    pub body: Vec<Item>,
}

/// What a body is made of.
#[derive(Debug)]
pub enum Item {
    Attribute(Attribute),
    Block(Block),
}

/// The contents of an [`Item`].
pub enum ItemView {
    Attribute { key: Seq<char>, expr: ExprView },
    Block { identifier: Seq<char>, labels: Seq<Seq<char>>, body: Seq<ItemView> },
}

impl Item {
    /// The contents of the structure.
    pub open spec fn model(self) -> ItemView
        decreases self,
    {
        match self {
            Item::Attribute(attr) => ItemView::Attribute {
                key: attr.key@,
                expr: attr.expr@,
            },
            Item::Block(block) => ItemView::Block {
                identifier: block.identifier@,
                labels: texts(block.labels@),
                body: Seq::new(
                    block.body@.len(),
                    |i: int|
                        if 0 <= i < block.body@.len() {
                            block.body@[i].model()
                        } else {
                            ItemView::Attribute {
                                key: Seq::empty(),
                                expr: ExprView::Null,
                            }
                        },
                ),
            },
        }
    }
}

impl View for Item {
    type V = ItemView;

    open spec fn view(&self) -> ItemView {
        self.model()
    }
}

/// The contents of a body.
pub open spec fn body_view(body: Seq<Item>) -> Seq<ItemView> {
    body.map_values(|s: Item| s@)
}

/// A block holds the contents of its body.
pub proof fn lemma_structure_model(s: Item)
    ensures
        match s {
            Item::Block(block) => s.model() == (ItemView::Block {
                identifier: block.identifier@,
                labels: texts(block.labels@),
                body: body_view(block.body@),
            }),
            _ => true,
        },
{
    if let Item::Block(block) = s {
        assert(s.model()->body =~= body_view(block.body@));
    }
}

} // verus!
