//! The `where` conditions of rules.
//!
//! ```text
//! predicate := clause (' && ' clause)*
//! clause    := path op literal
//!            | path 'exists'
//!            | path 'not exists'
//!            | path ' contains ' literal
//! path      := ident ('.' ident | '[' int ']')*
//! op        := '==' | '!=' | '>' | '>=' | '<' | '<='
//! literal   := 'true' | 'false' | number | '"' ... '"'
//! ```
//!
//! There is no `or`, no parenthesis, and no negation but `not exists`.

use crate::json::{
    Json,
    JsonNumber,
    JsonNumberView,
    JsonView,
    json_items,
    lemma_json_model,
    opt_view,
};
use crate::text::{
    chars_of,
    contains,
    decimal,
    decimal_signed,
    digits_value,
    find,
    first_of,
    is_digit,
    lemma_decimal_digits,
    lemma_first_from,
    occurs,
    occurs_at,
    parse_size,
    plus,
    same_text,
    size_value,
    split,
    split_text,
    stands_at,
    strip_prefix,
    strip_suffix,
    texts,
    trim,
    trimmed,
    without_prefix,
    without_suffix,
};
use vstd::prelude::*;
use vstd::string::StrSliceExecFns;

verus! {

/// A constant of a clause.
#[derive(Debug, Clone, PartialEq)]
pub enum Literal {
    Bool(bool),
    /// A number, as written.
    Number(String),
    String(String),
}

/// The contents of a [`Literal`].
pub enum LiteralView {
    Bool(bool),
    Number(Seq<char>),
    String(Seq<char>),
}

impl View for Literal {
    type V = LiteralView;

    open spec fn view(&self) -> LiteralView {
        match *self {
            Literal::Bool(b) => LiteralView::Bool(b),
            Literal::Number(s) => LiteralView::Number(s@),
            Literal::String(s) => LiteralView::String(s@),
        }
    }
}

/// What a clause asks of the value at its path.
#[derive(Debug, Clone, Copy, PartialEq, Eq, Structural)]
pub enum Op {
    Eq,
    Ne,
    Gt,
    Ge,
    Lt,
    Le,
    Contains,
    Exists,
    NotExists,
}

/// One step of a path into a value.
#[derive(Debug, Clone)]
pub enum PathSeg {
    Field(String),
    Index(usize),
}

/// The contents of a [`PathSeg`].
pub enum PathSegView {
    Field(Seq<char>),
    Index(usize),
}

impl View for PathSeg {
    type V = PathSegView;

    open spec fn view(&self) -> PathSegView {
        match *self {
            PathSeg::Field(s) => PathSegView::Field(s@),
            PathSeg::Index(i) => PathSegView::Index(i),
        }
    }
}

/// The contents of a path.
pub open spec fn path_view(path: Seq<PathSeg>) -> Seq<PathSegView> {
    path.map_values(|seg: PathSeg| seg@)
}

/// One condition on the value at a path.
#[derive(Debug, Clone)]
pub struct Clause {
    pub path: Vec<PathSeg>,
    pub op: Op,
    pub literal: Option<Literal>,
}

/// The contents of a [`Clause`].
pub struct ClauseView {
    pub path: Seq<PathSegView>,
    pub op: Op,
    pub literal: Option<LiteralView>,
}

impl View for Clause {
    type V = ClauseView;

    open spec fn view(&self) -> ClauseView {
        ClauseView {
            path: path_view(self.path@),
            op: self.op,
            literal: match self.literal {
                Some(l) => Some(l@),
                None => None,
            },
        }
    }
}

/// The contents of some clauses.
pub open spec fn clause_views(clauses: Seq<Clause>) -> Seq<ClauseView> {
    clauses.map_values(|c: Clause| c@)
}

/// A condition: all of its clauses have to hold. `source` is the text that it was read from.
#[derive(Debug, Clone)]
pub struct Predicate {
    pub clauses: Vec<Clause>,
    pub source: String,
}

/// The contents of a [`Predicate`].
pub struct PredicateView {
    pub clauses: Seq<ClauseView>,
    pub source: Seq<char>,
}

impl View for Predicate {
    type V = PredicateView;

    open spec fn view(&self) -> PredicateView {
        PredicateView { clauses: clause_views(self.clauses@), source: self.source@ }
    }
}

/// Why a text is not a condition.
#[derive(Debug)]
pub enum PredicateParseError {
    Empty,
    BadClause(String),
    UnterminatedString(String),
    EmptyPath(String),
}

/// What is wrong with a text that is not a condition, in words.
pub open spec fn error_text(e: PredicateParseError) -> Seq<char> {
    match e {
        PredicateParseError::Empty => "empty predicate"@,
        PredicateParseError::BadClause(s) => "could not parse clause `"@ + s@ + "`"@,
        PredicateParseError::UnterminatedString(s) => "unterminated string literal in clause `"@
            + s@ + "`"@,
        PredicateParseError::EmptyPath(s) => "empty path in clause `"@ + s@ + "`"@,
    }
}

impl PredicateParseError {
    /// What is wrong, in words.
    pub fn message(&self) -> (r: String)
        ensures
            r@ == error_text(*self),
    {
        match self {
            PredicateParseError::Empty => "empty predicate".to_string(),
            PredicateParseError::BadClause(s) => {
                plus(plus("could not parse clause `", s.as_str()).as_str(), "`")
            },
            PredicateParseError::UnterminatedString(s) => {
                plus(plus("unterminated string literal in clause `", s.as_str()).as_str(), "`")
            },
            PredicateParseError::EmptyPath(s) => {
                plus(plus("empty path in clause `", s.as_str()).as_str(), "`")
            },
        }
    }
}

/// The texts that `&&` sets apart, from `last` on, where everything before `i` has been looked at.
/// Inside quotes `&&` is text.
pub open spec fn and_parts(s: Seq<char>, last: int, i: int, in_string: bool) -> Seq<Seq<char>>
    decreases s.len() - i,
{
    if i < 0 || i >= s.len() {
        seq![s.subrange(last, s.len() as int)]
    } else if s[i] == '"' {
        and_parts(s, last, i + 1, !in_string)
    } else if s[i] == '&' && !in_string && i + 1 < s.len() && s[i + 1] == '&' {
        seq![s.subrange(last, i)] + and_parts(s, i + 2, i + 2, in_string)
    } else {
        and_parts(s, last, i + 1, in_string)
    }
}

/// The texts of the clauses of a condition.
pub open spec fn clause_texts(s: Seq<char>) -> Seq<Seq<char>> {
    and_parts(s, 0, 0, false)
}

/// Whether position `i` of a text lies inside quotes.
pub open spec fn in_quotes(s: Seq<char>, i: int) -> bool
    decreases i,
{
    if i <= 0 || i > s.len() {
        false
    } else if s[i - 1] == '"' {
        !in_quotes(s, i - 1)
    } else {
        in_quotes(s, i - 1)
    }
}

/// The first position, from `from` on, at which `pat` stands in `s` outside quotes.
pub open spec fn plain_from(s: Seq<char>, pat: Seq<char>, from: int) -> Option<int>
    decreases s.len() - from + 1,
{
    if from < 0 || from + pat.len() > s.len() {
        None
    } else if occurs_at(s, pat, from) && !in_quotes(s, from) {
        Some(from)
    } else {
        plain_from(s, pat, from + 1)
    }
}

/// The operator of a clause, its position, and its length. Of two that occur, the one that comes
/// first in this list is meant, so that `>=` is not taken for `>`.
pub open spec fn operator_of(s: Seq<char>) -> Option<(Op, int, int)> {
    if let Some(i) = plain_from(s, "=="@, 0) {
        Some((Op::Eq, i, 2))
    } else if let Some(i) = plain_from(s, "!="@, 0) {
        Some((Op::Ne, i, 2))
    } else if let Some(i) = plain_from(s, ">="@, 0) {
        Some((Op::Ge, i, 2))
    } else if let Some(i) = plain_from(s, "<="@, 0) {
        Some((Op::Le, i, 2))
    } else if let Some(i) = plain_from(s, ">"@, 0) {
        Some((Op::Gt, i, 1))
    } else if let Some(i) = plain_from(s, "<"@, 0) {
        Some((Op::Lt, i, 1))
    } else if let Some(i) = plain_from(s, " contains "@, 0) {
        Some((Op::Contains, i, 10))
    } else {
        None
    }
}

/// The indices in `0][1][2`.
pub open spec fn indices(s: Seq<char>) -> Option<Seq<PathSegView>>
    decreases s.len(),
    via indices_decreases
{
    match first_of(s, "]["@) {
        Some(k) => match (size_value(s.take(k)), indices(s.skip(k + 2))) {
            (Some(i), Some(rest)) => Some(seq![PathSegView::Index(i)] + rest),
            _ => None,
        },
        None => match size_value(s) {
            Some(i) => Some(seq![PathSegView::Index(i)]),
            None => None,
        },
    }
}

#[via_fn]
proof fn indices_decreases(s: Seq<char>) {
    lemma_first_from(s, "]["@, 0);
    reveal_strlit("][");
}

/// The steps that the part of a path between two dots stands for: a field, or a field and indices.
pub open spec fn segment_of(raw: Seq<char>) -> Option<Seq<PathSegView>> {
    match without_suffix(raw, "]"@) {
        Some(inner) => match first_of(inner, "["@) {
            Some(b) => match indices(inner.skip(b + 1)) {
                Some(list) => Some(
                    if b > 0 {
                        seq![PathSegView::Field(inner.take(b))] + list
                    } else {
                        list
                    },
                ),
                None => None,
            },
            None => None,
        },
        None => Some(seq![PathSegView::Field(raw)]),
    }
}

/// The steps that the first `n` parts of a path stand for.
pub open spec fn segments_of(parts: Seq<Seq<char>>, n: nat) -> Option<Seq<PathSegView>>
    decreases n,
{
    if n == 0 || n > parts.len() {
        Some(Seq::empty())
    } else {
        match (segments_of(parts, (n - 1) as nat), segment_of(parts[n - 1])) {
            (Some(before), Some(last)) => Some(before + last),
            _ => None,
        }
    }
}

/// The path that a text stands for.
pub open spec fn path_of(s: Seq<char>) -> Option<Seq<PathSegView>> {
    if s.len() == 0 {
        None
    } else {
        segments_of(split(s, '.'), split(s, '.').len())
    }
}

/// Whether two characters are the same but for the case of a letter `A` to `Z`.
pub open spec fn same_letter(c: char, small: char) -> bool {
    c == small || ('A' <= c <= 'Z' && c as u32 + 32 == small as u32)
}

/// Whether a text is a word in small letters, but for the case of its letters.
pub open spec fn is_word(s: Seq<char>, word: Seq<char>) -> bool {
    s.len() == word.len() && forall|i: int|
        0 <= i < s.len() ==> same_letter(#[trigger] s[i], word[i])
}

/// The first position from `i` on that holds no digit.
pub open spec fn digits_end(s: Seq<char>, i: int) -> int
    decreases s.len() - i,
{
    if 0 <= i < s.len() && is_digit(s[i]) {
        digits_end(s, i + 1)
    } else {
        i
    }
}

/// The first position from `i` on behind a sign, if there is one.
pub open spec fn sign_end(s: Seq<char>, i: int) -> int {
    if 0 <= i < s.len() && (s[i] == '+' || s[i] == '-') {
        i + 1
    } else {
        i
    }
}

/// Whether a text, from `i` on, is empty or an exponent.
pub open spec fn is_exponent(s: Seq<char>, i: int) -> bool {
    ||| i == s.len()
    ||| {
        let digits = sign_end(s, i + 1);
        &&& 0 <= i < s.len()
        &&& (s[i] == 'e' || s[i] == 'E')
        &&& digits < s.len()
        &&& digits_end(s, digits) == s.len()
    }
}

/// Whether a text, from `i` on, is a decimal number: digits, a point among them or not, and an
/// exponent or none.
pub open spec fn is_decimal(s: Seq<char>, i: int) -> bool {
    let whole = digits_end(s, i);
    if whole < s.len() && s[whole] == '.' {
        let end = digits_end(s, whole + 1);
        end - i > 1 && is_exponent(s, end)
    } else {
        whole > i && is_exponent(s, whole)
    }
}

/// Whether a text is a floating-point number as `str::parse` takes it.
pub open spec fn is_number(s: Seq<char>) -> bool {
    let start = sign_end(s, 0);
    let rest = s.skip(start);
    is_word(rest, "inf"@) || is_word(rest, "infinity"@) || is_word(rest, "nan"@) || is_decimal(
        s,
        start,
    )
}

/// The constant that a text stands for.
pub open spec fn literal_of(s: Seq<char>) -> Option<LiteralView> {
    if s == "true"@ {
        Some(LiteralView::Bool(true))
    } else if s == "false"@ {
        Some(LiteralView::Bool(false))
    } else if without_prefix(s, "\""@) is Some && without_suffix(
        without_prefix(s, "\""@)->Some_0,
        "\""@,
    ) is Some {
        Some(LiteralView::String(without_suffix(without_prefix(s, "\""@)->Some_0, "\""@)->Some_0))
    } else if is_number(s) {
        Some(LiteralView::Number(s))
    } else {
        None
    }
}

/// A clause without a constant.
pub open spec fn existence(path: Seq<char>, op: Op) -> Option<ClauseView> {
    match path_of(trimmed(path)) {
        Some(path) => Some(ClauseView { path, op, literal: None }),
        None => None,
    }
}

/// The clause that a text stands for.
pub open spec fn clause_of(s: Seq<char>) -> Option<ClauseView> {
    if let Some(path) = without_suffix(s, "not exists"@) {
        existence(path, Op::NotExists)
    } else if let Some(path) = without_suffix(s, "exists"@) {
        existence(path, Op::Exists)
    } else {
        match operator_of(s) {
            Some((op, i, n)) => match (
                path_of(trimmed(s.take(i))),
                literal_of(trimmed(s.skip(i + n))),
            ) {
                (Some(path), Some(literal)) => Some(
                    ClauseView { path, op, literal: Some(literal) },
                ),
                _ => None,
            },
            None => None,
        }
    }
}

/// The clauses that the first `n` of some texts stand for.
pub open spec fn clauses_of(parts: Seq<Seq<char>>, n: nat) -> Option<Seq<ClauseView>>
    decreases n,
{
    if n == 0 || n > parts.len() {
        Some(Seq::empty())
    } else {
        match (clauses_of(parts, (n - 1) as nat), clause_of(trimmed(parts[n - 1]))) {
            (Some(before), Some(last)) => Some(before.push(last)),
            _ => None,
        }
    }
}

/// The clauses of the condition that a text stands for.
pub open spec fn predicate_of(source: Seq<char>) -> Option<Seq<ClauseView>> {
    if trimmed(source).len() == 0 {
        None
    } else {
        let parts = clause_texts(trimmed(source));
        clauses_of(parts, parts.len())
    }
}

/// Whether part `k` is the first that is no clause.
pub open spec fn first_bad(parts: Seq<Seq<char>>, k: int) -> bool {
    &&& 0 <= k < parts.len()
    &&& clause_of(trimmed(parts[k])) is None
    &&& forall|j: int| 0 <= j < k ==> clause_of(trimmed(#[trigger] parts[j])) is Some
}

/// Whether an error is the one that is to be reported of a text that is not a condition: that it is
/// empty, or the first part of it that is no clause.
pub open spec fn is_parse_error(source: Seq<char>, e: PredicateParseError) -> bool {
    let parts = clause_texts(trimmed(source));
    match e {
        PredicateParseError::Empty => trimmed(source).len() == 0,
        PredicateParseError::BadClause(text) => trimmed(source).len() > 0 && exists|k: int|
            #[trigger]
            first_bad(parts, k) && text@ == trimmed(parts[k]),
        _ => false,
    }
}

/// Reads a condition.
pub fn parse(source: &str) -> (r: Result<Predicate, PredicateParseError>)
    ensures
        match r {
            Ok(p) => p@.source == source@ && predicate_of(source@) == Some(p@.clauses),
            Err(e) => predicate_of(source@) is None && is_parse_error(source@, e),
        },
{
    let text = trim(source);
    if text.unicode_len() == 0 {
        return Err(PredicateParseError::Empty);
    }
    let parts = split_top_level_and(text);
    let ghost views = texts(parts@);
    let mut clauses: Vec<Clause> = Vec::new();
    let mut i: usize = 0;
    assert(clause_views(clauses@) =~= Seq::empty());
    while i < parts.len()
        invariant
            i <= parts@.len(),
            views == texts(parts@),
            text@ == trimmed(source@),
            views == clause_texts(text@),
            text@.len() > 0,
            clauses_of(views, i as nat) == Some(clause_views(clauses@)),
            forall|j: int| 0 <= j < i ==> clause_of(trimmed(#[trigger] views[j])) is Some,
        decreases parts@.len() - i,
    {
        let ghost before = clause_views(clauses@);
        assert(views[i as int] == parts@[i as int]@);
        let part = trim(parts[i].as_str());
        match parse_clause(part) {
            Some(clause) => {
                clauses.push(clause);
                assert(clause_views(clauses@) =~= before.push(clause@));
            },
            None => {
                proof {
                    assert(first_bad(views, i as int));
                    lemma_bad_clause(views, i as int, views.len());
                }
                return Err(PredicateParseError::BadClause(part.to_string()));
            },
        }
        i = i + 1;
    }
    Ok(Predicate { clauses, source: source.to_string() })
}

proof fn lemma_bad_clause(parts: Seq<Seq<char>>, k: int, n: nat)
    requires
        0 <= k < n <= parts.len(),
        clause_of(trimmed(parts[k])) is None,
    ensures
        clauses_of(parts, n) is None,
    decreases n,
{
    if k < n - 1 {
        lemma_bad_clause(parts, k, (n - 1) as nat);
    }
}

/// The texts that `&&` sets apart. Inside quotes `&&` is text.
fn split_top_level_and(s: &str) -> (r: Vec<String>)
    ensures
        texts(r@) == clause_texts(s@),
{
    let text = chars_of(s);
    let mut parts: Vec<String> = Vec::new();
    let mut in_string = false;
    let mut last: usize = 0;
    let mut i: usize = 0;
    assert(texts(parts@) + and_parts(s@, 0, 0, false) =~= and_parts(s@, 0, 0, false));
    while i < text.len()
        invariant
            text@ == s@,
            last <= i <= text@.len(),
            texts(parts@) + and_parts(s@, last as int, i as int, in_string) == clause_texts(s@),
        decreases text@.len() - i,
    {
        let ghost before = texts(parts@);
        if text[i] == '"' {
            in_string = !in_string;
            i = i + 1;
        } else if text[i] == '&' && !in_string && i + 1 < text.len() && text[i + 1] == '&' {
            let part: String = s.substring_char(last, i).to_string();
            parts.push(part);
            proof {
                assert(texts(parts@) =~= before.push(part@));
                let rest = and_parts(s@, i + 2, i + 2, in_string);
                assert(before.push(part@) + rest =~= before + (seq![part@] + rest));
            }
            last = i + 2;
            i = i + 2;
        } else {
            i = i + 1;
        }
    }
    let ghost before = texts(parts@);
    let part: String = s.substring_char(last, text.len()).to_string();
    parts.push(part);
    proof {
        assert(texts(parts@) =~= before.push(part@));
        assert(before.push(part@) =~= before + seq![part@]);
    }
    parts
}

/// The first position at which `pat` stands in `s` outside quotes.
fn find_plain(s: &Vec<char>, pat: &str) -> (r: Option<usize>)
    ensures
        match r {
            Some(i) => plain_from(s@, pat@, 0) == Some(i as int) && i + pat@.len() <= s@.len(),
            None => plain_from(s@, pat@, 0) is None,
        },
{
    let token = chars_of(pat);
    let mut quoted = false;
    let mut i: usize = 0;
    while token.len() <= s.len() && i <= s.len() - token.len()
        invariant
            token@ == pat@,
            i <= s@.len(),
            quoted == in_quotes(s@, i as int),
            plain_from(s@, pat@, 0) == plain_from(s@, pat@, i as int),
        decreases s@.len() + 1 - i,
    {
        if !quoted && stands_at(s, &token, i) {
            return Some(i);
        }
        if i == s.len() {
            assert(plain_from(s@, pat@, i + 1) is None);
            return None;
        }
        if s[i] == '"' {
            quoted = !quoted;
        }
        i = i + 1;
    }
    None
}

/// The operator of a clause, its position, and its length.
fn find_operator(s: &Vec<char>) -> (r: Option<(Op, usize, usize)>)
    ensures
        match r {
            Some((op, i, n)) => operator_of(s@) == Some((op, i as int, n as int)) && i + n
                <= s@.len(),
            None => operator_of(s@) is None,
        },
{
    proof {
        reveal_strlit("==");
        reveal_strlit("!=");
        reveal_strlit(">=");
        reveal_strlit("<=");
        reveal_strlit(">");
        reveal_strlit("<");
        reveal_strlit(" contains ");
    }
    if let Some(i) = find_plain(s, "==") {
        Some((Op::Eq, i, 2))
    } else if let Some(i) = find_plain(s, "!=") {
        Some((Op::Ne, i, 2))
    } else if let Some(i) = find_plain(s, ">=") {
        Some((Op::Ge, i, 2))
    } else if let Some(i) = find_plain(s, "<=") {
        Some((Op::Le, i, 2))
    } else if let Some(i) = find_plain(s, ">") {
        Some((Op::Gt, i, 1))
    } else if let Some(i) = find_plain(s, "<") {
        Some((Op::Lt, i, 1))
    } else if let Some(i) = find_plain(s, " contains ") {
        Some((Op::Contains, i, 10))
    } else {
        None
    }
}

/// Reads a clause.
fn parse_clause(clause: &str) -> (r: Option<Clause>)
    ensures
        match r {
            Some(c) => clause_of(clause@) == Some(c@),
            None => clause_of(clause@) is None,
        },
{
    if let Some(path) = strip_suffix(clause, "not exists") {
        return match parse_path(trim(path)) {
            Some(path) => Some(Clause { path, op: Op::NotExists, literal: None }),
            None => None,
        };
    }
    if let Some(path) = strip_suffix(clause, "exists") {
        return match parse_path(trim(path)) {
            Some(path) => Some(Clause { path, op: Op::Exists, literal: None }),
            None => None,
        };
    }
    let text = chars_of(clause);
    match find_operator(&text) {
        Some((op, i, n)) => {
            let total: usize = text.len();
            let left = clause.substring_char(0, i);
            let right = clause.substring_char(i + n, total);
            proof {
                assert(left@ =~= clause@.take(i as int));
                assert(right@ =~= clause@.skip(i + n));
            }
            match (parse_path(trim(left)), parse_literal(trim(right))) {
                (Some(path), Some(literal)) => Some(Clause { path, op, literal: Some(literal) }),
                _ => None,
            }
        },
        None => None,
    }
}

/// Adds to `out` the indices in `0][1][2`, if all are numbers.
fn parse_indices(s: &str, out: &mut Vec<PathSeg>) -> (r: bool)
    ensures
        r == indices(s@) is Some,
        r ==> path_view(final(out)@) == path_view(old(out)@) + indices(s@)->Some_0,
    decreases s@.len(),
{
    let ghost before = path_view(out@);
    proof {
        lemma_first_from(s@, "]["@, 0);
        reveal_strlit("][");
    }
    match find(s, "][") {
        Some(k) => {
            let total: usize = s.unicode_len();
            let first = s.substring_char(0, k);
            let rest = s.substring_char(k + 2, total);
            proof {
                assert(first@ =~= s@.take(k as int));
                assert(rest@ =~= s@.skip(k + 2));
            }
            match parse_size(first) {
                Some(i) => {
                    out.push(PathSeg::Index(i));
                    assert(path_view(out@) =~= before.push(PathSegView::Index(i)));
                    let r = parse_indices(rest, out);
                    if r {
                        assert(path_view(out@) =~= before + indices(s@)->Some_0);
                    }
                    r
                },
                None => false,
            }
        },
        None => {
            match parse_size(s) {
                Some(i) => {
                    out.push(PathSeg::Index(i));
                    assert(path_view(out@) =~= before + indices(s@)->Some_0);
                    true
                },
                None => false,
            }
        },
    }
}

/// Reads a path.
fn parse_path(s: &str) -> (r: Option<Vec<PathSeg>>)
    ensures
        match r {
            Some(path) => path_of(s@) == Some(path_view(path@)),
            None => path_of(s@) is None,
        },
{
    if s.unicode_len() == 0 {
        return None;
    }
    let parts = split_text(s, '.');
    let ghost views = texts(parts@);
    let mut out: Vec<PathSeg> = Vec::new();
    let mut i: usize = 0;
    assert(path_view(out@) =~= Seq::empty());
    while i < parts.len()
        invariant
            i <= parts@.len(),
            views == texts(parts@),
            views == split(s@, '.'),
            s@.len() > 0,
            segments_of(views, i as nat) == Some(path_view(out@)),
        decreases parts@.len() - i,
    {
        let raw = parts[i].as_str();
        assert(views[i as int] == raw@);
        let good = parse_segment(raw, &mut out);
        if !good {
            proof {
                lemma_bad_segment(views, i as int, views.len());
            }
            return None;
        }
        i = i + 1;
    }
    Some(out)
}

proof fn lemma_bad_segment(parts: Seq<Seq<char>>, k: int, n: nat)
    requires
        0 <= k < n <= parts.len(),
        segment_of(parts[k]) is None,
    ensures
        segments_of(parts, n) is None,
    decreases n,
{
    if k < n - 1 {
        lemma_bad_segment(parts, k, (n - 1) as nat);
    }
}

/// Adds to `out` the steps that the part of a path between two dots stands for, if it stands for
/// any.
fn parse_segment(raw: &str, out: &mut Vec<PathSeg>) -> (r: bool)
    ensures
        r == segment_of(raw@) is Some,
        r ==> path_view(final(out)@) == path_view(old(out)@) + segment_of(raw@)->Some_0,
{
    let ghost before = path_view(out@);
    match strip_suffix(raw, "]") {
        Some(inner) => {
            proof {
                reveal_strlit("[");
            }
            match find(inner, "[") {
                Some(b) => {
                    let total: usize = inner.unicode_len();
                    let rest = inner.substring_char(b + 1, total);
                    assert(rest@ =~= inner@.skip(b + 1));
                    if b > 0 {
                        let field = inner.substring_char(0, b);
                        assert(field@ =~= inner@.take(b as int));
                        out.push(PathSeg::Field(field.to_string()));
                        assert(path_view(out@) =~= before.push(PathSegView::Field(field@)));
                    }
                    let r = parse_indices(rest, out);
                    if r {
                        assert(path_view(out@) =~= before + segment_of(raw@)->Some_0);
                    }
                    r
                },
                None => false,
            }
        },
        None => {
            out.push(PathSeg::Field(raw.to_string()));
            assert(path_view(out@) =~= before + segment_of(raw@)->Some_0);
            true
        },
    }
}

/// Whether a text, from `i` on, is a word in small letters, but for the case of its letters.
fn stands_word(s: &Vec<char>, i: usize, word: &str) -> (r: bool)
    requires
        i <= s@.len(),
    ensures
        r == is_word(s@.skip(i as int), word@),
{
    let letters = chars_of(word);
    let ghost rest = s@.skip(i as int);
    let total: usize = s.len();
    if total - i != letters.len() {
        return false;
    }
    let mut k: usize = 0;
    while k < letters.len()
        invariant
            letters@ == word@,
            i + letters@.len() == s@.len(),
            total == s@.len(),
            rest == s@.skip(i as int),
            k <= letters@.len(),
            forall|j: int| 0 <= j < k ==> same_letter(#[trigger] rest[j], word@[j]),
        decreases letters@.len() - k,
    {
        let c = s[i + k];
        let small = letters[k];
        assert(rest[k as int] == c);
        if !(c == small || ('A' <= c && c <= 'Z' && c as u32 + 32 == small as u32)) {
            return false;
        }
        k = k + 1;
    }
    true
}

/// The first position from `i` on that holds no digit.
fn skip_digits(s: &Vec<char>, i: usize) -> (r: usize)
    requires
        i <= s@.len(),
    ensures
        r == digits_end(s@, i as int),
        i <= r <= s@.len(),
{
    let mut k: usize = i;
    while k < s.len() && '0' <= s[k] && s[k] <= '9'
        invariant
            i <= k <= s@.len(),
            digits_end(s@, i as int) == digits_end(s@, k as int),
        decreases s@.len() - k,
    {
        k = k + 1;
    }
    k
}

/// The first position from `i` on behind a sign, if there is one.
fn skip_sign(s: &Vec<char>, i: usize) -> (r: usize)
    requires
        i <= s@.len(),
    ensures
        r == sign_end(s@, i as int),
        i <= r <= s@.len(),
{
    if i < s.len() && (s[i] == '+' || s[i] == '-') {
        i + 1
    } else {
        i
    }
}

/// Whether a text, from `i` on, is empty or an exponent.
fn stands_exponent(s: &Vec<char>, i: usize) -> (r: bool)
    requires
        i <= s@.len(),
    ensures
        r == is_exponent(s@, i as int),
{
    if i == s.len() {
        return true;
    }
    if s[i] != 'e' && s[i] != 'E' {
        return false;
    }
    let digits: usize = skip_sign(s, i + 1);
    digits < s.len() && skip_digits(s, digits) == s.len()
}

/// Whether a text, from `i` on, is a decimal number.
fn stands_decimal(s: &Vec<char>, i: usize) -> (r: bool)
    requires
        i <= s@.len(),
    ensures
        r == is_decimal(s@, i as int),
{
    let whole: usize = skip_digits(s, i);
    if whole < s.len() && s[whole] == '.' {
        let end: usize = skip_digits(s, whole + 1);
        end - i > 1 && stands_exponent(s, end)
    } else {
        whole > i && stands_exponent(s, whole)
    }
}

/// Whether a text is a floating-point number.
fn text_is_number(s: &str) -> (r: bool)
    ensures
        r == is_number(s@),
{
    let text = chars_of(s);
    let start: usize = skip_sign(&text, 0);
    stands_word(&text, start, "inf") || stands_word(&text, start, "infinity") || stands_word(
        &text,
        start,
        "nan",
    ) || stands_decimal(&text, start)
}

/// Reads a constant.
fn parse_literal(s: &str) -> (r: Option<Literal>)
    ensures
        match r {
            Some(l) => literal_of(s@) == Some(l@),
            None => literal_of(s@) is None,
        },
{
    if same_text(s, "true") {
        return Some(Literal::Bool(true));
    }
    if same_text(s, "false") {
        return Some(Literal::Bool(false));
    }
    if let Some(rest) = strip_prefix(s, "\"") {
        if let Some(inner) = strip_suffix(rest, "\"") {
            return Some(Literal::String(inner.to_string()));
        }
    }
    if text_is_number(s) {
        return Some(Literal::Number(s.to_string()));
    }
    None
}

/// The value that the first `n` steps of a path lead to, from a root.
pub open spec fn resolved(root: JsonView, path: Seq<PathSegView>, n: nat) -> Option<JsonView>
    decreases n,
{
    if n == 0 || n > path.len() {
        Some(root)
    } else {
        match resolved(root, path, (n - 1) as nat) {
            Some(v) => match path[n - 1] {
                PathSegView::Field(name) => v.get(name),
                PathSegView::Index(i) => v.at(i as int),
            },
            None => None,
        }
    }
}

/// The value at a path, where every step of it is there.
pub open spec fn value_at(root: JsonView, path: Seq<PathSegView>) -> Option<JsonView> {
    resolved(root, path, path.len())
}

/// How one number compares to another.
#[derive(Debug, Clone, Copy, PartialEq, Eq, Structural)]
pub enum NumberOrder {
    Less,
    Equal,
    Greater,
}

/// How the double nearest to a JSON number compares to the double that `str::parse` reads in a text:
/// not at all where the text reads `nan`.
pub uninterp spec fn number_order(n: JsonNumberView, literal: Seq<char>) -> Option<NumberOrder>;

/// An integer, if it is one that a double holds as it is, as are all of up to 53 bits.
pub open spec fn exact_double(n: int) -> Option<int> {
    if -0x20_0000_0000_0000 <= n <= 0x20_0000_0000_0000 {
        Some(n)
    } else {
        None
    }
}

/// The integer that a number is, if a double holds it as it is.
pub open spec fn exact_number(n: JsonNumberView) -> Option<int> {
    match n {
        JsonNumberView::PosInt(k) => exact_double(k as int),
        JsonNumberView::NegInt(k) => exact_double(k as int),
        JsonNumberView::Float(_) => None,
    }
}

/// The integer that a text is the decimal notation of, if a double holds it as it is.
pub open spec fn exact_literal(literal: Seq<char>) -> Option<int> {
    let negative = literal.len() > 0 && literal[0] == '-';
    let digits = if negative {
        literal.skip(1)
    } else {
        literal
    };
    if digits.len() > 0 && (forall|i: int| 0 <= i < digits.len() ==> is_digit(#[trigger] digits[i])) {
        exact_double(
            if negative {
                -digits_value(digits)
            } else {
                digits_value(digits) as int
            },
        )
    } else {
        None
    }
}

/// How one integer compares to another.
pub open spec fn integer_order(a: int, b: int) -> NumberOrder {
    if a < b {
        NumberOrder::Less
    } else if a == b {
        NumberOrder::Equal
    } else {
        NumberOrder::Greater
    }
}

/// How a number compares to the one that a text stands for: as integers do, where a double holds
/// both as they are, and else as the doubles nearest to them do.
pub open spec fn order_of(n: JsonNumberView, literal: Seq<char>) -> Option<NumberOrder> {
    match (exact_number(n), exact_literal(literal)) {
        (Some(a), Some(b)) => Some(integer_order(a, b)),
        _ => number_order(n, literal),
    }
}

/// The double nearest to a number, which for an integer is `serde_json::Number::as_f64` and for the
/// text of a double what `str::parse` reads in it, compared to the double that `str::parse` reads in
/// a text. Integers of up to 53 bits are doubles, so that they compare as integers.
#[verifier::external_body]
fn compare_number(n: &JsonNumber, literal: &str) -> (r: Option<NumberOrder>)
    ensures
        r == number_order(n@, literal@),
        exact_number(n@) matches Some(a) ==> (exact_literal(literal@) matches Some(b) ==> r == Some(
            integer_order(a, b),
        )),
{
    let number = match n {
        JsonNumber::PosInt(k) => serde_json::Number::from(*k).as_f64()?,
        JsonNumber::NegInt(k) => serde_json::Number::from(*k).as_f64()?,
        JsonNumber::Float(text) => text.parse().ok()?,
    };
    match number.partial_cmp(&literal.parse().ok()?)? {
        std::cmp::Ordering::Less => Some(NumberOrder::Less),
        std::cmp::Ordering::Equal => Some(NumberOrder::Equal),
        std::cmp::Ordering::Greater => Some(NumberOrder::Greater),
    }
}

/// Whether two numbers that compare in this way stand in the relation of an operator.
pub open spec fn order_accepted(op: Op, order: Option<NumberOrder>) -> bool {
    match op {
        Op::Gt => order == Some(NumberOrder::Greater),
        Op::Ge => order == Some(NumberOrder::Greater) || order == Some(NumberOrder::Equal),
        Op::Lt => order == Some(NumberOrder::Less),
        Op::Le => order == Some(NumberOrder::Less) || order == Some(NumberOrder::Equal),
        Op::Eq => order == Some(NumberOrder::Equal),
        Op::Ne => order != Some(NumberOrder::Equal),
        _ => false,
    }
}

/// Whether two numbers that compare in this way stand in the relation of an operator.
pub fn accepts_order(op: Op, order: Option<NumberOrder>) -> (r: bool)
    ensures
        r == order_accepted(op, order),
{
    let (less, equal, greater) = match order {
        Some(NumberOrder::Less) => (true, false, false),
        Some(NumberOrder::Equal) => (false, true, false),
        Some(NumberOrder::Greater) => (false, false, true),
        None => (false, false, false),
    };
    match op {
        Op::Gt => greater,
        Op::Ge => greater || equal,
        Op::Lt => less,
        Op::Le => less || equal,
        Op::Eq => equal,
        Op::Ne => !equal,
        _ => false,
    }
}

/// Whether a value is the one that a constant stands for. Values of different types never are.
pub open spec fn equals_literal(v: JsonView, literal: LiteralView) -> bool {
    match (v, literal) {
        (JsonView::Bool(a), LiteralView::Bool(b)) => a == b,
        (JsonView::String(a), LiteralView::String(b)) => a == b,
        (JsonView::Number(n), LiteralView::Number(text)) => order_accepted(
            Op::Eq,
            order_of(n, text),
        ),
        _ => false,
    }
}

/// Whether a value, if there is one, meets a clause.
pub open spec fn value_meets(
    found: Option<JsonView>,
    op: Op,
    literal: Option<LiteralView>,
) -> bool {
    match op {
        Op::Exists => found is Some,
        Op::NotExists => found is None,
        Op::Contains => match (found, literal) {
            (Some(JsonView::Array(items)), Some(l)) => exists|i: int|
                0 <= i < items.len() && equals_literal(#[trigger] items[i], l),
            (Some(JsonView::String(s)), Some(LiteralView::String(needle))) => occurs(s, needle),
            _ => false,
        },
        Op::Eq => match (found, literal) {
            (Some(v), Some(l)) => equals_literal(v, l),
            _ => false,
        },
        Op::Ne => match (found, literal) {
            (Some(v), Some(l)) => !equals_literal(v, l),
            _ => false,
        },
        _ => match (found, literal) {
            (Some(JsonView::Number(n)), Some(LiteralView::Number(text))) => order_accepted(
                op,
                order_of(n, text),
            ),
            _ => false,
        },
    }
}

/// Whether a clause holds of a value.
pub open spec fn clause_holds(clause: ClauseView, root: JsonView) -> bool {
    value_meets(value_at(root, clause.path), clause.op, clause.literal)
}

/// Whether all of some clauses hold of a value.
pub open spec fn all_hold(clauses: Seq<ClauseView>, root: JsonView) -> bool {
    forall|i: int| 0 <= i < clauses.len() ==> clause_holds(#[trigger] clauses[i], root)
}

/// The value at a path, where every step of it is there.
fn resolve<'a>(root: &'a Json, path: &Vec<PathSeg>) -> (r: Option<&'a Json>)
    ensures
        opt_view(r) == value_at(root@, path_view(path@)),
{
    let ghost views = path_view(path@);
    let mut current: &'a Json = root;
    let mut i: usize = 0;
    while i < path.len()
        invariant
            i <= path@.len(),
            views == path_view(path@),
            resolved(root@, views, i as nat) == Some(current@),
        decreases path@.len() - i,
    {
        assert(views[i as int] == path@[i as int]@);
        let next = match &path[i] {
            PathSeg::Field(name) => current.get(name.as_str()),
            PathSeg::Index(k) => current.at(*k),
        };
        match next {
            Some(v) => {
                current = v;
            },
            None => {
                proof {
                    lemma_missing_step(root@, views, (i + 1) as nat, views.len());
                }
                return None;
            },
        }
        i = i + 1;
    }
    Some(current)
}

proof fn lemma_missing_step(root: JsonView, path: Seq<PathSegView>, k: nat, n: nat)
    requires
        k <= n <= path.len(),
        resolved(root, path, k) is None,
    ensures
        resolved(root, path, n) is None,
    decreases n - k,
{
    if k < n {
        lemma_missing_step(root, path, k, (n - 1) as nat);
    }
}

/// Whether a value is the one that a constant stands for.
fn value_eq_literal(v: &Json, literal: &Literal) -> (r: bool)
    ensures
        r == equals_literal(v@, literal@),
{
    match (v, literal) {
        (Json::Bool(a), Literal::Bool(b)) => *a == *b,
        (Json::String(a), Literal::String(b)) => same_text(a.as_str(), b.as_str()),
        (Json::Number(n), Literal::Number(text)) => {
            accepts_order(Op::Eq, compare_number(n, text.as_str()))
        },
        _ => false,
    }
}

/// Whether any of some values is the one that a constant stands for.
fn any_equals(items: &Vec<Json>, literal: &Literal) -> (r: bool)
    ensures
        r == exists|i: int|
            0 <= i < json_items(items@).len() && equals_literal(
                #[trigger] json_items(items@)[i],
                literal@,
            ),
{
    let ghost views = json_items(items@);
    let mut i: usize = 0;
    while i < items.len()
        invariant
            i <= items@.len(),
            views == json_items(items@),
            forall|k: int| 0 <= k < i ==> !equals_literal(#[trigger] views[k], literal@),
        decreases items@.len() - i,
    {
        assert(views[i as int] == items@[i as int]@);
        if value_eq_literal(&items[i], literal) {
            return true;
        }
        i = i + 1;
    }
    false
}

/// Whether a condition holds of a value.
pub fn evaluate(predicate: &Predicate, root: &Json) -> (r: bool)
    ensures
        r == all_hold(predicate@.clauses, root@),
{
    let ghost views = predicate@.clauses;
    let mut i: usize = 0;
    while i < predicate.clauses.len()
        invariant
            i <= predicate.clauses@.len(),
            views == clause_views(predicate.clauses@),
            forall|k: int| 0 <= k < i ==> clause_holds(#[trigger] views[k], root@),
        decreases predicate.clauses@.len() - i,
    {
        assert(views[i as int] == predicate.clauses@[i as int]@);
        if !evaluate_clause(&predicate.clauses[i], root) {
            return false;
        }
        i = i + 1;
    }
    true
}

/// Whether a clause holds of a value.
fn evaluate_clause(clause: &Clause, root: &Json) -> (r: bool)
    ensures
        r == clause_holds(clause@, root@),
{
    broadcast use lemma_json_model;

    let found = resolve(root, &clause.path);
    match clause.op {
        Op::Exists => found.is_some(),
        Op::NotExists => found.is_none(),
        Op::Contains => match (found, &clause.literal) {
            (Some(Json::Array(items)), Some(literal)) => any_equals(items, literal),
            (Some(Json::String(s)), Some(Literal::String(needle))) => {
                contains(s.as_str(), needle.as_str())
            },
            _ => false,
        },
        Op::Eq => match (found, &clause.literal) {
            (Some(v), Some(literal)) => value_eq_literal(v, literal),
            _ => false,
        },
        Op::Ne => match (found, &clause.literal) {
            (Some(v), Some(literal)) => !value_eq_literal(v, literal),
            _ => false,
        },
        op => match (found, &clause.literal) {
            (Some(Json::Number(n)), Some(Literal::Number(text))) => {
                accepts_order(op, compare_number(n, text.as_str()))
            },
            _ => false,
        },
    }
}

/// A clause about a value that is not there holds only if it asks for that.
pub proof fn law_missing_path_is_false(clause: ClauseView, root: JsonView)
    requires
        value_at(root, clause.path) is None,
    ensures
        clause_holds(clause, root) == (clause.op == Op::NotExists),
{
}

/// A condition holds if and only if each of its parts does.
pub proof fn law_conditions_are_conjunctions(
    first: Seq<ClauseView>,
    second: Seq<ClauseView>,
    root: JsonView,
)
    ensures
        all_hold(first + second, root) == (all_hold(first, root) && all_hold(second, root)),
{
    let all = first + second;
    if all_hold(all, root) {
        assert forall|i: int| 0 <= i < first.len() implies clause_holds(
            #[trigger] first[i],
            root,
        ) by {
            assert(all[i] == first[i]);
        }
        assert forall|i: int| 0 <= i < second.len() implies clause_holds(
            #[trigger] second[i],
            root,
        ) by {
            assert(all[first.len() + i] == second[i]);
        }
    }
}

/// Of a value that is there, exactly one of `==` and `!=` holds.
pub proof fn law_unequal_is_not_equal(path: Seq<PathSegView>, literal: LiteralView, root: JsonView)
    requires
        value_at(root, path) is Some,
    ensures
        clause_holds(ClauseView { path, op: Op::Eq, literal: Some(literal) }, root)
            != clause_holds(ClauseView { path, op: Op::Ne, literal: Some(literal) }, root),
{
}

/// Of every value, exactly one of `exists` and `not exists` holds.
pub proof fn law_exists_or_not(path: Seq<PathSegView>, root: JsonView)
    ensures
        clause_holds(ClauseView { path, op: Op::Exists, literal: None }, root) != clause_holds(
            ClauseView { path, op: Op::NotExists, literal: None },
            root,
        ),
{
}

/// Integers that a double holds as they are compare as integers.
pub proof fn law_integers_compare_as_integers(n: int, m: int)
    requires
        exact_double(n) is Some,
        exact_double(m) is Some,
    ensures
        ({
            let found = Some(JsonView::Number(JsonNumberView::from_int(n)));
            let literal = Some(LiteralView::Number(decimal_signed(m)));
            &&& value_meets(found, Op::Eq, literal) == (n == m)
            &&& value_meets(found, Op::Ne, literal) == (n != m)
            &&& value_meets(found, Op::Lt, literal) == (n < m)
            &&& value_meets(found, Op::Le, literal) == (n <= m)
            &&& value_meets(found, Op::Gt, literal) == (n > m)
            &&& value_meets(found, Op::Ge, literal) == (n >= m)
        }),
{
    let text = decimal_signed(m);
    if m < 0 {
        lemma_decimal_digits((-m) as nat);
        assert(text.skip(1) =~= decimal((-m) as nat));
        assert(text[0] == '-');
    } else {
        lemma_decimal_digits(m as nat);
        assert(is_digit(text[0]));
    }
    assert(exact_literal(text) == Some(m));
    assert(exact_number(JsonNumberView::from_int(n)) == Some(n));
}

} // verus!
