//! Which texts `hcl` can be given.
//!
//! Its parser panics on a number that does not fit, and on some strings with escapes. Where in a
//! text numbers and strings stand is told by its parts: code, comments, strings, heredocs, and the
//! code in their interpolations and directives.

use crate::text::{
    chars_of,
    digits_value,
    first_from,
    is_digit,
    lemma_digits_grow,
    lemma_first_from,
    occurs_at,
    stands_at,
};
use vstd::prelude::*;

verus! {

/// The number of bytes that a character takes in UTF-8.
pub open spec fn char_bytes(c: char) -> nat {
    if (c as u32) < 0x80 {
        1
    } else if (c as u32) < 0x800 {
        2
    } else if (c as u32) < 0x10000 {
        3
    } else {
        4
    }
}

/// The number of bytes that a text takes in UTF-8.
pub open spec fn byte_len(s: Seq<char>) -> nat
    decreases s.len(),
{
    if s.len() == 0 {
        0
    } else {
        byte_len(s.drop_last()) + char_bytes(s.last())
    }
}

/// Whether a character of the text begins, or the text ends, `k` bytes into it.
pub open spec fn splits_at(s: Seq<char>, k: int) -> bool {
    exists|j: int| 0 <= j <= s.len() && #[trigger] byte_len(s.take(j)) == k
}

/// Whether `b` is the position of the first backslash in a text.
pub open spec fn first_backslash(s: Seq<char>, b: int) -> bool {
    &&& 0 <= b < s.len()
    &&& s[b] == '\\'
    &&& forall|k: int| 0 <= k < b ==> s[k] != '\\'
}

/// Whether escapes in a text can be resolved: as many bytes into it as characters precede its first
/// backslash, a character begins.
pub open spec fn unescapable(s: Seq<char>) -> bool {
    forall|b: int| #[trigger] first_backslash(s, b) ==> splits_at(s.take(b), b)
}

/// The classes of characters of which runs are made.
#[derive(Clone, Copy)]
pub enum Class {
    /// Decimal digits.
    Digit,
    /// What a name goes on with.
    Name,
    /// What a line goes on with.
    Line,
    /// Spaces and tabs.
    Space,
}

/// Whether a name may begin with a character.
pub open spec fn begins_name(c: char) -> bool {
    'a' <= c <= 'z' || 'A' <= c <= 'Z' || c == '_'
}

/// Whether a character is of a class.
pub open spec fn is_of(class: Class, c: char) -> bool {
    match class {
        Class::Digit => is_digit(c),
        Class::Name => begins_name(c) || is_digit(c) || c == '-',
        Class::Line => c != '\n' && c != '\r',
        Class::Space => c == ' ' || c == '\t',
    }
}

/// The end of the run of characters of a class that begins at `i`.
pub open spec fn run_end(s: Seq<char>, i: int, class: Class) -> int
    decreases s.len() - i,
{
    if 0 <= i < s.len() && is_of(class, s[i]) {
        run_end(s, i + 1, class)
    } else {
        i
    }
}

/// Whether `c` stands at `i`.
pub open spec fn is_at(s: Seq<char>, i: int, c: char) -> bool {
    0 <= i < s.len() && s[i] == c
}

/// Whether a digit stands at `i`.
pub open spec fn digit_at(s: Seq<char>, i: int) -> bool {
    0 <= i < s.len() && is_digit(s[i])
}

/// The end of the line break at `i`, if there is one.
pub open spec fn newline_end(s: Seq<char>, i: int) -> Option<int> {
    if is_at(s, i, '\n') {
        Some(i + 1)
    } else if is_at(s, i, '\r') {
        Some(
            if is_at(s, i + 1, '\n') {
                i + 2
            } else {
                i + 1
            },
        )
    } else {
        None
    }
}

/// The end of the comment at `i`, if there is one: of the line, or of the block. One that is never
/// closed takes up the rest of the text.
pub open spec fn comment_end(s: Seq<char>, i: int) -> Option<int> {
    if is_at(s, i, '#') || is_at(s, i, '/') && is_at(s, i + 1, '/') {
        Some(run_end(s, i, Class::Line))
    } else if is_at(s, i, '/') && is_at(s, i + 1, '*') {
        match first_from(s, seq!['*', '/'], i + 2) {
            Some(e) => Some(e + 2),
            None => Some(s.len() as int),
        }
    } else {
        None
    }
}

/// The end of the blanks and comments that begin at `i`.
pub open spec fn blank_end(s: Seq<char>, i: int) -> int
    decreases s.len() - i,
{
    if i < 0 || i >= s.len() {
        i
    } else if is_of(Class::Space, s[i]) || s[i] == '\n' || s[i] == '\r' {
        blank_end(s, i + 1)
    } else {
        match comment_end(s, i) {
            Some(e) => {
                proof {
                    lemma_comment_end(s, i);
                }
                blank_end(s, e)
            },
            None => i,
        }
    }
}

/// The end of the exponent of a number at `i`, or `i` where there is none.
pub open spec fn exponent_end(s: Seq<char>, i: int) -> int {
    if is_at(s, i, 'e') || is_at(s, i, 'E') {
        let digits = if is_at(s, i + 1, '+') || is_at(s, i + 1, '-') {
            i + 2
        } else {
            i + 1
        };
        if digit_at(s, digits) {
            run_end(s, digits, Class::Digit)
        } else {
            i
        }
    } else {
        i
    }
}

/// The end of the number whose digits begin at `i`, with its fraction and its exponent.
pub open spec fn number_end(s: Seq<char>, i: int) -> int {
    let whole = run_end(s, i, Class::Digit);
    if is_at(s, whole, '.') && digit_at(s, whole + 1) {
        exponent_end(s, run_end(s, whole + 1, Class::Digit))
    } else {
        exponent_end(s, whole)
    }
}

/// Whether what ends at `i` is a name for what follows it, or followed by a label or a body, where no
/// expression is expected.
pub open spec fn is_name_before(s: Seq<char>, i: int) -> bool {
    let k = blank_end(s, i);
    ||| is_at(s, k, '=') && !is_at(s, k + 1, '=') && !is_at(s, k + 1, '>')
    ||| is_at(s, k, ':') || is_at(s, k, '{') || is_at(s, k, '"')
    ||| 0 <= k < s.len() && begins_name(s[k])
}

/// The end of the word at `i`. A literal that an operator or a number follows is a word by itself
/// where an expression may stand.
pub open spec fn word_end(s: Seq<char>, i: int, last: Last) -> int {
    let name = run_end(s, i, Class::Name);
    if last != Last::Operator && is_name_before(s, name) {
        name
    } else if (occurs_at(s, "true"@, i) || occurs_at(s, "null"@, i)) && ends_literal(s, i + 4) {
        i + 4
    } else if occurs_at(s, "false"@, i) && ends_literal(s, i + 5) {
        i + 5
    } else {
        name
    }
}

/// Whether a literal such as `true` can end at `i` though a name would go on.
pub open spec fn ends_literal(s: Seq<char>, i: int) -> bool {
    is_at(s, i, '-') || digit_at(s, i)
}

/// The delimiter of the heredoc that is introduced at `i`, from where to where it stands, and the
/// beginning of the heredoc's text.
pub open spec fn heredoc_at(s: Seq<char>, i: int) -> Option<(int, int, int)> {
    let from = if is_at(s, i + 2, '-') {
        i + 3
    } else {
        i + 2
    };
    let to = run_end(s, from, Class::Name);
    if is_at(s, i, '<') && is_at(s, i + 1, '<') && 0 <= from < s.len() && begins_name(s[from]) {
        match newline_end(s, to) {
            Some(next) => Some((from, to, next)),
            None => None,
        }
    } else {
        None
    }
}

/// The end of a heredoc, with its delimiter, if the heredoc ends with the line break at `i`.
pub open spec fn heredoc_end(s: Seq<char>, i: int, from: int, to: int) -> Option<int> {
    match newline_end(s, i) {
        Some(next) => {
            let k = run_end(s, next, Class::Space);
            let delimiter = s.subrange(from, to);
            if occurs_at(s, delimiter, k) {
                Some(k + delimiter.len())
            } else {
                None
            }
        },
        None => None,
    }
}

/// Whether a marker stands at `i`, written twice so that it is text.
pub open spec fn is_escaped_marker(s: Seq<char>, i: int) -> bool {
    &&& is_at(s, i, '$') && is_at(s, i + 1, '$') || is_at(s, i, '%') && is_at(s, i + 1, '%')
    &&& is_at(s, i + 2, '{')
}

/// Whether an interpolation begins at `i`.
pub open spec fn is_interpolation(s: Seq<char>, i: int) -> bool {
    is_at(s, i, '$') && is_at(s, i + 1, '{')
}

/// Whether a directive begins at `i`.
pub open spec fn is_directive(s: Seq<char>, i: int) -> bool {
    is_at(s, i, '%') && is_at(s, i + 1, '{')
}

/// The keyword of the directive at `i`.
pub open spec fn keyword_at(s: Seq<char>, i: int) -> int {
    blank_end(
        s,
        if is_at(s, i + 2, '~') {
            i + 3
        } else {
            i + 2
        },
    )
}

/// The end of the name at `i`, with the blanks that follow it, if there is one.
pub open spec fn variable_end(s: Seq<char>, i: int) -> Option<int> {
    if 0 <= i < s.len() && begins_name(s[i]) {
        Some(blank_end(s, run_end(s, i, Class::Name)))
    } else {
        None
    }
}

/// The end of `for`, one or two variables and `in`, if they stand at `i`.
pub open spec fn loop_head_end(s: Seq<char>, i: int) -> Option<int> {
    if occurs_at(s, "for"@, i) {
        match variable_end(s, blank_end(s, i + 3)) {
            Some(first) => {
                let end = if is_at(s, first, ',') {
                    variable_end(s, blank_end(s, first + 1))
                } else {
                    Some(first)
                };
                match end {
                    Some(e) => if occurs_at(s, "in"@, e) {
                        Some(e + 2)
                    } else {
                        None
                    },
                    None => None,
                }
            },
            None => None,
        }
    } else {
        None
    }
}

/// Where the code of the directive at `i` goes on behind its keywords.
pub open spec fn directive_code(s: Seq<char>, i: int) -> int {
    let k = keyword_at(s, i);
    if occurs_at(s, "if"@, k) {
        k + 2
    } else {
        match loop_head_end(s, k) {
            Some(e) => e,
            None => i + 2,
        }
    }
}

/// How many directives are open behind the directive at `i`, of `depth` that are open before it.
pub open spec fn depth_behind(s: Seq<char>, i: int, depth: usize) -> usize {
    let k = keyword_at(s, i);
    if occurs_at(s, "if"@, k) || occurs_at(s, "for"@, k) {
        (depth + 1) as usize
    } else if occurs_at(s, "end"@, k) && depth > 0 {
        (depth - 1) as usize
    } else {
        depth
    }
}

/// The closing quote of the string whose text begins at `i`, if it is one without interpolations
/// and directives.
pub open spec fn literal_end(s: Seq<char>, i: int) -> Option<int>
    decreases s.len() + 2 - i,
{
    if i < 0 || i >= s.len() {
        None
    } else if is_escaped_marker(s, i) {
        literal_end(s, i + 3)
    } else if s[i] == '\\' {
        literal_end(s, i + 2)
    } else if s[i] == '"' {
        Some(i)
    } else if is_interpolation(s, i) || is_directive(s, i) {
        None
    } else {
        literal_end(s, i + 1)
    }
}

/// Whether the escapes of the string whose text begins at `i` can be resolved, if it is one without
/// interpolations and directives.
pub open spec fn string_fits(s: Seq<char>, i: int) -> bool {
    match literal_end(s, i) {
        Some(e) => unescapable(s.subrange(i, e)),
        None => true,
    }
}

/// What stands last in a piece of code.
#[derive(Clone, Copy, PartialEq, Eq, Structural)]
pub enum Last {
    /// Nothing, or a comma: a name or an expression may follow.
    Start,
    /// The end of an expression or of a name: a name may follow, but no expression.
    Operand,
    /// Something that an expression follows.
    Operator,
}

/// What a part of a text is.
#[derive(Clone, Copy)]
pub enum Frame {
    /// Code: a file, an interpolation, a directive, or what stands between brackets. Whether it
    /// matters what it holds, whether it is a loop, which may end with a condition, and what stands
    /// last in it.
    Code(bool, bool, Last),
    /// A template in quotes, in which so many directives are open.
    Quoted(usize),
    /// A heredoc, in which so many directives are open, and from where to where its delimiter
    /// stands.
    Heredoc(usize, usize, usize),
    /// A template by itself, in which so many directives are open.
    Plain(usize),
}

/// A step through a text.
pub struct Move {
    /// Whether what was passed is something that `hcl` can be given.
    pub fits: bool,
    /// Where the text goes on.
    pub next: int,
    /// The parts that stand within one another there, the innermost last.
    pub frames: Seq<Frame>,
}

/// Some parts, with something else last in the innermost, if that is code.
pub open spec fn with_last(frames: Seq<Frame>, last: Last) -> Seq<Frame> {
    if frames.len() == 0 {
        frames
    } else {
        match frames.last() {
            Frame::Code(checked, looped, _) => frames.drop_last().push(
                Frame::Code(checked, looped, last),
            ),
            _ => frames,
        }
    }
}

/// Some parts without the innermost, which is an expression of the one around it.
pub open spec fn closed(frames: Seq<Frame>) -> Seq<Frame> {
    with_last(frames.drop_last(), Last::Operand)
}

/// The step over a name or a literal at `i`.
pub open spec fn word_step(
    s: Seq<char>,
    i: int,
    frames: Seq<Frame>,
    looped: bool,
    last: Last,
) -> Move {
    if looped && last == Last::Operand && occurs_at(s, "if"@, i) {
        Move { fits: true, next: i + 2, frames: with_last(frames, Last::Operator) }
    } else {
        Move { fits: true, next: word_end(s, i, last), frames: with_last(frames, Last::Operand) }
    }
}

/// The step over a number at `i`.
pub open spec fn number_step(s: Seq<char>, i: int, frames: Seq<Frame>, checked: bool) -> Move {
    let whole = run_end(s, i, Class::Digit);
    let e = number_end(s, i);
    Move {
        fits: checked && e == whole ==> digits_value(s.subrange(i, whole)) <= i64::MAX,
        next: e,
        frames: with_last(frames, Last::Operand),
    }
}

/// The step over a dot at `i` and what belongs to it: an index, a name, two more dots or a star.
pub open spec fn dot_step(s: Seq<char>, i: int, frames: Seq<Frame>, checked: bool) -> Move {
    let operand = with_last(frames, Last::Operand);
    if digit_at(s, i + 1) {
        let e = run_end(s, i + 1, Class::Digit);
        Move {
            fits: checked ==> digits_value(s.subrange(i + 1, e)) <= u64::MAX,
            next: e,
            frames: operand,
        }
    } else if i + 1 < s.len() && begins_name(s[i + 1]) {
        Move { fits: true, next: run_end(s, i + 1, Class::Name), frames: operand }
    } else if is_at(s, i + 1, '.') && is_at(s, i + 2, '.') {
        Move { fits: true, next: i + 3, frames: operand }
    } else if is_at(s, i + 1, '*') {
        Move { fits: true, next: i + 2, frames: operand }
    } else {
        Move { fits: true, next: i + 1, frames: with_last(frames, Last::Operator) }
    }
}

/// The step over the opening bracket at `i`, and over the head of a loop between brackets.
pub open spec fn bracket_step(s: Seq<char>, i: int, frames: Seq<Frame>, checked: bool) -> Move {
    match loop_head_end(s, blank_end(s, i + 1)) {
        Some(e) => Move {
            fits: true,
            next: e,
            frames: frames.push(Frame::Code(checked, true, Last::Operator)),
        },
        None => Move {
            fits: true,
            next: i + 1,
            frames: frames.push(Frame::Code(checked, false, Last::Start)),
        },
    }
}

/// The step from `i` in code.
pub open spec fn code_step(
    s: Seq<char>,
    i: int,
    frames: Seq<Frame>,
    checked: bool,
    looped: bool,
    last: Last,
) -> Move {
    let c = s[i];
    if let Some(e) = comment_end(s, i) {
        Move { fits: true, next: e, frames }
    } else if c == ' ' || c == '\t' || c == '\n' || c == '\r' {
        Move { fits: true, next: i + 1, frames }
    } else if c == '"' {
        Move {
            fits: checked ==> string_fits(s, i + 1),
            next: i + 1,
            frames: frames.push(Frame::Quoted(0)),
        }
    } else if let Some((from, to, next)) = heredoc_at(s, i) {
        Move { fits: true, next, frames: frames.push(Frame::Heredoc(0, from as usize, to as usize)) }
    } else if begins_name(c) {
        word_step(s, i, frames, looped, last)
    } else if is_digit(c) {
        number_step(s, i, frames, checked)
    } else if c == '.' {
        dot_step(s, i, frames, checked)
    } else if c == '(' || c == '[' || c == '{' {
        bracket_step(s, i, frames, checked)
    } else if c == ')' || c == ']' || c == '}' {
        Move { fits: true, next: i + 1, frames: closed(frames) }
    } else if c == ',' {
        Move { fits: true, next: i + 1, frames: with_last(frames, Last::Start) }
    } else {
        Move { fits: true, next: i + 1, frames: with_last(frames, Last::Operator) }
    }
}

/// A part of a template with another number of open directives.
pub open spec fn with_depth(frame: Frame, depth: usize) -> Frame {
    match frame {
        Frame::Code(checked, looped, last) => Frame::Code(checked, looped, last),
        Frame::Quoted(_) => Frame::Quoted(depth),
        Frame::Heredoc(_, from, to) => Frame::Heredoc(depth, from, to),
        Frame::Plain(_) => Frame::Plain(depth),
    }
}

/// The code of an interpolation or a directive in the innermost of some parts. It matters where that
/// is a template by itself.
pub open spec fn inner_code(frames: Seq<Frame>) -> Frame {
    Frame::Code(frames.len() == 1, false, Last::Operator)
}

/// The step from `i` in a template in which so many directives are open. Within a directive neither
/// quotes nor delimiters end the template.
pub open spec fn template_step(s: Seq<char>, i: int, frames: Seq<Frame>, depth: usize) -> Move {
    let frame = frames.last();
    if is_escaped_marker(s, i) {
        Move { fits: true, next: i + 3, frames }
    } else if is_interpolation(s, i) {
        Move { fits: true, next: i + 2, frames: frames.push(inner_code(frames)) }
    } else if is_directive(s, i) {
        Move {
            fits: true,
            next: directive_code(s, i),
            frames: frames.drop_last().push(with_depth(frame, depth_behind(s, i, depth))).push(
                inner_code(frames),
            ),
        }
    } else if depth == 0 && frame is Quoted && s[i] == '"' {
        Move { fits: true, next: i + 1, frames: closed(frames) }
    } else if depth == 0 && frame is Quoted && s[i] == '\\' && i + 1 < s.len() {
        Move { fits: true, next: i + 2, frames }
    } else {
        match frame {
            Frame::Heredoc(0, from, to) => match heredoc_end(s, i, from as int, to as int) {
                Some(e) => Move { fits: true, next: e, frames: closed(frames) },
                None => Move { fits: true, next: i + 1, frames },
            },
            _ => Move { fits: true, next: i + 1, frames },
        }
    }
}

/// The step from `i` in the innermost of some parts.
pub open spec fn step(s: Seq<char>, i: int, frames: Seq<Frame>) -> Move {
    match frames.last() {
        Frame::Code(checked, looped, last) => code_step(s, i, frames, checked, looped, last),
        Frame::Quoted(depth) => template_step(s, i, frames, depth),
        Frame::Heredoc(depth, ..) => template_step(s, i, frames, depth),
        Frame::Plain(depth) => template_step(s, i, frames, depth),
    }
}

/// Whether, of a text from `i` on, `hcl` can be given the code that matters. It takes a number
/// without fraction and exponent for one of 64 bits with a sign, and an index behind a dot for one
/// without, and looks for the first escape of a string by counting characters where bytes are meant.
pub open spec fn code_fits(s: Seq<char>, i: int, frames: Seq<Frame>) -> bool
    decreases s.len() - i,
{
    if i < 0 || i >= s.len() || frames.len() == 0 {
        true
    } else {
        let m = step(s, i, frames);
        proof {
            lemma_step_advances(s, i, frames);
        }
        m.fits && code_fits(s, m.next, m.frames)
    }
}

/// Whether a text is one that `hcl` can be given: its code, but not what its templates hold.
pub open spec fn readable(s: Seq<char>) -> bool {
    code_fits(s, 0, seq![Frame::Code(true, false, Last::Start)])
}

/// Whether a template is one that `hcl` can take apart: the code in its interpolations and
/// directives, but not what the templates in there hold.
pub open spec fn readable_template(raw: Seq<char>) -> bool {
    code_fits(raw, 0, seq![Frame::Plain(0)])
}

/// A run ends behind its beginning, and within the text.
proof fn lemma_run_end(s: Seq<char>, i: int, class: Class)
    ensures
        run_end(s, i, class) >= i,
        0 <= i < s.len() && is_of(class, s[i]) ==> run_end(s, i, class) > i,
        i <= s.len() ==> run_end(s, i, class) <= s.len(),
        forall|k: int| i <= k < run_end(s, i, class) ==> is_of(class, #[trigger] s[k]),
    decreases s.len() - i,
{
    if 0 <= i < s.len() && is_of(class, s[i]) {
        lemma_run_end(s, i + 1, class);
    }
}

/// A comment ends behind its beginning, and within the text.
pub proof fn lemma_comment_end(s: Seq<char>, i: int)
    ensures
        comment_end(s, i) matches Some(e) ==> i < e <= s.len(),
{
    lemma_run_end(s, i, Class::Line);
    if i >= 0 {
        lemma_first_from(s, seq!['*', '/'], i + 2);
    }
}

/// Blanks end within the text.
proof fn lemma_blank_end(s: Seq<char>, i: int)
    requires
        0 <= i <= s.len(),
    ensures
        i <= blank_end(s, i) <= s.len(),
    decreases s.len() - i,
{
    if i < s.len() {
        if is_of(Class::Space, s[i]) || s[i] == '\n' || s[i] == '\r' {
            lemma_blank_end(s, i + 1);
        } else {
            lemma_comment_end(s, i);
            if let Some(e) = comment_end(s, i) {
                lemma_blank_end(s, e);
            }
        }
    }
}

/// A number ends behind its digits, and within the text.
proof fn lemma_number_end(s: Seq<char>, i: int)
    requires
        0 <= i <= s.len(),
    ensures
        run_end(s, i, Class::Digit) <= number_end(s, i) <= s.len(),
{
    let whole = run_end(s, i, Class::Digit);
    lemma_run_end(s, i, Class::Digit);
    lemma_run_end(s, whole + 1, Class::Digit);
    let fraction = run_end(s, whole + 1, Class::Digit);
    lemma_run_end(s, whole + 1, Class::Digit);
    lemma_run_end(s, whole + 2, Class::Digit);
    lemma_run_end(s, fraction + 1, Class::Digit);
    lemma_run_end(s, fraction + 2, Class::Digit);
}

/// A word ends behind its beginning, and within the text.
proof fn lemma_word_end(s: Seq<char>, i: int, last: Last)
    requires
        0 <= i < s.len(),
        begins_name(s[i]),
    ensures
        i < word_end(s, i, last) <= s.len(),
{
    reveal_strlit("true");
    reveal_strlit("null");
    reveal_strlit("false");
    lemma_run_end(s, i, Class::Name);
}

/// A variable ends behind its beginning, and within the text.
proof fn lemma_variable_end(s: Seq<char>, i: int)
    ensures
        variable_end(s, i) matches Some(e) ==> i < e <= s.len(),
{
    if 0 <= i < s.len() {
        lemma_run_end(s, i, Class::Name);
        lemma_blank_end(s, run_end(s, i, Class::Name));
    }
}

/// The head of a loop ends behind its beginning, and within the text.
proof fn lemma_loop_head_end(s: Seq<char>, i: int)
    ensures
        loop_head_end(s, i) matches Some(e) ==> i < e <= s.len(),
{
    reveal_strlit("for");
    reveal_strlit("in");
    if occurs_at(s, "for"@, i) {
        lemma_blank_end(s, i + 3);
        let k = blank_end(s, i + 3);
        lemma_variable_end(s, k);
        if let Some(first) = variable_end(s, k) {
            if is_at(s, first, ',') {
                lemma_blank_end(s, first + 1);
                lemma_variable_end(s, blank_end(s, first + 1));
            }
        }
    }
}

/// The code of a directive goes on behind its marker, and within the text.
proof fn lemma_directive_code(s: Seq<char>, i: int)
    requires
        is_directive(s, i),
    ensures
        i + 2 <= keyword_at(s, i) <= s.len(),
        i + 2 <= directive_code(s, i) <= s.len(),
{
    reveal_strlit("if");
    lemma_blank_end(s, i + 2);
    if is_at(s, i + 2, '~') {
        lemma_blank_end(s, i + 3);
    }
    lemma_loop_head_end(s, keyword_at(s, i));
}

/// The text of a heredoc begins behind its introduction, and within the text.
proof fn lemma_heredoc_at(s: Seq<char>, i: int)
    ensures
        heredoc_at(s, i) matches Some((from, to, next)) ==> i < from < to < next <= s.len(),
{
    lemma_run_end(s, i + 2, Class::Name);
    lemma_run_end(s, i + 3, Class::Name);
}

/// A heredoc ends behind its last line break, and within the text.
proof fn lemma_heredoc_end(s: Seq<char>, i: int, from: int, to: int)
    ensures
        heredoc_end(s, i, from, to) matches Some(e) ==> i < e <= s.len(),
{
    if let Some(next) = newline_end(s, i) {
        lemma_run_end(s, next, Class::Space);
    }
}

/// A step leads on, and no further than to the end of the text.
pub proof fn lemma_step_advances(s: Seq<char>, i: int, frames: Seq<Frame>)
    requires
        0 <= i < s.len(),
    ensures
        i < step(s, i, frames).next <= s.len(),
{
    lemma_comment_end(s, i);
    lemma_heredoc_at(s, i);
    match frames.last() {
        Frame::Code(_, _, last) => {
            if begins_name(s[i]) {
                lemma_word_end(s, i, last);
                reveal_strlit("if");
            }
            lemma_run_end(s, i, Class::Digit);
            lemma_run_end(s, i + 1, Class::Digit);
            lemma_run_end(s, i + 1, Class::Name);
            lemma_number_end(s, i);
            lemma_blank_end(s, i + 1);
            lemma_loop_head_end(s, blank_end(s, i + 1));
        },
        Frame::Heredoc(_, from, to) => {
            lemma_heredoc_end(s, i, from as int, to as int);
        },
        _ => {},
    }
    if is_directive(s, i) {
        lemma_directive_code(s, i);
    }
}

proof fn lemma_byte_len_grows(s: Seq<char>, i: int, j: int)
    requires
        0 <= i <= j <= s.len(),
    ensures
        byte_len(s.take(i)) + (j - i) <= byte_len(s.take(j)),
    decreases j - i,
{
    if i < j {
        lemma_byte_len_grows(s, i, j - 1);
        assert(s.take(j).drop_last() =~= s.take(j - 1));
    }
}

/// The number of bytes that a character takes in UTF-8.
fn width(c: char) -> (r: usize)
    ensures
        r == char_bytes(c),
{
    let code: u32 = c as u32;
    if code < 0x80 {
        1
    } else if code < 0x800 {
        2
    } else if code < 0x10000 {
        3
    } else {
        4
    }
}

/// Whether, in the part of a text from `from` to `to`, a character begins as many bytes into it as
/// the part has characters.
fn splits(s: &Vec<char>, from: usize, to: usize) -> (r: bool)
    requires
        from <= to <= s@.len(),
    ensures
        r == splits_at(s@.subrange(from as int, to as int), to - from),
{
    let ghost part = s@.subrange(from as int, to as int);
    let mut left: usize = to - from;
    let mut j: usize = 0;
    assert(part.take(0) =~= Seq::empty());
    while left > 0
        invariant
            from <= to <= s@.len(),
            part == s@.subrange(from as int, to as int),
            j + left <= part.len(),
            byte_len(part.take(j as int)) + left == part.len(),
        decreases left,
    {
        let wide: usize = width(s[from + j]);
        proof {
            assert(part.take(j + 1).drop_last() =~= part.take(j as int));
            assert(part.take(j + 1).last() == part[j as int]);
        }
        if wide > left {
            proof {
                assert forall|k: int| 0 <= k <= part.len() implies #[trigger] byte_len(part.take(k))
                    != part.len() by {
                    if k <= j {
                        lemma_byte_len_grows(part, k, j as int);
                    } else {
                        lemma_byte_len_grows(part, j + 1, k);
                    }
                }
            }
            return false;
        }
        left = left - wide;
        j = j + 1;
    }
    true
}

/// Whether escapes in a text can be resolved.
fn is_unescapable(s: &Vec<char>) -> (r: bool)
    ensures
        r == unescapable(s@),
{
    let mut b: usize = 0;
    while b < s.len()
        invariant
            b <= s@.len(),
            forall|k: int| 0 <= k < b ==> s@[k] != '\\',
        decreases s@.len() - b,
    {
        if s[b] == '\\' {
            proof {
                assert(first_backslash(s@, b as int));
                assert(s@.take(b as int) =~= s@.subrange(0, b as int));
                assert forall|k: int| #[trigger] first_backslash(s@, k) implies k == b by {}
            }
            return splits(s, 0, b);
        }
        b = b + 1;
    }
    true
}

/// Whether a character is of a class.
pub(crate) fn of_class(class: Class, c: char) -> (r: bool)
    ensures
        r == is_of(class, c),
{
    match class {
        Class::Digit => '0' <= c && c <= '9',
        Class::Name => 'a' <= c && c <= 'z' || 'A' <= c && c <= 'Z' || c == '_' || '0' <= c && c
            <= '9' || c == '-',
        Class::Line => c != '\n' && c != '\r',
        Class::Space => c == ' ' || c == '\t',
    }
}

/// The end of the run of characters of a class that begins at `i`.
fn end_of_run(s: &Vec<char>, i: usize, class: Class) -> (r: usize)
    requires
        i <= s@.len(),
    ensures
        r == run_end(s@, i as int, class),
        i <= r <= s@.len(),
{
    let mut j: usize = i;
    while j < s.len() && of_class(class, s[j])
        invariant
            i <= j <= s@.len(),
            run_end(s@, i as int, class) == run_end(s@, j as int, class),
        decreases s@.len() - j,
    {
        j = j + 1;
    }
    j
}

/// Whether `c` stands `k` characters behind `i`.
fn stands(s: &Vec<char>, i: usize, k: usize, c: char) -> (r: bool)
    requires
        i <= s@.len(),
    ensures
        r == is_at(s@, i + k, c),
        s@.len() <= usize::MAX,
{
    k < s.len() - i && s[i + k] == c
}

/// Whether a digit stands `k` characters behind `i`.
fn digit_stands(s: &Vec<char>, i: usize, k: usize) -> (r: bool)
    requires
        i <= s@.len(),
    ensures
        r == digit_at(s@, i + k),
        s@.len() <= usize::MAX,
{
    k < s.len() - i && of_class(Class::Digit, s[i + k])
}

/// Whether `word` stands at `i`.
fn word_stands(s: &Vec<char>, i: usize, word: &str) -> (r: bool)
    requires
        i <= s@.len(),
    ensures
        r == occurs_at(s@, word@, i as int),
        s@.len() <= usize::MAX,
{
    let pattern = chars_of(word);
    pattern.len() <= s.len() - i && stands_at(s, &pattern, i)
}

/// The end of the line break at `i`, if there is one.
fn end_of_newline(s: &Vec<char>, i: usize) -> (r: Option<usize>)
    requires
        i <= s@.len(),
    ensures
        opt_int(r) == newline_end(s@, i as int),
        r matches Some(e) ==> e <= s@.len(),
{
    if stands(s, i, 0, '\n') {
        Some(i + 1)
    } else if stands(s, i, 0, '\r') {
        if stands(s, i, 1, '\n') {
            Some(i + 2)
        } else {
            Some(i + 1)
        }
    } else {
        None
    }
}

/// An optional position.
spec fn opt_int(i: Option<usize>) -> Option<int> {
    match i {
        Some(i) => Some(i as int),
        None => None,
    }
}

/// The end of the comment at `i`, if there is one.
fn end_of_comment(s: &Vec<char>, i: usize) -> (r: Option<usize>)
    requires
        i <= s@.len(),
    ensures
        opt_int(r) == comment_end(s@, i as int),
        s@.len() <= usize::MAX,
        r matches Some(e) ==> i < e <= s@.len(),
{
    proof {
        lemma_comment_end(s@, i as int);
    }
    if stands(s, i, 0, '#') || stands(s, i, 0, '/') && stands(s, i, 1, '/') {
        return Some(end_of_run(s, i, Class::Line));
    }
    if !(stands(s, i, 0, '/') && stands(s, i, 1, '*')) {
        return None;
    }
    let ghost close = seq!['*', '/'];
    let mut j: usize = i + 2;
    while j < s.len()
        invariant
            close == seq!['*', '/'],
            is_at(s@, i as int, '/') && is_at(s@, i + 1, '*'),
            i + 2 <= j <= s@.len(),
            first_from(s@, close, i + 2) == first_from(s@, close, j as int),
        decreases s@.len() - j,
    {
        if stands(s, j, 0, '*') && stands(s, j, 1, '/') {
            assert(s@.subrange(j as int, j + 2) =~= close);
            return Some(j + 2);
        }
        proof {
            if occurs_at(s@, close, j as int) {
                assert(s@.subrange(j as int, j + 2)[0] == '*');
                assert(s@.subrange(j as int, j + 2)[1] == '/');
            }
        }
        j = j + 1;
    }
    Some(s.len())
}

/// The end of the blanks and comments that begin at `i`.
fn end_of_blanks(s: &Vec<char>, i: usize) -> (r: usize)
    requires
        i <= s@.len(),
    ensures
        r == blank_end(s@, i as int),
        i <= r <= s@.len(),
{
    let mut j: usize = i;
    while j < s.len()
        invariant
            i <= j <= s@.len(),
            blank_end(s@, i as int) == blank_end(s@, j as int),
        decreases s@.len() - j,
    {
        if of_class(Class::Space, s[j]) || s[j] == '\n' || s[j] == '\r' {
            j = j + 1;
        } else {
            match end_of_comment(s, j) {
                Some(e) => {
                    j = e;
                },
                None => {
                    return j;
                },
            }
        }
    }
    j
}

/// The end of the exponent of a number at `i`, or `i` where there is none.
fn end_of_exponent(s: &Vec<char>, i: usize) -> (r: usize)
    requires
        i <= s@.len(),
    ensures
        r == exponent_end(s@, i as int),
        i <= r <= s@.len(),
{
    if stands(s, i, 0, 'e') || stands(s, i, 0, 'E') {
        let skipped: usize = if stands(s, i, 1, '+') || stands(s, i, 1, '-') {
            2
        } else {
            1
        };
        if digit_stands(s, i, skipped) {
            return end_of_run(s, i + skipped, Class::Digit);
        }
    }
    i
}

/// The end of the number whose digits begin at `i`, with its fraction and its exponent.
fn end_of_number(s: &Vec<char>, i: usize) -> (r: usize)
    requires
        i <= s@.len(),
    ensures
        r == number_end(s@, i as int),
        i <= r <= s@.len(),
{
    let whole = end_of_run(s, i, Class::Digit);
    if stands(s, whole, 0, '.') && digit_stands(s, whole, 1) {
        end_of_exponent(s, end_of_run(s, whole + 1, Class::Digit))
    } else {
        end_of_exponent(s, whole)
    }
}

/// Whether a name may begin with a character.
fn name_begins(c: char) -> (r: bool)
    ensures
        r == begins_name(c),
{
    'a' <= c && c <= 'z' || 'A' <= c && c <= 'Z' || c == '_'
}

/// Whether what ends at `i` is a name, where no expression is expected.
fn stands_before_name_mark(s: &Vec<char>, i: usize) -> (r: bool)
    requires
        i <= s@.len(),
    ensures
        r == is_name_before(s@, i as int),
{
    let k = end_of_blanks(s, i);
    stands(s, k, 0, '=') && !stands(s, k, 1, '=') && !stands(s, k, 1, '>') || stands(s, k, 0, ':')
        || stands(s, k, 0, '{') || stands(s, k, 0, '"') || k < s.len() && name_begins(s[k])
}

/// The end of the word at `i`.
fn end_of_word(s: &Vec<char>, i: usize, last: Last) -> (r: usize)
    requires
        i < s@.len(),
        begins_name(s@[i as int]),
    ensures
        r == word_end(s@, i as int, last),
        i < r <= s@.len(),
{
    proof {
        reveal_strlit("true");
        reveal_strlit("null");
        reveal_strlit("false");
        lemma_word_end(s@, i as int, last);
    }
    let name = end_of_run(s, i, Class::Name);
    if last != Last::Operator && stands_before_name_mark(s, name) {
        name
    } else if (word_stands(s, i, "true") || word_stands(s, i, "null")) && (stands(s, i, 4, '-')
        || digit_stands(s, i, 4)) {
        i + 4
    } else if word_stands(s, i, "false") && (stands(s, i, 5, '-') || digit_stands(s, i, 5)) {
        i + 5
    } else {
        name
    }
}

/// The end of the name at `i`, with the blanks that follow it, if there is one.
fn end_of_variable(s: &Vec<char>, i: usize) -> (r: Option<usize>)
    requires
        i <= s@.len(),
    ensures
        opt_int(r) == variable_end(s@, i as int),
        r matches Some(e) ==> e <= s@.len(),
{
    if i < s.len() && name_begins(s[i]) {
        Some(end_of_blanks(s, end_of_run(s, i, Class::Name)))
    } else {
        None
    }
}

/// The end of `for`, one or two variables and `in`, if they stand at `i`.
fn end_of_loop_head(s: &Vec<char>, i: usize) -> (r: Option<usize>)
    requires
        i <= s@.len(),
    ensures
        opt_int(r) == loop_head_end(s@, i as int),
        r matches Some(e) ==> i < e <= s@.len(),
{
    proof {
        reveal_strlit("for");
        reveal_strlit("in");
        lemma_loop_head_end(s@, i as int);
    }
    if !word_stands(s, i, "for") {
        return None;
    }
    let mut end = end_of_variable(s, end_of_blanks(s, i + 3));
    if let Some(first) = end {
        if stands(s, first, 0, ',') {
            end = end_of_variable(s, end_of_blanks(s, first + 1));
        }
    }
    match end {
        Some(e) => if word_stands(s, e, "in") {
            Some(e + 2)
        } else {
            None
        },
        None => None,
    }
}

/// The delimiter of the heredoc that is introduced at `i`, and the beginning of its text.
fn find_heredoc(s: &Vec<char>, i: usize) -> (r: Option<(usize, usize, usize)>)
    requires
        i <= s@.len(),
    ensures
        match r {
            Some((from, to, next)) => heredoc_at(s@, i as int) == Some(
                (from as int, to as int, next as int),
            ) && from < to < next <= s@.len() && i < next,
            None => heredoc_at(s@, i as int) is None,
        },
{
    proof {
        lemma_heredoc_at(s@, i as int);
    }
    if !(stands(s, i, 0, '<') && stands(s, i, 1, '<')) {
        return None;
    }
    let from: usize = if stands(s, i, 2, '-') {
        i + 3
    } else {
        i + 2
    };
    if from >= s.len() {
        return None;
    }
    if !name_begins(s[from]) {
        return None;
    }
    let to = end_of_run(s, from, Class::Name);
    match end_of_newline(s, to) {
        Some(next) => Some((from, to, next)),
        None => None,
    }
}

/// Whether what stands from `from` to `to` stands at `k` too.
fn recurs_at(s: &Vec<char>, from: usize, to: usize, k: usize) -> (r: bool)
    requires
        from <= to <= s@.len(),
        k <= s@.len(),
    ensures
        r == occurs_at(s@, s@.subrange(from as int, to as int), k as int),
        s@.len() <= usize::MAX,
{
    let ghost pattern = s@.subrange(from as int, to as int);
    let size: usize = to - from;
    let total: usize = s.len();
    if size > total - k {
        return false;
    }
    let mut j: usize = 0;
    while j < size
        invariant
            pattern == s@.subrange(from as int, to as int),
            from <= to <= total,
            total == s@.len(),
            size == to - from,
            k + size <= total,
            j <= size,
            forall|m: int| 0 <= m < j ==> s@[k + m] == #[trigger] pattern[m],
        decreases size - j,
    {
        assert(pattern[j as int] == s@[from + j]);
        if s[k + j] != s[from + j] {
            assert(s@.subrange(k as int, k + size)[j as int] != pattern[j as int]);
            return false;
        }
        j = j + 1;
    }
    assert(s@.subrange(k as int, k + size) =~= pattern);
    true
}

/// The end of a heredoc, with its delimiter, if the heredoc ends with the line break at `i`.
fn end_of_heredoc(s: &Vec<char>, i: usize, from: usize, to: usize) -> (r: Option<usize>)
    requires
        i <= s@.len(),
        from <= to <= s@.len(),
    ensures
        opt_int(r) == heredoc_end(s@, i as int, from as int, to as int),
        r matches Some(e) ==> i < e <= s@.len(),
{
    proof {
        lemma_heredoc_end(s@, i as int, from as int, to as int);
    }
    match end_of_newline(s, i) {
        Some(next) => {
            let k = end_of_run(s, next, Class::Space);
            if recurs_at(s, from, to, k) {
                Some(k + (to - from))
            } else {
                None
            }
        },
        None => None,
    }
}

/// Whether a marker stands at `i`, written twice so that it is text.
fn stands_escaped(s: &Vec<char>, i: usize) -> (r: bool)
    requires
        i <= s@.len(),
    ensures
        r == is_escaped_marker(s@, i as int),
        s@.len() <= usize::MAX,
{
    (stands(s, i, 0, '$') && stands(s, i, 1, '$') || stands(s, i, 0, '%') && stands(s, i, 1, '%'))
        && stands(s, i, 2, '{')
}

/// Where the code of the directive at `i` goes on, and how many directives are open behind it, of
/// `depth` that are open before it.
fn pass_directive(s: &Vec<char>, i: usize, depth: usize) -> (r: (usize, usize))
    requires
        is_directive(s@, i as int),
        depth < usize::MAX,
    ensures
        r.0 == directive_code(s@, i as int),
        r.1 == depth_behind(s@, i as int, depth),
        i + 2 <= r.0 <= s@.len(),
        r.1 <= depth + 1,
{
    proof {
        reveal_strlit("if");
        lemma_directive_code(s@, i as int);
    }
    let start: usize = if stands(s, i, 2, '~') {
        i + 3
    } else {
        i + 2
    };
    let k = end_of_blanks(s, start);
    let depth: usize = if word_stands(s, k, "if") || word_stands(s, k, "for") {
        depth + 1
    } else if word_stands(s, k, "end") && depth > 0 {
        depth - 1
    } else {
        depth
    };
    if word_stands(s, k, "if") {
        (k + 2, depth)
    } else {
        match end_of_loop_head(s, k) {
            Some(e) => (e, depth),
            None => (i + 2, depth),
        }
    }
}

/// Whether the escapes of the string whose text begins at `i` can be resolved, if it is one without
/// interpolations and directives.
fn is_fitting_string(s: &Vec<char>, i: usize) -> (r: bool)
    requires
        i <= s@.len(),
    ensures
        r == string_fits(s@, i as int),
{
    let mut first: Option<usize> = None;
    let mut j: usize = i;
    while j < s.len()
        invariant
            i <= j <= s@.len(),
            literal_end(s@, i as int) == literal_end(s@, j as int),
            match first {
                Some(b) => i <= b < j && s@[b as int] == '\\' && (forall|k: int|
                    i <= k < b ==> s@[k] != '\\'),
                None => forall|k: int| i <= k < j ==> s@[k] != '\\',
            },
        decreases s@.len() - j,
    {
        if stands_escaped(s, j) {
            j = j + 3;
        } else if s[j] == '\\' {
            if first.is_none() {
                first = Some(j);
            }
            if s.len() - j < 2 {
                assert(literal_end(s@, j + 2) is None);
                return true;
            }
            j = j + 2;
        } else if s[j] == '"' {
            let ghost text = s@.subrange(i as int, j as int);
            return match first {
                Some(b) => {
                    proof {
                        assert(first_backslash(text, b - i));
                        assert forall|k: int| #[trigger] first_backslash(text, k) implies k == b
                            - i by {
                            assert(text[k] == '\\');
                            assert(text[b - i] == '\\');
                        }
                        assert(text.take(b - i) =~= s@.subrange(i as int, b as int));
                    }
                    splits(s, i, b)
                },
                None => true,
            };
        } else if (s[j] == '$' || s[j] == '%') && stands(s, j, 1, '{') {
            return true;
        } else {
            j = j + 1;
        }
    }
    true
}

/// Whether the digits from `i` to `j` are worth no more than `limit`.
fn digits_within(s: &Vec<char>, i: usize, j: usize, limit: u64) -> (r: bool)
    requires
        i <= j <= s@.len(),
        forall|k: int| i <= k < j ==> is_digit(#[trigger] s@[k]),
    ensures
        r == (digits_value(s@.subrange(i as int, j as int)) <= limit),
{
    let ghost digits = s@.subrange(i as int, j as int);
    let mut value: u64 = 0;
    let mut k: usize = i;
    assert(digits.take(0) =~= Seq::empty());
    while k < j
        invariant
            i <= k <= j <= s@.len(),
            digits == s@.subrange(i as int, j as int),
            forall|m: int| i <= m < j ==> is_digit(#[trigger] s@[m]),
            value == digits_value(digits.take(k - i)),
            value <= limit,
        decreases j - k,
    {
        assert(is_digit(s@[k as int]));
        let digit: u64 = (s[k] as u32 - '0' as u32) as u64;
        proof {
            let longer = digits.take(k - i + 1);
            assert(longer.drop_last() =~= digits.take(k - i));
            assert(longer.last() == s@[k as int]);
            assert forall|m: int| 0 <= m < digits.len() implies is_digit(#[trigger] digits[m]) by {
                assert(is_digit(s@[i + m]));
            }
            lemma_digits_grow(digits, k - i + 1);
        }
        if digit > limit || value > (limit - digit) / 10 {
            return false;
        }
        value = value * 10 + digit;
        k = k + 1;
    }
    assert(digits.take(j - i) =~= digits);
    true
}

/// Whether no more directives are open in any of some parts than characters have been passed at `i`,
/// and delimiters stand in the text.
spec fn within(frames: Seq<Frame>, i: int, len: int) -> bool {
    forall|k: int|
        0 <= k < frames.len() ==> match #[trigger] frames[k] {
            Frame::Code(..) => true,
            Frame::Quoted(depth) => depth <= i,
            Frame::Heredoc(depth, from, to) => depth <= i && from <= to <= len,
            Frame::Plain(depth) => depth <= i,
        }
}

/// Puts something else last in the innermost of some parts, if that is code.
fn set_last(frames: &mut Vec<Frame>, last: Last)
    ensures
        final(frames)@ == with_last(old(frames)@, last),
        forall|i: int, len: int| #[trigger]
            within(old(frames)@, i, len) ==> within(final(frames)@, i, len),
{
    match frames.pop() {
        Some(Frame::Code(checked, looped, _)) => {
            frames.push(Frame::Code(checked, looped, last));
        },
        Some(other) => {
            frames.push(other);
            assert(frames@ =~= old(frames)@);
        },
        None => {},
    }
}

/// Leaves the innermost of some parts.
fn close(frames: &mut Vec<Frame>)
    requires
        old(frames)@.len() > 0,
    ensures
        final(frames)@ == closed(old(frames)@),
        forall|i: int, len: int| #[trigger]
            within(old(frames)@, i, len) ==> within(final(frames)@, i, len),
{
    let _ = frames.pop();
    assert forall|i: int, len: int| #[trigger] within(old(frames)@, i, len) implies within(
        frames@,
        i,
        len,
    ) by {
        assert forall|k: int| 0 <= k < frames@.len() implies frames@[k] == old(frames)@[k] by {}
    }
    set_last(frames, Last::Operand);
}

/// The step over a dot, and whether what it passes fits.
fn step_dot(s: &Vec<char>, i: usize, frames: &mut Vec<Frame>, checked: bool) -> (r: (bool, usize))
    requires
        i < s@.len(),
    ensures
        ({
            let m = dot_step(s@, i as int, old(frames)@, checked);
            r.0 == m.fits && r.1 == m.next && final(frames)@ == m.frames
        }),
        forall|j: int, len: int| #[trigger]
            within(old(frames)@, j, len) ==> within(final(frames)@, j, len),
{
    proof {
        lemma_run_end(s@, i + 1, Class::Digit);
    }
    if digit_stands(s, i, 1) {
        set_last(frames, Last::Operand);
        let e = end_of_run(s, i + 1, Class::Digit);
        assert forall|k: int| i + 1 <= k < e implies is_digit(#[trigger] s@[k]) by {
            assert(is_of(Class::Digit, s@[k]));
        }
        let fits = !checked || digits_within(s, i + 1, e, u64::MAX);
        (fits, e)
    } else if s.len() - i > 1 && name_begins(s[i + 1]) {
        set_last(frames, Last::Operand);
        (true, end_of_run(s, i + 1, Class::Name))
    } else if stands(s, i, 1, '.') && stands(s, i, 2, '.') {
        set_last(frames, Last::Operand);
        (true, i + 3)
    } else if stands(s, i, 1, '*') {
        set_last(frames, Last::Operand);
        (true, i + 2)
    } else {
        set_last(frames, Last::Operator);
        (true, i + 1)
    }
}

/// The step from `i` in code, and whether what it passes fits.
fn step_code(
    s: &Vec<char>,
    i: usize,
    frames: &mut Vec<Frame>,
    checked: bool,
    looped: bool,
    last: Last,
) -> (r: (bool, usize))
    requires
        i < s@.len(),
        old(frames)@.len() > 0,
        within(old(frames)@, i as int, s@.len() as int),
    ensures
        ({
            let m = code_step(s@, i as int, old(frames)@, checked, looped, last);
            r.0 == m.fits && r.1 == m.next && final(frames)@ == m.frames
        }),
        within(final(frames)@, i as int, s@.len() as int),
{
    proof {
        reveal_strlit("if");
        lemma_run_end(s@, i as int, Class::Digit);
    }
    let c = s[i];
    if let Some(e) = end_of_comment(s, i) {
        (true, e)
    } else if c == ' ' || c == '\t' || c == '\n' || c == '\r' {
        (true, i + 1)
    } else if c == '"' {
        let fits = !checked || is_fitting_string(s, i + 1);
        frames.push(Frame::Quoted(0));
        (fits, i + 1)
    } else if let Some((from, to, next)) = find_heredoc(s, i) {
        frames.push(Frame::Heredoc(0, from, to));
        (true, next)
    } else if name_begins(c) {
        if looped && last == Last::Operand && word_stands(s, i, "if") {
            set_last(frames, Last::Operator);
            (true, i + 2)
        } else {
            set_last(frames, Last::Operand);
            (true, end_of_word(s, i, last))
        }
    } else if '0' <= c && c <= '9' {
        set_last(frames, Last::Operand);
        let whole = end_of_run(s, i, Class::Digit);
        let e = end_of_number(s, i);
        assert forall|k: int| i <= k < whole implies is_digit(#[trigger] s@[k]) by {
            assert(is_of(Class::Digit, s@[k]));
        }
        let fits = !checked || e != whole || digits_within(s, i, whole, i64::MAX as u64);
        (fits, e)
    } else if c == '.' {
        step_dot(s, i, frames, checked)
    } else if c == '(' || c == '[' || c == '{' {
        match end_of_loop_head(s, end_of_blanks(s, i + 1)) {
            Some(e) => {
                frames.push(Frame::Code(checked, true, Last::Operator));
                (true, e)
            },
            None => {
                frames.push(Frame::Code(checked, false, Last::Start));
                (true, i + 1)
            },
        }
    } else if c == ')' || c == ']' || c == '}' {
        close(frames);
        (true, i + 1)
    } else if c == ',' {
        set_last(frames, Last::Start);
        (true, i + 1)
    } else {
        set_last(frames, Last::Operator);
        (true, i + 1)
    }
}

/// The step from `i` in a template.
fn step_template(s: &Vec<char>, i: usize, frames: &mut Vec<Frame>, frame: Frame, depth: usize) -> (r:
    usize)
    requires
        i < s@.len(),
        old(frames)@.len() > 0,
        old(frames)@.last() == frame,
        frame !is Code,
        frame == with_depth(frame, depth),
        within(old(frames)@, i as int, s@.len() as int),
    ensures
        ({
            let m = template_step(s@, i as int, old(frames)@, depth);
            m.fits && r == m.next && final(frames)@ == m.frames
        }),
        within(final(frames)@, i + 1, s@.len() as int),
{
    if stands_escaped(s, i) {
        return i + 3;
    }
    let code = Frame::Code(frames.len() == 1, false, Last::Operator);
    if stands(s, i, 0, '$') && stands(s, i, 1, '{') {
        frames.push(code);
        return i + 2;
    }
    if stands(s, i, 0, '%') && stands(s, i, 1, '{') {
        let (next, behind) = pass_directive(s, i, depth);
        let _ = frames.pop();
        frames.push(
            match frame {
                Frame::Code(checked, looped, last) => Frame::Code(checked, looped, last),
                Frame::Quoted(_) => Frame::Quoted(behind),
                Frame::Heredoc(_, from, to) => Frame::Heredoc(behind, from, to),
                Frame::Plain(_) => Frame::Plain(behind),
            },
        );
        frames.push(code);
        return next;
    }
    match frame {
        Frame::Quoted(0) => {
            if s[i] == '"' {
                close(frames);
                assert(within(frames@, i as int, s@.len() as int));
                return i + 1;
            }
            if s[i] == '\\' && s.len() - i > 1 {
                return i + 2;
            }
        },
        Frame::Heredoc(0, from, to) => {
            if let Some(e) = end_of_heredoc(s, i, from, to) {
                close(frames);
                assert(within(frames@, i as int, s@.len() as int));
                return e;
            }
        },
        _ => {},
    }
    i + 1
}

/// Whether `hcl` can be given the code of a text that matters.
fn has_fitting_code(s: &Vec<char>, bottom: Frame) -> (r: bool)
    requires
        within(seq![bottom], 0, s@.len() as int),
    ensures
        r == code_fits(s@, 0, seq![bottom]),
{
    let mut frames: Vec<Frame> = Vec::new();
    frames.push(bottom);
    assert(frames@ =~= seq![bottom]);
    let mut i: usize = 0;
    while i < s.len() && frames.len() > 0
        invariant
            i <= s@.len(),
            within(frames@, i as int, s@.len() as int),
            code_fits(s@, 0, seq![bottom]) == code_fits(s@, i as int, frames@),
        decreases s@.len() - i,
    {
        let top: usize = frames.len() - 1;
        let frame = frames[top];
        proof {
            lemma_step_advances(s@, i as int, frames@);
        }
        match frame {
            Frame::Code(checked, looped, last) => {
                let (fits, next) = step_code(s, i, &mut frames, checked, looped, last);
                if !fits {
                    return false;
                }
                i = next;
            },
            Frame::Quoted(depth) => {
                i = step_template(s, i, &mut frames, frame, depth);
            },
            Frame::Heredoc(depth, _, _) => {
                i = step_template(s, i, &mut frames, frame, depth);
            },
            Frame::Plain(depth) => {
                i = step_template(s, i, &mut frames, frame, depth);
            },
        }
    }
    true
}

/// Whether a text is one that `hcl` can be given.
pub fn is_readable(src: &str) -> (r: bool)
    ensures
        r == readable(src@),
{
    has_fitting_code(&chars_of(src), Frame::Code(true, false, Last::Start))
}

/// Whether a template is one that `hcl` can take apart.
pub(crate) fn template_is_readable(raw: &str) -> (r: bool)
    ensures
        r == readable_template(raw@),
{
    has_fitting_code(&chars_of(raw), Frame::Plain(0))
}

/// Whether the escapes in a text can be resolved.
pub(crate) fn text_is_unescapable(raw: &str) -> (r: bool)
    ensures
        r == unescapable(raw@),
{
    is_unescapable(&chars_of(raw))
}

/// Whether the part of a text from `i` to `j` is made of digits.
pub open spec fn all_digits(s: Seq<char>, i: int, j: int) -> bool {
    0 <= i <= j <= s.len() && (forall|k: int| i <= k < j ==> is_digit(#[trigger] s[k]))
}

/// A text without backslashes in which every number fits into 63 bits is one that `hcl` can be
/// given, and one that it can take apart as a template.
pub proof fn law_plain_texts_are_readable(s: Seq<char>)
    requires
        forall|i: int| 0 <= i < s.len() ==> s[i] != '\\',
        forall|i: int, j: int| #[trigger]
            all_digits(s, i, j) ==> digits_value(s.subrange(i, j)) <= i64::MAX,
    ensures
        readable(s),
        readable_template(s),
{
    lemma_plain_code_fits(s, 0, seq![Frame::Code(true, false, Last::Start)]);
    lemma_plain_code_fits(s, 0, seq![Frame::Plain(0)]);
}

proof fn lemma_plain_code_fits(s: Seq<char>, i: int, frames: Seq<Frame>)
    requires
        forall|k: int| 0 <= k < s.len() ==> s[k] != '\\',
        forall|k: int, j: int| #[trigger]
            all_digits(s, k, j) ==> digits_value(s.subrange(k, j)) <= i64::MAX,
    ensures
        code_fits(s, i, frames),
    decreases s.len() - i,
{
    if 0 <= i < s.len() && frames.len() > 0 {
        let m = step(s, i, frames);
        lemma_step_advances(s, i, frames);
        lemma_run_end(s, i, Class::Digit);
        lemma_run_end(s, i + 1, Class::Digit);
        assert(all_digits(s, i, run_end(s, i, Class::Digit))) by {
            assert forall|k: int| i <= k < run_end(s, i, Class::Digit) implies is_digit(
                #[trigger] s[k],
            ) by {
                assert(is_of(Class::Digit, s[k]));
            }
        }
        assert(all_digits(s, i + 1, run_end(s, i + 1, Class::Digit))) by {
            assert forall|k: int| i + 1 <= k < run_end(s, i + 1, Class::Digit) implies is_digit(
                #[trigger] s[k],
            ) by {
                assert(is_of(Class::Digit, s[k]));
            }
        }
        assert(string_fits(s, i + 1)) by {
            if let Some(e) = literal_end(s, i + 1) {
                lemma_literal_end(s, i + 1);
                let text = s.subrange(i + 1, e);
                assert forall|b: int| !#[trigger] first_backslash(text, b) by {
                    if first_backslash(text, b) {
                        assert(s[i + 1 + b] == '\\');
                    }
                }
            }
        }
        assert(m.fits);
        lemma_plain_code_fits(s, m.next, m.frames);
    }
}

/// The closing quote of a string stands behind its text.
proof fn lemma_literal_end(s: Seq<char>, i: int)
    ensures
        literal_end(s, i) matches Some(e) ==> 0 <= i <= e < s.len(),
    decreases s.len() + 2 - i,
{
    if 0 <= i < s.len() {
        if is_escaped_marker(s, i) {
            lemma_literal_end(s, i + 3);
        } else if s[i] == '\\' {
            lemma_literal_end(s, i + 2);
        } else {
            lemma_literal_end(s, i + 1);
        }
    }
}

} // verus!
