//! The grammar of the language: from a source text to its parse tree.
//!
//! A rule is a function from a text and a position in it to the match
//! that starts there, if there is one: the pair that the rule yields and
//! the position after the match. Alternatives are tried in order, and the
//! first that matches is taken; a repetition takes as many matches as
//! there are, and what comes after it is not tried with fewer. Between the
//! parts of a rule blanks are skipped, but not inside a name, a number, a
//! string literal or foreign code.
//!
//! Where a rule goes on after a match of another rule, it tests that the
//! match has ended after the place where the rule started, and within the
//! text. This holds of every match; the tests are there to show that the
//! rules end.

use crate::foreign::chars_of;
use crate::parser::Pair;
use crate::parser::PairView;
use crate::parser::Rule;
use crate::parser::is_digit;
use crate::parser::pair_models;
use vstd::prelude::*;

verus! {

/// A blank: a space, a tab or a line end.
pub open spec fn is_blank(c: char) -> bool {
    c == ' ' || c == '\t' || c == '\r' || c == '\n'
}

/// Whether a name can start with `c`.
pub open spec fn is_name_start(c: char) -> bool {
    ('a' <= c <= 'z') || ('A' <= c <= 'Z') || c == '_'
}

/// Whether a name can go on with `c`.
pub open spec fn is_name_part(c: char) -> bool {
    is_name_start(c) || is_digit(c)
}

/// Whether `j` is a position of `s` after `i`.
pub open spec fn ahead(s: Seq<char>, i: int, j: int) -> bool {
    0 <= i < j <= s.len()
}

/// The first position at or after `i` that holds no blank.
pub open spec fn skip(s: Seq<char>, i: int) -> int
    decreases s.len() - i,
{
    if 0 <= i < s.len() && is_blank(s[i]) {
        skip(s, i + 1)
    } else {
        i
    }
}

/// The first position at or after `i` that holds nothing a name can go on
/// with.
pub open spec fn name_end(s: Seq<char>, i: int) -> int
    decreases s.len() - i,
{
    if 0 <= i < s.len() && is_name_part(s[i]) {
        name_end(s, i + 1)
    } else {
        i
    }
}

/// The first position at or after `i` that holds no decimal digit.
pub open spec fn digits_end(s: Seq<char>, i: int) -> int
    decreases s.len() - i,
{
    if 0 <= i < s.len() && is_digit(s[i]) {
        digits_end(s, i + 1)
    } else {
        i
    }
}

/// The first position at or after `i` that holds a double quote, or the
/// end of the text.
pub open spec fn quote_at(s: Seq<char>, i: int) -> int
    decreases s.len() - i,
{
    if 0 <= i < s.len() && s[i] != '"' {
        quote_at(s, i + 1)
    } else {
        i
    }
}

/// The end of the foreign code that starts at `i`: the code goes on over
/// everything but braces, and over braces with foreign code between them.
pub open spec fn code_end(s: Seq<char>, i: int) -> int
    decreases s.len() - i,
{
    if i < 0 || i >= s.len() || s[i] == '}' {
        i
    } else if s[i] == '{' {
        let close = code_end(s, i + 1);
        if ahead(s, i, close + 1) && s[close] == '}' {
            code_end(s, close + 1)
        } else {
            i
        }
    } else {
        code_end(s, i + 1)
    }
}

/// The position after `word`, if `word` stands at `i`.
pub open spec fn word(s: Seq<char>, i: int, w: Seq<char>) -> Option<int> {
    if 0 <= i && i + w.len() <= s.len() && s.subrange(i, i + w.len()) == w {
        Some(i + w.len())
    } else {
        None
    }
}

/// Whether the character `c` stands at `i`.
pub open spec fn holds(s: Seq<char>, i: int, c: char) -> bool {
    0 <= i < s.len() && s[i] == c
}

/// The first of two matches that is one.
pub open spec fn or<T>(first: Option<T>, second: Option<T>) -> Option<T> {
    if first is Some {
        first
    } else {
        second
    }
}

/// The pair of `rule` for the text from `from` to `to`, with `children`
/// inside it.
pub open spec fn node(rule: Rule, s: Seq<char>, from: int, to: int, children: Seq<PairView>)
    -> PairView {
    PairView { rule, text: s.subrange(from, to), children }
}

/// A match: the pair that a rule yields, and the position after it.
pub type Match = Option<(PairView, int)>;

/// A match of `rule` without pairs inside it that ends at `end`, if there
/// is an end.
pub open spec fn token(rule: Rule, s: Seq<char>, i: int, end: Option<int>) -> Match {
    match end {
        Some(j) => Some((node(rule, s, i, j, Seq::empty()), j)),
        None => None,
    }
}

/// The end of a name that starts at `i`: a letter or an underscore, then
/// letters, digits and underscores.
pub open spec fn name(s: Seq<char>, i: int) -> Option<int> {
    if 0 <= i < s.len() && is_name_start(s[i]) {
        Some(name_end(s, i + 1))
    } else {
        None
    }
}

/// The end of a number that starts at `i`: a minus sign or none, then
/// decimal digits, one at least.
pub open spec fn number(s: Seq<char>, i: int) -> Option<int> {
    let from = if holds(s, i, '-') {
        i + 1
    } else {
        i
    };
    if digits_end(s, from) > from {
        Some(digits_end(s, from))
    } else {
        None
    }
}

/// The end of a string literal that starts at `i`: everything from one
/// double quote to the next.
pub open spec fn string_literal(s: Seq<char>, i: int) -> Option<int> {
    if holds(s, i, '"') && quote_at(s, i + 1) < s.len() {
        Some(quote_at(s, i + 1) + 1)
    } else {
        None
    }
}

/// The end of a comparison operator that starts at `i`.
pub open spec fn comparison(s: Seq<char>, i: int) -> Option<int> {
    or(
        word(s, i, ">="@),
        or(
            word(s, i, "<="@),
            or(word(s, i, "=="@), or(word(s, i, "!="@), or(word(s, i, ">"@), word(s, i, "<"@)))),
        ),
    )
}

/// The end of an operator that starts at `i`.
pub open spec fn operator(s: Seq<char>, i: int) -> Option<int> {
    or(
        word(s, i, "+"@),
        or(word(s, i, "-"@), or(word(s, i, "*"@), or(word(s, i, "/"@), comparison(s, i)))),
    )
}

/// The end of a print command that starts at `i`.
pub open spec fn print_command(s: Seq<char>, i: int) -> Option<int> {
    or(word(s, i, "0xseppo"@), word(s, i, "seppo"@))
}

/// A name.
pub open spec fn identifier(s: Seq<char>, i: int) -> Match {
    token(Rule::Identifier, s, i, name(s, i))
}

/// A term: a call, a number, a string literal or a variable.
pub open spec fn term(s: Seq<char>, i: int) -> Match
    decreases s.len() - i, 1nat,
{
    or(
        function_call(s, i),
        or(
            token(Rule::Number, s, i, number(s, i)),
            or(
                token(Rule::StringLiteral, s, i, string_literal(s, i)),
                token(Rule::Variable, s, i, name(s, i)),
            ),
        ),
    )
}

/// A call: a name, then the arguments, if there are any, in parentheses.
/// The pair holds the name and, if there are arguments, their list.
pub open spec fn function_call(s: Seq<char>, i: int) -> Match
    decreases s.len() - i, 0nat,
{
    match identifier(s, i) {
        Some((callee, j)) => {
            let paren = skip(s, j);
            if holds(s, paren, '(') {
                let from = skip(s, paren + 1);
                let arguments = if ahead(s, i, from) {
                    arg_list(s, from)
                } else {
                    None
                };
                let (children, to) = match arguments {
                    Some((list, to)) => (seq![callee, list], to),
                    None => (seq![callee], from),
                };
                let close = skip(s, to);
                if holds(s, close, ')') {
                    Some((node(Rule::FunctionCall, s, i, close + 1, children), close + 1))
                } else {
                    None
                }
            } else {
                None
            }
        },
        None => None,
    }
}

/// A list of arguments: expressions with commas between them. The pair
/// holds the expressions.
pub open spec fn arg_list(s: Seq<char>, i: int) -> Match
    decreases s.len() - i, 4nat,
{
    match expression(s, i) {
        Some((first, j)) => {
            let (list, to) = if ahead(s, i, j) {
                more_arguments(s, j, seq![first])
            } else {
                (seq![first], j)
            };
            Some((node(Rule::Other, s, i, to, list), to))
        },
        None => None,
    }
}

/// The arguments after `done`, each after a comma, and the position after
/// the last of them.
pub open spec fn more_arguments(s: Seq<char>, i: int, done: Seq<PairView>) -> (Seq<PairView>, int)
    decreases s.len() - i, 5nat,
{
    let comma = skip(s, i);
    if holds(s, comma, ',') {
        let from = skip(s, comma + 1);
        let next = if ahead(s, i, from) {
            expression(s, from)
        } else {
            None
        };
        match next {
            Some((argument, j)) => if ahead(s, i, j) {
                more_arguments(s, j, done.push(argument))
            } else {
                (done, i)
            },
            None => (done, i),
        }
    } else {
        (done, i)
    }
}

/// An expression: an operation or a term. The pair holds the one or the
/// other.
pub open spec fn expression(s: Seq<char>, i: int) -> Match
    decreases s.len() - i, 3nat,
{
    match or(operation(s, i), term(s, i)) {
        Some((inner, j)) => Some((node(Rule::Expression, s, i, j, seq![inner]), j)),
        None => None,
    }
}

/// An operation: a term, an operator and a term. The pair holds the
/// three.
pub open spec fn operation(s: Seq<char>, i: int) -> Match
    decreases s.len() - i, 2nat,
{
    match term(s, i) {
        Some((left, j)) => match token(Rule::Other, s, skip(s, j), operator(s, skip(s, j))) {
            Some((sign, k)) => {
                let from = skip(s, k);
                let second = if ahead(s, i, from) {
                    term(s, from)
                } else {
                    None
                };
                match second {
                    Some((right, to)) => Some(
                        (node(Rule::Operation, s, i, to, seq![left, sign, right]), to),
                    ),
                    None => None,
                }
            },
            None => None,
        },
        None => None,
    }
}

/// A condition: a term, a comparison operator and a term. The pair holds
/// the three.
pub open spec fn condition(s: Seq<char>, i: int) -> Match {
    match term(s, i) {
        Some((left, j)) => match token(Rule::Other, s, skip(s, j), comparison(s, skip(s, j))) {
            Some((sign, k)) => match term(s, skip(s, k)) {
                Some((right, to)) => Some(
                    (node(Rule::Condition, s, i, to, seq![left, sign, right]), to),
                ),
                None => None,
            },
            None => None,
        },
        None => None,
    }
}

/// A print statement: the command, then the expression to print. The
/// pair holds the command and a pair that holds the expression.
pub open spec fn print_stmt(s: Seq<char>, i: int) -> Match {
    match token(Rule::Other, s, i, print_command(s, i)) {
        Some((command, j)) => match expression(s, skip(s, j)) {
            Some((value, to)) => Some(
                (
                    node(
                        Rule::PrintStmt,
                        s,
                        i,
                        to,
                        seq![command, node(Rule::Other, s, skip(s, j), to, seq![value])],
                    ),
                    to,
                ),
            ),
            None => None,
        },
        None => None,
    }
}

/// A return statement: the word, then the expression for the value. The
/// pair holds the expression.
pub open spec fn return_stmt(s: Seq<char>, i: int) -> Match {
    match word(s, i, "return"@) {
        Some(j) => match expression(s, skip(s, j)) {
            Some((value, to)) => Some((node(Rule::ReturnStmt, s, i, to, seq![value]), to)),
            None => None,
        },
        None => None,
    }
}

/// An assignment: a name, one equals sign that no second one follows, and
/// the expression for the value. The pair holds the name and the
/// expression.
pub open spec fn assignment(s: Seq<char>, i: int) -> Match {
    match identifier(s, i) {
        Some((target, j)) => {
            let sign = skip(s, j);
            let from = skip(s, sign + 1);
            if holds(s, sign, '=') && !holds(s, from, '=') {
                match expression(s, from) {
                    Some((value, to)) => Some(
                        (node(Rule::Assignment, s, i, to, seq![target, value]), to),
                    ),
                    None => None,
                }
            } else {
                None
            }
        },
        None => None,
    }
}

/// A statement: a conditional, a print statement, a return statement, an
/// assignment or an expression. The pair holds the one that it is.
pub open spec fn statement(s: Seq<char>, i: int) -> Match
    decreases s.len() - i, 3nat,
{
    match or(
        conditional_block(s, i),
        or(print_stmt(s, i), or(return_stmt(s, i), or(assignment(s, i), expression(s, i)))),
    ) {
        Some((inner, j)) => Some((node(Rule::Statement, s, i, j, seq![inner]), j)),
        None => None,
    }
}

/// A conditional: the word, a condition and a block, then the word for
/// the other case and a second block, or neither. The pair holds the
/// condition and the blocks.
pub open spec fn conditional_block(s: Seq<char>, i: int) -> Match
    decreases s.len() - i, 2nat,
{
    match word(s, i, "seppo"@) {
        Some(j) => match condition(s, skip(s, j)) {
            Some((test, k)) => {
                let first = if ahead(s, i, skip(s, k)) {
                    block(s, skip(s, k))
                } else {
                    None
                };
                match first {
                    Some((true_block, to)) => {
                        let second = match word(s, skip(s, to), "perkele"@) {
                            Some(m) => if ahead(s, i, skip(s, m)) {
                                block(s, skip(s, m))
                            } else {
                                None
                            },
                            None => None,
                        };
                        match second {
                            Some((false_block, end)) => Some(
                                (
                                    node(
                                        Rule::ConditionalBlock,
                                        s,
                                        i,
                                        end,
                                        seq![test, true_block, false_block],
                                    ),
                                    end,
                                ),
                            ),
                            None => Some(
                                (node(Rule::ConditionalBlock, s, i, to, seq![test, true_block]), to),
                            ),
                        }
                    },
                    None => None,
                }
            },
            None => None,
        },
        None => None,
    }
}

/// A block: statements in braces. The pair holds the statements.
pub open spec fn block(s: Seq<char>, i: int) -> Match
    decreases s.len() - i, 1nat,
{
    if holds(s, i, '{') {
        let (list, j) = statements(s, i + 1, Seq::empty());
        let close = skip(s, j);
        if holds(s, close, '}') {
            Some((node(Rule::Block, s, i, close + 1, list), close + 1))
        } else {
            None
        }
    } else {
        None
    }
}

/// The statements from `i` on after `done`, and the position after the
/// last of them.
pub open spec fn statements(s: Seq<char>, i: int, done: Seq<PairView>) -> (Seq<PairView>, int)
    decreases s.len() - i, 4nat,
{
    let next = if 0 <= i <= skip(s, i) <= s.len() {
        statement(s, skip(s, i))
    } else {
        None
    };
    match next {
        Some((one, j)) => if ahead(s, i, j) {
            statements(s, j, done.push(one))
        } else {
            (done, i)
        },
        None => (done, i),
    }
}

/// A function: the word, a name, an empty pair of parentheses and a
/// block. The pair holds the name and the block.
pub open spec fn function(s: Seq<char>, i: int) -> Match {
    match word(s, i, "fn"@) {
        Some(j) => match identifier(s, skip(s, j)) {
            Some((name, k)) => {
                let paren = skip(s, k);
                let close = skip(s, paren + 1);
                if holds(s, paren, '(') && holds(s, close, ')') {
                    match block(s, skip(s, close + 1)) {
                        Some((body, to)) => Some(
                            (node(Rule::Function, s, i, to, seq![name, body]), to),
                        ),
                        None => None,
                    }
                } else {
                    None
                }
            },
            None => None,
        },
        None => None,
    }
}

/// A foreign block: the word, then foreign code in braces. The pair holds
/// the code.
pub open spec fn extern_block(s: Seq<char>, i: int) -> Match {
    match word(s, i, "ceppo"@) {
        Some(j) => {
            let brace = skip(s, j);
            let from = skip(s, brace + 1);
            let to = code_end(s, from);
            let close = skip(s, to);
            if holds(s, brace, '{') && holds(s, close, '}') {
                Some(
                    (
                        node(
                            Rule::ExternBlock,
                            s,
                            i,
                            close + 1,
                            seq![node(Rule::CCode, s, from, to, Seq::empty())],
                        ),
                        close + 1,
                    ),
                )
            } else {
                None
            }
        },
        None => None,
    }
}

/// The foreign blocks and functions from `i` on after `done`, and the
/// position after the last of them.
pub open spec fn items(s: Seq<char>, i: int, done: Seq<PairView>) -> (Seq<PairView>, int)
    decreases s.len() - i,
{
    match or(extern_block(s, skip(s, i)), function(s, skip(s, i))) {
        Some((one, j)) => if ahead(s, i, j) {
            items(s, j, done.push(one))
        } else {
            (done, i)
        },
        None => (done, i),
    }
}

/// A program: foreign blocks and functions, up to the end of the text.
/// The pair holds them, and one pair for the end. Where the text goes on
/// with something else, the result is the position of that.
pub open spec fn program(s: Seq<char>) -> Result<PairView, int> {
    let (list, j) = items(s, 0, Seq::empty());
    let end = skip(s, j);
    if end >= s.len() {
        Ok(node(Rule::Program, s, 0, end, list.push(node(Rule::Other, s, end, end, Seq::empty()))))
    } else {
        Err(end)
    }
}

/// Whether `r` is the match `m`.
pub open spec fn matched(r: Option<(Pair, usize)>, m: Match) -> bool {
    match r {
        Some((pair, j)) => m == Some((pair@, j as int)),
        None => m is None,
    }
}

/// The models of a list with one pair more.
proof fn lemma_models_push(list: Seq<Pair>, pair: Pair)
    ensures
        pair_models(list.push(pair)) == pair_models(list).push(pair@),
{
    assert(pair_models(list.push(pair)) =~= pair_models(list).push(pair@));
}

/// A list without pairs.
fn no_pairs() -> (list: Vec<Pair>)
    ensures
        pair_models(list@) == Seq::<PairView>::empty(),
{
    let list: Vec<Pair> = Vec::new();
    assert(pair_models(list@) =~= Seq::<PairView>::empty());
    list
}

/// The list of one pair.
fn one_pair(first: Pair) -> (list: Vec<Pair>)
    ensures
        pair_models(list@) == seq![first@],
{
    let mut list = no_pairs();
    add_pair(&mut list, first);
    assert(pair_models(list@) =~= seq![first@]);
    list
}

/// The list of two pairs.
fn two_pairs(first: Pair, second: Pair) -> (list: Vec<Pair>)
    ensures
        pair_models(list@) == seq![first@, second@],
{
    let mut list = no_pairs();
    add_pair(&mut list, first);
    add_pair(&mut list, second);
    assert(pair_models(list@) =~= seq![first@, second@]);
    list
}

/// The list of three pairs.
fn three_pairs(first: Pair, second: Pair, third: Pair) -> (list: Vec<Pair>)
    ensures
        pair_models(list@) == seq![first@, second@, third@],
{
    let mut list = no_pairs();
    add_pair(&mut list, first);
    add_pair(&mut list, second);
    add_pair(&mut list, third);
    assert(pair_models(list@) =~= seq![first@, second@, third@]);
    list
}

/// Adds `pair` to `list`.
fn add_pair(list: &mut Vec<Pair>, pair: Pair)
    ensures
        pair_models(final(list)@) == pair_models(old(list)@).push(pair@),
{
    proof {
        lemma_models_push(list@, pair);
    }
    list.push(pair);
}

/// A source text, with its characters laid out to be read by position.
pub struct Source {
    text: String,
    chars: Vec<char>,
}

impl View for Source {
    type V = Seq<char>;

    closed spec fn view(&self) -> Seq<char> {
        self.chars@
    }
}

impl Source {
    /// The characters are those of the text.
    pub closed spec fn wf(&self) -> bool {
        self.chars@ == self.text@
    }

    /// The source text `text`.
    pub fn new(text: &str) -> (src: Source)
        ensures
            src.wf(),
            src@ == text@,
    {
        Source { text: String::from_str(text), chars: chars_of(text) }
    }

    /// The number of characters.
    pub fn len(&self) -> (n: usize)
        ensures
            n == self@.len(),
    {
        self.chars.len()
    }

    /// Whether the character `c` stands at `i`.
    pub fn holds(&self, i: usize, c: char) -> (r: bool)
        ensures
            r == holds(self@, i as int, c),
            r ==> i < usize::MAX,
    {
        i < self.chars.len() && self.chars[i] == c
    }

    /// The text from `from` to `to`.
    pub fn slice(&self, from: usize, to: usize) -> (r: String)
        requires
            self.wf(),
            from <= to <= self@.len(),
        ensures
            r@ == self@.subrange(from as int, to as int),
    {
        String::from_str(self.text.as_str().substring_char(from, to))
    }

    /// Skips the blanks at `i`.
    pub fn skip(&self, i: usize) -> (j: usize)
        requires
            i <= self@.len(),
        ensures
            j == skip(self@, i as int),
            i <= j <= self@.len(),
    {
        let mut j: usize = i;
        while j < self.chars.len() && is_blank_char(self.chars[j])
            invariant
                i <= j <= self@.len(),
                skip(self@, i as int) == skip(self@, j as int),
            decreases self@.len() - j,
        {
            j += 1;
        }
        j
    }

    /// The position after `word`, if `word` stands at `i`.
    pub fn word(&self, i: usize, text: &str) -> (r: Option<usize>)
        requires
            i <= self@.len(),
        ensures
            r matches Some(j) ==> word(self@, i as int, text@) == Some(j as int) && i + text@.len()
                == j <= self@.len(),
            r is None ==> word(self@, i as int, text@) is None,
    {
        let w = chars_of(text);
        let n = self.chars.len();
        if w.len() > n - i {
            return None;
        }
        let mut k: usize = 0;
        while k < w.len()
            invariant
                k <= w.len(),
                w@ == text@,
                n == self@.len(),
                i + w.len() <= n,
                forall|j: int| 0 <= j < k ==> self@[i + j] == w@[j],
            decreases w.len() - k,
        {
            if self.chars[i + k] != w[k] {
                assert(self@.subrange(i as int, i + w.len())[k as int] != w@[k as int]);
                return None;
            }
            k += 1;
        }
        assert(self@.subrange(i as int, i + w.len()) =~= w@);
        Some(i + w.len())
    }

    /// The end of a name that starts at `i`.
    pub fn name(&self, i: usize) -> (r: Option<usize>)
        requires
            i <= self@.len(),
        ensures
            r matches Some(j) ==> name(self@, i as int) == Some(j as int) && i < j <= self@.len(),
            r is None ==> name(self@, i as int) is None,
    {
        if i < self.chars.len() && is_name_start_char(self.chars[i]) {
            let mut j: usize = i + 1;
            while j < self.chars.len() && is_name_part_char(self.chars[j])
                invariant
                    i < j <= self@.len(),
                    name_end(self@, i + 1) == name_end(self@, j as int),
                decreases self@.len() - j,
            {
                j += 1;
            }
            Some(j)
        } else {
            None
        }
    }

    /// The end of a number that starts at `i`.
    pub fn number(&self, i: usize) -> (r: Option<usize>)
        requires
            i <= self@.len(),
        ensures
            r matches Some(j) ==> number(self@, i as int) == Some(j as int) && i < j <= self@.len(),
            r is None ==> number(self@, i as int) is None,
    {
        let n = self.chars.len();
        let from: usize = if self.holds(i, '-') {
            i + 1
        } else {
            i
        };
        let mut j: usize = from;
        while j < self.chars.len() && is_digit_char(self.chars[j])
            invariant
                from <= j <= self@.len(),
                digits_end(self@, from as int) == digits_end(self@, j as int),
            decreases self@.len() - j,
        {
            j += 1;
        }
        if j > from {
            Some(j)
        } else {
            None
        }
    }

    /// The end of a string literal that starts at `i`.
    pub fn string_literal(&self, i: usize) -> (r: Option<usize>)
        requires
            i <= self@.len(),
        ensures
            r matches Some(j) ==> string_literal(self@, i as int) == Some(j as int) && i < j
                <= self@.len(),
            r is None ==> string_literal(self@, i as int) is None,
    {
        let n = self.chars.len();
        if !self.holds(i, '"') {
            return None;
        }
        let mut j: usize = i + 1;
        while j < self.chars.len() && self.chars[j] != '"'
            invariant
                i < j <= self@.len(),
                quote_at(self@, i + 1) == quote_at(self@, j as int),
            decreases self@.len() - j,
        {
            j += 1;
        }
        if j < self.chars.len() {
            Some(j + 1)
        } else {
            None
        }
    }

    /// The end of the foreign code that starts at `i`.
    pub fn code_end(&self, i: usize) -> (j: usize)
        requires
            i <= self@.len(),
        ensures
            j == code_end(self@, i as int),
            i <= j <= self@.len(),
        decreases self@.len() - i,
    {
        let mut j: usize = i;
        while j < self.chars.len() && self.chars[j] != '}'
            invariant
                i <= j <= self@.len(),
                code_end(self@, i as int) == code_end(self@, j as int),
            decreases self@.len() - j,
        {
            if self.chars[j] == '{' {
                let close = self.code_end(j + 1);
                if self.holds(close, '}') {
                    j = close + 1;
                } else {
                    return j;
                }
            } else {
                j += 1;
            }
        }
        j
    }

    /// The end of a comparison operator that starts at `i`.
    pub fn comparison(&self, i: usize) -> (r: Option<usize>)
        requires
            i <= self@.len(),
        ensures
            r matches Some(j) ==> comparison(self@, i as int) == Some(j as int) && i < j
                <= self@.len(),
            r is None ==> comparison(self@, i as int) is None,
    {
        proof {
            lemma_words();
        }
        let mut r = self.word(i, ">=");
        if r.is_none() {
            r = self.word(i, "<=");
        }
        if r.is_none() {
            r = self.word(i, "==");
        }
        if r.is_none() {
            r = self.word(i, "!=");
        }
        if r.is_none() {
            r = self.word(i, ">");
        }
        if r.is_none() {
            r = self.word(i, "<");
        }
        r
    }

    /// The end of an operator that starts at `i`.
    pub fn operator(&self, i: usize) -> (r: Option<usize>)
        requires
            i <= self@.len(),
        ensures
            r matches Some(j) ==> operator(self@, i as int) == Some(j as int) && i < j
                <= self@.len(),
            r is None ==> operator(self@, i as int) is None,
    {
        proof {
            lemma_words();
        }
        let mut r = self.word(i, "+");
        if r.is_none() {
            r = self.word(i, "-");
        }
        if r.is_none() {
            r = self.word(i, "*");
        }
        if r.is_none() {
            r = self.word(i, "/");
        }
        if r.is_none() {
            r = self.comparison(i);
        }
        r
    }

    /// The end of a print command that starts at `i`.
    pub fn print_command(&self, i: usize) -> (r: Option<usize>)
        requires
            i <= self@.len(),
        ensures
            r matches Some(j) ==> print_command(self@, i as int) == Some(j as int) && i < j
                <= self@.len(),
            r is None ==> print_command(self@, i as int) is None,
    {
        proof {
            lemma_words();
        }
        let r = self.word(i, "0xseppo");
        if r.is_none() {
            self.word(i, "seppo")
        } else {
            r
        }
    }
    /// The pair of `rule` for the text from `from` to `to`, with `children`
    /// inside it.
    fn pair(&self, rule: Rule, from: usize, to: usize, children: Vec<Pair>) -> (p: Pair)
        requires
            self.wf(),
            from <= to <= self@.len(),
        ensures
            p@ == node(rule, self@, from as int, to as int, pair_models(children@)),
    {
        Pair { rule, text: self.slice(from, to), children }
    }

    /// The match of `rule` without pairs inside it that ends at `end`.
    fn token(&self, rule: Rule, i: usize, end: Option<usize>) -> (r: Option<(Pair, usize)>)
        requires
            self.wf(),
            end matches Some(j) ==> i <= j <= self@.len(),
        ensures
            r matches Some((p, j)) ==> end == Some(j) && p@ == node(
                rule,
                self@,
                i as int,
                j as int,
                Seq::empty(),
            ),
            r is None ==> end is None,
    {
        match end {
            Some(j) => Some((self.pair(rule, i, j, no_pairs()), j)),
            None => None,
        }
    }

    /// A term that starts at `i`.
    pub fn term(&self, i: usize) -> (r: Option<(Pair, usize)>)
        requires
            self.wf(),
            i <= self@.len(),
        ensures
            matched(r, term(self@, i as int)),
            r matches Some((_, j)) ==> i < j <= self@.len(),
        decreases self@.len() - i, 1nat,
    {
        let call = self.function_call(i);
        if call.is_some() {
            return call;
        }
        let number = self.token(Rule::Number, i, self.number(i));
        if number.is_some() {
            return number;
        }
        let string = self.token(Rule::StringLiteral, i, self.string_literal(i));
        if string.is_some() {
            return string;
        }
        self.token(Rule::Variable, i, self.name(i))
    }

    /// A call that starts at `i`.
    pub fn function_call(&self, i: usize) -> (r: Option<(Pair, usize)>)
        requires
            self.wf(),
            i <= self@.len(),
        ensures
            matched(r, function_call(self@, i as int)),
            r matches Some((_, j)) ==> i < j <= self@.len(),
        decreases self@.len() - i, 0nat,
    {
        let (callee, j) = match self.token(Rule::Identifier, i, self.name(i)) {
            Some(found) => found,
            None => { return None; },
        };
        let paren = self.skip(j);
        if !self.holds(paren, '(') {
            return None;
        }
        let from = self.skip(paren + 1);
        let (children, to) = match self.arg_list(from) {
            Some((list, to)) => (two_pairs(callee, list), to),
            None => (one_pair(callee), from),
        };
        let close = self.skip(to);
        if !self.holds(close, ')') {
            return None;
        }
        Some((self.pair(Rule::FunctionCall, i, close + 1, children), close + 1))
    }

    /// A list of arguments that starts at `i`.
    pub fn arg_list(&self, i: usize) -> (r: Option<(Pair, usize)>)
        requires
            self.wf(),
            i <= self@.len(),
        ensures
            matched(r, arg_list(self@, i as int)),
            r matches Some((_, j)) ==> i < j <= self@.len(),
        decreases self@.len() - i, 4nat,
    {
        let (first, j) = match self.expression(i) {
            Some(found) => found,
            None => { return None; },
        };
        let ghost head = first@;
        let mut list = one_pair(first);
        let mut to: usize = j;
        loop
            invariant_except_break
                self.wf(),
                i < to <= self@.len(),
                more_arguments(self@, j as int, seq![head]) == more_arguments(
                    self@,
                    to as int,
                    pair_models(list@),
                ),
            ensures
                i < to <= self@.len(),
                more_arguments(self@, j as int, seq![head]) == (pair_models(list@), to as int),
            decreases self@.len() - to,
        {
            let comma = self.skip(to);
            if !self.holds(comma, ',') {
                break;
            }
            match self.expression(self.skip(comma + 1)) {
                Some((argument, next)) => {
                    add_pair(&mut list, argument);
                    to = next;
                },
                None => { break; },
            }
        }
        Some((self.pair(Rule::Other, i, to, list), to))
    }

    /// An expression that starts at `i`.
    pub fn expression(&self, i: usize) -> (r: Option<(Pair, usize)>)
        requires
            self.wf(),
            i <= self@.len(),
        ensures
            matched(r, expression(self@, i as int)),
            r matches Some((_, j)) ==> i < j <= self@.len(),
        decreases self@.len() - i, 3nat,
    {
        let operation = self.operation(i);
        let found = if operation.is_some() {
            operation
        } else {
            self.term(i)
        };
        match found {
            Some((inner, j)) => Some((self.pair(Rule::Expression, i, j, one_pair(inner)), j)),
            None => None,
        }
    }

    /// An operation that starts at `i`.
    pub fn operation(&self, i: usize) -> (r: Option<(Pair, usize)>)
        requires
            self.wf(),
            i <= self@.len(),
        ensures
            matched(r, operation(self@, i as int)),
            r matches Some((_, j)) ==> i < j <= self@.len(),
        decreases self@.len() - i, 2nat,
    {
        let (left, j) = match self.term(i) {
            Some(found) => found,
            None => { return None; },
        };
        let at = self.skip(j);
        let (sign, k) = match self.token(Rule::Other, at, self.operator(at)) {
            Some(found) => found,
            None => { return None; },
        };
        let (right, to) = match self.term(self.skip(k)) {
            Some(found) => found,
            None => { return None; },
        };
        Some((self.pair(Rule::Operation, i, to, three_pairs(left, sign, right)), to))
    }

    /// A condition that starts at `i`.
    pub fn condition(&self, i: usize) -> (r: Option<(Pair, usize)>)
        requires
            self.wf(),
            i <= self@.len(),
        ensures
            matched(r, condition(self@, i as int)),
            r matches Some((_, j)) ==> i < j <= self@.len(),
    {
        let (left, j) = match self.term(i) {
            Some(found) => found,
            None => { return None; },
        };
        let at = self.skip(j);
        let (sign, k) = match self.token(Rule::Other, at, self.comparison(at)) {
            Some(found) => found,
            None => { return None; },
        };
        let (right, to) = match self.term(self.skip(k)) {
            Some(found) => found,
            None => { return None; },
        };
        Some((self.pair(Rule::Condition, i, to, three_pairs(left, sign, right)), to))
    }
    /// A print statement that starts at `i`.
    pub fn print_stmt(&self, i: usize) -> (r: Option<(Pair, usize)>)
        requires
            self.wf(),
            i <= self@.len(),
        ensures
            matched(r, print_stmt(self@, i as int)),
            r matches Some((_, j)) ==> i < j <= self@.len(),
    {
        let (command, j) = match self.token(Rule::Other, i, self.print_command(i)) {
            Some(found) => found,
            None => { return None; },
        };
        let from = self.skip(j);
        let (value, to) = match self.expression(from) {
            Some(found) => found,
            None => { return None; },
        };
        let holder = self.pair(Rule::Other, from, to, one_pair(value));
        Some((self.pair(Rule::PrintStmt, i, to, two_pairs(command, holder)), to))
    }

    /// A return statement that starts at `i`.
    pub fn return_stmt(&self, i: usize) -> (r: Option<(Pair, usize)>)
        requires
            self.wf(),
            i <= self@.len(),
        ensures
            matched(r, return_stmt(self@, i as int)),
            r matches Some((_, j)) ==> i < j <= self@.len(),
    {
        let j = match self.word(i, "return") {
            Some(j) => j,
            None => { return None; },
        };
        match self.expression(self.skip(j)) {
            Some((value, to)) => Some((self.pair(Rule::ReturnStmt, i, to, one_pair(value)), to)),
            None => None,
        }
    }

    /// An assignment that starts at `i`.
    pub fn assignment(&self, i: usize) -> (r: Option<(Pair, usize)>)
        requires
            self.wf(),
            i <= self@.len(),
        ensures
            matched(r, assignment(self@, i as int)),
            r matches Some((_, j)) ==> i < j <= self@.len(),
    {
        let (target, j) = match self.token(Rule::Identifier, i, self.name(i)) {
            Some(found) => found,
            None => { return None; },
        };
        let sign = self.skip(j);
        if !self.holds(sign, '=') {
            return None;
        }
        let from = self.skip(sign + 1);
        if self.holds(from, '=') {
            return None;
        }
        match self.expression(from) {
            Some((value, to)) => Some(
                (self.pair(Rule::Assignment, i, to, two_pairs(target, value)), to),
            ),
            None => None,
        }
    }

    /// A statement that starts at `i`.
    pub fn statement(&self, i: usize) -> (r: Option<(Pair, usize)>)
        requires
            self.wf(),
            i <= self@.len(),
        ensures
            matched(r, statement(self@, i as int)),
            r matches Some((_, j)) ==> i < j <= self@.len(),
        decreases self@.len() - i, 3nat,
    {
        let mut found = self.conditional_block(i);
        if found.is_none() {
            found = self.print_stmt(i);
        }
        if found.is_none() {
            found = self.return_stmt(i);
        }
        if found.is_none() {
            found = self.assignment(i);
        }
        if found.is_none() {
            found = self.expression(i);
        }
        match found {
            Some((inner, j)) => Some((self.pair(Rule::Statement, i, j, one_pair(inner)), j)),
            None => None,
        }
    }

    /// A conditional that starts at `i`.
    pub fn conditional_block(&self, i: usize) -> (r: Option<(Pair, usize)>)
        requires
            self.wf(),
            i <= self@.len(),
        ensures
            matched(r, conditional_block(self@, i as int)),
            r matches Some((_, j)) ==> i < j <= self@.len(),
        decreases self@.len() - i, 2nat,
    {
        proof {
            lemma_words();
        }
        let j = match self.word(i, "seppo") {
            Some(j) => j,
            None => { return None; },
        };
        let (test, k) = match self.condition(self.skip(j)) {
            Some(found) => found,
            None => { return None; },
        };
        let (true_block, to) = match self.block(self.skip(k)) {
            Some(found) => found,
            None => { return None; },
        };
        let second = match self.word(self.skip(to), "perkele") {
            Some(m) => self.block(self.skip(m)),
            None => None,
        };
        match second {
            Some((false_block, end)) => Some(
                (
                    self.pair(
                        Rule::ConditionalBlock,
                        i,
                        end,
                        three_pairs(test, true_block, false_block),
                    ),
                    end,
                ),
            ),
            None => Some(
                (self.pair(Rule::ConditionalBlock, i, to, two_pairs(test, true_block)), to),
            ),
        }
    }

    /// A block that starts at `i`.
    pub fn block(&self, i: usize) -> (r: Option<(Pair, usize)>)
        requires
            self.wf(),
            i <= self@.len(),
        ensures
            matched(r, block(self@, i as int)),
            r matches Some((_, j)) ==> i < j <= self@.len(),
        decreases self@.len() - i, 1nat,
    {
        if !self.holds(i, '{') {
            return None;
        }
        let mut list = no_pairs();
        let mut at: usize = i + 1;
        loop
            invariant_except_break
                self.wf(),
                i < at <= self@.len(),
                statements(self@, i + 1, Seq::empty()) == statements(
                    self@,
                    at as int,
                    pair_models(list@),
                ),
            ensures
                i < at <= self@.len(),
                statements(self@, i + 1, Seq::empty()) == (pair_models(list@), at as int),
            decreases self@.len() - at,
        {
            match self.statement(self.skip(at)) {
                Some((one, next)) => {
                    add_pair(&mut list, one);
                    at = next;
                },
                None => { break; },
            }
        }
        let close = self.skip(at);
        if !self.holds(close, '}') {
            return None;
        }
        Some((self.pair(Rule::Block, i, close + 1, list), close + 1))
    }

    /// A function that starts at `i`.
    pub fn function(&self, i: usize) -> (r: Option<(Pair, usize)>)
        requires
            self.wf(),
            i <= self@.len(),
        ensures
            matched(r, function(self@, i as int)),
            r matches Some((_, j)) ==> i < j <= self@.len(),
    {
        let j = match self.word(i, "fn") {
            Some(j) => j,
            None => { return None; },
        };
        let at = self.skip(j);
        let (name, k) = match self.token(Rule::Identifier, at, self.name(at)) {
            Some(found) => found,
            None => { return None; },
        };
        let paren = self.skip(k);
        if !self.holds(paren, '(') {
            return None;
        }
        let close = self.skip(paren + 1);
        if !self.holds(close, ')') {
            return None;
        }
        match self.block(self.skip(close + 1)) {
            Some((body, to)) => Some((self.pair(Rule::Function, i, to, two_pairs(name, body)), to)),
            None => None,
        }
    }

    /// A foreign block that starts at `i`.
    pub fn extern_block(&self, i: usize) -> (r: Option<(Pair, usize)>)
        requires
            self.wf(),
            i <= self@.len(),
        ensures
            matched(r, extern_block(self@, i as int)),
            r matches Some((_, j)) ==> i < j <= self@.len(),
    {
        let j = match self.word(i, "ceppo") {
            Some(j) => j,
            None => { return None; },
        };
        let brace = self.skip(j);
        if !self.holds(brace, '{') {
            return None;
        }
        let from = self.skip(brace + 1);
        let to = self.code_end(from);
        let close = self.skip(to);
        if !self.holds(close, '}') {
            return None;
        }
        let code = self.pair(Rule::CCode, from, to, no_pairs());
        Some((self.pair(Rule::ExternBlock, i, close + 1, one_pair(code)), close + 1))
    }

    /// The program that the text is: its parse tree, or the position at
    /// which the text goes on with something that is neither a function
    /// nor a foreign block.
    pub fn program(&self) -> (r: Result<Pair, usize>)
        requires
            self.wf(),
        ensures
            match r {
                Ok(pair) => program(self@) == Ok::<PairView, int>(pair@),
                Err(at) => program(self@) == Err::<PairView, int>(at as int),
            },
    {
        let mut list = no_pairs();
        let mut at: usize = 0;
        loop
            invariant_except_break
                self.wf(),
                at <= self@.len(),
                items(self@, 0, Seq::empty()) == items(self@, at as int, pair_models(list@)),
            ensures
                at <= self@.len(),
                items(self@, 0, Seq::empty()) == (pair_models(list@), at as int),
            decreases self@.len() - at,
        {
            let from = self.skip(at);
            let mut found = self.extern_block(from);
            if found.is_none() {
                found = self.function(from);
            }
            match found {
                Some((one, next)) => {
                    add_pair(&mut list, one);
                    at = next;
                },
                None => { break; },
            }
        }
        let end = self.skip(at);
        if end < self.len() {
            return Err(end);
        }
        add_pair(&mut list, self.pair(Rule::Other, end, end, no_pairs()));
        Ok(self.pair(Rule::Program, 0, end, list))
    }
}

/// The words of the grammar are not empty.
proof fn lemma_words()
    ensures
        "+"@.len() == 1,
        "-"@.len() == 1,
        "*"@.len() == 1,
        "/"@.len() == 1,
        ">"@.len() == 1,
        "<"@.len() == 1,
        ">="@.len() == 2,
        "<="@.len() == 2,
        "=="@.len() == 2,
        "!="@.len() == 2,
        "seppo"@.len() == 5,
        "0xseppo"@.len() == 7,
        "perkele"@.len() == 7,
        "return"@.len() == 6,
        "fn"@.len() == 2,
        "ceppo"@.len() == 5,
{
    reveal_strlit("+");
    reveal_strlit("-");
    reveal_strlit("*");
    reveal_strlit("/");
    reveal_strlit(">");
    reveal_strlit("<");
    reveal_strlit(">=");
    reveal_strlit("<=");
    reveal_strlit("==");
    reveal_strlit("!=");
    reveal_strlit("seppo");
    reveal_strlit("0xseppo");
    reveal_strlit("perkele");
    reveal_strlit("return");
    reveal_strlit("fn");
    reveal_strlit("ceppo");
}

fn is_blank_char(c: char) -> (r: bool)
    ensures
        r == is_blank(c),
{
    c == ' ' || c == '\t' || c == '\r' || c == '\n'
}

fn is_name_start_char(c: char) -> (r: bool)
    ensures
        r == is_name_start(c),
{
    ('a' <= c && c <= 'z') || ('A' <= c && c <= 'Z') || c == '_'
}

fn is_digit_char(c: char) -> (r: bool)
    ensures
        r == is_digit(c),
{
    '0' <= c && c <= '9'
}

fn is_name_part_char(c: char) -> (r: bool)
    ensures
        r == is_name_part(c),
{
    is_name_start_char(c) || is_digit_char(c)
}

} // verus!
