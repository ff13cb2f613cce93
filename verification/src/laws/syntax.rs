//! Matches of the grammar go forward: the tests in the rules that show
//! that the rules end never fail.

use crate::grammar::Match;
use crate::grammar::ahead;
use crate::grammar::arg_list;
use crate::grammar::assignment;
use crate::grammar::block;
use crate::grammar::code_end;
use crate::grammar::comparison;
use crate::grammar::condition;
use crate::grammar::conditional_block;
use crate::grammar::digits_end;
use crate::grammar::expression;
use crate::grammar::extern_block;
use crate::grammar::function;
use crate::grammar::function_call;
use crate::grammar::holds;
use crate::grammar::identifier;
use crate::grammar::items;
use crate::grammar::more_arguments;
use crate::grammar::name;
use crate::grammar::name_end;
use crate::grammar::number;
use crate::grammar::operation;
use crate::grammar::operator;
use crate::grammar::print_command;
use crate::grammar::print_stmt;
use crate::grammar::quote_at;
use crate::grammar::return_stmt;
use crate::grammar::skip;
use crate::grammar::statement;
use crate::grammar::statements;
use crate::grammar::string_literal;
use crate::grammar::term;
use crate::grammar::word;
use crate::parser::PairView;
use vstd::prelude::*;

verus! {

/// Whether the match `m` of a rule at `i`, if it is one, ends after `i`
/// and within the text.
pub open spec fn forward(s: Seq<char>, i: int, m: Match) -> bool {
    m matches Some((_, j)) ==> ahead(s, i, j)
}

/// Whether the end of a token at `i`, if there is one, lies after `i` and
/// within the text.
pub open spec fn onward(s: Seq<char>, i: int, end: Option<int>) -> bool {
    end matches Some(j) ==> ahead(s, i, j)
}

proof fn lemma_skip(s: Seq<char>, i: int)
    requires
        0 <= i <= s.len(),
    ensures
        i <= skip(s, i) <= s.len(),
    decreases s.len() - i,
{
    if i < s.len() {
        lemma_skip(s, i + 1);
    }
}

proof fn lemma_name_end(s: Seq<char>, i: int)
    requires
        0 <= i <= s.len(),
    ensures
        i <= name_end(s, i) <= s.len(),
    decreases s.len() - i,
{
    if i < s.len() {
        lemma_name_end(s, i + 1);
    }
}

proof fn lemma_digits_end(s: Seq<char>, i: int)
    requires
        0 <= i <= s.len(),
    ensures
        i <= digits_end(s, i) <= s.len(),
    decreases s.len() - i,
{
    if i < s.len() {
        lemma_digits_end(s, i + 1);
    }
}

proof fn lemma_quote_at(s: Seq<char>, i: int)
    requires
        0 <= i <= s.len(),
    ensures
        i <= quote_at(s, i) <= s.len(),
    decreases s.len() - i,
{
    if i < s.len() {
        lemma_quote_at(s, i + 1);
    }
}

proof fn lemma_code_end(s: Seq<char>, i: int)
    requires
        0 <= i <= s.len(),
    ensures
        i <= code_end(s, i) <= s.len(),
    decreases s.len() - i,
{
    if i < s.len() && s[i] != '}' {
        lemma_code_end(s, i + 1);
        if s[i] == '{' {
            let close = code_end(s, i + 1);
            if ahead(s, i, close + 1) && s[close] == '}' {
                lemma_code_end(s, close + 1);
            }
        }
    }
}

/// The tokens go forward.
proof fn lemma_tokens(s: Seq<char>, i: int)
    requires
        0 <= i <= s.len(),
    ensures
        onward(s, i, name(s, i)),
        onward(s, i, number(s, i)),
        onward(s, i, string_literal(s, i)),
        onward(s, i, comparison(s, i)),
        onward(s, i, operator(s, i)),
        onward(s, i, print_command(s, i)),
        onward(s, i, word(s, i, "seppo"@)),
        onward(s, i, word(s, i, "perkele"@)),
        onward(s, i, word(s, i, "return"@)),
        onward(s, i, word(s, i, "fn"@)),
        onward(s, i, word(s, i, "ceppo"@)),
        forward(s, i, identifier(s, i)),
{
    reveal_strlit("+");
    reveal_strlit("-");
    reveal_strlit("*");
    reveal_strlit("/");
    reveal_strlit(">");
    reveal_strlit("<");
    reveal_strlit(">=");
    reveal_strlit("<=");
    reveal_strlit("==");
    reveal_strlit("!=");
    reveal_strlit("seppo");
    reveal_strlit("0xseppo");
    reveal_strlit("perkele");
    reveal_strlit("return");
    reveal_strlit("fn");
    reveal_strlit("ceppo");
    if i < s.len() {
        lemma_name_end(s, i + 1);
        lemma_digits_end(s, i + 1);
        lemma_quote_at(s, i + 1);
    }
    lemma_digits_end(s, i);
}

/// The position after a list of arguments is none before its start.
proof fn lemma_more_arguments(s: Seq<char>, i: int, done: Seq<PairView>)
    requires
        0 <= i <= s.len(),
    ensures
        i <= more_arguments(s, i, done).1 <= s.len(),
    decreases s.len() - i,
{
    let from = skip(s, skip(s, i) + 1);
    if holds(s, skip(s, i), ',') && ahead(s, i, from) {
        match expression(s, from) {
            Some((argument, j)) => {
                if ahead(s, i, j) {
                    lemma_more_arguments(s, j, done.push(argument));
                }
            },
            None => {},
        }
    }
}

/// The position after a list of statements is none before its start.
proof fn lemma_statements(s: Seq<char>, i: int, done: Seq<PairView>)
    requires
        0 <= i <= s.len(),
    ensures
        i <= statements(s, i, done).1 <= s.len(),
    decreases s.len() - i,
{
    if 0 <= i <= skip(s, i) <= s.len() {
        match statement(s, skip(s, i)) {
            Some((one, j)) => {
                if ahead(s, i, j) {
                    lemma_statements(s, j, done.push(one));
                }
            },
            None => {},
        }
    }
}

/// The position after a list of functions and foreign blocks is none
/// before its start.
proof fn lemma_items(s: Seq<char>, i: int, done: Seq<PairView>)
    requires
        0 <= i <= s.len(),
    ensures
        i <= items(s, i, done).1 <= s.len(),
    decreases s.len() - i,
{
    match crate::grammar::or(extern_block(s, skip(s, i)), function(s, skip(s, i))) {
        Some((one, j)) => {
            if ahead(s, i, j) {
                lemma_items(s, j, done.push(one));
            }
        },
        None => {},
    }
}

/// The rules of expressions go forward.
proof fn lemma_expressions(s: Seq<char>, i: int)
    requires
        0 <= i <= s.len(),
    ensures
        forward(s, i, function_call(s, i)),
        forward(s, i, term(s, i)),
        forward(s, i, operation(s, i)),
        forward(s, i, expression(s, i)),
        forward(s, i, arg_list(s, i)),
        forward(s, i, condition(s, i)),
    decreases s.len() - i,
{
    lemma_tokens(s, i);
    match identifier(s, i) {
        Some((callee, j)) => {
            lemma_skip(s, j);
            let paren = skip(s, j);
            if holds(s, paren, '(') {
                lemma_skip(s, paren + 1);
                let from = skip(s, paren + 1);
                lemma_expressions(s, from);
                let to = match arg_list(s, from) {
                    Some((list, to)) => to,
                    None => from,
                };
                lemma_skip(s, to);
            }
        },
        None => {},
    }
    assert(forward(s, i, function_call(s, i)));
    assert(forward(s, i, term(s, i)));
    match term(s, i) {
        Some((left, j)) => {
            lemma_skip(s, j);
            lemma_tokens(s, skip(s, j));
            match operator(s, skip(s, j)) {
                Some(k) => {
                    lemma_skip(s, k);
                    lemma_expressions(s, skip(s, k));
                },
                None => {},
            }
            match comparison(s, skip(s, j)) {
                Some(k) => {
                    lemma_skip(s, k);
                    lemma_expressions(s, skip(s, k));
                },
                None => {},
            }
        },
        None => {},
    }
    assert(forward(s, i, operation(s, i)));
    assert(forward(s, i, condition(s, i)));
    assert(forward(s, i, expression(s, i)));
    match expression(s, i) {
        Some((first, j)) => {
            lemma_more_arguments(s, j, seq![first]);
        },
        None => {},
    }
}

/// The rules of statements go forward.
proof fn lemma_statement_rules(s: Seq<char>, i: int)
    requires
        0 <= i <= s.len(),
    ensures
        forward(s, i, print_stmt(s, i)),
        forward(s, i, return_stmt(s, i)),
        forward(s, i, assignment(s, i)),
        forward(s, i, conditional_block(s, i)),
        forward(s, i, statement(s, i)),
        forward(s, i, block(s, i)),
    decreases s.len() - i,
{
    lemma_tokens(s, i);
    lemma_expressions(s, i);
    match print_command(s, i) {
        Some(j) => {
            lemma_skip(s, j);
            lemma_expressions(s, skip(s, j));
        },
        None => {},
    }
    assert(forward(s, i, print_stmt(s, i)));
    match word(s, i, "return"@) {
        Some(j) => {
            lemma_skip(s, j);
            lemma_expressions(s, skip(s, j));
        },
        None => {},
    }
    assert(forward(s, i, return_stmt(s, i)));
    match identifier(s, i) {
        Some((target, j)) => {
            lemma_skip(s, j);
            let sign = skip(s, j);
            if holds(s, sign, '=') {
                lemma_skip(s, sign + 1);
                lemma_expressions(s, skip(s, sign + 1));
            }
        },
        None => {},
    }
    assert(forward(s, i, assignment(s, i)));
    match word(s, i, "seppo"@) {
        Some(j) => {
            lemma_skip(s, j);
            lemma_expressions(s, skip(s, j));
            match condition(s, skip(s, j)) {
                Some((test, k)) => {
                    lemma_skip(s, k);
                    lemma_statement_rules(s, skip(s, k));
                    match block(s, skip(s, k)) {
                        Some((true_block, to)) => {
                            lemma_skip(s, to);
                            lemma_tokens(s, skip(s, to));
                            match word(s, skip(s, to), "perkele"@) {
                                Some(m) => {
                                    lemma_skip(s, m);
                                    lemma_statement_rules(s, skip(s, m));
                                },
                                None => {},
                            }
                        },
                        None => {},
                    }
                },
                None => {},
            }
        },
        None => {},
    }
    assert(forward(s, i, conditional_block(s, i)));
    assert(forward(s, i, statement(s, i)));
    if holds(s, i, '{') {
        lemma_statements(s, i + 1, Seq::empty());
        lemma_skip(s, statements(s, i + 1, Seq::empty()).1);
    }
}

/// Every match of a rule ends after the place where it starts, and within
/// the text.
pub proof fn law_matches_go_forward(s: Seq<char>, i: int)
    requires
        0 <= i <= s.len(),
    ensures
        forward(s, i, identifier(s, i)),
        forward(s, i, term(s, i)),
        forward(s, i, function_call(s, i)),
        forward(s, i, arg_list(s, i)),
        forward(s, i, expression(s, i)),
        forward(s, i, operation(s, i)),
        forward(s, i, condition(s, i)),
        forward(s, i, print_stmt(s, i)),
        forward(s, i, return_stmt(s, i)),
        forward(s, i, assignment(s, i)),
        forward(s, i, statement(s, i)),
        forward(s, i, conditional_block(s, i)),
        forward(s, i, block(s, i)),
        forward(s, i, function(s, i)),
        forward(s, i, extern_block(s, i)),
{
    lemma_tokens(s, i);
    lemma_expressions(s, i);
    lemma_statement_rules(s, i);
    match word(s, i, "fn"@) {
        Some(j) => {
            lemma_skip(s, j);
            lemma_tokens(s, skip(s, j));
            match identifier(s, skip(s, j)) {
                Some((name, k)) => {
                    lemma_skip(s, k);
                    let paren = skip(s, k);
                    if holds(s, paren, '(') {
                        lemma_skip(s, paren + 1);
                        let close = skip(s, paren + 1);
                        if holds(s, close, ')') {
                            lemma_skip(s, close + 1);
                            lemma_statement_rules(s, skip(s, close + 1));
                        }
                    }
                },
                None => {},
            }
        },
        None => {},
    }
    match word(s, i, "ceppo"@) {
        Some(j) => {
            lemma_skip(s, j);
            let brace = skip(s, j);
            if holds(s, brace, '{') {
                lemma_skip(s, brace + 1);
                lemma_code_end(s, skip(s, brace + 1));
                lemma_skip(s, code_end(s, skip(s, brace + 1)));
            }
        },
        None => {},
    }
}

/// The lists of the grammar end within the text: after the statements of
/// a block, and after the functions and foreign blocks of a program, the
/// position is none before the start and none after the end of the text.
pub proof fn law_lists_end_within_the_text(s: Seq<char>, i: int, done: Seq<PairView>)
    requires
        0 <= i <= s.len(),
    ensures
        i <= more_arguments(s, i, done).1 <= s.len(),
        i <= statements(s, i, done).1 <= s.len(),
        i <= items(s, i, done).1 <= s.len(),
{
    lemma_more_arguments(s, i, done);
    lemma_statements(s, i, done);
    lemma_items(s, i, done);
}

} // verus!
