//! Foreign code blocks: what is handed to the external compiler, and the
//! best-effort discovery of the functions that a block declares.
//!
//! The discovery is a lexical heuristic, not a parse of the foreign
//! language: every `(` that has white space somewhere before it and a `)`
//! somewhere after it counts as a function, whatever the text around it
//! means. Conditions, calls, casts and comments are reported as well.

use crate::scope::Name;
use vstd::prelude::*;

verus! {

/// White space: the characters that Unicode classes as such.
pub open spec fn is_space(c: char) -> bool {
    let n = c as u32;
    ||| 0x09 <= n <= 0x0d
    ||| n == 0x20
    ||| n == 0x85
    ||| n == 0xa0
    ||| n == 0x1680
    ||| 0x2000 <= n <= 0x200a
    ||| n == 0x2028
    ||| n == 0x2029
    ||| n == 0x202f
    ||| n == 0x205f
    ||| n == 0x3000
}

/// The number of leading white-space characters of `s`.
pub open spec fn leading_spaces(s: Seq<char>) -> nat
    decreases s.len(),
{
    if s.len() > 0 && is_space(s[0]) {
        1 + leading_spaces(s.drop_first())
    } else {
        0
    }
}

/// The number of trailing white-space characters of `s`.
pub open spec fn trailing_spaces(s: Seq<char>) -> nat
    decreases s.len(),
{
    if s.len() > 0 && is_space(s.last()) {
        1 + trailing_spaces(s.drop_last())
    } else {
        0
    }
}

/// `s` without its leading and trailing white space.
pub open spec fn trim(s: Seq<char>) -> Seq<char> {
    let start = leading_spaces(s);
    if start == s.len() {
        Seq::empty()
    } else {
        s.subrange(start as int, s.len() - trailing_spaces(s))
    }
}

/// The first position at or after `from` that holds `c`.
pub open spec fn first_from(s: Seq<char>, c: char, from: int) -> Option<int>
    decreases s.len() - from,
{
    if from < 0 || from >= s.len() {
        None
    } else if s[from] == c {
        Some(from)
    } else {
        first_from(s, c, from + 1)
    }
}

/// The last position before `end` that holds white space.
pub open spec fn last_space_before(s: Seq<char>, end: int) -> Option<int>
    decreases end,
{
    if end <= 0 || end > s.len() {
        None
    } else if is_space(s[end - 1]) {
        Some(end - 1)
    } else {
        last_space_before(s, end - 1)
    }
}

/// How often `c` occurs in `s`.
pub open spec fn occurrences(s: Seq<char>, c: char) -> nat
    decreases s.len(),
{
    if s.len() == 0 {
        0
    } else {
        occurrences(s.drop_last(), c) + if s.last() == c {
            1nat
        } else {
            0nat
        }
    }
}

/// The number of parameters that the text between two parentheses
/// declares: none if it is blank, else one more than it has commas.
pub open spec fn arity_of(params: Seq<char>) -> nat {
    if trim(params).len() == 0 {
        0
    } else {
        occurrences(params, ',') + 1
    }
}

/// The function that the `(` at position `open` of `text` stands for, if
/// any: its name is what stands between the last white space before the
/// parenthesis and the parenthesis, its parameters are what stands between
/// the parenthesis and the next `)`.
pub open spec fn signature_at(text: Seq<char>, open: int) -> Option<(Name, usize)> {
    match (last_space_before(text, open), first_from(text, ')', open)) {
        (Some(space), Some(close)) => Some(
            (text.subrange(space + 1, open), arity_of(text.subrange(open + 1, close)) as usize),
        ),
        _ => None,
    }
}

/// The functions found at the parentheses at or after `from`, in order.
pub open spec fn signatures_from(text: Seq<char>, from: int) -> Seq<(Name, usize)>
    decreases text.len() - from,
{
    if from < 0 || from >= text.len() {
        Seq::empty()
    } else if text[from] == '(' {
        match signature_at(text, from) {
            Some(found) => seq![found] + signatures_from(text, from + 1),
            None => signatures_from(text, from + 1),
        }
    } else {
        signatures_from(text, from + 1)
    }
}

/// The functions that the foreign block `code` is taken to declare.
pub open spec fn signatures_of(code: Seq<char>) -> Seq<(Name, usize)> {
    signatures_from(trim(code), 0)
}

/// The lines put before every foreign block.
pub open spec fn preamble() -> Seq<char> {
    "#include <stdint.h>\n#include <stdio.h>\n#include <stdlib.h>\n#include <stddef.h>\n#include <limits.h>\n"@
}

/// The text of the file that is handed to the external compiler for the
/// foreign block `code`.
pub open spec fn wrapped(code: Seq<char>) -> Seq<char> {
    preamble() + trim(code) + "\n"@
}

/// A function found in a foreign block.
#[derive(Debug, PartialEq, Eq)]
pub struct ForeignSignature {
    pub name: String,
    /// The number of parameters; each is taken to be a 64-bit integer, as
    /// is the result, whatever the foreign declaration says.
    pub arity: usize,
}

impl View for ForeignSignature {
    type V = (Name, usize);

    open spec fn view(&self) -> (Name, usize) {
        (self.name@, self.arity)
    }
}

/// The models of a list of signatures, in order.
pub open spec fn signature_views(list: Seq<ForeignSignature>) -> Seq<(Name, usize)> {
    list.map_values(|s: ForeignSignature| s@)
}

/// Tests whether `c` is white space.
pub fn is_whitespace(c: char) -> (r: bool)
    ensures
        r == is_space(c),
{
    let n: u32 = c as u32;
    (0x09 <= n && n <= 0x0d) || n == 0x20 || n == 0x85 || n == 0xa0 || n == 0x1680 || (0x2000 <= n
        && n <= 0x200a) || n == 0x2028 || n == 0x2029 || n == 0x202f || n == 0x205f || n == 0x3000
}

/// The characters of `s`, in order.
pub fn chars_of(s: &str) -> (v: Vec<char>)
    ensures
        v@ == s@,
{
    let mut v: Vec<char> = Vec::new();
    for c in it: s.chars()
        invariant
            v@ == it.seq().take(it.index() as int),
            it.seq() == s@,
    {
        v.push(c);
    }
    v
}

proof fn lemma_leading_spaces(s: Seq<char>, n: int)
    requires
        0 <= n <= s.len(),
        forall|i: int| 0 <= i < n ==> is_space(s[i]),
        n < s.len() ==> !is_space(s[n]),
    ensures
        leading_spaces(s) == n,
    decreases n,
{
    if n > 0 {
        let rest = s.drop_first();
        assert forall|i: int| 0 <= i < n - 1 implies is_space(rest[i]) by {
            assert(rest[i] == s[i + 1]);
        }
        lemma_leading_spaces(rest, n - 1);
    }
}

proof fn lemma_trailing_spaces(s: Seq<char>, n: int)
    requires
        0 <= n <= s.len(),
        forall|i: int| s.len() - n <= i < s.len() ==> is_space(s[i]),
        n < s.len() ==> !is_space(s[s.len() - n - 1]),
    ensures
        trailing_spaces(s) == n,
    decreases n,
{
    if n > 0 {
        let rest = s.drop_last();
        lemma_trailing_spaces(rest, n - 1);
    }
}

/// The bounds of `trim` within `v[from..to]`: the trimmed text is
/// `v[start..end]`.
pub fn trim_bounds(v: &Vec<char>, from: usize, to: usize) -> (r: (usize, usize))
    requires
        from <= to <= v.len(),
    ensures
        from <= r.0 <= r.1 <= to,
        v@.subrange(r.0 as int, r.1 as int) == trim(v@.subrange(from as int, to as int)),
        r.0 < r.1 ==> !is_space(v@[r.0 as int]) && !is_space(v@[r.1 - 1]),
{
    let ghost s = v@.subrange(from as int, to as int);
    let mut start = from;
    while start < to && is_whitespace(v[start])
        invariant
            from <= start <= to <= v.len(),
            forall|i: int| from <= i < start ==> is_space(v@[i]),
        decreases to - start,
    {
        start += 1;
    }
    proof {
        assert forall|i: int| 0 <= i < start - from implies is_space(s[i]) by {
            assert(s[i] == v@[from + i]);
        }
        lemma_leading_spaces(s, start - from);
    }
    if start == to {
        assert(v@.subrange(start as int, start as int) =~= Seq::<char>::empty());
        return (start, start);
    }
    let mut end = to;
    while end > start && is_whitespace(v[end - 1])
        invariant
            start <= end <= to <= v.len(),
            start < to,
            !is_space(v@[start as int]),
            forall|i: int| end <= i < to ==> is_space(v@[i]),
        decreases end,
    {
        end -= 1;
    }
    proof {
        assert(end > start);
        assert forall|i: int| s.len() - (to - end) <= i < s.len() implies is_space(s[i]) by {
            assert(s[i] == v@[from + i]);
        }
        assert(s[s.len() - (to - end) - 1] == v@[end - 1]);
        lemma_trailing_spaces(s, to - end);
        assert(v@.subrange(start as int, end as int) =~= s.subrange(
            start - from,
            s.len() - (to - end),
        ));
    }
    (start, end)
}

/// The first position at or after `from` that holds `c`.
pub fn find_from(v: &Vec<char>, c: char, from: usize) -> (r: Option<usize>)
    ensures
        match r {
            Some(i) => first_from(v@, c, from as int) == Some(i as int) && from <= i < v.len()
                && v@[i as int] == c,
            None => first_from(v@, c, from as int) is None,
        },
{
    let mut i = from;
    while i < v.len()
        invariant
            from <= i,
            first_from(v@, c, from as int) == first_from(v@, c, i as int),
        decreases v.len() - i,
    {
        if v[i] == c {
            return Some(i);
        }
        i += 1;
    }
    None
}

/// The last position before `end` that holds white space.
pub fn find_space_before(v: &Vec<char>, end: usize) -> (r: Option<usize>)
    requires
        end <= v.len(),
    ensures
        match r {
            Some(i) => last_space_before(v@, end as int) == Some(i as int) && i < end,
            None => last_space_before(v@, end as int) is None,
        },
{
    let mut i = end;
    while i > 0
        invariant
            i <= end <= v.len(),
            last_space_before(v@, end as int) == last_space_before(v@, i as int),
        decreases i,
    {
        if is_whitespace(v[i - 1]) {
            return Some(i - 1);
        }
        i -= 1;
    }
    None
}

/// The number of parameters declared between the parenthesis at `open`
/// and the one at `close`.
pub fn count_parameters(v: &Vec<char>, open: usize, close: usize) -> (n: usize)
    requires
        open < close <= v.len(),
    ensures
        n == arity_of(v@.subrange(open + 1, close as int)),
{
    let from = open + 1;
    let (start, end) = trim_bounds(v, from, close);
    if start == end {
        assert(v@.subrange(start as int, end as int).len() == 0);
        return 0;
    }
    assert(v@.subrange(start as int, end as int).len() > 0);
    let mut commas: usize = 0;
    let mut i = from;
    assert(v@.subrange(from as int, from as int) =~= Seq::<char>::empty());
    while i < close
        invariant
            from <= i <= close <= v.len(),
            commas == occurrences(v@.subrange(from as int, i as int), ','),
            commas <= i - from,
        decreases close - i,
    {
        proof {
            let next = v@.subrange(from as int, i + 1);
            assert(next.drop_last() =~= v@.subrange(from as int, i as int));
            assert(next.last() == v@[i as int]);
        }
        if v[i] == ',' {
            commas += 1;
        }
        i += 1;
    }
    commas + 1
}

/// Finds the functions that the foreign block `code` is taken to declare.
pub fn scan_signatures(code: &str) -> (found: Vec<ForeignSignature>)
    ensures
        signature_views(found@) == signatures_of(code@),
{
    let trimmed = trimmed(code);
    let text = chars_of(trimmed);
    let mut found: Vec<ForeignSignature> = Vec::new();
    let mut pos: usize = 0;
    assert(signature_views(found@) =~= Seq::empty());
    while pos < text.len()
        invariant
            pos <= text.len(),
            text@ == trimmed@,
            signatures_from(text@, 0) == signature_views(found@) + signatures_from(
                text@,
                pos as int,
            ),
        decreases text.len() - pos,
    {
        if text[pos] == '(' {
            let space = find_space_before(&text, pos);
            let close = find_from(&text, ')', pos);
            match (space, close) {
                (Some(space), Some(close)) => {
                    let name = trimmed.substring_char(space + 1, pos).to_owned();
                    let arity = count_parameters(&text, pos, close);
                    let ghost before = signature_views(found@);
                    found.push(ForeignSignature { name, arity });
                    proof {
                        let sig = (name@, arity);
                        assert(signature_at(text@, pos as int) == Some(sig));
                        assert(signature_views(found@) =~= before.push(sig));
                        assert(before.push(sig) + signatures_from(text@, pos + 1) =~= before + (
                        seq![sig] + signatures_from(text@, pos + 1)));
                    }
                },
                _ => {},
            }
        }
        pos += 1;
    }
    assert(signature_views(found@) + Seq::<(Name, usize)>::empty() =~= signature_views(found@));
    found
}

/// `text` without its leading and trailing white space.
pub fn trimmed(text: &str) -> (r: &str)
    ensures
        r@ == trim(text@),
{
    let all = chars_of(text);
    let (start, end) = trim_bounds(&all, 0, all.len());
    assert(all@.subrange(0, all@.len() as int) =~= all@);
    text.substring_char(start, end)
}

/// The text of the file to hand to the external compiler for the foreign
/// block `code`: the fixed preamble, the block without the white space
/// around it, and a line end.
pub fn wrap_source(code: &str) -> (text: String)
    ensures
        text@ == wrapped(code@),
{
    String::from_str(
        "#include <stdint.h>\n#include <stdio.h>\n#include <stdlib.h>\n#include <stddef.h>\n#include <limits.h>\n",
    ).concat(trimmed(code)).concat("\n")
}

} // verus!
