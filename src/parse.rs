//! The filter grammar, stated over character sequences, and a
//! recursive-descent parser proved to follow it.
//!
//! Precedence, loosest first: `|`, `,`, `+ -`, `*`, `/ %`, then postfix
//! chains of lookups (`.name`, `[..]`, `[]`, each optionally followed by
//! `?`), then atoms (`.`, `..`, array and object literals). Spaces and tabs
//! are allowed around operators and inside brackets and braces.
use vstd::prelude::*;

use vstd::string::*;

use crate::ast::{entry_asts, index_ast, key_ast, lemma_entry_asts, Ast, IndexAst, KeyAst};
use crate::combinator::{Chain, Optional, Split};
use crate::construction::{Construct, Key};
use crate::index::Index;
use crate::operators::Op;
use crate::query::Query;
use crate::raw::Raw;
use crate::value::{Json, Number, Value};
use crate::operators::Sign;
use crate::range::{Bounds, Range};

verus! {

pub open spec fn is_space(c: char) -> bool {
    c == ' ' || c == '\t'
}

pub open spec fn is_digit(c: char) -> bool {
    '0' <= c && c <= '9'
}

pub open spec fn is_alnum(c: char) -> bool {
    ('a' <= c && c <= 'z') || ('A' <= c && c <= 'Z') || is_digit(c)
}

/// Whether `s` holds `c` at position `i`.
pub open spec fn at(s: Seq<char>, i: int, c: char) -> bool {
    0 <= i < s.len() && s[i] == c
}

/// The first position at or after `i` that is not a space or tab.
pub open spec fn skip_ws(s: Seq<char>, i: int) -> int
    decreases s.len() - i,
{
    if 0 <= i < s.len() && is_space(s[i]) {
        skip_ws(s, i + 1)
    } else {
        i
    }
}

/// The end of the run of ASCII letters and digits that starts at `i`.
pub open spec fn alnum_end(s: Seq<char>, i: int) -> int
    decreases s.len() - i,
{
    if 0 <= i < s.len() && is_alnum(s[i]) {
        alnum_end(s, i + 1)
    } else {
        i
    }
}

/// The end of the run of decimal digits that starts at `i`.
pub open spec fn digit_end(s: Seq<char>, i: int) -> int
    decreases s.len() - i,
{
    if 0 <= i < s.len() && is_digit(s[i]) {
        digit_end(s, i + 1)
    } else {
        i
    }
}

/// The first double quote at or after `i`, or the end of `s`.
pub open spec fn quote_end(s: Seq<char>, i: int) -> int
    decreases s.len() - i,
{
    if 0 <= i < s.len() && s[i] != '"' {
        quote_end(s, i + 1)
    } else {
        i
    }
}

pub open spec fn digit_value(c: char) -> int {
    c as u32 as int - '0' as u32 as int
}

/// The number written by the digits `s[i..j]`.
pub open spec fn digits_value(s: Seq<char>, i: int, j: int) -> int
    decreases j - i,
{
    if j <= i {
        0
    } else {
        digits_value(s, i, j - 1) * 10 + digit_value(s[j - 1])
    }
}

/// A 32-bit integer at `i`: an optional sign and one or more digits, with
/// its end. Out-of-range values do not parse.
pub open spec fn int_at(s: Seq<char>, i: int) -> Option<(i32, int)> {
    let start = if at(s, i, '-') || at(s, i, '+') {
        i + 1
    } else {
        i
    };
    let end = digit_end(s, start);
    let v = if at(s, i, '-') {
        -digits_value(s, start, end)
    } else {
        digits_value(s, start, end)
    };
    if end == start || v < i32::MIN || v > i32::MAX {
        None
    } else {
        Some((v as i32, end))
    }
}

/// Slice bounds at `i`: `a:b`, `:b` or `a:`.
pub open spec fn range_at(s: Seq<char>, i: int) -> Option<(Range, int)> {
    match int_at(s, i) {
        Some((a, j)) => if at(s, j, ':') {
            match int_at(s, j + 1) {
                Some((b, k)) => Some((Range { bounds: Bounds::Both(a, b) }, k)),
                None => Some((Range { bounds: Bounds::Lower(a) }, j + 1)),
            }
        } else {
            None
        },
        None => if at(s, i, ':') {
            match int_at(s, i + 1) {
                Some((b, k)) => Some((Range { bounds: Bounds::Upper(b) }, k)),
                None => None,
            }
        } else {
            None
        },
    }
}

/// What stands between the brackets of a lookup: bounds, a position, or a
/// non-empty quoted key.
pub open spec fn index_body(s: Seq<char>, i: int) -> Option<(IndexAst, int)> {
    match range_at(s, i) {
        Some((r, j)) => Some((IndexAst::Slice(r), j)),
        None => match int_at(s, i) {
            Some((n, j)) => Some((IndexAst::Pos(n), j)),
            None => {
                let e = quote_end(s, i + 1);
                if at(s, i, '"') && e > i + 1 && at(s, e, '"') {
                    Some((IndexAst::Key(s.subrange(i + 1, e)), e + 1))
                } else {
                    None
                }
            },
        },
    }
}

/// A bracketed lookup `[ body ]`.
pub open spec fn bracket_index(s: Seq<char>, i: int) -> Option<(IndexAst, int)> {
    if at(s, i, '[') {
        match index_body(s, skip_ws(s, i + 1)) {
            Some((x, j)) => {
                let m = skip_ws(s, j);
                if at(s, m, ']') {
                    Some((x, m + 1))
                } else {
                    None
                }
            },
            None => None,
        }
    } else {
        None
    }
}

/// A postfix element, made optional by a `?` right after it.
pub open spec fn with_question(a: Ast, s: Seq<char>, j: int) -> (Ast, int) {
    if at(s, j, '?') {
        (Ast::Optional(Box::new(a)), j + 1)
    } else {
        (a, j)
    }
}

/// `.name`, a lookup of a key made of ASCII letters and digits.
pub open spec fn shorthand(s: Seq<char>, i: int) -> Option<(Ast, int)> {
    let e = alnum_end(s, i + 1);
    if at(s, i, '.') && e > i + 1 {
        Some(with_question(Ast::Index(IndexAst::Key(s.subrange(i + 1, e))), s, e))
    } else {
        None
    }
}

pub open spec fn index_element(s: Seq<char>, i: int) -> Option<(Ast, int)> {
    match bracket_index(s, i) {
        Some((x, j)) => Some(with_question(Ast::Index(x), s, j)),
        None => None,
    }
}

pub open spec fn iterator_element(s: Seq<char>, i: int) -> Option<(Ast, int)> {
    if at(s, i, '[') && at(s, i + 1, ']') {
        Some(with_question(Ast::Iterator, s, i + 2))
    } else {
        None
    }
}

/// One postfix element after the first: `.name`, `[..]` or `[]`.
pub open spec fn element(s: Seq<char>, i: int) -> Option<(Ast, int)> {
    match shorthand(s, i) {
        Some(r) => Some(r),
        None => match index_element(s, i) {
            Some(r) => Some(r),
            None => iterator_element(s, i),
        },
    }
}

/// The elements that follow the start of a chain, piped together.
pub open spec fn chain_tail(s: Seq<char>, i: int) -> Option<(Ast, int)>
    decreases s.len() - i,
{
    match element(s, i) {
        Some((a, j)) => if j <= i || j > s.len() {
            None
        } else {
            match chain_tail(s, j) {
                Some((b, k)) => Some((Ast::Chain(Box::new(a), Box::new(b)), k)),
                None => Some((a, j)),
            }
        },
        None => None,
    }
}

pub open spec fn extend_chain(first: Option<(Ast, int)>, s: Seq<char>) -> Option<(Ast, int)> {
    match first {
        Some((a, j)) => match chain_tail(s, j) {
            Some((b, k)) => Some((Ast::Chain(Box::new(a), Box::new(b)), k)),
            None => Some((a, j)),
        },
        None => None,
    }
}

pub proof fn lemma_skip_ws(s: Seq<char>, i: int)
    ensures
        skip_ws(s, i) >= i,
        i <= s.len() ==> skip_ws(s, i) <= s.len(),
        0 <= i ==> !(0 <= skip_ws(s, i) < s.len() && is_space(s[skip_ws(s, i)])),
    decreases s.len() - i,
{
    if 0 <= i < s.len() && is_space(s[i]) {
        lemma_skip_ws(s, i + 1);
    }
}

/// The first element of a chain: `.name`, a literal, or `.[..]` / `.[]`.
pub open spec fn chain_first(s: Seq<char>, i: int) -> Option<(Ast, int)>
    decreases s.len() - i, 4nat,
{
    if i < 0 || i > s.len() {
        None
    } else {
        match shorthand(s, i) {
            Some(r) => Some(r),
            None => match array_literal(s, i) {
                Some(r) => Some(r),
                None => match object_literal(s, i) {
                    Some(r) => Some(r),
                    None => if at(s, i, '.') {
                        match index_element(s, i + 1) {
                            Some(r) => Some(r),
                            None => iterator_element(s, i + 1),
                        }
                    } else {
                        None
                    },
                },
            },
        }
    }
}

/// A chain: its first element, then the elements that follow.
pub open spec fn chain_head(s: Seq<char>, i: int) -> Option<(Ast, int)>
    decreases s.len() - i, 5nat,
{
    if i < 0 || i > s.len() {
        None
    } else {
        extend_chain(chain_first(s, i), s)
    }
}

/// An operand: a chain, `..` or `.`, with the spaces around it.
pub open spec fn term(s: Seq<char>, i: int) -> Option<(Ast, int)>
    decreases s.len() - i, 6nat,
{
    if i < 0 || i > s.len() {
        None
    } else {
        let p = skip_ws(s, i);
        proof {
            lemma_skip_ws(s, i);
        }
        let r = match chain_head(s, p) {
            Some(r) => Some(r),
            None => if at(s, p, '.') && at(s, p + 1, '.') {
                Some((Ast::Recurse, p + 2))
            } else if at(s, p, '.') {
                Some((Ast::Identity, p + 1))
            } else {
                None
            },
        };
        match r {
            Some((a, j)) => Some((a, skip_ws(s, j))),
            None => None,
        }
    }
}

/// The arithmetic operator written at `p`, if any.
pub open spec fn sign_at(s: Seq<char>, p: int) -> Option<Sign> {
    if at(s, p, '+') {
        Some(Sign::Add)
    } else if at(s, p, '-') {
        Some(Sign::Sub)
    } else if at(s, p, '*') {
        Some(Sign::Mul)
    } else if at(s, p, '/') {
        Some(Sign::Div)
    } else if at(s, p, '%') {
        Some(Sign::Mod)
    } else {
        None
    }
}

pub open spec fn divides(sign: Sign) -> bool {
    sign == Sign::Div || sign == Sign::Mod
}

pub open spec fn adds(sign: Sign) -> bool {
    sign == Sign::Add || sign == Sign::Sub
}

/// `term (('/' | '%') quotient)?`
pub open spec fn quotient(s: Seq<char>, i: int) -> Option<(Ast, int)>
    decreases s.len() - i, 7nat,
{
    if i < 0 || i > s.len() {
        None
    } else {
        match term(s, i) {
            Some((l, j)) => if j < i || j > s.len() {
                None
            } else {
                let p = skip_ws(s, j);
                proof {
                    lemma_skip_ws(s, j);
                }
                match sign_at(s, p) {
                    Some(sign) => if divides(sign) {
                        proof {
                            lemma_skip_ws(s, p + 1);
                        }
                        match quotient(s, skip_ws(s, p + 1)) {
                            Some((r, k)) => Some((Ast::Op(Box::new(l), sign, Box::new(r)), k)),
                            None => Some((l, j)),
                        }
                    } else {
                        Some((l, j))
                    },
                    None => Some((l, j)),
                }
            },
            None => None,
        }
    }
}

/// `quotient ('*' product)?`
pub open spec fn product(s: Seq<char>, i: int) -> Option<(Ast, int)>
    decreases s.len() - i, 8nat,
{
    if i < 0 || i > s.len() {
        None
    } else {
        match quotient(s, i) {
            Some((l, j)) => if j < i || j > s.len() {
                None
            } else {
                let p = skip_ws(s, j);
                proof {
                    lemma_skip_ws(s, j);
                    lemma_skip_ws(s, p + 1);
                }
                if at(s, p, '*') {
                    match product(s, skip_ws(s, p + 1)) {
                        Some((r, k)) => Some((Ast::Op(Box::new(l), Sign::Mul, Box::new(r)), k)),
                        None => Some((l, j)),
                    }
                } else {
                    Some((l, j))
                }
            },
            None => None,
        }
    }
}

/// `product (('+' | '-') sum)?`
pub open spec fn sum(s: Seq<char>, i: int) -> Option<(Ast, int)>
    decreases s.len() - i, 9nat,
{
    if i < 0 || i > s.len() {
        None
    } else {
        match product(s, i) {
            Some((l, j)) => if j < i || j > s.len() {
                None
            } else {
                let p = skip_ws(s, j);
                proof {
                    lemma_skip_ws(s, j);
                }
                match sign_at(s, p) {
                    Some(sign) => if adds(sign) {
                        proof {
                            lemma_skip_ws(s, p + 1);
                        }
                        match sum(s, skip_ws(s, p + 1)) {
                            Some((r, k)) => Some((Ast::Op(Box::new(l), sign, Box::new(r)), k)),
                            None => Some((l, j)),
                        }
                    } else {
                        Some((l, j))
                    },
                    None => Some((l, j)),
                }
            },
            None => None,
        }
    }
}

/// `sum (',' alternatives)?`
pub open spec fn alternatives(s: Seq<char>, i: int) -> Option<(Ast, int)>
    decreases s.len() - i, 10nat,
{
    if i < 0 || i > s.len() {
        None
    } else {
        match sum(s, i) {
            Some((l, j)) => if j < i || j > s.len() {
                None
            } else {
                let p = skip_ws(s, j);
                proof {
                    lemma_skip_ws(s, j);
                    lemma_skip_ws(s, p + 1);
                }
                if at(s, p, ',') {
                    match alternatives(s, skip_ws(s, p + 1)) {
                        Some((r, k)) => Some((Ast::Split(Box::new(l), Box::new(r)), k)),
                        None => Some((l, j)),
                    }
                } else {
                    Some((l, j))
                }
            },
            None => None,
        }
    }
}

/// `alternatives ('|' pipeline)?`
pub open spec fn pipeline(s: Seq<char>, i: int) -> Option<(Ast, int)>
    decreases s.len() - i, 11nat,
{
    if i < 0 || i > s.len() {
        None
    } else {
        match alternatives(s, i) {
            Some((l, j)) => if j < i || j > s.len() {
                None
            } else {
                let p = skip_ws(s, j);
                proof {
                    lemma_skip_ws(s, j);
                    lemma_skip_ws(s, p + 1);
                }
                if at(s, p, '|') {
                    match pipeline(s, skip_ws(s, p + 1)) {
                        Some((r, k)) => Some((Ast::Chain(Box::new(l), Box::new(r)), k)),
                        None => Some((l, j)),
                    }
                } else {
                    Some((l, j))
                }
            },
            None => None,
        }
    }
}

/// `[ pipeline ]`
pub open spec fn array_literal(s: Seq<char>, i: int) -> Option<(Ast, int)>
    decreases s.len() - i, 3nat,
{
    if i < 0 || i > s.len() || !at(s, i, '[') {
        None
    } else {
        proof {
            lemma_skip_ws(s, i + 1);
        }
        match pipeline(s, skip_ws(s, i + 1)) {
            Some((a, j)) => {
                let m = skip_ws(s, j);
                if at(s, m, ']') {
                    Some((Ast::Array(Box::new(a)), m + 1))
                } else {
                    None
                }
            },
            None => None,
        }
    }
}

/// `{ entry, ... }`
pub open spec fn object_literal(s: Seq<char>, i: int) -> Option<(Ast, int)>
    decreases s.len() - i, 3nat,
{
    if i < 0 || i > s.len() || !at(s, i, '{') {
        None
    } else {
        proof {
            lemma_skip_ws(s, i + 1);
        }
        let (es, j) = entry_list(s, skip_ws(s, i + 1));
        let m = skip_ws(s, j);
        if at(s, m, '}') {
            Some((Ast::Object(es), m + 1))
        } else {
            None
        }
    }
}

/// Zero or more entries separated by commas.
pub open spec fn entry_list(s: Seq<char>, i: int) -> (Seq<(KeyAst, Ast)>, int)
    decreases s.len() - i, 3nat,
{
    if i < 0 || i > s.len() {
        (Seq::empty(), i)
    } else {
        match spaced_entry(s, i) {
            Some((e, j)) => if j < i || j > s.len() {
                (Seq::empty(), i)
            } else {
                let (rest, k) = more_entries(s, j);
                (seq![e] + rest, k)
            },
            None => (Seq::empty(), i),
        }
    }
}

/// The entries that follow a first one, each after a comma.
pub open spec fn more_entries(s: Seq<char>, i: int) -> (Seq<(KeyAst, Ast)>, int)
    decreases s.len() - i, 2nat,
{
    if i < 0 || i > s.len() || !at(s, i, ',') {
        (Seq::empty(), i)
    } else {
        match spaced_entry(s, i + 1) {
            Some((e, j)) => if j < i + 1 || j > s.len() {
                (Seq::empty(), i)
            } else {
                let (rest, k) = more_entries(s, j);
                (seq![e] + rest, k)
            },
            None => (Seq::empty(), i),
        }
    }
}

/// An entry with the spaces around it.
pub open spec fn spaced_entry(s: Seq<char>, i: int) -> Option<((KeyAst, Ast), int)>
    decreases s.len() - i, 2nat,
{
    if i < 0 || i > s.len() {
        None
    } else {
        proof {
            lemma_skip_ws(s, i);
        }
        match entry(s, skip_ws(s, i)) {
            Some((e, j)) => Some((e, skip_ws(s, j))),
            None => None,
        }
    }
}

/// `key : term`, or a bare name `name` standing for `name: .name`.
pub open spec fn entry(s: Seq<char>, i: int) -> Option<((KeyAst, Ast), int)>
    decreases s.len() - i, 1nat,
{
    if i < 0 || i > s.len() {
        None
    } else {
        let e = alnum_end(s, i);
        let bare = if e > i {
            Some(
                (
                    (
                        KeyAst::Name(s.subrange(i, e)),
                        Ast::Index(IndexAst::Key(s.subrange(i, e))),
                    ),
                    e,
                ),
            )
        } else {
            None
        };
        match key(s, i) {
            Some((k, j)) => if j < i || j > s.len() {
                None
            } else {
                let p = skip_ws(s, j);
                proof {
                    lemma_skip_ws(s, j);
                    lemma_skip_ws(s, p + 1);
                }
                if at(s, p, ':') {
                    match term(s, skip_ws(s, p + 1)) {
                        Some((v, m)) => Some(((k, v), m)),
                        None => bare,
                    }
                } else {
                    bare
                }
            },
            None => bare,
        }
    }
}

/// `( term )`, a name, or a non-empty quoted name.
pub open spec fn key(s: Seq<char>, i: int) -> Option<(KeyAst, int)>
    decreases s.len() - i, 0nat,
{
    if i < 0 || i > s.len() {
        None
    } else if at(s, i, '(') {
        match term(s, i + 1) {
            Some((a, j)) => if at(s, j, ')') {
                Some((KeyAst::Computed(Box::new(a)), j + 1))
            } else {
                None
            },
            None => None,
        }
    } else {
        let e = alnum_end(s, i);
        let q = quote_end(s, i + 1);
        if e > i {
            Some((KeyAst::Name(s.subrange(i, e)), e))
        } else if at(s, i, '"') && q > i + 1 && at(s, q, '"') {
            Some((KeyAst::Name(s.subrange(i + 1, q)), q + 1))
        } else {
            None
        }
    }
}


/// A parse result that matches the grammar's: the same tree and the same end.
pub open spec fn agrees(r: Option<(Query, usize)>, m: Option<(Ast, int)>) -> bool {
    match (r, m) {
        (Some((q, j)), Some((a, k))) => q@ == a && j as int == k,
        (None, None) => true,
        _ => false,
    }
}

pub open spec fn ends_within(r: Option<(Query, usize)>, i: int, n: int) -> bool {
    match r {
        Some((_, j)) => i <= j <= n,
        None => true,
    }
}

fn at_x(s: &Vec<char>, i: usize, c: char) -> (r: bool)
    ensures
        r == at(s@, i as int, c),
{
    i < s.len() && s[i] == c
}

fn skip_ws_x(s: &Vec<char>, i: usize) -> (r: usize)
    requires
        i <= s.len(),
    ensures
        r == skip_ws(s@, i as int),
        i <= r <= s.len(),
{
    let mut j = i;
    while j < s.len() && (s[j] == ' ' || s[j] == '\t')
        invariant
            i <= j <= s.len(),
            skip_ws(s@, i as int) == skip_ws(s@, j as int),
        decreases s.len() - j,
    {
        j += 1;
    }
    j
}

fn alnum_end_x(s: &Vec<char>, i: usize) -> (r: usize)
    requires
        i <= s.len(),
    ensures
        r == alnum_end(s@, i as int),
        i <= r <= s.len(),
{
    let mut j = i;
    while j < s.len() && (('a' <= s[j] && s[j] <= 'z') || ('A' <= s[j] && s[j] <= 'Z') || ('0'
        <= s[j] && s[j] <= '9'))
        invariant
            i <= j <= s.len(),
            alnum_end(s@, i as int) == alnum_end(s@, j as int),
        decreases s.len() - j,
    {
        j += 1;
    }
    j
}

fn quote_end_x(s: &Vec<char>, i: usize) -> (r: usize)
    requires
        i <= s.len(),
    ensures
        r == quote_end(s@, i as int),
        i <= r <= s.len(),
{
    let mut j = i;
    while j < s.len() && s[j] != '"'
        invariant
            i <= j <= s.len(),
            quote_end(s@, i as int) == quote_end(s@, j as int),
        decreases s.len() - j,
    {
        j += 1;
    }
    j
}

proof fn lemma_digit_end(s: Seq<char>, i: int)
    requires
        0 <= i <= s.len(),
    ensures
        i <= digit_end(s, i) <= s.len(),
        forall|m: int| i <= m < digit_end(s, i) ==> is_digit(#[trigger] s[m]),
    decreases s.len() - i,
{
    if i < s.len() && is_digit(s[i]) {
        lemma_digit_end(s, i + 1);
    }
}

proof fn lemma_digits_nonneg(s: Seq<char>, i: int, k: int)
    requires
        forall|m: int| i <= m < k ==> is_digit(#[trigger] s[m]),
    ensures
        0 <= digits_value(s, i, k),
    decreases k - i,
{
    if i < k {
        lemma_digits_nonneg(s, i, k - 1);
        assert(is_digit(s[k - 1]));
    }
}

proof fn lemma_digits_grow(s: Seq<char>, i: int, k: int, j: int)
    requires
        i <= k <= j,
        forall|m: int| i <= m < j ==> is_digit(#[trigger] s[m]),
    ensures
        0 <= digits_value(s, i, k) <= digits_value(s, i, j),
    decreases j - k,
{
    lemma_digits_nonneg(s, i, k);
    if k < j {
        lemma_digits_grow(s, i, k, j - 1);
        assert(is_digit(s[j - 1]));
        assert(digits_value(s, i, j) == digits_value(s, i, j - 1) * 10 + digit_value(s[j - 1]));
    }
}

/// A signed 32-bit integer at `i`.
pub fn int_x(s: &Vec<char>, i: usize) -> (r: Option<(i32, usize)>)
    requires
        i <= s.len(),
    ensures
        match (r, int_at(s@, i as int)) {
            (Some((v, j)), Some((w, k))) => v == w && j as int == k,
            (None, None) => true,
            _ => false,
        },
        r matches Some((_, j)) ==> i < j <= s.len(),
{
    let neg = at_x(s, i, '-');
    let start = if neg || at_x(s, i, '+') {
        i + 1
    } else {
        i
    };
    let mut end = start;
    while end < s.len() && '0' <= s[end] && s[end] <= '9'
        invariant
            start <= end <= s.len(),
            digit_end(s@, start as int) == digit_end(s@, end as int),
        decreases s.len() - end,
    {
        end += 1;
    }
    proof {
        lemma_digit_end(s@, start as int);
    }
    if end == start {
        return None;
    }
    let mut v: i64 = 0;
    let mut k = start;
    while k < end
        invariant
            start <= k <= end <= s.len(),
            end == digit_end(s@, start as int),
            neg == at(s@, i as int, '-'),
            start as int == if at(s@, i as int, '-') || at(s@, i as int, '+') {
                i + 1
            } else {
                i as int
            },
            forall|m: int| start <= m < end ==> is_digit(#[trigger] s@[m]),
            v == digits_value(s@, start as int, k as int),
            0 <= v <= 2147483648,
        decreases end - k,
    {
        let d = (s[k] as u32 - '0' as u32) as i64;
        assert(is_digit(s@[k as int]));
        v = v * 10 + d;
        k += 1;
        assert(v == digits_value(s@, start as int, k as int));
        if v > 2147483648 {
            proof {
                lemma_digits_grow(s@, start as int, k as int, end as int);
                assert(digits_value(s@, start as int, end as int) > 2147483648);
            }
            return None;
        }
    }
    let w: i64 = if neg {
        -v
    } else {
        v
    };
    if w < -2147483648 || w > 2147483647 {
        None
    } else {
        Some((w as i32, end))
    }
}

fn range_x(s: &Vec<char>, i: usize) -> (r: Option<(Range, usize)>)
    requires
        i <= s.len(),
    ensures
        match (r, range_at(s@, i as int)) {
            (Some((v, j)), Some((w, k))) => v == w && j as int == k,
            (None, None) => true,
            _ => false,
        },
        r matches Some((_, j)) ==> i < j <= s.len(),
{
    match int_x(s, i) {
        Some((a, j)) => if at_x(s, j, ':') {
            match int_x(s, j + 1) {
                Some((b, k)) => Some((Range::new((a, b)), k)),
                None => Some((Range::lower(a), j + 1)),
            }
        } else {
            None
        },
        None => if at_x(s, i, ':') {
            match int_x(s, i + 1) {
                Some((b, k)) => Some((Range::upper(b), k)),
                None => None,
            }
        } else {
            None
        },
    }
}

/// The characters `s[i..j]` as a string.
fn text_of(t: &str, i: usize, j: usize) -> (r: String)
    requires
        i <= j <= t@.len(),
    ensures
        r@ == t@.subrange(i as int, j as int),
{
    t.substring_char(i, j).to_owned()
}

fn index_body_x(t: &str, s: &Vec<char>, i: usize) -> (r: Option<(Index, usize)>)
    requires
        i <= s.len(),
        s@ == t@,
    ensures
        match (r, index_body(s@, i as int)) {
            (Some((v, j)), Some((w, k))) => index_ast(v) == w && j as int == k,
            (None, None) => true,
            _ => false,
        },
        r matches Some((_, j)) ==> i < j <= s.len(),
{
    match range_x(s, i) {
        Some((r, j)) => Some((Index::Slice(r), j)),
        None => match int_x(s, i) {
            Some((n, j)) => Some((Index::Integer(n), j)),
            None => {
                if i < s.len() && s[i] == '"' {
                    let e = quote_end_x(s, i + 1);
                    if e > i + 1 && at_x(s, e, '"') {
                        return Some((Index::String(text_of(t, i + 1, e)), e + 1));
                    }
                }
                None
            },
        },
    }
}

fn bracket_index_x(t: &str, s: &Vec<char>, i: usize) -> (r: Option<(Index, usize)>)
    requires
        i <= s.len(),
        s@ == t@,
    ensures
        match (r, bracket_index(s@, i as int)) {
            (Some((v, j)), Some((w, k))) => index_ast(v) == w && j as int == k,
            (None, None) => true,
            _ => false,
        },
        r matches Some((_, j)) ==> i < j <= s.len(),
{
    if !at_x(s, i, '[') {
        return None;
    }
    match index_body_x(t, s, skip_ws_x(s, i + 1)) {
        Some((x, j)) => {
            let m = skip_ws_x(s, j);
            if at_x(s, m, ']') {
                Some((x, m + 1))
            } else {
                None
            }
        },
        None => None,
    }
}

fn with_question_x(a: Query, s: &Vec<char>, j: usize) -> (r: (Query, usize))
    requires
        j <= s.len(),
    ensures
        r.0@ == with_question(a@, s@, j as int).0,
        r.1 as int == with_question(a@, s@, j as int).1,
        j <= r.1 <= s.len(),
{
    if at_x(s, j, '?') {
        (Query::Optional(Box::new(Optional(a))), j + 1)
    } else {
        (a, j)
    }
}

fn parse_index_shorthand(t: &str, s: &Vec<char>, i: usize) -> (r: Option<(Query, usize)>)
    requires
        i <= s.len(),
        s@ == t@,
    ensures
        agrees(r, shorthand(s@, i as int)),
        ends_within(r, i + 1, s.len() as int),
{
    if !at_x(s, i, '.') {
        return None;
    }
    let e = alnum_end_x(s, i + 1);
    if e > i + 1 {
        let q = Query::Index(Index::String(text_of(t, i + 1, e)));
        Some(with_question_x(q, s, e))
    } else {
        None
    }
}

fn parse_index(t: &str, s: &Vec<char>, i: usize) -> (r: Option<(Query, usize)>)
    requires
        i <= s.len(),
        s@ == t@,
    ensures
        agrees(r, index_element(s@, i as int)),
        ends_within(r, i + 1, s.len() as int),
{
    match bracket_index_x(t, s, i) {
        Some((x, j)) => Some(with_question_x(Query::Index(x), s, j)),
        None => None,
    }
}

fn parse_iterator(s: &Vec<char>, i: usize) -> (r: Option<(Query, usize)>)
    requires
        i <= s.len(),
    ensures
        agrees(r, iterator_element(s@, i as int)),
        ends_within(r, i + 1, s.len() as int),
{
    if at_x(s, i, '[') && at_x(s, i + 1, ']') {
        Some(with_question_x(Query::Iterator, s, i + 2))
    } else {
        None
    }
}

fn element_x(t: &str, s: &Vec<char>, i: usize) -> (r: Option<(Query, usize)>)
    requires
        i <= s.len(),
        s@ == t@,
    ensures
        agrees(r, element(s@, i as int)),
        ends_within(r, i + 1, s.len() as int),
{
    match parse_index_shorthand(t, s, i) {
        Some(r) => Some(r),
        None => match parse_index(t, s, i) {
            Some(r) => Some(r),
            None => parse_iterator(s, i),
        },
    }
}

/// The elements that follow the start of a chain.
fn parse_chain(t: &str, s: &Vec<char>, i: usize) -> (r: Option<(Query, usize)>)
    requires
        i <= s.len(),
        s@ == t@,
    ensures
        agrees(r, chain_tail(s@, i as int)),
        ends_within(r, i + 1, s.len() as int),
    decreases s.len() - i,
{
    match element_x(t, s, i) {
        Some((a, j)) => match parse_chain(t, s, j) {
            Some((b, k)) => Some((Query::Chain(Box::new(Chain(a, b))), k)),
            None => Some((a, j)),
        },
        None => None,
    }
}

fn extend_chain_x(
    t: &str,
    s: &Vec<char>,
    first: Option<(Query, usize)>,
    i: usize,
    Ghost(m): Ghost<Option<(Ast, int)>>,
) -> (r: Option<(Query, usize)>)
    requires
        s@ == t@,
        agrees(first, m),
        ends_within(first, i as int, s.len() as int),
    ensures
        agrees(r, extend_chain(m, s@)),
        ends_within(r, i as int, s.len() as int),
{
    match first {
        Some((a, j)) => match parse_chain(t, s, j) {
            Some((b, k)) => Some((Query::Chain(Box::new(Chain(a, b))), k)),
            None => Some((a, j)),
        },
        None => None,
    }
}

pub open spec fn entry_agrees(r: Option<((Key, Query), usize)>, m: Option<((KeyAst, Ast), int)>) -> bool {
    match (r, m) {
        (Some((e, j)), Some((f, k))) => key_ast(e.0) == f.0 && e.1@ == f.1 && j as int == k,
        (None, None) => true,
        _ => false,
    }
}

pub open spec fn entry_ends_within(r: Option<((Key, Query), usize)>, i: int, n: int) -> bool {
    match r {
        Some((_, j)) => i <= j <= n,
        None => true,
    }
}

fn sign_x(s: &Vec<char>, p: usize) -> (r: Option<Sign>)
    ensures
        r == sign_at(s@, p as int),
{
    if at_x(s, p, '+') {
        Some(Sign::Add)
    } else if at_x(s, p, '-') {
        Some(Sign::Sub)
    } else if at_x(s, p, '*') {
        Some(Sign::Mul)
    } else if at_x(s, p, '/') {
        Some(Sign::Div)
    } else if at_x(s, p, '%') {
        Some(Sign::Mod)
    } else {
        None
    }
}

fn chain_first_x(t: &str, s: &Vec<char>, i: usize) -> (r: Option<(Query, usize)>)
    requires
        i <= s.len(),
        s@ == t@,
    ensures
        agrees(r, chain_first(s@, i as int)),
        ends_within(r, i as int, s.len() as int),
    decreases s.len() - i, 4nat,
{
    match parse_index_shorthand(t, s, i) {
        Some(r) => Some(r),
        None => match parse_array(t, s, i) {
            Some(r) => Some(r),
            None => match parse_object(t, s, i) {
                Some(r) => Some(r),
                None => if at_x(s, i, '.') {
                    match parse_index(t, s, i + 1) {
                        Some(r) => Some(r),
                        None => parse_iterator(s, i + 1),
                    }
                } else {
                    None
                },
            },
        },
    }
}

fn chain_head_x(t: &str, s: &Vec<char>, i: usize) -> (r: Option<(Query, usize)>)
    requires
        i <= s.len(),
        s@ == t@,
    ensures
        agrees(r, chain_head(s@, i as int)),
        ends_within(r, i as int, s.len() as int),
    decreases s.len() - i, 5nat,
{
    let first = chain_first_x(t, s, i);
    extend_chain_x(t, s, first, i, Ghost(chain_first(s@, i as int)))
}

/// An operand: a chain, `..` or `.`, with the spaces around it.
fn parse_init(t: &str, s: &Vec<char>, i: usize) -> (r: Option<(Query, usize)>)
    requires
        i <= s.len(),
        s@ == t@,
    ensures
        agrees(r, term(s@, i as int)),
        ends_within(r, i as int, s.len() as int),
    decreases s.len() - i, 6nat,
{
    let p = skip_ws_x(s, i);
    let r = match chain_head_x(t, s, p) {
        Some(r) => Some(r),
        None => if at_x(s, p, '.') && at_x(s, p + 1, '.') {
            Some((Query::Recurse, p + 2))
        } else if at_x(s, p, '.') {
            Some((Query::Identity, p + 1))
        } else {
            None
        },
    };
    match r {
        Some((a, j)) => Some((a, skip_ws_x(s, j))),
        None => None,
    }
}

fn parse_div(t: &str, s: &Vec<char>, i: usize) -> (r: Option<(Query, usize)>)
    requires
        i <= s.len(),
        s@ == t@,
    ensures
        agrees(r, quotient(s@, i as int)),
        ends_within(r, i as int, s.len() as int),
    decreases s.len() - i, 7nat,
{
    match parse_init(t, s, i) {
        Some((left, j)) => {
            let p = skip_ws_x(s, j);
            match sign_x(s, p) {
                Some(sign) => if sign == Sign::Div || sign == Sign::Mod {
                    match parse_div(t, s, skip_ws_x(s, p + 1)) {
                        Some((right, k)) => Some((Query::Op(Box::new(Op { left, sign, right })), k)),
                        None => Some((left, j)),
                    }
                } else {
                    Some((left, j))
                },
                None => Some((left, j)),
            }
        },
        None => None,
    }
}

fn parse_mul(t: &str, s: &Vec<char>, i: usize) -> (r: Option<(Query, usize)>)
    requires
        i <= s.len(),
        s@ == t@,
    ensures
        agrees(r, product(s@, i as int)),
        ends_within(r, i as int, s.len() as int),
    decreases s.len() - i, 8nat,
{
    match parse_div(t, s, i) {
        Some((left, j)) => {
            let p = skip_ws_x(s, j);
            if at_x(s, p, '*') {
                match parse_mul(t, s, skip_ws_x(s, p + 1)) {
                    Some((right, k)) => Some(
                        (Query::Op(Box::new(Op { left, sign: Sign::Mul, right })), k),
                    ),
                    None => Some((left, j)),
                }
            } else {
                Some((left, j))
            }
        },
        None => None,
    }
}

fn parse_add(t: &str, s: &Vec<char>, i: usize) -> (r: Option<(Query, usize)>)
    requires
        i <= s.len(),
        s@ == t@,
    ensures
        agrees(r, sum(s@, i as int)),
        ends_within(r, i as int, s.len() as int),
    decreases s.len() - i, 9nat,
{
    match parse_mul(t, s, i) {
        Some((left, j)) => {
            let p = skip_ws_x(s, j);
            match sign_x(s, p) {
                Some(sign) => if sign == Sign::Add || sign == Sign::Sub {
                    match parse_add(t, s, skip_ws_x(s, p + 1)) {
                        Some((right, k)) => Some((Query::Op(Box::new(Op { left, sign, right })), k)),
                        None => Some((left, j)),
                    }
                } else {
                    Some((left, j))
                },
                None => Some((left, j)),
            }
        },
        None => None,
    }
}

fn parse_split(t: &str, s: &Vec<char>, i: usize) -> (r: Option<(Query, usize)>)
    requires
        i <= s.len(),
        s@ == t@,
    ensures
        agrees(r, alternatives(s@, i as int)),
        ends_within(r, i as int, s.len() as int),
    decreases s.len() - i, 10nat,
{
    match parse_add(t, s, i) {
        Some((left, j)) => {
            let p = skip_ws_x(s, j);
            if at_x(s, p, ',') {
                match parse_split(t, s, skip_ws_x(s, p + 1)) {
                    Some((right, k)) => Some((Query::Split(Box::new(Split(left, right))), k)),
                    None => Some((left, j)),
                }
            } else {
                Some((left, j))
            }
        },
        None => None,
    }
}

fn parse_pipe(t: &str, s: &Vec<char>, i: usize) -> (r: Option<(Query, usize)>)
    requires
        i <= s.len(),
        s@ == t@,
    ensures
        agrees(r, pipeline(s@, i as int)),
        ends_within(r, i as int, s.len() as int),
    decreases s.len() - i, 11nat,
{
    match parse_split(t, s, i) {
        Some((left, j)) => {
            let p = skip_ws_x(s, j);
            if at_x(s, p, '|') {
                match parse_pipe(t, s, skip_ws_x(s, p + 1)) {
                    Some((right, k)) => Some((Query::Chain(Box::new(Chain(left, right))), k)),
                    None => Some((left, j)),
                }
            } else {
                Some((left, j))
            }
        },
        None => None,
    }
}

fn parse_array(t: &str, s: &Vec<char>, i: usize) -> (r: Option<(Query, usize)>)
    requires
        i <= s.len(),
        s@ == t@,
    ensures
        agrees(r, array_literal(s@, i as int)),
        ends_within(r, i as int, s.len() as int),
    decreases s.len() - i, 3nat,
{
    if !at_x(s, i, '[') {
        return None;
    }
    let p = skip_ws_x(s, i + 1);
    let ghost inner = pipeline(s@, p as int);
    assert(array_literal(s@, i as int) == match inner {
        Some((a, j)) => if at(s@, skip_ws(s@, j), ']') {
            Some((Ast::Array(Box::new(a)), skip_ws(s@, j) + 1))
        } else {
            None
        },
        None => None,
    });
    match parse_pipe(t, s, p) {
        Some((a, j)) => {
            let m = skip_ws_x(s, j);
            if at_x(s, m, ']') {
                let q = Query::Contruct(Construct::Array(Box::new(a)));
                assert(q@ == Ast::Array(Box::new(a@)));
                Some((q, m + 1))
            } else {
                None
            }
        },
        None => None,
    }
}

fn parse_object(t: &str, s: &Vec<char>, i: usize) -> (r: Option<(Query, usize)>)
    requires
        i <= s.len(),
        s@ == t@,
    ensures
        agrees(r, object_literal(s@, i as int)),
        ends_within(r, i as int, s.len() as int),
    decreases s.len() - i, 3nat,
{
    if !at_x(s, i, '{') {
        return None;
    }
    let (es, j) = parse_entries(t, s, skip_ws_x(s, i + 1));
    let m = skip_ws_x(s, j);
    if at_x(s, m, '}') {
        Some((Query::Contruct(Construct::Object(es)), m + 1))
    } else {
        None
    }
}

proof fn lemma_prepend_entry(e: (Key, Query), rest: Seq<(Key, Query)>)
    ensures
        entry_asts(rest.insert(0, e)) == seq![(key_ast(e.0), e.1@)] + entry_asts(rest),
{
    lemma_entry_asts(rest);
    lemma_entry_asts(rest.insert(0, e));
    assert(entry_asts(rest.insert(0, e)) =~= seq![(key_ast(e.0), e.1@)] + entry_asts(rest));
}

fn parse_entries(t: &str, s: &Vec<char>, i: usize) -> (r: (Vec<(Key, Query)>, usize))
    requires
        i <= s.len(),
        s@ == t@,
    ensures
        entry_asts(r.0@) == entry_list(s@, i as int).0,
        r.1 as int == entry_list(s@, i as int).1,
        i <= r.1 <= s.len(),
    decreases s.len() - i, 3nat,
{
    match parse_spaced_entry(t, s, i) {
        Some((e, j)) => {
            let (mut rest, k) = parse_more_entries(t, s, j);
            let ghost old_rest = rest@;
            rest.insert(0, e);
            proof {
                lemma_prepend_entry(e, old_rest);
            }
            (rest, k)
        },
        None => {
            let v: Vec<(Key, Query)> = Vec::new();
            proof {
                lemma_entry_asts(v@);
            }
            assert(entry_asts(v@) =~= Seq::<(KeyAst, Ast)>::empty());
            (v, i)
        },
    }
}

fn parse_more_entries(t: &str, s: &Vec<char>, i: usize) -> (r: (Vec<(Key, Query)>, usize))
    requires
        i <= s.len(),
        s@ == t@,
    ensures
        entry_asts(r.0@) == more_entries(s@, i as int).0,
        r.1 as int == more_entries(s@, i as int).1,
        i <= r.1 <= s.len(),
    decreases s.len() - i, 2nat,
{
    let empty: Vec<(Key, Query)> = Vec::new();
    proof {
        lemma_entry_asts(empty@);
    }
    assert(entry_asts(empty@) =~= Seq::<(KeyAst, Ast)>::empty());
    if !at_x(s, i, ',') {
        return (empty, i);
    }
    match parse_spaced_entry(t, s, i + 1) {
        Some((e, j)) => {
            let (mut rest, k) = parse_more_entries(t, s, j);
            let ghost old_rest = rest@;
            rest.insert(0, e);
            proof {
                lemma_prepend_entry(e, old_rest);
            }
            (rest, k)
        },
        None => (empty, i),
    }
}

fn parse_spaced_entry(t: &str, s: &Vec<char>, i: usize) -> (r: Option<((Key, Query), usize)>)
    requires
        i <= s.len(),
        s@ == t@,
    ensures
        entry_agrees(r, spaced_entry(s@, i as int)),
        entry_ends_within(r, i as int, s.len() as int),
    decreases s.len() - i, 2nat,
{
    match parse_entry(t, s, skip_ws_x(s, i)) {
        Some((e, j)) => Some((e, skip_ws_x(s, j))),
        None => None,
    }
}

fn parse_entry(t: &str, s: &Vec<char>, i: usize) -> (r: Option<((Key, Query), usize)>)
    requires
        i <= s.len(),
        s@ == t@,
    ensures
        entry_agrees(r, entry(s@, i as int)),
        entry_ends_within(r, i as int, s.len() as int),
    decreases s.len() - i, 1nat,
{
    match parse_key(t, s, i) {
        Some((k, j)) => {
            let p = skip_ws_x(s, j);
            if at_x(s, p, ':') {
                match parse_init(t, s, skip_ws_x(s, p + 1)) {
                    Some((v, m)) => {
                        return Some(((k, v), m));
                    },
                    None => {},
                }
            }
        },
        None => {},
    }
    let e = alnum_end_x(s, i);
    if e > i {
        Some((Construct::shorthand(text_of(t, i, e)), e))
    } else {
        None
    }
}

fn parse_key(t: &str, s: &Vec<char>, i: usize) -> (r: Option<(Key, usize)>)
    requires
        i <= s.len(),
        s@ == t@,
    ensures
        match (r, key(s@, i as int)) {
            (Some((k, j)), Some((f, m))) => key_ast(k) == f && j as int == m,
            (None, None) => true,
            _ => false,
        },
        r matches Some((_, j)) ==> i <= j <= s.len(),
    decreases s.len() - i, 0nat,
{
    if at_x(s, i, '(') {
        match parse_init(t, s, i + 1) {
            Some((a, j)) => if at_x(s, j, ')') {
                Some((Key::Query(a), j + 1))
            } else {
                None
            },
            None => None,
        }
    } else {
        let e = alnum_end_x(s, i);
        if e > i {
            Some((Key::Simple(text_of(t, i, e)), e))
        } else if at_x(s, i, '"') {
            let q = quote_end_x(s, i + 1);
            if q > i + 1 && at_x(s, q, '"') {
                Some((Key::Simple(text_of(t, i + 1, q)), q + 1))
            } else {
                None
            }
        } else {
            None
        }
    }
}


/// Why a text is not a query (or a lookup, literal or constant).
#[derive(Debug, PartialEq)]
pub enum ParseError {
    /// The text does not start with what the grammar asks for; holds the text.
    InvalidFormat(String),
    /// A valid prefix is followed by these characters.
    LeftoverCharacters(String),
}

/// The view of a parse failure.
pub enum ParseFailure {
    Invalid(Seq<char>),
    Leftover(Seq<char>),
}

impl View for ParseError {
    type V = ParseFailure;

    open spec fn view(&self) -> ParseFailure {
        match self {
            ParseError::InvalidFormat(t) => ParseFailure::Invalid(t@),
            ParseError::LeftoverCharacters(t) => ParseFailure::Leftover(t@),
        }
    }
}

/// Whole-text parsing: a parse from the start that must reach the end.
pub open spec fn complete<A>(s: Seq<char>, r: Option<(A, int)>) -> Result<A, ParseFailure> {
    match r {
        Some((a, j)) => if j == s.len() {
            Ok(a)
        } else {
            Err(ParseFailure::Leftover(s.subrange(j, s.len() as int)))
        },
        None => Err(ParseFailure::Invalid(s)),
    }
}

/// The query that a filter text denotes. The empty text is the empty query.
pub open spec fn query_text(s: Seq<char>) -> Result<Ast, ParseFailure> {
    if s.len() == 0 {
        Ok(Ast::Empty)
    } else {
        complete(s, pipeline(s, 0))
    }
}

/// A literal constant at `i`: a quoted string (possibly empty), a number
/// (an integer with an optional fraction), or `null`.
pub open spec fn literal(s: Seq<char>, i: int) -> Option<(Json, int)> {
    let q = quote_end(s, i + 1);
    if at(s, i, '"') {
        if at(s, q, '"') {
            Some((Json::Str(s.subrange(i + 1, q)), q + 1))
        } else {
            None
        }
    } else {
        match int_at(s, i) {
            Some((n, j)) => {
                let e = digit_end(s, j + 1);
                if at(s, j, '.') && e > j + 1 {
                    Some((Json::Decimal(s.subrange(i, e)), e))
                } else {
                    Some((Json::Int(n as i64), j))
                }
            },
            None => if at(s, i, 'n') && at(s, i + 1, 'u') && at(s, i + 2, 'l') && at(s, i + 3, 'l') {
                Some((Json::Null, i + 4))
            } else {
                None
            },
        }
    }
}

pub open spec fn construct_at(s: Seq<char>, i: int) -> Option<(Ast, int)> {
    match array_literal(s, i) {
        Some(r) => Some(r),
        None => object_literal(s, i),
    }
}

fn failure<A>(t: &str, s: &Vec<char>, j: usize) -> (r: Result<A, ParseError>)
    requires
        s@ == t@,
        j < s.len(),
    ensures
        r matches Err(e) && e@ == ParseFailure::Leftover(s@.subrange(j as int, s.len() as int)),
{
    Err(ParseError::LeftoverCharacters(text_of(t, j, s.len())))
}

fn invalid<A>(t: &str) -> (r: Result<A, ParseError>)
    ensures
        r matches Err(e) && e@ == ParseFailure::Invalid(t@),
{
    Err(ParseError::InvalidFormat(t.to_owned()))
}

impl Query {
    /// Parses a whole filter text.
    pub fn parse(input: &str) -> (r: Result<Query, ParseError>)
        ensures
            match r {
                Ok(q) => query_text(input@) == Ok::<Ast, ParseFailure>(q@),
                Err(e) => query_text(input@) == Err::<Ast, ParseFailure>(e@),
            },
    {
        let s = crate::value::chars_of(input);
        if s.len() == 0 {
            return Ok(Query::Empty);
        }
        match parse_pipe(input, &s, 0) {
            Some((q, j)) => if j == s.len() {
                Ok(q)
            } else {
                failure(input, &s, j)
            },
            None => invalid(input),
        }
    }
}

impl std::str::FromStr for Query {
    type Err = ParseError;

    fn from_str(s: &str) -> Result<Query, ParseError> {
        Query::parse(s)
    }
}

impl Index {
    /// Parses a whole bracketed lookup such as `[0]`, `[1:-1]` or `["key"]`.
    pub fn parse(input: &str) -> (r: Result<Index, ParseError>)
        ensures
            match r {
                Ok(x) => complete(input@, bracket_index(input@, 0)) == Ok::<IndexAst, ParseFailure>(
                    index_ast(x),
                ),
                Err(e) => complete(input@, bracket_index(input@, 0)) == Err::<
                    IndexAst,
                    ParseFailure,
                >(e@),
            },
    {
        let s = crate::value::chars_of(input);
        match bracket_index_x(input, &s, 0) {
            Some((x, j)) => if j == s.len() {
                Ok(x)
            } else {
                failure(input, &s, j)
            },
            None => invalid(input),
        }
    }
}

impl Construct {
    /// Parses a whole array or object literal.
    pub fn parse(input: &str) -> (r: Result<Construct, ParseError>)
        ensures
            match r {
                Ok(c) => complete(input@, construct_at(input@, 0)) == Ok::<Ast, ParseFailure>(
                    Query::Contruct(c)@,
                ),
                Err(e) => complete(input@, construct_at(input@, 0)) == Err::<Ast, ParseFailure>(
                    e@,
                ),
            },
    {
        let s = crate::value::chars_of(input);
        let r = match parse_array(input, &s, 0) {
            Some(r) => Some(r),
            None => parse_object(input, &s, 0),
        };
        match r {
            Some((Query::Contruct(c), j)) => if j == s.len() {
                Ok(c)
            } else {
                failure(input, &s, j)
            },
            Some((_, _)) => {
                // Both literal parsers only ever build `Query::Contruct`.
                proof {
                    assert(false);
                }
                invalid(input)
            },
            None => invalid(input),
        }
    }
}

impl Raw {
    /// Parses a whole literal constant: `"text"`, `-4`, `0.5` or `null`.
    pub fn parse(input: &str) -> (r: Result<Raw, ParseError>)
        ensures
            match r {
                Ok(x) => complete(input@, literal(input@, 0)) == Ok::<Json, ParseFailure>(x.0@),
                Err(e) => complete(input@, literal(input@, 0)) == Err::<Json, ParseFailure>(e@),
            },
    {
        let s = crate::value::chars_of(input);
        let r: Option<(Value, usize)> = if at_x(&s, 0, '"') {
            let q = quote_end_x(&s, 1);
            if at_x(&s, q, '"') {
                Some((Value::String(text_of(input, 1, q)), q + 1))
            } else {
                None
            }
        } else {
            match int_x(&s, 0) {
                Some((n, j)) => {
                    if at_x(&s, j, '.') {
                        let mut e = j + 1;
                        while e < s.len() && '0' <= s[e] && s[e] <= '9'
                            invariant
                                j + 1 <= e <= s.len(),
                                digit_end(s@, j + 1) == digit_end(s@, e as int),
                            decreases s.len() - e,
                        {
                            e += 1;
                        }
                        if e > j + 1 {
                            Some((Value::Number(Number::Decimal(text_of(input, 0, e))), e))
                        } else {
                            Some((Value::Number(Number::Int(n as i64)), j))
                        }
                    } else {
                        Some((Value::Number(Number::Int(n as i64)), j))
                    }
                },
                None => if at_x(&s, 0, 'n') && at_x(&s, 1, 'u') && at_x(&s, 2, 'l') && at_x(&s, 3, 'l') {
                    Some((Value::Null, 4))
                } else {
                    None
                },
            }
        };
        match r {
            Some((v, j)) => if j == s.len() {
                Ok(Raw(v))
            } else {
                failure(input, &s, j)
            },
            None => invalid(input),
        }
    }
}

} // verus!
