//! The grammar of rules: text in, expression tree out.

use crate::ast::{
    tree_of, values_of, Tree,
    comparison_op_of, spells, spells_at, ArrayOp, Atom, AstNode, ComparisonOp, Decimal, FnCall,
    LogicOp, Value,
};
use crate::text::{chars_of, string_of};
use vstd::prelude::*;

verus! {

/// Why a text is not a rule.
#[derive(Debug, Clone, Copy, PartialEq, Eq, Structural)]
pub enum ParseError {
    /// The text at this character offset does not continue the rule.
    Unexpected(usize),
    /// The quoted string opened at this offset is never closed.
    UnterminatedString(usize),
    /// The number at this offset does not fit its type.
    NumberTooLarge(usize),
    /// The parentheses or function calls at this offset nest too deep.
    TooDeep(usize),
}

/// How deep parentheses and function calls may nest.
pub const MAX_DEPTH: usize = 64;

pub open spec fn is_space(c: char) -> bool {
    c == ' ' || c == '\t' || c == '\n' || c == '\r'
}

pub open spec fn is_digit(c: char) -> bool {
    '0' <= c <= '9'
}

pub open spec fn is_ident_start(c: char) -> bool {
    ('a' <= c <= 'z') || ('A' <= c <= 'Z') || c == '_'
}

pub open spec fn is_ident_char(c: char) -> bool {
    is_ident_start(c) || is_digit(c)
}

/// The number that a run of decimal digits spells.
pub open spec fn digits_value(t: Seq<char>) -> int
    decreases t.len(),
{
    if t.len() == 0 {
        0
    } else {
        10 * digits_value(t.drop_last()) + (t.last() as int - '0' as int)
    }
}

/// The first position at or after `i` that holds no whitespace.
pub open spec fn spec_skip(s: Seq<char>, i: int) -> int
    decreases s.len() - i,
{
    if 0 <= i < s.len() && is_space(s[i]) {
        spec_skip(s, i + 1)
    } else {
        i
    }
}

/// The end of the run of identifier characters that starts at `j`.
pub open spec fn ident_end(s: Seq<char>, j: int) -> int
    decreases s.len() - j,
{
    if 0 <= j < s.len() && is_ident_char(s[j]) {
        ident_end(s, j + 1)
    } else {
        j
    }
}

/// The end of the identifier that starts at `pos`, if one does.
pub open spec fn spec_variable(s: Seq<char>, pos: int) -> Option<int> {
    if 0 <= pos < s.len() && is_ident_start(s[pos]) {
        Some(ident_end(s, pos + 1))
    } else {
        None
    }
}

/// The position of the first quote at or after `j`, if any.
pub open spec fn quote_end(s: Seq<char>, j: int) -> Option<int>
    decreases s.len() - j,
{
    if j < 0 || j >= s.len() {
        None
    } else if s[j] == '"' {
        Some(j)
    } else {
        quote_end(s, j + 1)
    }
}

/// The closing quote of the string that opens at `pos`, if one opens there and closes.
pub open spec fn spec_string_end(s: Seq<char>, pos: int) -> Option<int> {
    if 0 <= pos < s.len() && s[pos] == '"' {
        quote_end(s, pos + 1)
    } else {
        None
    }
}

/// The word `w` stands at `pos`, in any case, and no identifier character follows it.
pub open spec fn keyword(s: Seq<char>, pos: int, w: Seq<char>) -> bool {
    &&& pos + w.len() <= s.len()
    &&& spells(s.subrange(pos, pos + w.len()), w)
    &&& !(pos + w.len() < s.len() && is_ident_char(s[pos + w.len()]))
}

/// The first position at or after `pos` that holds no whitespace.
pub fn skip_ws(s: &Vec<char>, pos: usize) -> (r: usize)
    requires
        pos <= s@.len(),
    ensures
        pos <= r <= s@.len(),
        forall|i: int| pos <= i < r ==> is_space(#[trigger] s@[i]),
        r == s@.len() || !is_space(s@[r as int]),
        r == spec_skip(s@, pos as int),
{
    let mut i = pos;
    while i < s.len() && (s[i] == ' ' || s[i] == '\t' || s[i] == '\n' || s[i] == '\r')
        invariant
            pos <= i <= s@.len(),
            spec_skip(s@, i as int) == spec_skip(s@, pos as int),
            forall|j: int| pos <= j < i ==> is_space(#[trigger] s@[j]),
        decreases s@.len() - i,
    {
        i = i + 1;
    }
    i
}

fn digit_at(s: &Vec<char>, i: usize) -> (r: bool)
    ensures
        r == (i < s@.len() && is_digit(s@[i as int])),
{
    i < s.len() && '0' <= s[i] && s[i] <= '9'
}

fn ident_start_at(s: &Vec<char>, i: usize) -> (r: bool)
    ensures
        r == (i < s@.len() && is_ident_start(s@[i as int])),
{
    i < s.len() && (('a' <= s[i] && s[i] <= 'z') || ('A' <= s[i] && s[i] <= 'Z') || s[i] == '_')
}

fn ident_char_at(s: &Vec<char>, i: usize) -> (r: bool)
    ensures
        r == (i < s@.len() && is_ident_char(s@[i as int])),
{
    ident_start_at(s, i) || digit_at(s, i)
}

/// The end of the identifier that starts at `pos`, if one does: a letter or
/// `_`, then letters, digits and `_`, as many as stand there.
pub fn parse_variable(s: &Vec<char>, pos: usize) -> (r: Option<usize>)
    requires
        pos <= s@.len(),
    ensures
        r is Some <==> (pos < s@.len() && is_ident_start(s@[pos as int])),
        r matches Some(j) ==> {
            &&& pos < j <= s@.len()
            &&& forall|i: int| pos <= i < j ==> is_ident_char(#[trigger] s@[i])
            &&& (j == s@.len() || !is_ident_char(s@[j as int]))
        },
        r matches Some(j) ==> spec_variable(s@, pos as int) == Some(j as int),
{
    let len = s.len();
    if !ident_start_at(s, pos) {
        return None;
    }
    let mut j = pos + 1;
    while ident_char_at(s, j)
        invariant
            len == s@.len(),
            pos < j <= s@.len(),
            forall|i: int| pos <= i < j ==> is_ident_char(#[trigger] s@[i]),
            ident_end(s@, j as int) == ident_end(s@, pos + 1),
        decreases s@.len() - j,
    {
        j = j + 1;
    }
    Some(j)
}

/// The position of the quote that closes the string opened at `pos`; `None`
/// where no string opens at `pos` or none closes it.
pub fn parse_string_value(s: &Vec<char>, pos: usize) -> (r: Option<usize>)
    requires
        pos <= s@.len(),
    ensures
        r is Some <==> spec_string_end(s@, pos as int) is Some,
        r matches Some(j) ==> spec_string_end(s@, pos as int) == Some(j as int),
        r is None && pos < s@.len() && s@[pos as int] == '"' ==> forall|i: int|
            pos < i < s@.len() ==> #[trigger] s@[i] != '"',
        r matches Some(j) ==> {
            &&& pos < j < s@.len()
            &&& s@[pos as int] == '"'
            &&& s@[j as int] == '"'
            &&& forall|i: int| pos < i < j ==> #[trigger] s@[i] != '"'
        },
{
    let len = s.len();
    if pos >= len || s[pos] != '"' {
        return None;
    }
    let mut j = pos + 1;
    while j < len
        invariant
            len == s@.len(),
            pos < j <= s@.len(),
            s@[pos as int] == '"',
            forall|i: int| pos < i < j ==> #[trigger] s@[i] != '"',
            quote_end(s@, j as int) == quote_end(s@, pos + 1),
        decreases s@.len() - j,
    {
        if s[j] == '"' {
            return Some(j);
        }
        j = j + 1;
    }
    None
}

/// Whether the word `w` stands at `pos`, in any case, and no identifier
/// character follows it.
fn keyword_at(s: &Vec<char>, pos: usize, w: &[char]) -> (r: bool)
    requires
        pos <= s@.len(),
    ensures
        r == keyword(s@, pos as int, w@),
{
    let len = s.len();
    if !spells_at(s, pos, w) {
        return false;
    }
    let end = pos + w.len();
    !(end < len && ident_char_at(s, end))
}


/// The position of the first `.` in `t` at or after `i`, or the length of `t`.
pub open spec fn first_dot(t: Seq<char>, i: int) -> int
    decreases t.len() - i,
{
    if i >= t.len() {
        t.len() as int
    } else if t[i] == '.' {
        i
    } else {
        first_dot(t, i + 1)
    }
}

/// The value of a numeric literal (digits, then optionally `.` and digits) as
/// `(mantissa, scale)`: its digits read as one integer, and the number of
/// digits after the point.
pub open spec fn number_value(t: Seq<char>) -> (int, nat) {
    let k = first_dot(t, 0);
    if k < t.len() {
        (digits_value(t.subrange(0, k) + t.subrange(k + 1, t.len() as int)), (t.len() - k - 1) as nat)
    } else {
        (digits_value(t), 0nat)
    }
}

/// `t` is a numeric literal: digits, or digits, a point and digits.
pub open spec fn is_number_text(t: Seq<char>) -> bool {
    let k = first_dot(t, 0);
    &&& t.len() > 0
    &&& forall|i: int| 0 <= i < t.len() && i != k ==> is_digit(#[trigger] t[i])
    &&& k < t.len() ==> 0 < k < t.len() - 1
}

proof fn lemma_first_dot(t: Seq<char>, a: int, k: int)
    requires
        0 <= a <= k <= t.len(),
        forall|i: int| a <= i < k ==> #[trigger] t[i] != '.',
        k == t.len() || t[k] == '.',
    ensures
        first_dot(t, a) == k,
    decreases k - a,
{
    if a < k {
        lemma_first_dot(t, a + 1, k);
    }
}

/// Appends the digit `c` to the number `m`, unless the result leaves `i64`.
fn push_digit(m: i64, c: char) -> (r: Option<i64>)
    requires
        0 <= m,
        is_digit(c),
    ensures
        r matches Some(v) ==> v == 10 * m + (c as int - '0' as int),
        r is None ==> 10 * m + (c as int - '0' as int) > i64::MAX,
{
    let d: i64 = (c as u32 - '0' as u32) as i64;
    if m > (i64::MAX - d) / 10 {
        None
    } else {
        assert(10 * m + d <= i64::MAX) by (nonlinear_arith)
            requires
                m <= (i64::MAX - d) / 10,
                0 <= d <= 9,
        ;
        Some(m * 10 + d)
    }
}

/// The value of the digit `c`.
pub open spec fn digit_value(c: char) -> int {
    c as int - '0' as int
}

/// Reading the digits after the point of a decimal whose point is at `k`,
/// from `j` on, with mantissa `m` so far.
pub open spec fn num_frac(s: Seq<char>, pos: int, k: int, j: int, m: int) -> Result<(Value, int), ParseError>
    decreases s.len() - j,
{
    if 0 <= j < s.len() && is_digit(s[j]) {
        if 10 * m + digit_value(s[j]) > i64::MAX {
            Err(ParseError::NumberTooLarge(pos as usize))
        } else {
            num_frac(s, pos, k, j + 1, 10 * m + digit_value(s[j]))
        }
    } else if j - k - 1 > 0xffff_ffff {
        Err(ParseError::NumberTooLarge(pos as usize))
    } else {
        Ok((Value::Dec(Decimal { mantissa: m as i64, scale: (j - k - 1) as u32 }), j))
    }
}

/// Reading the digits before any point, from `j` on, with value `m` so far.
pub open spec fn num_int(s: Seq<char>, pos: int, j: int, m: int) -> Result<(Value, int), ParseError>
    decreases s.len() - j,
{
    if 0 <= j < s.len() && is_digit(s[j]) {
        if 10 * m + digit_value(s[j]) > i64::MAX {
            Err(ParseError::NumberTooLarge(pos as usize))
        } else {
            num_int(s, pos, j + 1, 10 * m + digit_value(s[j]))
        }
    } else if 0 <= j && j + 1 < s.len() && s[j] == '.' && is_digit(s[j + 1]) {
        num_frac(s, pos, j, j + 1, m)
    } else if m > 0x7fff_ffff {
        Err(ParseError::NumberTooLarge(pos as usize))
    } else {
        Ok((Value::Int(m as i32), j))
    }
}

/// The numeric literal at `pos` and where it ends: its digits must fit an
/// `i64`, those of an integer an `i32`.
pub open spec fn spec_number(s: Seq<char>, pos: int) -> Result<(Value, int), ParseError> {
    num_int(s, pos, pos, 0)
}

/// The content of a literal reader's outcome.
pub open spec fn literal_result(r: Result<(Atom, usize), ParseError>) -> Result<(Value, int), ParseError> {
    match r {
        Ok((a, j)) => Ok((a@, j as int)),
        Err(e) => Err(e),
    }
}

/// The numeric literal at `pos`: an integer, or a decimal where a point
/// and a digit follow the digits.
fn parse_number(s: &Vec<char>, pos: usize) -> (r: Result<(Atom, usize), ParseError>)
    requires
        pos < s@.len(),
        is_digit(s@[pos as int]),
    ensures
        r matches Ok((a, j)) ==> {
            &&& pos < j <= s@.len()
            &&& (a is Number || a is Float)
            &&& is_number_text(s@.subrange(pos as int, j as int))
            &&& crate::ast::decimal_of(a@) == Some(number_value(s@.subrange(pos as int, j as int)))
        },
        r is Err ==> r == Err::<(Atom, usize), ParseError>(ParseError::NumberTooLarge(pos)),
        literal_result(r) == spec_number(s@, pos as int),
{
    let len = s.len();
    let mut m: i64 = 0;
    let mut j = pos;
    while digit_at(s, j)
        invariant
            len == s@.len(),
            num_int(s@, pos as int, j as int, m as int) == spec_number(s@, pos as int),
            pos <= j <= len,
            forall|i: int| pos <= i < j ==> is_digit(#[trigger] s@[i]),
            0 <= m,
            m == digits_value(s@.subrange(pos as int, j as int)),
        decreases len - j,
    {
        assert(s@.subrange(pos as int, j + 1).drop_last() =~= s@.subrange(pos as int, j as int));
        match push_digit(m, s[j]) {
            Some(v) => m = v,
            None => return Err(ParseError::NumberTooLarge(pos)),
        }
        j = j + 1;
    }
    let k = j;
    let ghost t = s@.subrange(pos as int, k as int);
    if k < len && s[k] == '.' && digit_at(s, k + 1) {
        j = k + 1;
        while digit_at(s, j)
            invariant
                len == s@.len(),
                pos < k < j <= len,
                s@[k as int] == '.',
                num_frac(s@, pos as int, k as int, j as int, m as int) == spec_number(s@, pos as int),
                forall|i: int| pos <= i < k ==> is_digit(#[trigger] s@[i]),
                forall|i: int| k < i < j ==> is_digit(#[trigger] s@[i]),
                0 <= m,
                m == digits_value(t + s@.subrange(k + 1, j as int)),
            decreases len - j,
        {
            assert((t + s@.subrange(k + 1, j + 1)).drop_last() =~= t + s@.subrange(k + 1, j as int));
            match push_digit(m, s[j]) {
                Some(v) => m = v,
                None => return Err(ParseError::NumberTooLarge(pos)),
            }
            j = j + 1;
        }
        if j - k - 1 > 0xffff_ffff {
            return Err(ParseError::NumberTooLarge(pos));
        }
        proof {
            let u = s@.subrange(pos as int, j as int);
            assert forall|i: int| 0 <= i < k - pos implies #[trigger] u[i] != '.' by {
                assert(is_digit(s@[pos + i]));
            }
            lemma_first_dot(u, 0, k - pos);
            assert forall|i: int| 0 <= i < u.len() && i != k - pos implies is_digit(#[trigger] u[i]) by {
                assert(u[i] == s@[pos + i]);
            }
            assert(u.subrange(0, k - pos) =~= t);
            assert(u.subrange(k - pos + 1, u.len() as int) =~= s@.subrange(k + 1, j as int));
        }
        Ok((Atom::Float(Decimal { mantissa: m, scale: (j - k - 1) as u32 }), j))
    } else {
        if m > 0x7fff_ffff {
            return Err(ParseError::NumberTooLarge(pos));
        }
        proof {
            let u = s@.subrange(pos as int, j as int);
            assert forall|i: int| 0 <= i < u.len() implies #[trigger] u[i] != '.' by {
                assert(is_digit(s@[pos + i]));
            }
            lemma_first_dot(u, 0, u.len() as int);
            assert forall|i: int| 0 <= i < u.len() implies is_digit(#[trigger] u[i]) by {
                assert(u[i] == s@[pos + i]);
            }
        }
        Ok((Atom::Number(m as i32), j))
    }
}


/// The value of a bare word: a boolean for `true` or `false` in any case,
/// else the word itself.
pub open spec fn word_value(t: Seq<char>) -> Value {
    if spells(t, seq!['t', 'r', 'u', 'e']) {
        Value::Bool(true)
    } else if spells(t, seq!['f', 'a', 'l', 's', 'e']) {
        Value::Bool(false)
    } else {
        Value::Var(t)
    }
}

/// `t` is an identifier.
pub open spec fn is_word(t: Seq<char>) -> bool {
    &&& t.len() > 0
    &&& is_ident_start(t[0])
    &&& forall|i: int| 0 <= i < t.len() ==> is_ident_char(#[trigger] t[i])
}

/// `t` is a literal whose value is `a`: a quoted string, a number, or a bare word.
pub open spec fn reads_literal(t: Seq<char>, a: Value) -> bool {
    ||| {
        &&& t.len() >= 2
        &&& t[0] == '"'
        &&& t.last() == '"'
        &&& forall|i: int| 0 < i < t.len() - 1 ==> #[trigger] t[i] != '"'
        &&& a == Value::Str(t.subrange(1, t.len() - 1))
    }
    ||| {
        &&& is_number_text(t)
        &&& (a is Int || a is Dec)
        &&& crate::ast::decimal_of(a) == Some(number_value(t))
    }
    ||| is_word(t) && a == word_value(t)
}

/// The bare word `s[pos..j]` as a value.
fn word_atom(s: &Vec<char>, pos: usize, j: usize) -> (r: Atom)
    requires
        pos <= j <= s@.len(),
    ensures
        r@ == word_value(s@.subrange(pos as int, j as int)),
{
    assert(['t', 'r', 'u', 'e']@ =~= seq!['t', 'r', 'u', 'e']);
    assert(['f', 'a', 'l', 's', 'e']@ =~= seq!['f', 'a', 'l', 's', 'e']);
    if j - pos == 4 && spells_at(s, pos, &['t', 'r', 'u', 'e']) {
        Atom::Boolean(true)
    } else if j - pos == 5 && spells_at(s, pos, &['f', 'a', 'l', 's', 'e']) {
        Atom::Boolean(false)
    } else {
        Atom::Variable(string_of(s, pos, j))
    }
}

/// The literal at `pos` and where it ends: a quoted string, a number, or a bare word.
pub open spec fn spec_literal(s: Seq<char>, pos: int) -> Result<(Value, int), ParseError> {
    if 0 <= pos < s.len() && s[pos] == '"' {
        match quote_end(s, pos + 1) {
            Some(q) => Ok((Value::Str(s.subrange(pos + 1, q)), q + 1)),
            None => Err(ParseError::UnterminatedString(pos as usize)),
        }
    } else if 0 <= pos < s.len() && is_digit(s[pos]) {
        spec_number(s, pos)
    } else {
        match spec_variable(s, pos) {
            Some(j) => Ok((word_value(s.subrange(pos, j)), j)),
            None => Err(ParseError::Unexpected(pos as usize)),
        }
    }
}

/// The literal at `pos`: a quoted string, a number, or a bare word.
fn parse_literal(s: &Vec<char>, pos: usize) -> (r: Result<(Atom, usize), ParseError>)
    requires
        pos <= s@.len(),
    ensures
        r matches Ok((a, j)) ==> {
            &&& pos < j <= s@.len()
            &&& reads_literal(s@.subrange(pos as int, j as int), a@)
            &&& s@[pos as int] == '"' ==> a@ == Value::Str(s@.subrange(pos + 1, j - 1))
            &&& is_digit(s@[pos as int]) ==> crate::ast::decimal_of(a@) == Some(
                number_value(s@.subrange(pos as int, j as int)),
            )
            &&& is_ident_start(s@[pos as int]) ==> a@ == word_value(s@.subrange(pos as int, j as int))
        },
        (pos < s@.len() && s@[pos as int] == '"' && forall|i: int|
            pos < i < s@.len() ==> #[trigger] s@[i] != '"') ==> r == Err::<(Atom, usize), ParseError>(
            ParseError::UnterminatedString(pos),
        ),
        (pos == s@.len() || !(s@[pos as int] == '"' || is_digit(s@[pos as int]) || is_ident_start(
            s@[pos as int],
        ))) ==> r == Err::<(Atom, usize), ParseError>(ParseError::Unexpected(pos)),
        literal_result(r) == spec_literal(s@, pos as int),
{
    let len = s.len();
    if pos < len && s[pos] == '"' {
        match parse_string_value(s, pos) {
            Some(q) => {
                let t = string_of(s, pos + 1, q);
                proof {
                    let u = s@.subrange(pos as int, q + 1);
                    assert(u.subrange(1, u.len() - 1) =~= t@);
                    assert forall|i: int| 0 < i < u.len() - 1 implies #[trigger] u[i] != '"' by {
                        assert(u[i] == s@[pos + i]);
                    }
                }
                Ok((Atom::String(t), q + 1))
            },
            None => Err(ParseError::UnterminatedString(pos)),
        }
    } else if digit_at(s, pos) {
        parse_number(s, pos)
    } else {
        match parse_variable(s, pos) {
            Some(j) => {
                proof {
                    let u = s@.subrange(pos as int, j as int);
                    assert forall|i: int| 0 <= i < u.len() implies is_ident_char(#[trigger] u[i]) by {
                        assert(u[i] == s@[pos + i]);
                    }
                }
                Ok((word_atom(s, pos, j), j))
            },
            None => Err(ParseError::Unexpected(pos)),
        }
    }
}

/// A node that stands for a value: a constant, a variable reference, or a
/// case function of such a node.
pub open spec fn is_operand(n: AstNode) -> bool
    decreases n,
{
    match n {
        AstNode::Constant(_) => true,
        AstNode::Variable(a) => a is Variable,
        AstNode::Function(_, x) => is_operand(*x),
        _ => false,
    }
}

/// A node with a boolean meaning: a comparison of operands, an operand
/// checked against a list, a connective of such nodes, a scope around one,
/// or an operand.
pub open spec fn is_rule(n: AstNode) -> bool
    decreases n,
{
    match n {
        AstNode::Compare(l, _, r) => is_operand(*l) && is_operand(*r),
        AstNode::Array(l, _, r) => is_operand(*l) && (*r is List),
        AstNode::Logic(l, _, r) => is_rule(*l) && is_rule(*r),
        AstNode::Scope { expr, negate: _ } => is_rule(*expr),
        _ => is_operand(n),
    }
}

/// `t[i..j]` is whitespace.
pub open spec fn gap(t: Seq<char>, i: int, j: int) -> bool {
    &&& 0 <= i <= j <= t.len()
    &&& forall|k: int| i <= k < j ==> is_space(#[trigger] t[k])
}

/// The name of a case function.
pub open spec fn fn_name(f: FnCall) -> Seq<char> {
    match f {
        FnCall::Upper => seq!['u', 'p', 'p', 'e', 'r'],
        FnCall::Lower => seq!['l', 'o', 'w', 'e', 'r'],
    }
}

/// `t` is a reading of the operand `n`: a literal; a bare word, which names a
/// variable where `reference` holds and is a constant otherwise; or a case
/// function (its name in any case) around a reference.
pub open spec fn reads_operand(t: Seq<char>, n: AstNode, reference: bool) -> bool
    decreases n,
{
    match n {
        AstNode::Constant(a) => reads_literal(t, a@) && !(reference && a@ is Var),
        AstNode::Variable(a) => reference && a is Variable && is_word(t) && word_value(t) == a@,
        AstNode::Function(f, x) => {
            &&& t.len() > 5
            &&& spells(t.subrange(0, 5), fn_name(f))
            &&& t.last() == ')'
            &&& exists|i: int, j: int, k: int|
                #![trigger gap(t, 5, i), gap(t, i + 1, j), gap(t, k, t.len() - 1)]
                {
                    &&& gap(t, 5, i)
                    &&& i < t.len()
                    &&& t[i] == '('
                    &&& gap(t, i + 1, j)
                    &&& j <= k
                    &&& reads_operand(t.subrange(j, k), *x, true)
                    &&& gap(t, k, t.len() - 1)
                }
        },
        _ => false,
    }
}

/// The comparison operator at `q`, the longest that stands there, and its length.
pub open spec fn spec_comparison(s: Seq<char>, q: int) -> Option<(ComparisonOp, int)> {
    if 0 <= q && q + 2 <= s.len() && comparison_op_of(s.subrange(q, q + 2)) is Some {
        Some((comparison_op_of(s.subrange(q, q + 2))->0, 2))
    } else if 0 <= q && q + 1 <= s.len() && comparison_op_of(s.subrange(q, q + 1)) is Some {
        Some((comparison_op_of(s.subrange(q, q + 1))->0, 1))
    } else {
        None
    }
}

/// The comparison operator at `q`, the longest that stands there, and its length.
fn comparison_at(s: &Vec<char>, q: usize) -> (r: Option<(ComparisonOp, usize)>)
    requires
        q <= s@.len(),
    ensures
        r matches Some((op, k)) ==> 1 <= k <= 2 && q + k <= s@.len() && comparison_op_of(
            s@.subrange(q as int, q + k),
        ) == Some(op),
        r is Some <==> spec_comparison(s@, q as int) is Some,
        r matches Some((op, k)) ==> spec_comparison(s@, q as int) == Some((op, k as int)),
{
    let len = s.len();
    if q < len && q + 1 < len {
        let a = s[q];
        let b = s[q + 1];
        assert(s@.subrange(q as int, q + 2)[0] == a && s@.subrange(q as int, q + 2)[1] == b);
        if b == '=' {
            if a == '=' {
                return Some((ComparisonOp::Eq, 2));
            } else if a == '>' {
                return Some((ComparisonOp::MoreEq, 2));
            } else if a == '<' {
                return Some((ComparisonOp::LessEq, 2));
            } else if a == '!' {
                return Some((ComparisonOp::NotEq, 2));
            }
        } else if a == '<' && b == '>' {
            return Some((ComparisonOp::NotEq, 2));
        }
    }
    if q < len {
        let a = s[q];
        assert(s@.subrange(q as int, q + 1)[0] == a);
        if a == '=' {
            return Some((ComparisonOp::Eq, 1));
        } else if a == '>' {
            return Some((ComparisonOp::More, 1));
        } else if a == '<' {
            return Some((ComparisonOp::Less, 1));
        }
    }
    None
}

/// Whether the two characters `a`, `b` stand at `q`.
fn pair_at(s: &Vec<char>, q: usize, a: char, b: char) -> (r: bool)
    requires
        q <= s@.len(),
    ensures
        r == (q + 2 <= s@.len() && s@[q as int] == a && s@[q + 1] == b),
{
    q < s.len() && q + 1 < s.len() && s[q] == a && s[q + 1] == b
}

/// The content of a node reader's outcome.
pub open spec fn node_result(r: Result<(AstNode, usize), ParseError>) -> Result<(Tree, int), ParseError> {
    match r {
        Ok((n, j)) => Ok((tree_of(n), j as int)),
        Err(e) => Err(e),
    }
}

/// The operand at `pos` and where it ends. A bare word names a variable where
/// `reference` holds and is a constant otherwise; `upper` or `lower` (in any
/// case) before `(` is a case function around a reference, and each such call
/// takes one level of `depth`.
pub open spec fn spec_operand(s: Seq<char>, pos: int, depth: nat, reference: bool) -> Result<(Tree, int), ParseError>
    decreases depth,
{
    match spec_variable(s, pos) {
        Some(j) => {
            let upper = j - pos == 5 && spells(s.subrange(pos, pos + 5), seq!['u', 'p', 'p', 'e', 'r']);
            let lower = j - pos == 5 && spells(s.subrange(pos, pos + 5), seq!['l', 'o', 'w', 'e', 'r']);
            let q = spec_skip(s, j);
            if (upper || lower) && q < s.len() && s[q] == '(' {
                if depth == 0 {
                    Err(ParseError::TooDeep(pos as usize))
                } else {
                    match spec_operand(s, spec_skip(s, q + 1), (depth - 1) as nat, true) {
                        Err(e) => Err(e),
                        Ok((inner, e)) => {
                            let c = spec_skip(s, e);
                            if c < s.len() && s[c] == ')' {
                                Ok((Tree::Func(if upper { FnCall::Upper } else { FnCall::Lower }, Box::new(inner)), c + 1))
                            } else {
                                Err(ParseError::Unexpected(c as usize))
                            }
                        },
                    }
                }
            } else {
                let a = word_value(s.subrange(pos, j));
                if reference && a is Var {
                    Ok((Tree::Var(a), j))
                } else {
                    Ok((Tree::Const(a), j))
                }
            }
        },
        None => match spec_literal(s, pos) {
            Err(e) => Err(e),
            Ok((a, j)) => Ok((Tree::Const(a), j)),
        },
    }
}

/// The operand at `pos`. A bare word names a variable where `reference`
/// holds, and is a constant otherwise; the operand of a case function is
/// always a reference.
fn parse_operand(s: &Vec<char>, pos: usize, depth: usize, reference: bool) -> (r: Result<
    (AstNode, usize),
    ParseError,
>)
    requires
        pos <= s@.len(),
    ensures
        r matches Ok((n, j)) ==> {
            &&& pos < j <= s@.len()
            &&& is_operand(n)
            &&& reads_operand(s@.subrange(pos as int, j as int), n, reference)
        },
        node_result(r) == spec_operand(s@, pos as int, depth as nat, reference),
    decreases depth,
{
    let len = s.len();
    match parse_variable(s, pos) {
        Some(j) => {
            let upper = j - pos == 5 && spells_at(s, pos, &['u', 'p', 'p', 'e', 'r']);
            let lower = j - pos == 5 && spells_at(s, pos, &['l', 'o', 'w', 'e', 'r']);
            let q = skip_ws(s, j);
            if (upper || lower) && q < len && s[q] == '(' {
                if depth == 0 {
                    return Err(ParseError::TooDeep(pos));
                }
                let b = skip_ws(s, q + 1);
                let (inner, e) = parse_operand(s, b, depth - 1, true)?;
                let c = skip_ws(s, e);
                if c < len && s[c] == ')' {
                    let f = if upper {
                        FnCall::Upper
                    } else {
                        FnCall::Lower
                    };
                    proof {
                        let t = s@.subrange(pos as int, c + 1);
                        assert(t.subrange(0, 5) =~= s@.subrange(pos as int, pos + 5));
                        assert(['u', 'p', 'p', 'e', 'r']@ =~= fn_name(FnCall::Upper));
                        assert(['l', 'o', 'w', 'e', 'r']@ =~= fn_name(FnCall::Lower));
                        assert(t.subrange(b - pos, e - pos) =~= s@.subrange(b as int, e as int));
                        assert(gap(t, 5, q - pos)) by {
                            assert forall|k: int| 5 <= k < q - pos implies is_space(#[trigger] t[k]) by {
                                assert(t[k] == s@[pos + k]);
                            }
                        }
                        assert(gap(t, q - pos + 1, b - pos)) by {
                            assert forall|k: int| q - pos + 1 <= k < b - pos implies is_space(#[trigger] t[k]) by {
                                assert(t[k] == s@[pos + k]);
                            }
                        }
                        assert(gap(t, e - pos, t.len() - 1)) by {
                            assert forall|k: int| e - pos <= k < t.len() - 1 implies is_space(#[trigger] t[k]) by {
                                assert(t[k] == s@[pos + k]);
                            }
                        }
                        assert(reads_operand(t.subrange(b - pos, e - pos), inner, true));
                        assert(t[q - pos] == s@[q as int]);
                        assert(t.last() == s@[c as int]);
                        assert(spells(t.subrange(0, 5), fn_name(f)));
                        let (i, j2, k) = (q - pos, b - pos, e - pos);
                        assert({
                            &&& gap(t, 5, i)
                            &&& i < t.len()
                            &&& t[i] == '('
                            &&& gap(t, i + 1, j2)
                            &&& j2 <= k
                            &&& reads_operand(t.subrange(j2, k), inner, true)
                            &&& gap(t, k, t.len() - 1)
                        });
                        assert(reads_operand(t, AstNode::Function(f, Box::new(inner)), reference));
                    }
                    let n = AstNode::Function(f, Box::new(inner));
                    assert(reads_operand(s@.subrange(pos as int, c + 1), n, reference));
                    Ok((n, c + 1))
                } else {
                    Err(ParseError::Unexpected(c))
                }
            } else {
                let a = word_atom(s, pos, j);
                proof {
                    let u = s@.subrange(pos as int, j as int);
                    assert(u[0] == s@[pos as int]);
                    assert forall|i: int| 0 <= i < u.len() implies is_ident_char(#[trigger] u[i]) by {
                        assert(u[i] == s@[pos + i]);
                    }
                }
                match a {
                    Atom::Variable(name) => if reference {
                        let n = AstNode::Variable(Atom::Variable(name));
                        assert(reads_operand(s@.subrange(pos as int, j as int), n, reference));
                        Ok((n, j))
                    } else {
                        let n = AstNode::Constant(Atom::Variable(name));
                        assert(reads_operand(s@.subrange(pos as int, j as int), n, reference));
                        Ok((n, j))
                    },
                    _ => {
                        let n = AstNode::Constant(a);
                        assert(reads_operand(s@.subrange(pos as int, j as int), n, reference));
                        Ok((n, j))
                    },
                }
            }
        },
        None => {
            let (a, j) = parse_literal(s, pos)?;
            assert(s@.subrange(pos as int, j as int)[0] == s@[pos as int]);
            Ok((AstNode::Constant(a), j))
        },
    }
}

/// The position-shifted form of whitespace: a run of spaces in `s` is a gap
/// of any slice of `s` that holds it.
proof fn lemma_gap(s: Seq<char>, pos: int, j: int, a: int, b: int)
    requires
        0 <= pos <= a <= b <= j <= s.len(),
        forall|k: int| a <= k < b ==> is_space(#[trigger] s[k]),
    ensures
        gap(s.subrange(pos, j), a - pos, b - pos),
{
    let t = s.subrange(pos, j);
    assert forall|k: int| a - pos <= k < b - pos implies is_space(#[trigger] t[k]) by {
        assert(t[k] == s[pos + k]);
    }
}

/// A slice of a slice is a slice of the whole.
proof fn lemma_slice(s: Seq<char>, pos: int, j: int, a: int, b: int)
    requires
        0 <= pos <= a <= b <= j <= s.len(),
    ensures
        s.subrange(pos, j).subrange(a - pos, b - pos) == s.subrange(a, b),
{
    assert(s.subrange(pos, j).subrange(a - pos, b - pos) =~= s.subrange(a, b));
}

/// `u` reads the opening of a list and its literals `items` (at least one),
/// up to the end of the last: `(`, then literals separated by commas, with
/// whitespace around each.
pub open spec fn reads_seq(u: Seq<char>, items: Seq<Atom>) -> bool
    decreases items.len(),
{
    if items.len() == 0 {
        false
    } else if items.len() == 1 {
        &&& u.len() > 0
        &&& u[0] == '('
        &&& exists|a: int| #[trigger]
            gap(u, 1, a) && reads_literal(u.subrange(a, u.len() as int), items[0]@)
    } else {
        exists|a: int, c: int, d: int|
            #![trigger gap(u, a, c), gap(u, c + 1, d)]
            {
                &&& reads_seq(u.subrange(0, a), items.drop_last())
                &&& gap(u, a, c)
                &&& c < u.len()
                &&& u[c] == ','
                &&& gap(u, c + 1, d)
                &&& reads_literal(u.subrange(d, u.len() as int), items.last()@)
            }
    }
}

/// `t` reads the list `items`: its literals in parentheses, separated by commas.
pub open spec fn reads_list(t: Seq<char>, items: Seq<Atom>) -> bool {
    &&& t.len() >= 2
    &&& t[0] == '('
    &&& t.last() == ')'
    &&& if items.len() == 0 {
        gap(t, 1, t.len() - 1)
    } else {
        exists|a: int| #[trigger]
            gap(t, a, t.len() - 1) && reads_seq(t.subrange(0, a), items)
    }
}

/// Reading the rest of a list whose literals so far are `items`, the last
/// of them ending at `qe`: a comma and a further literal, or the closing
/// parenthesis.
pub open spec fn list_rest(s: Seq<char>, items: Seq<Value>, qe: int) -> Result<(Seq<Value>, int), ParseError>
    decreases s.len() - qe,
{
    let q = spec_skip(s, qe);
    if 0 <= q < s.len() && s[q] == ',' {
        match spec_literal(s, spec_skip(s, q + 1)) {
            Err(e) => Err(e),
            Ok((a, q2)) => if qe < q2 <= s.len() {
                list_rest(s, items.push(a), q2)
            } else {
                Err(ParseError::Unexpected(q as usize))
            },
        }
    } else if 0 <= q < s.len() && s[q] == ')' {
        Ok((items, q + 1))
    } else {
        Err(ParseError::Unexpected(q as usize))
    }
}

/// The parenthesised list of literals at `pos`, and where it ends.
pub open spec fn spec_list(s: Seq<char>, pos: int) -> Result<(Seq<Value>, int), ParseError> {
    if pos < 0 || pos >= s.len() || s[pos] != '(' {
        Err(ParseError::Unexpected(pos as usize))
    } else {
        let p = spec_skip(s, pos + 1);
        if p < s.len() && s[p] == ')' {
            Ok((Seq::empty(), p + 1))
        } else {
            match spec_literal(s, p) {
                Err(e) => Err(e),
                Ok((a, q0)) => list_rest(s, seq![a], q0),
            }
        }
    }
}

/// The content of a list reader's outcome.
pub open spec fn list_result(r: Result<(Vec<Atom>, usize), ParseError>) -> Result<(Seq<Value>, int), ParseError> {
    match r {
        Ok((v, j)) => Ok((values_of(v@), j as int)),
        Err(e) => Err(e),
    }
}

/// The parenthesised list of literals at `pos`.
fn parse_list(s: &Vec<char>, pos: usize) -> (r: Result<(Vec<Atom>, usize), ParseError>)
    requires
        pos <= s@.len(),
    ensures
        r matches Ok((v, j)) ==> pos < j <= s@.len() && reads_list(s@.subrange(pos as int, j as int), v@),
        list_result(r) == spec_list(s@, pos as int),
{
    let len = s.len();
    if pos >= len || s[pos] != '(' {
        return Err(ParseError::Unexpected(pos));
    }
    let mut items: Vec<Atom> = Vec::new();
    let p = skip_ws(s, pos + 1);
    if p < len && s[p] == ')' {
        proof {
            lemma_gap(s@, pos as int, p + 1, pos + 1, p as int);
        }
        assert(values_of(items@) =~= Seq::<Value>::empty());
        return Ok((items, p + 1));
    }
    let (a0, q0) = parse_literal(s, p)?;
    items.push(a0);
    assert(values_of(items@) =~= seq![a0@]);
    proof {
        let u = s@.subrange(pos as int, q0 as int);
        lemma_gap(s@, pos as int, q0 as int, pos + 1, p as int);
        lemma_slice(s@, pos as int, q0 as int, p as int, q0 as int);
        assert(gap(u, 1, p - pos) && reads_literal(u.subrange(p - pos, u.len() as int), items@[0]@));
    }
    let mut qe = q0;
    loop
        invariant
            len == s@.len(),
            pos < qe <= len,
            items@.len() >= 1,
            s@[pos as int] == '(',
            list_rest(s@, values_of(items@), qe as int) == spec_list(s@, pos as int),
            reads_seq(s@.subrange(pos as int, qe as int), items@),
        decreases len - qe,
    {
        let q = skip_ws(s, qe);
        if q < len && s[q] == ',' {
            let p2 = skip_ws(s, q + 1);
            let (a, q2) = parse_literal(s, p2)?;
            let ghost before = items@;
            items.push(a);
            assert(values_of(items@) =~= values_of(before).push(a@));
            proof {
                let u = s@.subrange(pos as int, q2 as int);
                lemma_slice(s@, pos as int, q2 as int, pos as int, qe as int);
                lemma_slice(s@, pos as int, q2 as int, p2 as int, q2 as int);
                lemma_gap(s@, pos as int, q2 as int, qe as int, q as int);
                lemma_gap(s@, pos as int, q2 as int, q + 1, p2 as int);
                assert(items@.drop_last() =~= before);
                assert(u[q - pos] == s@[q as int]);
                let (ea, ec, ed) = (qe - pos, q - pos, p2 - pos);
                assert(reads_seq(u.subrange(0, ea), items@.drop_last()));
                assert(gap(u, ea, ec) && gap(u, ec + 1, ed));
            }
            qe = q2;
        } else if q < len && s[q] == ')' {
            proof {
                let t = s@.subrange(pos as int, q + 1);
                lemma_slice(s@, pos as int, q + 1, pos as int, qe as int);
                lemma_gap(s@, pos as int, q + 1, qe as int, q as int);
                assert(gap(t, qe - pos, t.len() - 1) && reads_seq(t.subrange(0, qe - pos), items@));
                assert(t[0] == s@[pos as int]);
                assert(t.last() == s@[q as int]);
            }
            return Ok((items, q + 1));
        } else {
            return Err(ParseError::Unexpected(q));
        }
    }
}

/// `w` is a negation mark: `!`, or `not` in any case.
pub open spec fn negation_mark(w: Seq<char>) -> bool {
    w == seq!['!'] || spells(w, seq!['n', 'o', 't'])
}

/// `w` is the keyword of a membership test: `in`, or `not` then `in`, in any case.
pub open spec fn reads_membership(w: Seq<char>, op: ArrayOp) -> bool {
    match op {
        ArrayOp::In => spells(w, seq!['i', 'n']),
        ArrayOp::NotIn => {
            &&& w.len() >= 3
            &&& spells(w.subrange(0, 3), seq!['n', 'o', 't'])
            &&& exists|m: int| #[trigger]
                gap(w, 3, m) && spells(w.subrange(m, w.len() as int), seq!['i', 'n'])
        },
    }
}

/// `t` is a rule `e` in parentheses.
pub open spec fn reads_group(t: Seq<char>, e: AstNode) -> bool
    decreases e, 1nat,
{
    &&& t.len() >= 2
    &&& t[0] == '('
    &&& t.last() == ')'
    &&& exists|i: int, j: int|
        #![trigger gap(t, 1, i), gap(t, j, t.len() - 1)]
        gap(t, 1, i) && i <= j && reads_rule(t.subrange(i, j), e) && gap(t, j, t.len() - 1)
}

/// `t` is a reading of the rule `n`: two operands around a comparison
/// operator; an operand, a membership keyword and a list; two rules around a
/// connective; a rule in parentheses; a negation mark before a rule or a
/// group; or a single operand. Whitespace may stand between any two of these.
pub open spec fn reads_rule(t: Seq<char>, n: AstNode) -> bool
    decreases n, 0nat,
{
    match n {
        AstNode::Compare(l, op, r) => exists|a: int, b: int, c: int, d: int|
            #![trigger gap(t, a, b), gap(t, c, d)]
            {
                &&& reads_operand(t.subrange(0, a), *l, true)
                &&& gap(t, a, b)
                &&& b <= c
                &&& comparison_op_of(t.subrange(b, c)) == Some(op)
                &&& gap(t, c, d)
                &&& reads_operand(t.subrange(d, t.len() as int), *r, false)
            },
        AstNode::Array(l, op, r) => match *r {
            AstNode::List(items) => exists|a: int, b: int, c: int, d: int|
                #![trigger gap(t, a, b), gap(t, c, d)]
                {
                    &&& reads_operand(t.subrange(0, a), *l, true)
                    &&& gap(t, a, b)
                    &&& b <= c
                    &&& reads_membership(t.subrange(b, c), op)
                    &&& gap(t, c, d)
                    &&& reads_list(t.subrange(d, t.len() as int), items@)
                },
            _ => false,
        },
        AstNode::Logic(l, op, r) => exists|a: int, b: int, c: int, d: int|
            #![trigger gap(t, a, b), gap(t, c, d)]
            {
                &&& reads_rule(t.subrange(0, a), *l)
                &&& gap(t, a, b)
                &&& b <= c
                &&& crate::ast::logic_op_of(t.subrange(b, c)) == Some(op)
                &&& gap(t, c, d)
                &&& reads_rule(t.subrange(d, t.len() as int), *r)
            },
        AstNode::Scope { expr, negate } => if !negate {
            reads_group(t, *expr)
        } else {
            exists|m: int, k: int| #[trigger]
                gap(t, m, k) && 0 < m && negation_mark(t.subrange(0, m)) && (reads_group(
                    t.subrange(k, t.len() as int),
                    *expr,
                ) || reads_rule(t.subrange(k, t.len() as int), *expr))
        },
        _ => reads_operand(t, n, true),
    }
}

/// The rule in parentheses at `pos`, and where the group ends. The group
/// takes one level of `depth`.
pub open spec fn spec_group(s: Seq<char>, pos: int, depth: nat) -> Result<(Tree, int), ParseError>
    decreases depth, 3nat, 0nat,
{
    if depth == 0 {
        Err(ParseError::TooDeep(pos as usize))
    } else {
        match spec_expr(s, spec_skip(s, pos + 1), (depth - 1) as nat) {
            Err(e) => Err(e),
            Ok((e, p)) => {
                let q = spec_skip(s, p);
                if 0 <= q < s.len() && s[q] == ')' {
                    Ok((e, q + 1))
                } else {
                    Err(ParseError::Unexpected(q as usize))
                }
            },
        }
    }
}

/// One term at `pos`, and where it ends: a negation mark before a group or
/// a term (a term so negated takes one level of `depth`), a group, an
/// operand followed by a comparison operator and an operand, an operand
/// followed by `in` or `not in` and a list, or an operand alone.
pub open spec fn spec_term(s: Seq<char>, pos: int, depth: nat) -> Result<(Tree, int), ParseError>
    decreases depth, 4nat, 0nat,
{
    let bang = 0 <= pos < s.len() && s[pos] == '!';
    let not = !bang && keyword(s, pos, seq!['n', 'o', 't']);
    if bang || not {
        let p = spec_skip(s, pos + if bang { 1int } else { 3int });
        if 0 <= p < s.len() && s[p] == '(' {
            match spec_group(s, p, depth) {
                Err(e) => Err(e),
                Ok((e, j)) => Ok((Tree::Scope(Box::new(e), true), j)),
            }
        } else if depth == 0 {
            Err(ParseError::TooDeep(pos as usize))
        } else {
            match spec_term(s, p, (depth - 1) as nat) {
                Err(e) => Err(e),
                Ok((inner, e)) => Ok((Tree::Scope(Box::new(inner), true), e)),
            }
        }
    } else if 0 <= pos < s.len() && s[pos] == '(' {
        match spec_group(s, pos, depth) {
            Err(e) => Err(e),
            Ok((e, j)) => Ok((Tree::Scope(Box::new(e), false), j)),
        }
    } else {
        match spec_operand(s, pos, depth, true) {
            Err(e) => Err(e),
            Ok((left, p)) => {
                let q = spec_skip(s, p);
                match spec_comparison(s, q) {
                    Some((op, k)) => match spec_operand(s, spec_skip(s, q + k), depth, false) {
                        Err(e) => Err(e),
                        Ok((right, e)) => Ok((Tree::Compare(Box::new(left), op, Box::new(right)), e)),
                    },
                    None => if keyword(s, q, seq!['i', 'n']) {
                        match spec_list(s, spec_skip(s, q + 2)) {
                            Err(e) => Err(e),
                            Ok((items, e)) => Ok(
                                (Tree::Array(Box::new(left), ArrayOp::In, Box::new(Tree::List(items))), e),
                            ),
                        }
                    } else if keyword(s, q, seq!['n', 'o', 't']) && keyword(
                        s,
                        spec_skip(s, q + 3),
                        seq!['i', 'n'],
                    ) {
                        match spec_list(s, spec_skip(s, spec_skip(s, q + 3) + 2)) {
                            Err(e) => Err(e),
                            Ok((items, e)) => Ok(
                                (Tree::Array(Box::new(left), ArrayOp::NotIn, Box::new(Tree::List(items))), e),
                            ),
                        }
                    } else {
                        Ok((left, p))
                    },
                }
            },
        }
    }
}

/// Reading the rest of an `and` chain whose tree so far is `left`, ending at
/// `p`: the chain goes on while `and` or `&&` and a term follow, grouping
/// from the left.
pub open spec fn and_rest(s: Seq<char>, left: Tree, p: int, depth: nat) -> Result<(Tree, int), ParseError>
    decreases depth, 5nat, (s.len() - p) as nat,
{
    let q = spec_skip(s, p);
    let k = and_len(s, q);
    if k == 0 {
        Ok((left, p))
    } else {
        match spec_term(s, spec_skip(s, q + k), depth) {
            Err(e) => Err(e),
            Ok((right, e)) => if p < e <= s.len() {
                and_rest(s, Tree::Logic(Box::new(left), LogicOp::And, Box::new(right)), e, depth)
            } else {
                Err(ParseError::Unexpected(q as usize))
            },
        }
    }
}

/// A chain of terms joined by `and` at `pos`, and where it ends.
pub open spec fn spec_and(s: Seq<char>, pos: int, depth: nat) -> Result<(Tree, int), ParseError>
    decreases depth, 6nat, 0nat,
{
    match spec_term(s, pos, depth) {
        Err(e) => Err(e),
        Ok((first, p)) => and_rest(s, first, p, depth),
    }
}

/// Reading the rest of an `or` chain whose tree so far is `left`, ending at
/// `p`: the chain goes on while `or` or `||` and an `and` chain follow,
/// grouping from the left.
pub open spec fn or_rest(s: Seq<char>, left: Tree, p: int, depth: nat) -> Result<(Tree, int), ParseError>
    decreases depth, 7nat, (s.len() - p) as nat,
{
    let q = spec_skip(s, p);
    let k = or_len(s, q);
    if k == 0 {
        Ok((left, p))
    } else {
        match spec_and(s, spec_skip(s, q + k), depth) {
            Err(e) => Err(e),
            Ok((right, e)) => if p < e <= s.len() {
                or_rest(s, Tree::Logic(Box::new(left), LogicOp::Or, Box::new(right)), e, depth)
            } else {
                Err(ParseError::Unexpected(q as usize))
            },
        }
    }
}

/// A rule at `pos`: `and` chains joined by `or`, and where it ends.
pub open spec fn spec_expr(s: Seq<char>, pos: int, depth: nat) -> Result<(Tree, int), ParseError>
    decreases depth, 8nat, 0nat,
{
    match spec_and(s, pos, depth) {
        Err(e) => Err(e),
        Ok((first, p)) => or_rest(s, first, p, depth),
    }
}

/// The outcome of parsing the text `s`: the rule after any leading
/// whitespace, nested at most `MAX_DEPTH` deep, with the text left after it
/// and the whitespace that follows it.
pub open spec fn parse_spec(s: Seq<char>) -> Result<(Seq<char>, Tree), ParseError> {
    match spec_expr(s, spec_skip(s, 0), MAX_DEPTH as nat) {
        Err(e) => Err(e),
        Ok((t, e)) => Ok((s.subrange(spec_skip(s, e), s.len() as int), t)),
    }
}

/// The rule in parentheses at `pos`.
#[verifier::rlimit(100)]
#[verifier::spinoff_prover]
fn parse_group(s: &Vec<char>, pos: usize, depth: usize) -> (r: Result<(AstNode, usize), ParseError>)
    requires
        pos < s@.len(),
        s@[pos as int] == '(',
    ensures
        r matches Ok((e, j)) ==> {
            &&& pos < j <= s@.len()
            &&& is_rule(e)
            &&& reads_group(s@.subrange(pos as int, j as int), e)
        },
        node_result(r) == spec_group(s@, pos as int, depth as nat),
    decreases depth, 3nat,
{
    let len = s.len();
    if depth == 0 {
        return Err(ParseError::TooDeep(pos));
    }
    let b = skip_ws(s, pos + 1);
    let (e, p) = parse_expr(s, b, depth - 1)?;
    let q = skip_ws(s, p);
    if q < len && s[q] == ')' {
        proof {
            let t = s@.subrange(pos as int, q + 1);
            lemma_gap(s@, pos as int, q + 1, pos + 1, b as int);
            lemma_gap(s@, pos as int, q + 1, p as int, q as int);
            lemma_slice(s@, pos as int, q + 1, b as int, p as int);
            assert(gap(t, 1, b - pos) && gap(t, p - pos, t.len() - 1));
        }
        Ok((e, q + 1))
    } else {
        Err(ParseError::Unexpected(q))
    }
}

/// A negated term at `pos`: `!` or `not`, then a group or a term.
#[verifier::rlimit(100)]
#[verifier::spinoff_prover]
fn parse_negation(s: &Vec<char>, pos: usize, depth: usize, bang: bool) -> (r: Result<(AstNode, usize), ParseError>)
    requires
        pos <= s@.len(),
        bang == (pos < s@.len() && s@[pos as int] == '!'),
        bang || keyword(s@, pos as int, seq!['n', 'o', 't']),
    ensures
        r matches Ok((n, j)) ==> {
            &&& pos < j <= s@.len()
            &&& is_rule(n)
            &&& reads_rule(s@.subrange(pos as int, j as int), n)
        },
        node_result(r) == spec_term(s@, pos as int, depth as nat),
    decreases depth, 4nat,
{
    let len = s.len();
    assert(['n', 'o', 't']@ =~= seq!['n', 'o', 't']);
    let m: usize = if bang {
        1
    } else {
        3
    };
    let p = skip_ws(s, pos + m);
    proof {
        assert(['n', 'o', 't']@ =~= seq!['n', 'o', 't']);
        if bang {
            assert(s@.subrange(pos as int, pos + 1) =~= seq!['!']);
        }
    }
    if p < len && s[p] == '(' {
        let (e, j) = parse_group(s, p, depth)?;
        proof {
            let t = s@.subrange(pos as int, j as int);
            lemma_gap(s@, pos as int, j as int, pos + m, p as int);
            lemma_slice(s@, pos as int, j as int, pos as int, pos + m);
            lemma_slice(s@, pos as int, j as int, p as int, j as int);
            assert(gap(t, m as int, p - pos));
        }
        return Ok((AstNode::Scope { expr: Box::new(e), negate: true }, j));
    }
    if depth == 0 {
        return Err(ParseError::TooDeep(pos));
    }
    let (inner, e) = parse_term(s, p, depth - 1)?;
    proof {
        let t = s@.subrange(pos as int, e as int);
        lemma_gap(s@, pos as int, e as int, pos + m, p as int);
        lemma_slice(s@, pos as int, e as int, pos as int, pos + m);
        lemma_slice(s@, pos as int, e as int, p as int, e as int);
        assert(gap(t, m as int, p - pos));
    }
    return Ok((AstNode::Scope { expr: Box::new(inner), negate: true }, e));
}

/// A comparison, a membership test, or an operand alone, at `pos`.
#[verifier::rlimit(100)]
#[verifier::spinoff_prover]
fn parse_test(s: &Vec<char>, pos: usize, depth: usize) -> (r: Result<(AstNode, usize), ParseError>)
    requires
        pos <= s@.len(),
        !(pos < s@.len() && s@[pos as int] == '!'),
        !keyword(s@, pos as int, seq!['n', 'o', 't']),
        !(pos < s@.len() && s@[pos as int] == '('),
    ensures
        r matches Ok((n, j)) ==> {
            &&& pos < j <= s@.len()
            &&& is_rule(n)
            &&& reads_rule(s@.subrange(pos as int, j as int), n)
        },
        node_result(r) == spec_term(s@, pos as int, depth as nat),
{
    let len = s.len();
    assert(['i', 'n']@ =~= seq!['i', 'n']);
    assert(['n', 'o', 't']@ =~= seq!['n', 'o', 't']);
    let (left, p) = parse_operand(s, pos, depth, true)?;
    let q = skip_ws(s, p);
    match comparison_at(s, q) {
        Some((op, k)) => {
            let d = skip_ws(s, q + k);
            let (right, e) = parse_operand(s, d, depth, false)?;
            proof {
                let t = s@.subrange(pos as int, e as int);
                lemma_slice(s@, pos as int, e as int, pos as int, p as int);
                lemma_slice(s@, pos as int, e as int, q as int, q + k);
                lemma_slice(s@, pos as int, e as int, d as int, e as int);
                lemma_gap(s@, pos as int, e as int, p as int, q as int);
                lemma_gap(s@, pos as int, e as int, q + k, d as int);
                assert(gap(t, p - pos, q - pos) && gap(t, q + k - pos, d - pos));
            }
            return Ok((AstNode::Compare(Box::new(left), op, Box::new(right)), e));
        },
        None => {},
    }
    if keyword_at(s, q, &['i', 'n']) {
        let d = skip_ws(s, q + 2);
        let (items, e) = parse_list(s, d)?;
        proof {
            let t = s@.subrange(pos as int, e as int);
            assert(['i', 'n']@ =~= seq!['i', 'n']);
            lemma_slice(s@, pos as int, e as int, pos as int, p as int);
            lemma_slice(s@, pos as int, e as int, q as int, q + 2);
            lemma_slice(s@, pos as int, e as int, d as int, e as int);
            lemma_gap(s@, pos as int, e as int, p as int, q as int);
            lemma_gap(s@, pos as int, e as int, q + 2, d as int);
            assert(gap(t, p - pos, q - pos) && gap(t, q + 2 - pos, d - pos));
        }
        assert(tree_of(AstNode::List(items)) == Tree::List(values_of(items@)));
        return Ok((AstNode::Array(Box::new(left), ArrayOp::In, Box::new(AstNode::List(items))), e));
    }
    if keyword_at(s, q, &['n', 'o', 't']) {
        let r = skip_ws(s, q + 3);
        if keyword_at(s, r, &['i', 'n']) {
            let d = skip_ws(s, r + 2);
            let (items, e) = parse_list(s, d)?;
            proof {
                let t = s@.subrange(pos as int, e as int);
                let w = s@.subrange(q as int, r + 2);
                assert(['i', 'n']@ =~= seq!['i', 'n']);
                assert(['n', 'o', 't']@ =~= seq!['n', 'o', 't']);
                lemma_slice(s@, q as int, r + 2, q as int, q + 3);
                lemma_slice(s@, q as int, r + 2, r as int, r + 2);
                lemma_gap(s@, q as int, r + 2, q + 3, r as int);
                assert(gap(w, 3, r - q));
                assert(reads_membership(w, ArrayOp::NotIn));
                lemma_slice(s@, pos as int, e as int, pos as int, p as int);
                lemma_slice(s@, pos as int, e as int, q as int, r + 2);
                lemma_slice(s@, pos as int, e as int, d as int, e as int);
                lemma_gap(s@, pos as int, e as int, p as int, q as int);
                lemma_gap(s@, pos as int, e as int, r + 2, d as int);
                assert(gap(t, p - pos, q - pos) && gap(t, r + 2 - pos, d - pos));
            }
            assert(tree_of(AstNode::List(items)) == Tree::List(values_of(items@)));
            return Ok(
                (AstNode::Array(Box::new(left), ArrayOp::NotIn, Box::new(AstNode::List(items))), e),
            );
        }
    }
    Ok((left, p))
}


/// One term at `pos`: a negation, a group, a comparison, a membership test,
/// or an operand.
fn parse_term(s: &Vec<char>, pos: usize, depth: usize) -> (r: Result<(AstNode, usize), ParseError>)
    requires
        pos <= s@.len(),
    ensures
        r matches Ok((n, j)) ==> {
            &&& pos < j <= s@.len()
            &&& is_rule(n)
            &&& reads_rule(s@.subrange(pos as int, j as int), n)
        },
        node_result(r) == spec_term(s@, pos as int, depth as nat),
    decreases depth, 5nat,
{
    let len = s.len();
    let bang = pos < len && s[pos] == '!';
    assert(['n', 'o', 't']@ =~= seq!['n', 'o', 't']);
    let not = !bang && keyword_at(s, pos, &['n', 'o', 't']);
    if bang || not {
        return parse_negation(s, pos, depth, bang);
    }
    if pos < len && s[pos] == '(' {
        let (e, j) = parse_group(s, pos, depth)?;
        return Ok((AstNode::Scope { expr: Box::new(e), negate: false }, j));
    }
    parse_test(s, pos, depth)
}

/// The length of the `and` connective at `q` (`and` in any case, or `&&`), or zero.
pub open spec fn and_len(s: Seq<char>, q: int) -> int {
    if keyword(s, q, seq!['a', 'n', 'd']) {
        3
    } else if 0 <= q && q + 2 <= s.len() && s[q] == '&' && s[q + 1] == '&' {
        2
    } else {
        0
    }
}

/// The length of the `or` connective at `q` (`or` in any case, or `||`), or zero.
pub open spec fn or_len(s: Seq<char>, q: int) -> int {
    if keyword(s, q, seq!['o', 'r']) {
        2
    } else if 0 <= q && q + 2 <= s.len() && s[q] == '|' && s[q + 1] == '|' {
        2
    } else {
        0
    }
}

/// The length of the `and` connective at `q` (`and` in any case, or `&&`), if one stands there.
fn and_at(s: &Vec<char>, q: usize) -> (r: usize)
    requires
        q <= s@.len(),
    ensures
        r > 0 ==> q + r <= s@.len() && crate::ast::logic_op_of(s@.subrange(q as int, q + r))
            == Some(LogicOp::And),
        r == and_len(s@, q as int),
{
    assert(['a', 'n', 'd']@ =~= seq!['a', 'n', 'd']);
    if keyword_at(s, q, &['a', 'n', 'd']) {
        3
    } else if pair_at(s, q, '&', '&') {
        assert(s@.subrange(q as int, q + 2) =~= seq!['&', '&']);
        2
    } else {
        0
    }
}

/// The length of the `or` connective at `q` (`or` in any case, or `||`), if one stands there.
fn or_at(s: &Vec<char>, q: usize) -> (r: usize)
    requires
        q <= s@.len(),
    ensures
        r > 0 ==> q + r <= s@.len() && crate::ast::logic_op_of(s@.subrange(q as int, q + r))
            == Some(LogicOp::Or),
        r == or_len(s@, q as int),
{
    assert(['o', 'r']@ =~= seq!['o', 'r']);
    if keyword_at(s, q, &['o', 'r']) {
        assert(!spells(s@.subrange(q as int, q + 2), seq!['a', 'n', 'd']));
        2
    } else if pair_at(s, q, '|', '|') {
        assert(s@.subrange(q as int, q + 2) =~= seq!['|', '|']);
        assert(!spells(s@.subrange(q as int, q + 2), seq!['a', 'n', 'd']));
        2
    } else {
        0
    }
}

/// Joins `left`, read from `s[pos..p]`, and `right`, read from `s[d..e]`, by
/// the connective read from `s[q..q + k]`.
proof fn lemma_join(
    s: Seq<char>,
    pos: int,
    p: int,
    q: int,
    k: int,
    d: int,
    e: int,
    left: AstNode,
    op: LogicOp,
    right: AstNode,
)
    requires
        0 <= pos <= p <= q <= q + k <= d <= e <= s.len(),
        reads_rule(s.subrange(pos, p), left),
        forall|i: int| p <= i < q ==> is_space(#[trigger] s[i]),
        crate::ast::logic_op_of(s.subrange(q, q + k)) == Some(op),
        forall|i: int| q + k <= i < d ==> is_space(#[trigger] s[i]),
        reads_rule(s.subrange(d, e), right),
    ensures
        reads_rule(s.subrange(pos, e), AstNode::Logic(Box::new(left), op, Box::new(right))),
{
    let t = s.subrange(pos, e);
    lemma_slice(s, pos, e, pos, p);
    lemma_slice(s, pos, e, q, q + k);
    lemma_slice(s, pos, e, d, e);
    lemma_gap(s, pos, e, p, q);
    lemma_gap(s, pos, e, q + k, d);
    assert(gap(t, p - pos, q - pos) && gap(t, q + k - pos, d - pos));
}

/// A chain of terms joined by `and`, grouped from the left.
fn parse_and(s: &Vec<char>, pos: usize, depth: usize) -> (r: Result<(AstNode, usize), ParseError>)
    requires
        pos <= s@.len(),
    ensures
        r matches Ok((n, j)) ==> {
            &&& pos < j <= s@.len()
            &&& is_rule(n)
            &&& reads_rule(s@.subrange(pos as int, j as int), n)
        },
        node_result(r) == spec_and(s@, pos as int, depth as nat),
    decreases depth, 6nat,
{
    let len = s.len();
    let (first, p0) = parse_term(s, pos, depth)?;
    let mut left = first;
    let mut p = p0;
    loop
        invariant
            len == s@.len(),
            pos < p <= len,
            is_rule(left),
            reads_rule(s@.subrange(pos as int, p as int), left),
            and_rest(s@, tree_of(left), p as int, depth as nat) == spec_and(s@, pos as int, depth as nat),
        decreases len - p,
    {
        let q = skip_ws(s, p);
        let k = and_at(s, q);
        if k == 0 {
            return Ok((left, p));
        }
        let d = skip_ws(s, q + k);
        let (right, e) = parse_term(s, d, depth)?;
        proof {
            lemma_join(s@, pos as int, p as int, q as int, k as int, d as int, e as int, left, LogicOp::And, right);
        }
        left = AstNode::Logic(Box::new(left), LogicOp::And, Box::new(right));
        p = e;
    }
}

/// A chain of `and` chains joined by `or`, grouped from the left.
fn parse_expr(s: &Vec<char>, pos: usize, depth: usize) -> (r: Result<(AstNode, usize), ParseError>)
    requires
        pos <= s@.len(),
    ensures
        r matches Ok((n, j)) ==> {
            &&& pos < j <= s@.len()
            &&& is_rule(n)
            &&& reads_rule(s@.subrange(pos as int, j as int), n)
        },
        node_result(r) == spec_expr(s@, pos as int, depth as nat),
    decreases depth, 7nat,
{
    let len = s.len();
    let (first, p0) = parse_and(s, pos, depth)?;
    let mut left = first;
    let mut p = p0;
    loop
        invariant
            len == s@.len(),
            pos < p <= len,
            is_rule(left),
            reads_rule(s@.subrange(pos as int, p as int), left),
            or_rest(s@, tree_of(left), p as int, depth as nat) == spec_expr(s@, pos as int, depth as nat),
        decreases len - p,
    {
        let q = skip_ws(s, p);
        let k = or_at(s, q);
        if k == 0 {
            return Ok((left, p));
        }
        let d = skip_ws(s, q + k);
        let (right, e) = parse_and(s, d, depth)?;
        proof {
            lemma_join(s@, pos as int, p as int, q as int, k as int, d as int, e as int, left, LogicOp::Or, right);
        }
        left = AstNode::Logic(Box::new(left), LogicOp::Or, Box::new(right));
        p = e;
    }
}

/// Parses a rule. Returns what is left of the text after the rule and the
/// whitespace that follows it, with the rule's tree. The tree is a reading of
/// the text before the remainder, less the whitespace around it. `and` binds
/// tighter than `or`, and chains of either group from the left.
pub fn parse(input: &str) -> (r: Result<(String, AstNode), ParseError>)
    ensures
        r is Ok <==> parse_spec(input@) is Ok,
        r matches Ok((rest, ast)) ==> parse_spec(input@) == Ok::<(Seq<char>, Tree), ParseError>((rest@, tree_of(ast))),
        r matches Err(e) ==> parse_spec(input@) == Err::<(Seq<char>, Tree), ParseError>(e),
        r matches Ok((rest, ast)) ==> {
            &&& is_rule(ast)
            &&& rest@.len() < input@.len()
            &&& rest@ == input@.subrange(input@.len() - rest@.len(), input@.len() as int)
            &&& (rest@.len() == 0 || !is_space(rest@[0]))
            &&& exists|a: int, b: int|
                #![trigger gap(input@, 0, a), gap(input@, b, input@.len() - rest@.len())]
                {
                    &&& gap(input@, 0, a)
                    &&& a <= b
                    &&& reads_rule(input@.subrange(a, b), ast)
                    &&& gap(input@, b, input@.len() - rest@.len())
                }
        },
{
    let s = chars_of(input);
    let len = s.len();
    let a = skip_ws(&s, 0);
    let (ast, e) = parse_expr(&s, a, MAX_DEPTH)?;
    let q = skip_ws(&s, e);
    let rest = string_of(&s, q, len);
    proof {
        assert(rest@.len() == len - q);
        assert(gap(input@, 0, a as int) && gap(input@, e as int, input@.len() - rest@.len()));
        assert(reads_rule(input@.subrange(a as int, e as int), ast));
    }
    Ok((rest, ast))
}

} // verus!
