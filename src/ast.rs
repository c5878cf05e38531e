//! Values, operators and the expression tree.

use core::cmp::Ordering;
use vstd::prelude::*;

verus! {

/// Ten to the power `n`.
pub open spec fn pow10(n: nat) -> int
    decreases n,
{
    if n == 0 {
        1
    } else {
        10 * pow10((n - 1) as nat)
    }
}

/// How `a` stands to `b` on the integers.
pub open spec fn order_of(a: int, b: int) -> Ordering {
    if a < b {
        Ordering::Less
    } else if a == b {
        Ordering::Equal
    } else {
        Ordering::Greater
    }
}

/// A decimal number, exact: its value is `mantissa / 10^scale`.
#[derive(Debug, Clone, Copy, PartialEq, Eq, Structural)]
pub struct Decimal {
    pub mantissa: i64,
    pub scale: u32,
}

/// A calendar date, as the number of days since the first day of the common era.
#[derive(Debug, Clone, Copy, PartialEq, Eq, Structural)]
pub struct Date {
    pub days_from_ce: i32,
}

/// How the decimal `xm / 10^xs` stands to `ym / 10^ys`.
pub open spec fn decimal_order(xm: int, xs: nat, ym: int, ys: nat) -> Ordering {
    order_of(xm * pow10(ys), ym * pow10(xs))
}

/// A value of the rule language.
#[derive(Debug, Clone)]
pub enum Atom {
    String(String),
    Number(i32),
    Float(Decimal),
    Boolean(bool),
    Variable(String),
    Date(Date),
    DateTime(String),
}

/// The mathematical content of an `Atom`.
pub enum Value {
    Str(Seq<char>),
    Int(i32),
    Dec(Decimal),
    Bool(bool),
    Var(Seq<char>),
    Day(Date),
    Stamp(Seq<char>),
}

impl View for Atom {
    type V = Value;

    open spec fn view(&self) -> Value {
        match self {
            Atom::String(s) => Value::Str(s@),
            Atom::Number(n) => Value::Int(*n),
            Atom::Float(d) => Value::Dec(*d),
            Atom::Boolean(b) => Value::Bool(*b),
            Atom::Variable(s) => Value::Var(s@),
            Atom::Date(d) => Value::Day(*d),
            Atom::DateTime(s) => Value::Stamp(s@),
        }
    }
}

/// The text of a string-like value (a quoted string or a bare word).
pub open spec fn text_of(a: Value) -> Option<Seq<char>> {
    match a {
        Value::Str(s) => Some(s),
        Value::Var(s) => Some(s),
        _ => None,
    }
}

/// A numeric value as a decimal `(mantissa, scale)`; an integer has scale zero.
pub open spec fn decimal_of(a: Value) -> Option<(int, nat)> {
    match a {
        Value::Int(n) => Some((n as int, 0nat)),
        Value::Dec(d) => Some((d.mantissa as int, d.scale as nat)),
        _ => None,
    }
}

/// The ordering of two values: defined between numeric values only.
pub open spec fn atom_cmp(a: Value, b: Value) -> Option<Ordering> {
    match (decimal_of(a), decimal_of(b)) {
        (Some(x), Some(y)) => Some(decimal_order(x.0, x.1, y.0, y.1)),
        _ => None,
    }
}

/// The equality of two values: string-like values by their text, numeric
/// values by their number, the other kinds within their own kind.
pub open spec fn atom_eq(a: Value, b: Value) -> bool {
    if text_of(a) is Some || text_of(b) is Some {
        text_of(a) == text_of(b)
    } else {
        match (a, b) {
            (Value::Bool(x), Value::Bool(y)) => x == y,
            (Value::Day(x), Value::Day(y)) => x == y,
            (Value::Stamp(x), Value::Stamp(y)) => x == y,
            _ => atom_cmp(a, b) == Some(Ordering::Equal),
        }
    }
}

pub proof fn lemma_pow10_positive(n: nat)
    ensures
        pow10(n) >= 1,
    decreases n,
{
    if n > 0 {
        lemma_pow10_positive((n - 1) as nat);
    }
}

pub proof fn lemma_pow10_add(a: nat, b: nat)
    ensures
        pow10(a + b) == pow10(a) * pow10(b),
    decreases a,
{
    if a > 0 {
        lemma_pow10_add((a - 1) as nat, b);
        assert(pow10(a + b) == 10 * pow10((a - 1 + b) as nat));
        assert(10 * (pow10((a - 1) as nat) * pow10(b)) == (10 * pow10((a - 1) as nat)) * pow10(b))
            by (nonlinear_arith);
    }
}

pub proof fn lemma_pow10_monotone(a: nat, b: nat)
    requires
        a <= b,
    ensures
        pow10(a) <= pow10(b),
{
    lemma_pow10_add(a, (b - a) as nat);
    lemma_pow10_positive(a);
    lemma_pow10_positive((b - a) as nat);
    let x = pow10(a);
    let y = pow10((b - a) as nat);
    assert(x <= x * y) by (nonlinear_arith)
        requires
            x >= 1,
            y >= 1,
    ;
}

proof fn lemma_order_scaled(a: int, b: int, p: int)
    requires
        p > 0,
    ensures
        order_of(a * p, b * p) == order_of(a, b),
{
    if a < b {
        assert(a * p < b * p) by (nonlinear_arith)
            requires
                a < b,
                p > 0,
        ;
    } else if a == b {
    } else {
        assert(a * p > b * p) by (nonlinear_arith)
            requires
                a > b,
                p > 0,
        ;
    }
}

/// Ten to the power `d`, for the powers that fit in an `i64`.
fn pow10_exec(d: u32) -> (r: i64)
    requires
        d <= 18,
    ensures
        r == pow10(d as nat),
        r <= 1_000_000_000_000_000_000,
{
    proof {
        reveal_with_fuel(pow10, 20);
    }
    assert(pow10(18) == 1_000_000_000_000_000_000);
    let mut r: i64 = 1;
    let mut i: u32 = 0;
    while i < d
        invariant
            i <= d <= 18,
            r == pow10(i as nat),
            pow10(18) == 1_000_000_000_000_000_000,
        decreases d - i,
    {
        proof {
            lemma_pow10_monotone((i + 1) as nat, 18);
            assert(pow10((i + 1) as nat) == 10 * pow10(i as nat));
            lemma_pow10_positive(i as nat);
            assert(1 <= r * 10 <= 1_000_000_000_000_000_000);
        }
        r = r * 10;
        i = i + 1;
    }
    proof {
        lemma_pow10_monotone(d as nat, 18);
    }
    r
}

/// How `a` stands to `b * 10^d`.
fn cmp_scaled(a: i64, b: i64, d: u32) -> (r: Ordering)
    ensures
        r == order_of(a as int, b * pow10(d as nat)),
{
    if b == 0 {
        if a < 0 {
            Ordering::Less
        } else if a == 0 {
            Ordering::Equal
        } else {
            Ordering::Greater
        }
    } else if d >= 19 {
        proof {
            reveal_with_fuel(pow10, 20);
            assert(pow10(19) == 10_000_000_000_000_000_000);
            lemma_pow10_monotone(19, d as nat);
            let p = pow10(d as nat);
            if b > 0 {
                assert(b * p >= p) by (nonlinear_arith)
                    requires
                        b >= 1,
                        p >= 1,
                ;
            } else {
                assert(b * p <= -p) by (nonlinear_arith)
                    requires
                        b <= -1,
                        p >= 1,
                ;
            }
        }
        if b > 0 {
            Ordering::Less
        } else {
            Ordering::Greater
        }
    } else {
        let p = pow10_exec(d);
        proof {
            lemma_pow10_positive(d as nat);
            assert(-0x8000_0000_0000_0000_0000_0000_0000_0000 < b * p < 0x8000_0000_0000_0000_0000_0000_0000_0000)
                by (nonlinear_arith)
                requires
                    -0x8000_0000_0000_0000 <= b < 0x8000_0000_0000_0000,
                    1 <= p <= 1_000_000_000_000_000_000,
            ;
        }
        let bp: i128 = (b as i128) * (p as i128);
        let a2: i128 = a as i128;
        if a2 < bp {
            Ordering::Less
        } else if a2 == bp {
            Ordering::Equal
        } else {
            Ordering::Greater
        }
    }
}

fn reverse(o: Ordering) -> (r: Ordering)
    ensures
        o == Ordering::Less ==> r == Ordering::Greater,
        o == Ordering::Equal ==> r == Ordering::Equal,
        o == Ordering::Greater ==> r == Ordering::Less,
{
    match o {
        Ordering::Less => Ordering::Greater,
        Ordering::Equal => Ordering::Equal,
        Ordering::Greater => Ordering::Less,
    }
}

/// Compares two decimals by their exact values.
pub fn decimal_cmp(xm: i64, xs: u32, ym: i64, ys: u32) -> (r: Ordering)
    ensures
        r == decimal_order(xm as int, xs as nat, ym as int, ys as nat),
{
    if xs >= ys {
        let d = xs - ys;
        proof {
            lemma_pow10_add(d as nat, ys as nat);
            lemma_pow10_positive(ys as nat);
            let p = pow10(ys as nat);
            let q = pow10(d as nat);
            assert(ym * (q * p) == (ym * q) * p) by (nonlinear_arith);
            lemma_order_scaled(xm as int, ym * q, p);
        }
        cmp_scaled(xm, ym, d)
    } else {
        let d = ys - xs;
        let r0 = cmp_scaled(ym, xm, d);
        proof {
            lemma_pow10_add(d as nat, xs as nat);
            lemma_pow10_positive(xs as nat);
            let p = pow10(xs as nat);
            let q = pow10(d as nat);
            assert(xm * (q * p) == (xm * q) * p) by (nonlinear_arith);
            lemma_order_scaled(xm * q, ym as int, p);
        }
        reverse(r0)
    }
}

impl Atom {
    /// The atom as a decimal, if it is numeric.
    fn as_decimal(&self) -> (r: Option<(i64, u32)>)
        ensures
            r is Some <==> decimal_of(self@) is Some,
            r matches Some((m, e)) ==> decimal_of(self@) == Some((m as int, e as nat)),
    {
        match self {
            Atom::Number(n) => Some((*n as i64, 0)),
            Atom::Float(d) => Some((d.mantissa, d.scale)),
            _ => None,
        }
    }

    /// The text of a string-like atom.
    pub fn as_text(&self) -> (r: Option<&String>)
        ensures
            r is Some <==> text_of(self@) is Some,
            r is Some ==> text_of(self@) == Some(r->0@),
    {
        match self {
            Atom::String(s) => Some(s),
            Atom::Variable(s) => Some(s),
            _ => None,
        }
    }

    /// A copy of the atom with the same content.
    pub fn duplicate(&self) -> (r: Atom)
        ensures
            r@ == self@,
    {
        match self {
            Atom::String(s) => Atom::String(s.clone()),
            Atom::Number(n) => Atom::Number(*n),
            Atom::Float(d) => Atom::Float(*d),
            Atom::Boolean(b) => Atom::Boolean(*b),
            Atom::Variable(s) => Atom::Variable(s.clone()),
            Atom::Date(d) => Atom::Date(*d),
            Atom::DateTime(s) => Atom::DateTime(s.clone()),
        }
    }
}

/// The character of the decimal digit `d`.
pub open spec fn digit_char(d: int) -> char {
    seq!['0', '1', '2', '3', '4', '5', '6', '7', '8', '9'][d]
}

/// The decimal digits of `n`, most significant first, without leading zeros.
pub open spec fn digits_of(n: nat) -> Seq<char>
    decreases n,
{
    if n < 10 {
        seq![digit_char(n as int)]
    } else {
        digits_of(n / 10).push(digit_char((n % 10) as int))
    }
}

/// The decimal text of an integer.
pub open spec fn int_text(n: int) -> Seq<char> {
    if n < 0 {
        seq!['-'] + digits_of((-n) as nat)
    } else {
        digits_of(n as nat)
    }
}

/// The decimal text of `m / 10^k`: the digits of `m`, with zeros in front
/// where they are fewer than `k + 1`, and a point before the last `k` of them.
pub open spec fn decimal_text(m: int, k: nat) -> Seq<char> {
    let d = digits_of(if m < 0 { (-m) as nat } else { m as nat });
    let p = if d.len() > k { d } else { Seq::new((k + 1 - d.len()) as nat, |i: int| '0') + d };
    let sign = if m < 0 { seq!['-'] } else { Seq::<char>::empty() };
    if k == 0 {
        sign + p
    } else {
        sign + p.subrange(0, p.len() - k) + seq!['.'] + p.subrange(p.len() - k, p.len() as int)
    }
}

/// The text of a value: a string-like value or a date-time as its text, a
/// number in decimal, a boolean as `true` or `false`, a date as chrono writes
/// it (its day number where chrono has no such date).
pub open spec fn atom_text(a: Value) -> Seq<char> {
    match a {
        Value::Str(t) => t,
        Value::Var(t) => t,
        Value::Stamp(t) => t,
        Value::Int(n) => int_text(n as int),
        Value::Dec(d) => decimal_text(d.mantissa as int, d.scale as nat),
        Value::Bool(b) => if b {
            seq!['t', 'r', 'u', 'e']
        } else {
            seq!['f', 'a', 'l', 's', 'e']
        },
        Value::Day(d) => match crate::text::date_text_of(d.days_from_ce as int) {
            Some(t) => t,
            None => int_text(d.days_from_ce as int),
        },
    }
}

/// Appends the decimal digits of `n` to `out`.
fn push_digits(n: u64, out: &mut Vec<char>)
    ensures
        final(out)@ == old(out)@ + digits_of(n as nat),
    decreases n,
{
    let table = ['0', '1', '2', '3', '4', '5', '6', '7', '8', '9'];
    assert(table@ =~= seq!['0', '1', '2', '3', '4', '5', '6', '7', '8', '9']);
    if n >= 10 {
        push_digits(n / 10, out);
    }
    out.push(table[(n % 10) as usize]);
    assert(out@ =~= old(out)@ + digits_of(n as nat));
}

/// The magnitude of `m` and whether it is negative.
fn magnitude(m: i64) -> (r: (u64, bool))
    ensures
        r.0 as int == if m < 0 { -m } else { m as int },
        r.1 == (m < 0),
{
    if m < 0 {
        if m == i64::MIN {
            (0x8000_0000_0000_0000u64, true)
        } else {
            ((-m) as u64, true)
        }
    } else {
        (m as u64, false)
    }
}

/// The decimal text of `m / 10^k`.
#[verifier::rlimit(50)]
fn decimal_chars(m: i64, k: u32) -> (r: Vec<char>)
    requires
        k < usize::MAX - 1,
    ensures
        r@ == decimal_text(m as int, k as nat),
{
    let (mag, neg) = magnitude(m);
    let mut d: Vec<char> = Vec::new();
    push_digits(mag, &mut d);
    assert(d@ =~= digits_of(mag as nat));
    let ku = k as usize;
    let mut p: Vec<char> = Vec::new();
    if d.len() <= ku {
        let zeros = ku + 1 - d.len();
        let mut i: usize = 0;
        while i < zeros
            invariant
                i <= zeros,
                p@ =~= Seq::new(i as nat, |j: int| '0'),
            decreases zeros - i,
        {
            p.push('0');
            i = i + 1;
        }
    }
    let mut i: usize = 0;
    let ghost z = p@;
    while i < d.len()
        invariant
            i <= d@.len(),
            p@ =~= z + d@.subrange(0, i as int),
        decreases d@.len() - i,
    {
        p.push(d[i]);
        i = i + 1;
    }
    assert(d@.subrange(0, d@.len() as int) =~= d@);
    let ghost pp = p@;
    let mut r: Vec<char> = Vec::new();
    if neg {
        r.push('-');
    }
    let ghost sign = r@;
    let cut = p.len() - ku;
    let mut i: usize = 0;
    while i < p.len()
        invariant
            p@ == pp,
            pp.len() > ku,
            cut == pp.len() - ku,
            i <= pp.len(),
            i <= cut ==> r@ =~= sign + pp.subrange(0, i as int),
            i > cut ==> r@ =~= sign + pp.subrange(0, cut as int) + seq!['.'] + pp.subrange(
                cut as int,
                i as int,
            ),
            ku == 0 ==> i <= cut,
        decreases pp.len() - i,
    {
        if i == cut && ku > 0 {
            r.push('.');
        }
        r.push(p[i]);
        i = i + 1;
    }
    assert(pp.subrange(0, pp.len() as int) =~= pp);
    r
}

impl Atom {
    /// The atom's text: a string-like value or a date-time as its text, a
    /// number in decimal, a boolean as `true` or `false`, a date as
    /// `YYYY-MM-DD`.
    pub fn to_text(&self) -> (r: String)
        requires
            self@ matches Value::Dec(d) ==> d.scale < usize::MAX - 1,
        ensures
            r@ == atom_text(self@),
    {
        match self {
            Atom::String(t) => t.clone(),
            Atom::Variable(t) => t.clone(),
            Atom::DateTime(t) => t.clone(),
            Atom::Number(n) => {
                let c = decimal_chars(*n as i64, 0);
                crate::text::string_of(&c, 0, c.len())
            },
            Atom::Float(d) => {
                let c = decimal_chars(d.mantissa, d.scale);
                crate::text::string_of(&c, 0, c.len())
            },
            Atom::Boolean(b) => if *b {
                proof {
                    reveal_strlit("true");
                }
                "true".to_owned()
            } else {
                proof {
                    reveal_strlit("false");
                }
                "false".to_owned()
            },
            Atom::Date(d) => match crate::text::date_text(d.days_from_ce) {
                Some(t) => t,
                None => {
                    let c = decimal_chars(d.days_from_ce as i64, 0);
                    crate::text::string_of(&c, 0, c.len())
                },
            },
        }
    }
}

impl PartialEq for Atom {
    fn eq(&self, other: &Atom) -> (r: bool) {
        match (self.as_text(), other.as_text()) {
            (Some(a), Some(b)) => a.eq(b),
            (Some(_), None) => false,
            (None, Some(_)) => false,
            (None, None) => match (self, other) {
                (Atom::Boolean(x), Atom::Boolean(y)) => *x == *y,
                (Atom::Date(x), Atom::Date(y)) => x.days_from_ce == y.days_from_ce,
                (Atom::DateTime(x), Atom::DateTime(y)) => x.eq(y),
                _ => match self.partial_cmp(other) {
                    Some(Ordering::Equal) => true,
                    _ => false,
                },
            },
        }
    }
}

impl vstd::std_specs::cmp::PartialEqSpecImpl for Atom {
    open spec fn obeys_eq_spec() -> bool {
        true
    }

    open spec fn eq_spec(&self, other: &Atom) -> bool {
        atom_eq(self@, other@)
    }
}

impl PartialOrd for Atom {
    fn partial_cmp(&self, other: &Atom) -> (r: Option<Ordering>) {
        match (self.as_decimal(), other.as_decimal()) {
            (Some(x), Some(y)) => Some(decimal_cmp(x.0, x.1, y.0, y.1)),
            _ => None,
        }
    }
}

impl vstd::std_specs::cmp::PartialOrdSpecImpl for Atom {
    open spec fn obeys_partial_cmp_spec() -> bool {
        true
    }

    open spec fn partial_cmp_spec(&self, other: &Atom) -> Option<Ordering> {
        atom_cmp(self@, other@)
    }
}


/// A comparison operator.
#[derive(Debug, Clone, Copy, PartialEq, Eq, Structural)]
pub enum ComparisonOp {
    Eq,
    More,
    Less,
    MoreEq,
    LessEq,
    NotEq,
}

/// The comparison operator that a text spells, if any.
pub open spec fn comparison_op_of(s: Seq<char>) -> Option<ComparisonOp> {
    if s.len() == 1 {
        if s[0] == '=' {
            Some(ComparisonOp::Eq)
        } else if s[0] == '>' {
            Some(ComparisonOp::More)
        } else if s[0] == '<' {
            Some(ComparisonOp::Less)
        } else {
            None
        }
    } else if s.len() == 2 && s[1] == '=' {
        if s[0] == '=' {
            Some(ComparisonOp::Eq)
        } else if s[0] == '>' {
            Some(ComparisonOp::MoreEq)
        } else if s[0] == '<' {
            Some(ComparisonOp::LessEq)
        } else if s[0] == '!' {
            Some(ComparisonOp::NotEq)
        } else {
            None
        }
    } else if s.len() == 2 && s[0] == '<' && s[1] == '>' {
        Some(ComparisonOp::NotEq)
    } else {
        None
    }
}

impl ComparisonOp {
    /// The operator spelled by `expr`, which must be one of
    /// `==`, `=`, `>`, `>=`, `<`, `<=`, `!=`, `<>`.
    pub fn from_str(expr: &str) -> (r: Self)
        requires
            comparison_op_of(expr@) is Some,
        ensures
            comparison_op_of(expr@) == Some(r),
    {
        let c = crate::text::chars_of(expr);
        if c.len() == 1 {
            if c[0] == '=' {
                ComparisonOp::Eq
            } else if c[0] == '>' {
                ComparisonOp::More
            } else {
                ComparisonOp::Less
            }
        } else if c[1] == '=' {
            if c[0] == '=' {
                ComparisonOp::Eq
            } else if c[0] == '>' {
                ComparisonOp::MoreEq
            } else if c[0] == '<' {
                ComparisonOp::LessEq
            } else {
                ComparisonOp::NotEq
            }
        } else {
            ComparisonOp::NotEq
        }
    }
}

/// The text of a comparison operator.
pub open spec fn op_text(op: ComparisonOp) -> Seq<char> {
    match op {
        ComparisonOp::Eq => seq!['=', '='],
        ComparisonOp::More => seq!['>'],
        ComparisonOp::Less => seq!['<'],
        ComparisonOp::MoreEq => seq!['>', '='],
        ComparisonOp::LessEq => seq!['<', '='],
        ComparisonOp::NotEq => seq!['<', '>'],
    }
}

impl ComparisonOp {
    /// The operator's text: `==`, `>`, `<`, `>=`, `<=` or `<>`.
    pub fn to_text(&self) -> (r: String)
        ensures
            r@ == op_text(*self),
    {
        match self {
            ComparisonOp::Eq => {
                proof {
                    reveal_strlit("==");
                }
                "==".to_owned()
            },
            ComparisonOp::More => {
                proof {
                    reveal_strlit(">");
                }
                ">".to_owned()
            },
            ComparisonOp::Less => {
                proof {
                    reveal_strlit("<");
                }
                "<".to_owned()
            },
            ComparisonOp::MoreEq => {
                proof {
                    reveal_strlit(">=");
                }
                ">=".to_owned()
            },
            ComparisonOp::LessEq => {
                proof {
                    reveal_strlit("<=");
                }
                "<=".to_owned()
            },
            ComparisonOp::NotEq => {
                proof {
                    reveal_strlit("<>");
                }
                "<>".to_owned()
            },
        }
    }
}

/// Reading an operator's text gives the operator back.
pub proof fn lemma_op_text_round_trip(op: ComparisonOp)
    ensures
        comparison_op_of(op_text(op)) == Some(op),
{
}

/// A connective between two boolean terms.
#[derive(Debug, Clone, Copy, PartialEq, Eq, Structural)]
pub enum LogicOp {
    And,
    Or,
}

/// `c` is the letter `lower` in either case (`lower` being lower case), or is `lower` itself.
pub open spec fn same_letter(c: char, lower: char) -> bool {
    c == lower || ('a' <= lower <= 'z' && c as u32 + 32 == lower as u32)
}

/// `s` spells the lower-case word `w`, ignoring the case of ASCII letters.
pub open spec fn spells(s: Seq<char>, w: Seq<char>) -> bool {
    s.len() == w.len() && forall|i: int| 0 <= i < s.len() ==> same_letter(#[trigger] s[i], w[i])
}

/// The connective that a text spells, if any: `and` / `&&`, `or` / `||`,
/// the words in any case.
pub open spec fn logic_op_of(s: Seq<char>) -> Option<LogicOp> {
    if spells(s, seq!['a', 'n', 'd']) || s == seq!['&', '&'] {
        Some(LogicOp::And)
    } else if spells(s, seq!['o', 'r']) || s == seq!['|', '|'] {
        Some(LogicOp::Or)
    } else {
        None
    }
}

/// Whether `c` is `lower`, or its upper-case form for an ASCII letter.
pub fn is_letter(c: char, lower: char) -> (r: bool)
    ensures
        r == same_letter(c, lower),
{
    if c == lower {
        true
    } else if 'a' <= lower && lower <= 'z' {
        (c as u32) + 32 == lower as u32
    } else {
        false
    }
}

/// Whether `s[pos..pos + w.len()]` spells the lower-case word `w`.
pub fn spells_at(s: &Vec<char>, pos: usize, w: &[char]) -> (r: bool)
    requires
        pos <= s@.len(),
    ensures
        r == (pos + w@.len() <= s@.len() && spells(s@.subrange(pos as int, pos + w@.len()), w@)),
{
    if w.len() > s.len() - pos {
        return false;
    }
    let mut i: usize = 0;
    while i < w.len()
        invariant
            i <= w@.len(),
            pos + w@.len() <= s.len(),
            forall|j: int| 0 <= j < i ==> same_letter(s@[pos + j], w@[j]),
        decreases w@.len() - i,
    {
        if !is_letter(s[pos + i], w[i]) {
            assert(!same_letter(s@.subrange(pos as int, pos + w@.len())[i as int], w@[i as int]));
            return false;
        }
        i = i + 1;
    }
    assert forall|j: int| 0 <= j < w@.len() implies same_letter(
        #[trigger] s@.subrange(pos as int, pos + w@.len())[j],
        w@[j],
    ) by {
        assert(s@.subrange(pos as int, pos + w@.len())[j] == s@[pos + j]);
    }
    true
}

impl LogicOp {
    /// The connective spelled by `i`, which must be `and`, `&&`, `or` or `||`
    /// (the words in any case).
    pub fn from_str(i: &str) -> (r: Self)
        requires
            logic_op_of(i@) is Some,
        ensures
            logic_op_of(i@) == Some(r),
    {
        let c = crate::text::chars_of(i);
        assert(c@.subrange(0, c@.len() as int) =~= c@);
        if spells_at(&c, 0, &['a', 'n', 'd']) {
            assert(seq!['a', 'n', 'd'] =~= ['a', 'n', 'd']@);
            LogicOp::And
        } else if c.len() == 2 && c[0] == '&' {
            assert(['a', 'n', 'd']@ =~= seq!['a', 'n', 'd']);
            assert(c@ =~= seq!['&', '&']);
            LogicOp::And
        } else {
            assert(['a', 'n', 'd']@ =~= seq!['a', 'n', 'd']);
            LogicOp::Or
        }
    }
}

/// A membership test.
#[derive(Debug, Clone, Copy, PartialEq, Eq, Structural)]
pub enum ArrayOp {
    In,
    NotIn,
}

/// A case-folding function.
#[derive(Debug, Clone, Copy, PartialEq, Eq, Structural)]
pub enum FnCall {
    Upper,
    Lower,
}

/// A node of the expression tree.
#[derive(Debug, PartialEq)]
pub enum AstNode {
    Void,
    Variable(Atom),
    Function(FnCall, Box<AstNode>),
    Constant(Atom),
    List(Vec<Atom>),
    Compare(Box<AstNode>, ComparisonOp, Box<AstNode>),
    Array(Box<AstNode>, ArrayOp, Box<AstNode>),
    Logic(Box<AstNode>, LogicOp, Box<AstNode>),
    Scope { expr: Box<AstNode>, negate: bool },
}

/// The mathematical content of an `AstNode`.
pub enum Tree {
    Void,
    Var(Value),
    Func(FnCall, Box<Tree>),
    Const(Value),
    List(Seq<Value>),
    Compare(Box<Tree>, ComparisonOp, Box<Tree>),
    Array(Box<Tree>, ArrayOp, Box<Tree>),
    Logic(Box<Tree>, LogicOp, Box<Tree>),
    Scope(Box<Tree>, bool),
}

/// The values of a list of atoms.
pub open spec fn values_of(items: Seq<Atom>) -> Seq<Value> {
    items.map_values(|a: Atom| a@)
}

/// The content of a node.
pub open spec fn tree_of(n: AstNode) -> Tree
    decreases n,
{
    match n {
        AstNode::Void => Tree::Void,
        AstNode::Variable(a) => Tree::Var(a@),
        AstNode::Function(f, x) => Tree::Func(f, Box::new(tree_of(*x))),
        AstNode::Constant(a) => Tree::Const(a@),
        AstNode::List(items) => Tree::List(values_of(items@)),
        AstNode::Compare(l, op, r) => Tree::Compare(Box::new(tree_of(*l)), op, Box::new(tree_of(*r))),
        AstNode::Array(l, op, r) => Tree::Array(Box::new(tree_of(*l)), op, Box::new(tree_of(*r))),
        AstNode::Logic(l, op, r) => Tree::Logic(Box::new(tree_of(*l)), op, Box::new(tree_of(*r))),
        AstNode::Scope { expr, negate } => Tree::Scope(Box::new(tree_of(*expr)), negate),
    }
}

impl Clone for AstNode {
    fn clone(&self) -> Self {
        self.duplicate()
    }
}

/// The name or text that a node carries: that of a variable reference, or of a
/// string-like constant.
pub open spec fn name_of(n: AstNode) -> Option<Seq<char>> {
    match n {
        AstNode::Variable(Atom::Variable(s)) => Some(s@),
        AstNode::Constant(Atom::String(s)) => Some(s@),
        AstNode::Constant(Atom::Variable(s)) => Some(s@),
        _ => None,
    }
}

/// A copy of a list of atoms with the same values.
fn duplicate_atoms(items: &Vec<Atom>) -> (r: Vec<Atom>)
    ensures
        values_of(r@) == values_of(items@),
{
    let mut r: Vec<Atom> = Vec::new();
    let mut i: usize = 0;
    while i < items.len()
        invariant
            i <= items@.len(),
            values_of(r@) =~= values_of(items@.subrange(0, i as int)),
        decreases items@.len() - i,
    {
        let a = items[i].duplicate();
        let ghost before = r@;
        r.push(a);
        assert(values_of(r@) =~= values_of(before).push(a@));
        assert(items@.subrange(0, i + 1) =~= items@.subrange(0, i as int).push(items@[i as int]));
        i = i + 1;
    }
    assert(items@.subrange(0, items@.len() as int) =~= items@);
    r
}

impl AstNode {
    /// A copy of the tree with the same content.
    pub fn duplicate(&self) -> (r: AstNode)
        ensures
            tree_of(r) == tree_of(*self),
        decreases self,
    {
        match self {
            AstNode::Void => AstNode::Void,
            AstNode::Variable(a) => AstNode::Variable(a.duplicate()),
            AstNode::Function(f, x) => AstNode::Function(*f, Box::new(x.duplicate())),
            AstNode::Constant(a) => AstNode::Constant(a.duplicate()),
            AstNode::List(items) => AstNode::List(duplicate_atoms(items)),
            AstNode::Compare(l, op, r) => AstNode::Compare(Box::new(l.duplicate()), *op, Box::new(r.duplicate())),
            AstNode::Array(l, op, r) => AstNode::Array(Box::new(l.duplicate()), *op, Box::new(r.duplicate())),
            AstNode::Logic(l, op, r) => AstNode::Logic(Box::new(l.duplicate()), *op, Box::new(r.duplicate())),
            AstNode::Scope { expr, negate } => AstNode::Scope { expr: Box::new(expr.duplicate()), negate: *negate },
        }
    }

    /// The name of a variable reference or the text of a string-like constant.
    pub fn as_str(&self) -> (r: Option<&str>)
        ensures
            r is Some <==> name_of(*self) is Some,
            r matches Some(t) ==> name_of(*self) == Some(t@),
    {
        match self {
            AstNode::Variable(Atom::Variable(s)) => Some(s.as_str()),
            AstNode::Constant(Atom::String(s)) => Some(s.as_str()),
            AstNode::Constant(Atom::Variable(s)) => Some(s.as_str()),
            _ => None,
        }
    }
}


/// A quoted string and a bare word with the same text are equal, either way round.
pub proof fn lemma_text_equality(t: Seq<char>)
    ensures
        atom_eq(Value::Str(t), Value::Var(t)),
        atom_eq(Value::Var(t), Value::Str(t)),
{
}

/// An integer compares with a decimal as its exact value: `n` stands to
/// `m / 10^s` as `n * 10^s` stands to `m`.
pub proof fn lemma_widening(n: i32, d: Decimal)
    ensures
        atom_cmp(Value::Int(n), Value::Dec(d)) == Some(order_of(n * pow10(d.scale as nat), d.mantissa as int)),
        atom_eq(Value::Int(n), Value::Dec(d)) == (n * pow10(d.scale as nat) == d.mantissa),
{
    assert(pow10(0) == 1);
}

} // verus!
