use vstd::prelude::*;

verus! {

/// Rust's `/` on integers: the quotient rounded toward zero.
pub open spec fn trunc_div(a: int, b: int) -> int {
    if a == 0 {
        0
    } else if a > 0 && b > 0 {
        a / b
    } else if a < 0 && b < 0 {
        (-a) / (-b)
    } else if a < 0 {
        -((-a) / b)
    } else {
        -(a / (-b))
    }
}

/// Rust's `%` on integers: the remainder that goes with `trunc_div`, which
/// has the sign of `a`.
pub open spec fn trunc_rem(a: int, b: int) -> int {
    if a == 0 {
        0
    } else if a > 0 && b > 0 {
        a % b
    } else if a < 0 && b < 0 {
        -((-a) % (-b))
    } else if a < 0 {
        -((-a) % b)
    } else {
        a % (-b)
    }
}

proof fn lemma_quotient_bounded(x: int, d: int)
    ensures
        x >= 0 && d >= 1 ==> 0 <= x / d <= x,
        x >= 0 && d >= 2 ==> 2 * (x / d) <= x,
{
    if x >= 0 && d >= 1 {
        assert(0 <= x / d <= x) by (nonlinear_arith)
            requires
                x >= 0,
                d >= 1,
        ;
    }
    if x >= 0 && d >= 2 {
        assert(2 * (x / d) <= x) by (nonlinear_arith)
            requires
                x >= 0,
                d >= 2,
        ;
    }
}

/// The quotient of `a` by `b`, rounded toward zero.
fn quotient(a: i32, b: i32) -> (r: i32)
    requires
        b != 0,
        !(a == i32::MIN && b == -1),
    ensures
        r == trunc_div(a as int, b as int),
{
    proof {
        lemma_quotient_bounded(a as int, b as int);
        lemma_quotient_bounded(-(a as int), b as int);
        lemma_quotient_bounded(a as int, -(b as int));
        lemma_quotient_bounded(-(a as int), -(b as int));
    }
    match a.checked_div(b) {
        Some(q) => q,
        None => 0,
    }
}

/// The remainder of `a` by `b`, with the sign of `a`.
fn remainder(a: i32, b: i32) -> (r: i32)
    requires
        b != 0,
        !(a == i32::MIN && b == -1),
    ensures
        r == trunc_rem(a as int, b as int),
{
    match a.checked_rem(b) {
        Some(m) => m,
        None => 0,
    }
}

/// Hands a new string to the caller, which then owns it.
pub fn gives_ownership() -> (r: String)
    ensures
        r@ == "返回的字符串"@,
{
    let some_string = "返回的字符串".to_owned();
    some_string
}

/// The length of `s` in bytes, read through a shared reference.
pub fn calculate_length(s: &String) -> (r: usize)
    ensures
        r == vstd::utf8::encode_utf8(s@).len() as usize,
{
    s.as_str().len()
}

/// Appends ", world" to `some_string` through a mutable reference.
pub fn change(some_string: &mut String)
    ensures
        final(some_string)@ == old(some_string)@ + ", world"@,
{
    some_string.append(", world");
}

/// The first word of `s`: the characters before its first space, or the
/// whole of `s` where it has none.
pub fn first_word(s: &String) -> (r: &str)
    ensures
        r@.len() <= s@.len(),
        r@ == s@.subrange(0, r@.len() as int),
        forall|j: int| 0 <= j < r@.len() ==> r@[j] != ' ',
        r@.len() < s@.len() ==> s@[r@.len() as int] == ' ',
{
    let text = s.as_str();
    let n = text.unicode_len();
    let mut i: usize = 0;
    while i < n
        invariant
            text@ == s@,
            n == s@.len(),
            i <= n,
            forall|j: int| 0 <= j < i ==> s@[j] != ' ',
        decreases n - i,
    {
        if text.get_char(i) == ' ' {
            return text.substring_char(0, i);
        }
        i = i + 1;
    }
    text.substring_char(0, n)
}

/// `x` plus one.
pub fn add_one(x: i32) -> (r: i32)
    requires
        x < i32::MAX,
    ensures
        r == x + 1,
{
    x + 1
}

/// The sum of `a` and `b`.
pub fn add(a: i32, b: i32) -> (r: i32)
    requires
        i32::MIN <= a + b <= i32::MAX,
    ensures
        r == a + b,
{
    a + b
}

/// The product of `a` and `b`.
pub fn multiply(a: i32, b: i32) -> (r: i32)
    requires
        i32::MIN <= a * b <= i32::MAX,
    ensures
        r == a * b,
{
    a * b
}

/// Appends ", world!" to `s` through a mutable reference.
pub fn modify_string(s: &mut String)
    ensures
        final(s)@ == old(s)@ + ", world!"@,
{
    s.append(", world!");
}

/// What `calculate` gives for `a`, `b` and the operator `op`: an operator
/// other than the four of arithmetic gives zero.
pub open spec fn calculation(a: int, b: int, op: char) -> int {
    if op == '+' {
        a + b
    } else if op == '-' {
        a - b
    } else if op == '*' {
        a * b
    } else if op == '/' {
        trunc_div(a, b)
    } else {
        0
    }
}

/// Whether `calculate` can compute `a op b` as an `i32`.
pub open spec fn calculation_defined(a: int, b: int, op: char) -> bool {
    &&& op == '/' ==> b != 0
    &&& i32::MIN <= calculation(a, b, op) <= i32::MAX
}

/// Applies the operator `op` to `a` and `b`.
pub fn calculate(a: i32, b: i32, op: char) -> (r: i32)
    requires
        calculation_defined(a as int, b as int, op),
    ensures
        r == calculation(a as int, b as int, op),
{
    match op {
        '+' => a + b,
        '-' => a - b,
        '*' => a * b,
        '/' => quotient(a, b),
        _ => 0,
    }
}

/// Twice `x`, returned as the value of the body's last expression.
pub fn implicit_return(x: i32) -> (r: i32)
    requires
        i32::MIN <= 2 * x <= i32::MAX,
    ensures
        r == 2 * x,
{
    x * 2
}

/// Three times `x`, returned by a `return` statement.
pub fn explicit_return(x: i32) -> (r: i32)
    requires
        i32::MIN <= 3 * x <= i32::MAX,
    ensures
        r == 3 * x,
{
    return x * 3;
}

/// Zero for a negative `x`, and twice `x` otherwise.
pub fn early_return(x: i32) -> (r: i32)
    requires
        x < 0 || 2 * x <= i32::MAX,
    ensures
        r == (if x < 0 {
            0
        } else {
            2 * x
        }),
{
    if x < 0 {
        return 0;
    }
    x * 2
}

/// The quotient and the remainder of `dividend` by `divisor`.
pub fn divide_with_remainder(dividend: i32, divisor: i32) -> (r: (i32, i32))
    requires
        divisor != 0,
        !(dividend == i32::MIN && divisor == -1),
    ensures
        r.0 == trunc_div(dividend as int, divisor as int),
        r.1 == trunc_rem(dividend as int, divisor as int),
{
    (quotient(dividend, divisor), remainder(dividend, divisor))
}

/// The quotient of `a` by `b`, or `None` where `b` is zero.
pub fn safe_divide(a: i32, b: i32) -> (r: Option<i32>)
    requires
        !(a == i32::MIN && b == -1),
    ensures
        r is None <==> b == 0,
        r matches Some(q) ==> q == trunc_div(a as int, b as int),
{
    if b == 0 {
        None
    } else {
        Some(quotient(a, b))
    }
}

pub open spec fn is_digit(c: char) -> bool {
    '0' <= c && c <= '9'
}

/// The value of a run of decimal digits.
pub open spec fn digits_value(d: Seq<char>) -> int
    decreases d.len(),
{
    if d.len() == 0 {
        0
    } else {
        10 * digits_value(d.drop_last()) + (d.last() as int - '0' as int)
    }
}

/// The `i32` that `s` writes in decimal: an optional `+` or `-`, then one or
/// more digits and nothing else, of a value that fits in an `i32`.
pub open spec fn decimal_i32(s: Seq<char>) -> Option<i32> {
    let signed = s.len() > 0 && (s[0] == '-' || s[0] == '+');
    let digits = if signed {
        s.drop_first()
    } else {
        s
    };
    let v = if signed && s[0] == '-' {
        -digits_value(digits)
    } else {
        digits_value(digits)
    };
    if digits.len() == 0 || !(forall|i: int| 0 <= i < digits.len() ==> is_digit(#[trigger] digits[i])) {
        None
    } else if i32::MIN <= v <= i32::MAX {
        Some(v as i32)
    } else {
        None
    }
}

/// Relies on `str::parse::<i32>` (`i32::from_str`), which accepts an
/// optional `+` or `-` followed by decimal digits whose value fits in an
/// `i32`, and refuses anything else.
#[verifier::external_body]
fn parse_i32(s: &str) -> (r: Option<i32>)
    ensures
        r == decimal_i32(s@),
{
    s.parse::<i32>().ok()
}

/// Parses `s` as a decimal `i32`, or explains that it cannot.
pub fn parse_number(s: &str) -> (r: Result<i32, &'static str>)
    ensures
        decimal_i32(s@) matches Some(n) ==> r == Ok::<i32, &'static str>(n),
        decimal_i32(s@) is None ==> r is Err && r->Err_0@ == "无法解析为数字"@,
{
    match parse_i32(s) {
        Some(num) => Ok(num),
        None => Err("无法解析为数字"),
    }
}

/// Calls `op` on `a` and `b`.
pub fn apply_operation<F: Fn(i32, i32) -> i32>(a: i32, b: i32, op: F) -> (r: i32)
    requires
        op.requires((a, b)),
    ensures
        op.ensures((a, b), r),
{
    op(a, b)
}

/// A binary operation on `i32` that `get_operation` can hand out.
#[derive(Debug, Clone, Copy, PartialEq, Eq, Structural)]
pub enum Operation {
    Add,
    Multiply,
}

impl Operation {
    pub open spec fn result(self, a: int, b: int) -> int {
        match self {
            Operation::Add => a + b,
            Operation::Multiply => a * b,
        }
    }

    /// Applies the operation to `a` and `b`.
    pub fn apply(self, a: i32, b: i32) -> (r: i32)
        requires
            i32::MIN <= self.result(a as int, b as int) <= i32::MAX,
        ensures
            r == self.result(a as int, b as int),
    {
        match self {
            Operation::Add => crate::demos::add(a, b),
            Operation::Multiply => multiply(a, b),
        }
    }
}

/// The operation that `op` names: multiplication for `*`, and addition for
/// `+` and for any other character.
pub fn get_operation(op: char) -> (r: Operation)
    ensures
        r == (if op == '*' {
            Operation::Multiply
        } else {
            Operation::Add
        }),
{
    match op {
        '+' => Operation::Add,
        '*' => Operation::Multiply,
        _ => Operation::Add,
    }
}

/// The letter grade of a score: A from 90 to 100, B from 80, C from 70,
/// D from 60, and F for anything else.
pub fn letter_grade(score: i32) -> (r: &'static str)
    ensures
        r@ == (if 90 <= score <= 100 {
            "A"@
        } else if 80 <= score <= 89 {
            "B"@
        } else if 70 <= score <= 79 {
            "C"@
        } else if 60 <= score <= 69 {
            "D"@
        } else {
            "F"@
        }),
{
    if 90 <= score && score <= 100 {
        "A"
    } else if 80 <= score && score <= 89 {
        "B"
    } else if 70 <= score && score <= 79 {
        "C"
    } else if 60 <= score && score <= 69 {
        "D"
    } else {
        "F"
    }
}

} // verus!
