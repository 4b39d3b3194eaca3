//! A two-component vector, and its text form `(x, y)`.
use vstd::prelude::*;

verus! {

/// A pair of values, `x` and `y`.
#[derive(Debug, Clone, Copy, PartialEq, Eq, Structural)]
pub struct Vector2<T> {
    pub x: T,
    pub y: T,
}

/// The character of a decimal digit `d < 10`.
pub open spec fn digit_char(d: nat) -> char {
    seq!['0', '1', '2', '3', '4', '5', '6', '7', '8', '9'][d as int]
}

/// The decimal notation of `n`: no sign, no leading zeros, `"0"` for zero.
pub open spec fn decimal(n: nat) -> Seq<char>
    decreases n,
{
    if n < 10 {
        seq![digit_char(n)]
    } else {
        decimal(n / 10).push(digit_char(n % 10))
    }
}

/// The text form of a vector whose components read `xs` and `ys`: `(xs, ys)`.
pub open spec fn pair_text(xs: Seq<char>, ys: Seq<char>) -> Seq<char> {
    seq!['('] + xs + seq![',', ' '] + ys + seq![')']
}

/// A one-character string holding the digit `d`.
fn digit_str(d: u64) -> (r: &'static str)
    requires
        d < 10,
    ensures
        r@ == seq![digit_char(d as nat)],
{
    proof {
        reveal_strlit("0");
        reveal_strlit("1");
        reveal_strlit("2");
        reveal_strlit("3");
        reveal_strlit("4");
        reveal_strlit("5");
        reveal_strlit("6");
        reveal_strlit("7");
        reveal_strlit("8");
        reveal_strlit("9");
    }
    match d {
        0 => "0",
        1 => "1",
        2 => "2",
        3 => "3",
        4 => "4",
        5 => "5",
        6 => "6",
        7 => "7",
        8 => "8",
        _ => "9",
    }
}

/// Appends the decimal notation of `n` to `s`.
fn push_decimal(s: &mut String, n: u64)
    ensures
        final(s)@ == old(s)@ + decimal(n as nat),
    decreases n,
{
    if n >= 10 {
        push_decimal(s, n / 10);
    }
    s.append(digit_str(n % 10));
    assert(n >= 10 ==> (n / 10) as nat == (n as nat) / 10);
}

/// Writes `(x, y)` from the decimal notations of the two components.
fn pair_string(x: u64, y: u64) -> (r: String)
    ensures
        r@ == pair_text(decimal(x as nat), decimal(y as nat)),
{
    proof {
        reveal_strlit("(");
        reveal_strlit(", ");
        reveal_strlit(")");
    }
    let mut s = String::new();
    s.append("(");
    push_decimal(&mut s, x);
    s.append(", ");
    push_decimal(&mut s, y);
    s.append(")");
    assert(s@ =~= pair_text(decimal(x as nat), decimal(y as nat)));
    s
}

impl Vector2<u8> {
    /// The vector as text, `(x, y)` with both components in decimal.
    pub fn to_string(&self) -> (r: String)
        ensures
            r@ == pair_text(decimal(self.x as nat), decimal(self.y as nat)),
    {
        pair_string(self.x as u64, self.y as u64)
    }
}

impl Vector2<u32> {
    /// The vector as text, `(x, y)` with both components in decimal.
    pub fn to_string(&self) -> (r: String)
        ensures
            r@ == pair_text(decimal(self.x as nat), decimal(self.y as nat)),
    {
        pair_string(self.x as u64, self.y as u64)
    }
}

} // verus!
