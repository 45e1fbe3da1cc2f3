//! Text of numbers and identifiers, and the joining of text.

use vstd::arithmetic::div_mod::{
    lemma_div_denominator, lemma_div_pos_is_pos, lemma_fundamental_div_mod,
};
use vstd::arithmetic::power::{lemma_pow0, lemma_pow_positive, pow};
use vstd::prelude::*;
use vstd::string::*;

verus! {

/// The character that stands for one digit in base sixteen (and so in base ten).
pub open spec fn digit_char(d: nat) -> char {
    if d == 0 { '0' }
    else if d == 1 { '1' }
    else if d == 2 { '2' }
    else if d == 3 { '3' }
    else if d == 4 { '4' }
    else if d == 5 { '5' }
    else if d == 6 { '6' }
    else if d == 7 { '7' }
    else if d == 8 { '8' }
    else if d == 9 { '9' }
    else if d == 10 { 'a' }
    else if d == 11 { 'b' }
    else if d == 12 { 'c' }
    else if d == 13 { 'd' }
    else if d == 14 { 'e' }
    else { 'f' }
}

/// A number in base ten, without leading zeros.
pub open spec fn decimal(n: nat) -> Seq<char>
    decreases n,
{
    if n < 10 {
        seq![digit_char(n)]
    } else {
        decimal(n / 10).push(digit_char(n % 10))
    }
}

/// The `place`-th hexadecimal digit of a 128-bit value, counted from the most
/// significant one.
pub open spec fn hex_place(value: u128, place: int) -> nat {
    ((value as int / pow(16, (31 - place) as nat)) % 16) as nat
}

/// Where the hyphens of an identifier's text stand.
pub open spec fn is_hyphen_place(i: int) -> bool {
    i == 8 || i == 13 || i == 18 || i == 23
}

/// How many hyphens stand before position `i` of an identifier's text.
pub open spec fn hyphens_before(i: int) -> int {
    if i <= 8 { 0 } else if i <= 13 { 1 } else if i <= 18 { 2 } else if i <= 23 { 3 } else { 4 }
}

/// The hyphenated text of a 128-bit identifier: thirty-two lower-case
/// hexadecimal digits in groups of 8, 4, 4, 4 and 12.
pub open spec fn uuid_text(value: u128) -> Seq<char> {
    Seq::new(
        36,
        |i: int|
            if is_hyphen_place(i) {
                '-'
            } else {
                digit_char(hex_place(value, i - hyphens_before(i)))
            },
    )
}

proof fn lemma_digit_char_injective(a: nat, b: nat)
    requires
        a < 16,
        b < 16,
        digit_char(a) == digit_char(b),
    ensures
        a == b,
{
}

proof fn lemma_places_fix_prefix(a: u128, b: u128, place: int)
    requires
        0 <= place < 32,
        forall|p: int| 0 <= p < 32 ==> hex_place(a, p) == hex_place(b, p),
    ensures
        a as int / pow(16, (31 - place) as nat) == b as int / pow(16, (31 - place) as nat),
    decreases place,
{
    let e = (31 - place) as nat;
    let x = a as int;
    let y = b as int;
    lemma_pow_positive(16, e);
    assert(hex_place(a, place) == hex_place(b, place));
    if place == 0 {
        assert(pow(16, 31) == 0x10000000000000000000000000000000) by {
            reveal(pow);
            assert(pow(16, 31) == 0x10000000000000000000000000000000) by {
                reveal_with_fuel(pow, 32);
            }
        }
        assert(x / pow(16, 31) < 16) by (nonlinear_arith)
            requires
                x <= 0xffffffffffffffffffffffffffffffff,
                pow(16, 31) == 0x10000000000000000000000000000000,
        ;
        assert(y / pow(16, 31) < 16) by (nonlinear_arith)
            requires
                y <= 0xffffffffffffffffffffffffffffffff,
                pow(16, 31) == 0x10000000000000000000000000000000,
        ;
        lemma_div_pos_is_pos(x, pow(16, 31));
        lemma_div_pos_is_pos(y, pow(16, 31));
    } else {
        lemma_places_fix_prefix(a, b, place - 1);
        let up = (e + 1) as nat;
        assert(pow(16, up) == 16 * pow(16, e)) by {
            reveal(pow);
        }
        lemma_div_denominator(x, pow(16, e), 16);
        lemma_div_denominator(y, pow(16, e), 16);
        assert(pow(16, e) * 16 == pow(16, up));
        lemma_fundamental_div_mod(x / pow(16, e), 16);
        lemma_fundamental_div_mod(y / pow(16, e), 16);
        lemma_div_pos_is_pos(x, pow(16, e));
        lemma_div_pos_is_pos(y, pow(16, e));
    }
}

/// Different identifiers have different texts: a map keyed by an identifier's
/// text and one keyed by its value hold the same entries.
pub proof fn uuid_text_is_injective(a: u128, b: u128)
    requires
        uuid_text(a) == uuid_text(b),
    ensures
        a == b,
{
    assert forall|p: int| 0 <= p < 32 implies hex_place(a, p) == hex_place(b, p) by {
        let i = if p < 8 { p } else if p < 12 { p + 1 } else if p < 16 { p + 2 } else if p < 20 {
            p + 3
        } else {
            p + 4
        };
        assert(i - hyphens_before(i) == p);
        assert(uuid_text(a)[i] == digit_char(hex_place(a, p)));
        assert(uuid_text(b)[i] == digit_char(hex_place(b, p)));
        lemma_digit_char_injective(hex_place(a, p), hex_place(b, p));
    }
    lemma_places_fix_prefix(a, b, 31);
    lemma_pow0(16);
    assert(a as int / 1 == a as int);
    assert(b as int / 1 == b as int);
}

/// Different numbers have different texts.
pub proof fn decimal_is_injective(a: nat, b: nat)
    requires
        decimal(a) == decimal(b),
    ensures
        a == b,
    decreases a,
{
    lemma_decimal_len(a);
    lemma_decimal_len(b);
    assert(decimal(a).last() == digit_char(a % 10));
    assert(decimal(b).last() == digit_char(b % 10));
    lemma_digit_char_injective(a % 10, b % 10);
    if a >= 10 {
        assert(decimal(a).drop_last() =~= decimal(a / 10));
        assert(b >= 10);
        assert(decimal(b).drop_last() =~= decimal(b / 10));
        decimal_is_injective(a / 10, b / 10);
    }
}

/// The number that digits in base ten stand for, the most significant one first.
pub open spec fn decimal_value(digits: Seq<char>) -> int
    decreases digits.len(),
{
    if digits.len() == 0 {
        0
    } else {
        10 * decimal_value(digits.drop_last()) + (digits.last() as int - '0' as int)
    }
}

/// The text of a number is made of digits, without leading zeros, and stands for the
/// number.
pub proof fn decimal_stands_for_the_number(n: nat)
    ensures
        decimal(n).len() >= 1,
        forall|i: int| 0 <= i < decimal(n).len() ==> '0' <= #[trigger] decimal(n)[i] <= '9',
        decimal(n).len() > 1 ==> decimal(n)[0] != '0',
        decimal_value(decimal(n)) == n,
    decreases n,
{
    lemma_decimal_len(n);
    assert forall|d: nat| d < 10 implies #[trigger] digit_char(d) as int == '0' as int + d by {}
    if n < 10 {
        assert(decimal(n).drop_last() =~= Seq::<char>::empty());
        assert(decimal_value(decimal(n)) == 10 * decimal_value(decimal(n).drop_last()) + (
        decimal(n).last() as int - '0' as int));
        assert(digit_char(n) as int == '0' as int + n);
    } else {
        decimal_stands_for_the_number(n / 10);
        assert(decimal(n).drop_last() =~= decimal(n / 10));
        assert(digit_char(n % 10) as int == '0' as int + n % 10);
        assert forall|i: int| 0 <= i < decimal(n).len() implies '0' <= #[trigger] decimal(n)[i]
            <= '9' by {
            if i < decimal(n).len() - 1 {
                assert(decimal(n)[i] == decimal(n / 10)[i]);
            }
        }
        assert(decimal(n)[0] == decimal(n / 10)[0]);
        if decimal(n / 10).len() == 1 {
            lemma_decimal_len(n / 10);
            assert(digit_char(n / 10) as int == '0' as int + n / 10);
        }
    }
}

proof fn lemma_decimal_len(n: nat)
    ensures
        decimal(n).len() >= 1,
        decimal(n).len() == 1 <==> n < 10,
    decreases n,
{
    if n >= 10 {
        lemma_decimal_len(n / 10);
    }
}

/// The text of `uuid::Uuid::from_u128(value)`.  The contract says that it is
/// the hyphenated lower-case form of the value, most significant digit first.
#[verifier::external_body]
pub(crate) fn uuid_to_text(value: u128) -> (s: String)
    ensures
        s@ == uuid_text(value),
{
    uuid::Uuid::from_u128(value).to_string()
}

fn digit_str(d: u64) -> (s: &'static str)
    requires
        d < 10,
    ensures
        s@ == seq![digit_char(d as nat)],
{
    proof {
        reveal_strlit("0");
        reveal_strlit("1");
        reveal_strlit("2");
        reveal_strlit("3");
        reveal_strlit("4");
        reveal_strlit("5");
        reveal_strlit("6");
        reveal_strlit("7");
        reveal_strlit("8");
        reveal_strlit("9");
    }
    let s = match d {
        0 => "0",
        1 => "1",
        2 => "2",
        3 => "3",
        4 => "4",
        5 => "5",
        6 => "6",
        7 => "7",
        8 => "8",
        _ => "9",
    };
    assert(s@ =~= seq![digit_char(d as nat)]);
    s
}

/// The text of a number in base ten.
pub fn decimal_text(n: u64) -> (s: String)
    ensures
        s@ == decimal(n as nat),
    decreases n,
{
    if n < 10 {
        digit_str(n).to_owned()
    } else {
        let mut s = decimal_text(n / 10);
        let ghost head = s@;
        s.append(digit_str(n % 10));
        assert(s@ =~= head.push(digit_char((n % 10) as nat)));
        s
    }
}

/// Joins two pieces of text.
pub fn join2(a: &str, b: &str) -> (s: String)
    ensures
        s@ == a@ + b@,
{
    let mut s = a.to_owned();
    s.append(b);
    s
}

/// Joins three pieces of text.
pub fn join3(a: &str, b: &str, c: &str) -> (s: String)
    ensures
        s@ == a@ + b@ + c@,
{
    let mut s = join2(a, b);
    s.append(c);
    s
}

/// Joins four pieces of text.
pub fn join4(a: &str, b: &str, c: &str, d: &str) -> (s: String)
    ensures
        s@ == a@ + b@ + c@ + d@,
{
    let mut s = join3(a, b, c);
    s.append(d);
    s
}

/// Joins five pieces of text.
pub fn join5(a: &str, b: &str, c: &str, d: &str, e: &str) -> (s: String)
    ensures
        s@ == a@ + b@ + c@ + d@ + e@,
{
    let mut s = join4(a, b, c, d);
    s.append(e);
    s
}

/// Whether two pieces of text are the same.
pub fn same_text(a: &str, b: &str) -> (r: bool)
    ensures
        r == (a@ == b@),
{
    a.to_owned() == b.to_owned()
}

/// Whether a text contains another one at a position.
pub open spec fn stands_at(text: Seq<char>, part: Seq<char>, at: int) -> bool {
    0 <= at && at + part.len() <= text.len() && text.subrange(at, at + part.len()) == part
}

/// Whether a text contains another one.
pub open spec fn contains_text(text: Seq<char>, part: Seq<char>) -> bool {
    exists|at: int| stands_at(text, part, at)
}

/// Whether a text contains another one.
pub fn text_contains(text: &str, part: &str) -> (r: bool)
    ensures
        r == contains_text(text@, part@),
{
    let n = text.unicode_len();
    let m = part.unicode_len();
    if m > n {
        return false;
    }
    let mut at: usize = 0;
    while at <= n - m
        invariant
            n == text@.len(),
            m == part@.len(),
            m <= n,
            at <= n - m + 1,
            forall|k: int| 0 <= k < at ==> !stands_at(text@, part@, k),
        decreases n - at,
    {
        let mut i: usize = 0;
        while i < m && text.get_char(at + i) == part.get_char(i)
            invariant
                n == text@.len(),
                m == part@.len(),
                at + m <= n,
                i <= m,
                forall|j: int| 0 <= j < i ==> text@[at + j] == #[trigger] part@[j],
            decreases m - i,
        {
            i = i + 1;
        }
        if i == m {
            assert(text@.subrange(at as int, at + m) =~= part@);
            assert(stands_at(text@, part@, at as int));
            return true;
        }
        proof {
            if stands_at(text@, part@, at as int) {
                assert(text@.subrange(at as int, at + m)[i as int] == part@[i as int]);
            }
        }
        if at == n - m {
            return false;
        }
        at = at + 1;
    }
    false
}

/// A text that is put together contains each of its parts.
pub proof fn joined_text_contains_its_parts(head: Seq<char>, part: Seq<char>, tail: Seq<char>)
    ensures
        contains_text(head + part + tail, part),
        contains_text(head + part, part),
        contains_text(part + tail, part),
{
    let n = head.len() as int;
    assert((head + part + tail).subrange(n, n + part.len()) =~= part);
    assert(stands_at(head + part + tail, part, n));
    assert((head + part).subrange(n, n + part.len()) =~= part);
    assert(stands_at(head + part, part, n));
    assert((part + tail).subrange(0, part.len() as int) =~= part);
    assert(stands_at(part + tail, part, 0));
}

} // verus!
