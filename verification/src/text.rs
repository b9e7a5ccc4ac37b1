//! Small verified operations on text: characters of a string, prefixes,
//! substrings, decimal numbers.

use vstd::prelude::*;
use vstd::string::*;

verus! {

/// The characters of `s`, in order.
pub fn chars_of(s: &str) -> (r: Vec<char>)
    ensures
        r@ == s@,
{
    let mut out: Vec<char> = Vec::new();
    for c in it: s.chars()
        invariant
            out@ == it.seq().take(it.index() as int),
            it.seq() == s@,
    {
        out.push(c);
    }
    out
}

/// Whether `prefix` is an initial part of `s`.
pub open spec fn is_prefix(prefix: Seq<char>, s: Seq<char>) -> bool {
    prefix.len() <= s.len() && s.take(prefix.len() as int) == prefix
}

/// Whether `s` begins with `prefix`.
pub fn starts_with(s: &str, prefix: &str) -> (r: bool)
    ensures
        r == is_prefix(prefix@, s@),
{
    let a = chars_of(s);
    let p = chars_of(prefix);
    if p.len() > a.len() {
        return false;
    }
    let mut i: usize = 0;
    while i < p.len()
        invariant
            i <= p.len() <= a.len(),
            a@ == s@,
            p@ == prefix@,
            forall|j: int| 0 <= j < i ==> a@[j] == p@[j],
        decreases p.len() - i,
    {
        if a[i] != p[i] {
            assert(s@.take(p@.len() as int)[i as int] != prefix@[i as int]);
            return false;
        }
        i += 1;
    }
    assert(s@.take(prefix@.len() as int) =~= prefix@);
    true
}

/// Whether `c` is the character `lower`, in lower or upper case.
pub open spec fn either_case(c: char, lower: char) -> bool {
    c == lower || ('A' as int <= c as int <= 'Z' as int && c as int + 32 == lower as int)
}

fn is_either_case(c: char, lower: char) -> (r: bool)
    ensures
        r == either_case(c, lower),
{
    let code = c as u32;
    c == lower || ('A' as u32 <= code && code <= 'Z' as u32 && code + 32 == lower as u32)
}

/// Whether `s` begins with `prefix`, which is in lower case, whatever the case
/// of its own letters.
pub open spec fn is_prefix_in_either_case(prefix: Seq<char>, s: Seq<char>) -> bool {
    prefix.len() <= s.len() && forall|i: int| 0 <= i < prefix.len() ==> either_case(#[trigger] s[i], prefix[i])
}

/// Whether `s` begins with `prefix`, which is in lower case, whatever the case
/// of its own letters.
pub fn starts_with_in_either_case(s: &str, prefix: &str) -> (r: bool)
    ensures
        r == is_prefix_in_either_case(prefix@, s@),
{
    let a = chars_of(s);
    let p = chars_of(prefix);
    if p.len() > a.len() {
        return false;
    }
    let mut i: usize = 0;
    while i < p.len()
        invariant
            i <= p.len() <= a.len(),
            a@ == s@,
            p@ == prefix@,
            forall|j: int| 0 <= j < i ==> either_case(#[trigger] a@[j], p@[j]),
        decreases p.len() - i,
    {
        if !is_either_case(a[i], p[i]) {
            assert(!either_case(s@[i as int], prefix@[i as int]));
            return false;
        }
        i += 1;
    }
    true
}

/// An optional string as a mathematical value.
pub open spec fn text_view(s: Option<String>) -> Option<Seq<char>> {
    match s {
        Some(t) => Some(t@),
        None => None,
    }
}

/// Strings as mathematical values.
pub open spec fn string_views(s: Seq<String>) -> Seq<Seq<char>> {
    Seq::new(s.len(), |i: int| s[i]@)
}

/// Whether two texts are the same.
pub fn same_text(a: &str, b: &str) -> (r: bool)
    ensures
        r == (a@ == b@),
{
    a.to_owned() == b.to_owned()
}

/// The decimal digit that stands for `d`.
pub open spec fn digit(d: nat) -> char {
    (('0' as nat) + d) as char
}

/// `n` written in decimal, without leading zeros.
pub open spec fn decimal(n: nat) -> Seq<char>
    decreases n,
{
    if n < 10 {
        seq![digit(n)]
    } else {
        decimal(n / 10).push(digit(n % 10))
    }
}

/// Writes `n` in decimal.
pub fn decimal_string(n: u64) -> (r: String)
    ensures
        r@ == decimal(n as nat),
    decreases n,
{
    let d = digit_str((n % 10) as u8);
    if n < 10 {
        assert(d@ =~= decimal(n as nat));
        d.to_owned()
    } else {
        let mut head = decimal_string(n / 10);
        head.append(d);
        assert(head@ =~= decimal(n as nat));
        head
    }
}

fn digit_str(d: u8) -> (r: &'static str)
    requires
        d < 10,
    ensures
        r@ == seq![digit(d as nat)],
{
    proof {
        reveal_strlit("0");
        reveal_strlit("1");
        reveal_strlit("2");
        reveal_strlit("3");
        reveal_strlit("4");
        reveal_strlit("5");
        reveal_strlit("6");
        reveal_strlit("7");
        reveal_strlit("8");
        reveal_strlit("9");
    }
    match d {
        0 => "0",
        1 => "1",
        2 => "2",
        3 => "3",
        4 => "4",
        5 => "5",
        6 => "6",
        7 => "7",
        8 => "8",
        _ => "9",
    }
}

/// A text is taken to pieces character by character.
pub proof fn lemma_chars(s: &str, r: Vec<char>, i: int)
    requires
        call_ensures(chars_of, (s,), r),
    ensures
        r@.len() == s@.len(),
        0 <= i < s@.len() ==> r@[i] == s@[i],
{
}

/// A text begins with another exactly if it is that other one, followed by some
/// rest.
pub proof fn lemma_begins(s: &str, prefix: &str, r: bool)
    requires
        call_ensures(starts_with, (s, prefix), r),
    ensures
        r <==> exists|rest: Seq<char>| s@ == #[trigger] (prefix@ + rest),
{
    if r {
        assert(s@ =~= prefix@ + s@.skip(prefix@.len() as int));
    }
    if exists|rest: Seq<char>| s@ == #[trigger] (prefix@ + rest) {
        let rest = choose|rest: Seq<char>| s@ == #[trigger] (prefix@ + rest);
        assert(s@.take(prefix@.len() as int) =~= prefix@);
    }
}

/// Where the case does not matter, a capital letter of the alphabet stands for
/// the small one, and any other character for itself only.
pub proof fn lemma_begins_in_either_case(s: &str, prefix: &str, r: bool)
    requires
        call_ensures(starts_with_in_either_case, (s, prefix), r),
    ensures
        r <==> s@.len() >= prefix@.len() && forall|i: int|
            0 <= i < prefix@.len() ==> (#[trigger] s@[i]) == prefix@[i] || (65 <= s@[i] as int <= 90 && prefix@[i] as int
                == s@[i] as int + 32),
{
}

/// Two texts are the same if their characters are.
pub proof fn lemma_same_text(a: &str, b: &str, r: bool)
    requires
        call_ensures(same_text, (a, b), r),
    ensures
        r <==> a@ =~= b@,
{
}

/// The number that decimal digits stand for.
pub open spec fn number_of(digits: Seq<char>) -> int
    decreases digits.len(),
{
    if digits.len() == 0 {
        0
    } else {
        number_of(digits.drop_last()) * 10 + (digits.last() as int - 48)
    }
}

/// Decimal digits only, without leading zeros.
pub open spec fn plain_digits(digits: Seq<char>) -> bool {
    &&& digits.len() > 0
    &&& forall|i: int| 0 <= i < digits.len() ==> 48 <= (#[trigger] digits[i]) as int <= 57
    &&& digits.len() > 1 ==> digits[0] as int > 48
}

/// What is written of a number stands for it.
pub proof fn lemma_decimal(n: nat)
    ensures
        number_of(decimal(n)) == n,
        plain_digits(decimal(n)),
        n > 0 ==> decimal(n)[0] as int > 48,
    decreases n,
{
    if n < 10 {
        assert(seq![digit(n)].drop_last() =~= Seq::empty());
        assert(number_of(Seq::empty()) == 0);
    } else {
        lemma_decimal(n / 10);
        let head = decimal(n / 10);
        assert(decimal(n).drop_last() =~= head);
        assert forall|i: int| 0 <= i < decimal(n).len() implies 48 <= (#[trigger] decimal(n)[i]) as int <= 57 by {
            if i < head.len() {
                assert(decimal(n)[i] == head[i]);
            }
        }
        assert(decimal(n)[0] == head[0]);
    }
}

/// A number is written in decimal digits, without leading zeros.
pub proof fn lemma_written(n: u64, r: String)
    requires
        call_ensures(decimal_string, (n,), r),
    ensures
        number_of(r@) == n,
        plain_digits(r@),
{
    lemma_decimal(n as nat);
}

} // verus!
