use vstd::prelude::*;

verus! {

/// `String::push`: the string afterwards is the string before with `c` appended.
#[verifier::external_body]
pub(crate) fn push_char(s: &mut String, c: char)
    ensures
        final(s)@ == old(s)@.push(c),
{
    s.push(c);
}

/// The characters of `s`, in order.
pub fn str_chars(s: &str) -> (r: Vec<char>)
    ensures
        r@ == s@,
{
    let mut r: Vec<char> = Vec::new();
    for c in it: s.chars()
        invariant
            r@ == it.seq().take(it.index() as int),
            it.seq() == s@,
    {
        r.push(c);
    }
    r
}

/// The string made of `v[a..b]`.
pub fn chars_to_string(v: &Vec<char>, a: usize, b: usize) -> (r: String)
    requires
        a <= b <= v@.len(),
    ensures
        r@ == v@.subrange(a as int, b as int),
{
    let mut r = String::new();
    let mut i = a;
    while i < b
        invariant
            a <= i <= b <= v@.len(),
            r@ == v@.subrange(a as int, i as int),
        decreases b - i,
    {
        push_char(&mut r, v[i]);
        i += 1;
    }
    r
}

/// The string made of all of `v`.
pub fn string_of(v: &Vec<char>) -> (r: String)
    ensures
        r@ == v@,
{
    let r = chars_to_string(v, 0, v.len());
    assert(v@.subrange(0, v@.len() as int) =~= v@);
    r
}

/// Appends the characters of `s` to `out`.
pub fn push_str_chars(out: &mut Vec<char>, s: &str)
    ensures
        final(out)@ == old(out)@ + s@,
{
    let ghost o = out@;
    for c in it: s.chars()
        invariant
            out@ == o + it.seq().take(it.index() as int),
            it.seq() == s@,
    {
        out.push(c);
        assert(out@ =~= o + it.seq().take(it.index() + 1));
    }
}

pub open spec fn digit_chars() -> Seq<char> {
    seq!['0', '1', '2', '3', '4', '5', '6', '7', '8', '9']
}

/// Decimal digits of `n`, most significant first, without leading zeros.
pub open spec fn dec(n: nat) -> Seq<char>
    decreases n,
{
    if n < 10 {
        seq![digit_chars()[n as int]]
    } else {
        dec(n / 10).push(digit_chars()[(n % 10) as int])
    }
}

/// Appends the decimal digits of `n` to `out`.
pub fn push_decimal(out: &mut Vec<char>, n: u128)
    ensures
        final(out)@ == old(out)@ + dec(n as nat),
    decreases n,
{
    let digits: [char; 10] = ['0', '1', '2', '3', '4', '5', '6', '7', '8', '9'];
    assert(digits@ =~= digit_chars());
    let ghost o = out@;
    if n >= 10 {
        push_decimal(out, n / 10);
    }
    out.push(digits[(n % 10) as usize]);
    assert(out@ =~= o + dec(n as nat));
}

pub open spec fn digit_val(c: char) -> nat {
    if c == '1' {
        1
    } else if c == '2' {
        2
    } else if c == '3' {
        3
    } else if c == '4' {
        4
    } else if c == '5' {
        5
    } else if c == '6' {
        6
    } else if c == '7' {
        7
    } else if c == '8' {
        8
    } else if c == '9' {
        9
    } else {
        0
    }
}

/// The number that a string of decimal digits denotes.
pub open spec fn dec_value(s: Seq<char>) -> nat
    decreases s.len(),
{
    if s.len() == 0 {
        0
    } else {
        dec_value(s.drop_last()) * 10 + digit_val(s.last())
    }
}

proof fn lemma_digit(d: nat)
    requires
        d < 10,
    ensures
        digit_val(digit_chars()[d as int]) == d,
        '0' <= digit_chars()[d as int] <= '9',
{
    assert(digit_chars()[0] == '0');
    assert(digit_chars()[1] == '1');
    assert(digit_chars()[2] == '2');
    assert(digit_chars()[3] == '3');
    assert(digit_chars()[4] == '4');
    assert(digit_chars()[5] == '5');
    assert(digit_chars()[6] == '6');
    assert(digit_chars()[7] == '7');
    assert(digit_chars()[8] == '8');
    assert(digit_chars()[9] == '9');
}

/// Reading the decimal digits of `n` gives `n` back.
pub proof fn lemma_dec_value(n: nat)
    ensures
        dec_value(dec(n)) == n,
        dec(n).len() >= 1,
        forall|i: int| 0 <= i < dec(n).len() ==> '0' <= #[trigger] dec(n)[i] <= '9',
        dec(n)[0] != '0' || n == 0,
    decreases n,
{
    if n < 10 {
        lemma_digit(n);
        assert(dec(n).drop_last() =~= Seq::<char>::empty());
        assert(dec(n).last() == digit_chars()[n as int]);
        assert(dec_value(dec(n)) == dec_value(Seq::<char>::empty()) * 10 + digit_val(digit_chars()[n as int]));
    } else {
        lemma_dec_value(n / 10);
        lemma_digit(n % 10);
        assert(dec(n).drop_last() =~= dec(n / 10));
        assert(dec(n)[0] == dec(n / 10)[0]);
        assert(dec(n).last() == digit_chars()[(n % 10) as int]);
        assert(dec_value(dec(n)) == dec_value(dec(n / 10)) * 10 + n % 10);
        assert((n / 10) * 10 + n % 10 == n) by (nonlinear_arith);
    }
}

} // verus!
