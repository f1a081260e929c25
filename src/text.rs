use vstd::prelude::*;

verus! {

pub open spec fn is_digit(c: char) -> bool {
    '0' <= c && c <= '9'
}

pub open spec fn all_digits(s: Seq<char>) -> bool {
    forall|i: int| 0 <= i < s.len() ==> is_digit(#[trigger] s[i])
}

pub open spec fn digit_val(c: char) -> int {
    (c as int) - ('0' as int)
}

/// The number that a string of decimal digits writes, most significant first.
pub open spec fn digits_val(s: Seq<char>) -> int
    decreases s.len(),
{
    if s.len() == 0 {
        0
    } else {
        digits_val(s.drop_last()) * 10 + digit_val(s.last())
    }
}

pub proof fn lemma_digits_nonneg(s: Seq<char>)
    requires
        all_digits(s),
    ensures
        digits_val(s) >= 0,
    decreases s.len(),
{
    if s.len() > 0 {
        lemma_digits_nonneg(s.drop_last());
    }
}

/// A longer digit string never writes a smaller number than its prefix.
pub proof fn lemma_digits_prefix_le(s: Seq<char>, n: int)
    requires
        all_digits(s),
        0 <= n <= s.len(),
    ensures
        digits_val(s.subrange(0, n)) <= digits_val(s),
    decreases s.len() - n,
{
    if n < s.len() {
        lemma_digits_prefix_le(s, n + 1);
        let p = s.subrange(0, n + 1);
        assert(p.drop_last() =~= s.subrange(0, n));
        lemma_digits_nonneg(p.drop_last());
    } else {
        assert(s.subrange(0, n) =~= s);
    }
}

/// Reads the digits of `s` from `from` to `to` as an unsigned number.
pub fn parse_digits(s: &str, from: usize, to: usize) -> (r: Option<u128>)
    requires
        from <= to <= s@.len(),
    ensures
        r.is_some() <==> all_digits(s@.subrange(from as int, to as int)) && digits_val(
            s@.subrange(from as int, to as int),
        ) <= u128::MAX,
        r.is_some() ==> r.unwrap() as int == digits_val(s@.subrange(from as int, to as int)),
{
    let ghost t = s@.subrange(from as int, to as int);
    let mut i: usize = from;
    while i < to
        invariant
            from <= i <= to <= s@.len(),
            t == s@.subrange(from as int, to as int),
            all_digits(t.subrange(0, i - from)),
        decreases to - i,
    {
        let c = s.get_char(i);
        if !('0' <= c && c <= '9') {
            assert(t[i - from] == c);
            return None;
        }
        assert(t.subrange(0, i + 1 - from)[i - from] == c);
        i = i + 1;
    }
    assert(t.subrange(0, to - from) =~= t);
    let mut acc: u128 = 0;
    i = from;
    while i < to
        invariant
            from <= i <= to <= s@.len(),
            t == s@.subrange(from as int, to as int),
            all_digits(t),
            acc as int == digits_val(t.subrange(0, i - from)),
        decreases to - i,
    {
        let c = s.get_char(i);
        let ghost p = t.subrange(0, i + 1 - from);
        assert(p.drop_last() =~= t.subrange(0, i - from));
        assert(p.last() == c);
        assert(is_digit(t[i - from]));
        let d = (c as u32 - '0' as u32) as u128;
        if acc > (u128::MAX - d) / 10 {
            proof {
                lemma_digits_prefix_le(t, i + 1 - from);
            }
            return None;
        }
        acc = acc * 10 + d;
        i = i + 1;
    }
    assert(t.subrange(0, to - from) =~= t);
    Some(acc)
}

} // verus!

verus! {

/// Index of the first `a` or `b` in `s`, or its length when there is none.
pub open spec fn first_of(s: Seq<char>, a: char, b: char) -> int
    decreases s.len(),
{
    if s.len() == 0 {
        0
    } else if s[0] == a || s[0] == b {
        0
    } else {
        1 + first_of(s.drop_first(), a, b)
    }
}

pub proof fn lemma_first_of(s: Seq<char>, a: char, b: char, i: int)
    requires
        0 <= i <= s.len(),
        forall|j: int| 0 <= j < i ==> s[j] != a && s[j] != b,
        i < s.len() ==> (s[i] == a || s[i] == b),
    ensures
        first_of(s, a, b) == i,
    decreases i,
{
    if i > 0 {
        lemma_first_of(s.drop_first(), a, b, i - 1);
    }
}

/// Position of the first `a` or `b` in `s` between `from` and `to`, or `to`.
pub fn find_either(s: &str, from: usize, to: usize, a: char, b: char) -> (r: usize)
    requires
        from <= to <= s@.len(),
    ensures
        r as int == from + first_of(s@.subrange(from as int, to as int), a, b),
        from <= r <= to,
{
    let ghost t = s@.subrange(from as int, to as int);
    let mut i: usize = from;
    while i < to
        invariant
            from <= i <= to <= s@.len(),
            t == s@.subrange(from as int, to as int),
            forall|j: int| 0 <= j < i - from ==> t[j] != a && t[j] != b,
        decreases to - i,
    {
        let c = s.get_char(i);
        if c == a || c == b {
            proof {
                lemma_first_of(t, a, b, i - from);
            }
            return i;
        }
        i = i + 1;
    }
    proof {
        lemma_first_of(t, a, b, to - from);
    }
    to
}

} // verus!

verus! {

/// Relies on `String::push`: appends one character.
#[verifier::external_body]
pub(crate) fn push_char(s: &mut String, c: char)
    ensures
        final(s)@ == old(s)@.push(c),
{
    s.push(c);
}

} // verus!

verus! {

pub open spec fn digit_char(d: int) -> char {
    if d == 0 { '0' }
    else if d == 1 { '1' }
    else if d == 2 { '2' }
    else if d == 3 { '3' }
    else if d == 4 { '4' }
    else if d == 5 { '5' }
    else if d == 6 { '6' }
    else if d == 7 { '7' }
    else if d == 8 { '8' }
    else { '9' }
}

/// The decimal digits of `n`, without leading zeros.
pub open spec fn dec_text(n: nat) -> Seq<char>
    decreases n,
{
    if n < 10 {
        seq![digit_char(n as int)]
    } else {
        dec_text(n / 10).push(digit_char((n % 10) as int))
    }
}

pub fn digit_char_exec(d: u128) -> (c: char)
    requires
        d < 10,
    ensures
        c == digit_char(d as int),
{
    if d == 0 { '0' }
    else if d == 1 { '1' }
    else if d == 2 { '2' }
    else if d == 3 { '3' }
    else if d == 4 { '4' }
    else if d == 5 { '5' }
    else if d == 6 { '6' }
    else if d == 7 { '7' }
    else if d == 8 { '8' }
    else { '9' }
}

/// A string that holds exactly the characters of `v`.
pub fn chars_to_string(v: &Vec<char>) -> (s: String)
    ensures
        s@ == v@,
{
    let mut s = String::new();
    let mut i: usize = 0;
    while i < v.len()
        invariant
            i <= v.len(),
            s@ == v@.subrange(0, i as int),
        decreases v.len() - i,
    {
        push_char(&mut s, v[i]);
        assert(v@.subrange(0, i + 1) =~= v@.subrange(0, i as int).push(v@[i as int]));
        i = i + 1;
    }
    assert(v@.subrange(0, v.len() as int) =~= v@);
    s
}

/// The decimal digits of `n`.
pub fn to_text(n: u128) -> (s: String)
    ensures
        s@ == dec_text(n as nat),
{
    let mut m: u128 = n;
    let mut digits: Vec<char> = Vec::new();
    loop
        invariant_except_break
            dec_text(n as nat) == dec_text(m as nat) + digits@,
        ensures
            dec_text(n as nat) == digits@,
        decreases m,
    {
        let c = digit_char_exec(m % 10);
        let ghost old_digits = digits@;
        digits.insert(0, c);
        assert(digits@ =~= seq![c] + old_digits);
        if m < 10 {
            assert(dec_text(m as nat) =~= seq![c]);
            assert(dec_text(n as nat) =~= digits@);
            break;
        }
        assert(dec_text(m as nat) == dec_text((m / 10) as nat).push(c));
        assert(dec_text((m / 10) as nat).push(c) + old_digits =~= dec_text((m / 10) as nat)
            + digits@);
        m = m / 10;
    }
    chars_to_string(&digits)
}

} // verus!

verus! {

/// The last `d` decimal digits of `x`, leading zeros kept.
pub open spec fn fixed_digits(x: nat, d: nat) -> Seq<char>
    decreases d,
{
    if d == 0 {
        Seq::empty()
    } else {
        fixed_digits(x / 10, (d - 1) as nat).push(digit_char((x % 10) as int))
    }
}

/// The last `d` decimal digits of `x`.
pub fn to_fixed_text(x: u128, d: u32) -> (s: Vec<char>)
    ensures
        s@ == fixed_digits(x as nat, d as nat),
{
    let mut m: u128 = x;
    let mut i: u32 = 0;
    let mut digits: Vec<char> = Vec::new();
    while i < d
        invariant
            i <= d,
            fixed_digits(x as nat, d as nat) == fixed_digits(m as nat, (d - i) as nat) + digits@,
        decreases d - i,
    {
        let c = digit_char_exec(m % 10);
        let ghost old_digits = digits@;
        digits.insert(0, c);
        assert(fixed_digits(m as nat, (d - i) as nat) == fixed_digits((m / 10) as nat, (d - i
            - 1) as nat).push(c));
        assert(fixed_digits((m / 10) as nat, (d - i - 1) as nat).push(c) + old_digits
            =~= fixed_digits((m / 10) as nat, (d - i - 1) as nat) + digits@);
        m = m / 10;
        i = i + 1;
    }
    assert(fixed_digits(m as nat, 0) + digits@ =~= digits@);
    digits
}

} // verus!
