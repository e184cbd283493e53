//! Base58: how bytes are written in letters and digits that are not mistaken for one another.

use vstd::prelude::*;

verus! {

/// The digit `d` of base58: `1` to `9`, then the capital letters without `I` and `O`, then the
/// small letters without `l`.
pub open spec fn base58_digit(d: nat) -> char {
    if d < 9 {
        ('1' as nat + d) as char
    } else if d < 17 {
        ('A' as nat + (d - 9)) as char
    } else if d < 22 {
        ('J' as nat + (d - 17)) as char
    } else if d < 33 {
        ('P' as nat + (d - 22)) as char
    } else if d < 44 {
        ('a' as nat + (d - 33)) as char
    } else {
        ('m' as nat + (d - 44)) as char
    }
}

/// `n` in base58, most significant digit first, without leading zeros: nothing for zero.
pub open spec fn base58_digits(n: nat) -> Seq<char>
    decreases n,
{
    if n == 0 {
        Seq::empty()
    } else {
        base58_digits(n / 58).push(base58_digit(n % 58))
    }
}

/// The number that bytes spell, most significant byte first.
pub open spec fn bytes_value(data: Seq<u8>) -> nat
    decreases data.len(),
{
    if data.len() == 0 {
        0
    } else {
        bytes_value(data.drop_last()) * 256 + data.last() as nat
    }
}

/// How many zero bytes `data` begins with.
pub open spec fn leading_zeros(data: Seq<u8>) -> nat
    decreases data.len(),
{
    if data.len() > 0 && data[0] == 0 {
        1 + leading_zeros(data.skip(1))
    } else {
        0
    }
}

/// The base58 text of `data`: one `1` for each zero byte that it begins with, and the number that
/// it spells.
pub open spec fn bs58_text(data: Seq<u8>) -> Seq<char> {
    Seq::new(leading_zeros(data), |i: int| '1') + base58_digits(bytes_value(data))
}

proof fn lemma_digits_begin_with_no_one(n: nat)
    requires
        n > 0,
    ensures
        base58_digits(n).len() > 0,
        base58_digits(n)[0] != '1',
    decreases n,
{
    assert(base58_digits(n) == base58_digits(n / 58).push(base58_digit(n % 58)));
    if n >= 58 {
        lemma_digits_begin_with_no_one(n / 58);
    } else {
        assert(base58_digits(n / 58) =~= Seq::<char>::empty());
    }
}

proof fn lemma_digits_differ(d: nat, e: nat)
    requires
        d < 58,
        e < 58,
        base58_digit(d) == base58_digit(e),
    ensures
        d == e,
{
}

proof fn lemma_digits_tell_numbers_apart(a: nat, b: nat)
    requires
        base58_digits(a) == base58_digits(b),
    ensures
        a == b,
    decreases a,
{
    if a > 0 && b > 0 {
        let (x, y) = (base58_digits(a), base58_digits(b));
        assert(x.drop_last() =~= base58_digits(a / 58));
        assert(y.drop_last() =~= base58_digits(b / 58));
        lemma_digits_tell_numbers_apart(a / 58, b / 58);
        assert(x.last() == base58_digit(a % 58) && y.last() == base58_digit(b % 58));
        lemma_digits_differ(a % 58, b % 58);
    } else {
        assert(base58_digits(a).len() == 0 <==> a == 0);
        assert(base58_digits(b).len() == 0 <==> b == 0);
    }
}

proof fn lemma_a_leading_zero_adds_nothing(data: Seq<u8>)
    requires
        data.len() > 0,
        data[0] == 0,
    ensures
        bytes_value(data.skip(1)) == bytes_value(data),
    decreases data.len(),
{
    if data.len() > 1 {
        lemma_a_leading_zero_adds_nothing(data.drop_last());
        assert(data.drop_last().skip(1) =~= data.skip(1).drop_last());
    } else {
        assert(bytes_value(data.drop_last()) == 0);
    }
}

proof fn lemma_value_without_leading_zero_is_positive(data: Seq<u8>)
    requires
        data.len() > 0,
        data[0] != 0,
    ensures
        bytes_value(data) > 0,
    decreases data.len(),
{
    if data.len() > 1 {
        lemma_value_without_leading_zero_is_positive(data.drop_last());
    }
}

proof fn lemma_values_tell_bytes_apart(a: Seq<u8>, b: Seq<u8>)
    requires
        leading_zeros(a) == leading_zeros(b),
        bytes_value(a) == bytes_value(b),
    ensures
        a == b,
    decreases a.len(),
{
    if leading_zeros(a) > 0 {
        lemma_a_leading_zero_adds_nothing(a);
        lemma_a_leading_zero_adds_nothing(b);
        lemma_values_tell_bytes_apart(a.skip(1), b.skip(1));
        assert(a =~= seq![0u8] + a.skip(1));
        assert(b =~= seq![0u8] + b.skip(1));
    } else if a.len() == 0 || b.len() == 0 {
        if a.len() > 0 {
            lemma_value_without_leading_zero_is_positive(a);
        }
        if b.len() > 0 {
            lemma_value_without_leading_zero_is_positive(b);
        }
        assert(a =~= b);
    } else {
        lemma_values_tell_bytes_apart(a.drop_last(), b.drop_last());
        assert(a =~= a.drop_last().push(a.last()));
        assert(b =~= b.drop_last().push(b.last()));
    }
}

/// No two byte strings have one text: what is kept under the base58 of a tag or an address is kept
/// under that tag or address alone.
pub proof fn law_base58_tells_bytes_apart(a: Seq<u8>, b: Seq<u8>)
    requires
        bs58_text(a) == bs58_text(b),
    ensures
        a == b,
{
    let (x, y) = (bs58_text(a), bs58_text(b));
    let (m, n) = (leading_zeros(a), leading_zeros(b));
    let (p, q) = (base58_digits(bytes_value(a)), base58_digits(bytes_value(b)));
    if bytes_value(a) > 0 {
        lemma_digits_begin_with_no_one(bytes_value(a));
    }
    if bytes_value(b) > 0 {
        lemma_digits_begin_with_no_one(bytes_value(b));
    }
    if m < n {
        assert(x[m as int] == p[0] && y[m as int] == '1');
    } else if n < m {
        assert(y[n as int] == q[0] && x[n as int] == '1');
    }
    assert(p =~= x.skip(m as int) && q =~= y.skip(n as int));
    lemma_digits_tell_numbers_apart(bytes_value(a), bytes_value(b));
    lemma_values_tell_bytes_apart(a, b);
}

} // verus!
