//! Numbers in decimal notation.
use vstd::prelude::*;

verus! {

/// The digit that stands for `d`, a number below ten.
pub open spec fn digit(d: int) -> char {
    (48 + d) as char
}

/// `n` in decimal notation, without leading zeros.
pub open spec fn decimal(n: nat) -> Seq<char>
    decreases n,
{
    if n < 10 {
        seq![digit(n as int)]
    } else {
        decimal(n / 10).push(digit((n % 10) as int))
    }
}

/// Whether `s` is made of decimal digits only.
pub open spec fn all_digits(s: Seq<char>) -> bool {
    forall|i: int| 0 <= i < s.len() ==> '0' <= #[trigger] s[i] <= '9'
}

/// The number that the digits of `s` stand for.
pub open spec fn value(s: Seq<char>) -> nat
    decreases s.len(),
{
    if s.len() == 0 {
        0
    } else {
        (value(s.drop_last()) * 10 + (s.last() as int - 48)) as nat
    }
}

/// Decimal notation consists of digits, and reading it gives the number back.
pub proof fn law_decimal_reads_back(n: nat)
    ensures
        decimal(n).len() > 0,
        all_digits(decimal(n)),
        value(decimal(n)) == n,
    decreases n,
{
    if n < 10 {
        assert(decimal(n).drop_last() =~= seq![]);
        assert(value(seq![]) == 0);
        assert(value(decimal(n)) == n);
    } else {
        law_decimal_reads_back(n / 10);
        assert(decimal(n).drop_last() =~= decimal(n / 10));
    }
}

/// Writes `n` in decimal notation.
pub fn to_decimal(n: usize) -> (r: String)
    ensures
        r@ == decimal(n as nat),
    decreases n,
{
    if n < 10 {
        let mut r = String::new();
        r.push((48u8 + n as u8) as char);
        assert(r@ =~= decimal(n as nat));
        r
    } else {
        let mut r = to_decimal(n / 10);
        r.push((48u8 + (n % 10) as u8) as char);
        r
    }
}

proof fn lemma_value_grows(s: Seq<char>, k: int)
    requires
        all_digits(s),
        0 <= k <= s.len(),
    ensures
        value(s.take(k)) <= value(s),
    decreases s.len(),
{
    if k == s.len() {
        assert(s.take(k) =~= s);
    } else {
        lemma_value_grows(s.drop_last(), k);
        assert(s.drop_last().take(k) =~= s.take(k));
    }
}

/// Reads the digits of `s` as a number, where there are any, there is nothing else, and the
/// number is not too large.
pub fn from_decimal(s: &[char]) -> (r: Option<usize>)
    ensures
        match r {
            Some(n) => s@.len() > 0 && all_digits(s@) && value(s@) == n,
            None => !(s@.len() > 0 && all_digits(s@) && value(s@) <= usize::MAX),
        },
{
    if s.len() == 0 {
        return None;
    }
    let mut n: usize = 0;
    let mut i: usize = 0;
    assert(s@.take(0) =~= seq![]);
    while i < s.len()
        invariant
            i <= s@.len(),
            all_digits(s@.take(i as int)),
            n == value(s@.take(i as int)),
        decreases s@.len() - i,
    {
        let c = s[i];
        if c < '0' || c > '9' {
            return None;
        }
        let d: usize = (c as u32 - 48) as usize;
        proof {
            let next = s@.take(i + 1);
            assert(next.drop_last() =~= s@.take(i as int));
            assert(next.last() == c);
            assert(value(next) == n * 10 + d);
            if all_digits(s@) {
                lemma_value_grows(s@, i + 1);
            }
        }
        if n > usize::MAX / 10 || n * 10 > usize::MAX - d {
            return None;
        }
        n = n * 10 + d;
        assert forall|j: int| 0 <= j < i + 1 implies '0' <= #[trigger] s@.take(i + 1)[j] <= '9' by {
            if j < i {
                assert(s@.take(i + 1)[j] == s@.take(i as int)[j]);
            }
        }
        i += 1;
    }
    assert(s@.take(i as int) =~= s@);
    Some(n)
}

/// Only zero is written with a leading zero, and zeros in front do not change what digits stand
/// for.
pub proof fn law_leading_zeros(n: nat, s: Seq<char>)
    ensures
        decimal(n)[0] == '0' <==> n == 0,
        decimal(0) == seq!['0'],
        value(seq!['0'] + s) == value(s),
        value(seq![]) == 0,
    decreases n, s.len(),
{
    if s.len() > 0 {
        let all = seq!['0'] + s;
        law_leading_zeros(n, s.drop_last());
        assert(all.drop_last() =~= seq!['0'] + s.drop_last());
    } else {
        assert(seq!['0'] + s =~= seq!['0']);
        assert(seq!['0'].drop_last() =~= s);
        assert(value(s) == 0);
        assert('0' as int == 48);
        assert(value(seq!['0']) == 0);
        lemma_leading_digit(n);
    }
}

proof fn lemma_leading_digit(n: nat)
    ensures
        decimal(n).len() > 0,
        decimal(n)[0] == '0' <==> n == 0,
    decreases n,
{
    if n >= 10 {
        lemma_leading_digit(n / 10);
        assert(decimal(n)[0] == decimal(n / 10)[0]);
    }
}

/// The digits are those from `0` to `9`, and a row of them is made of nothing else.
pub proof fn law_all_digits(a: Seq<char>, b: Seq<char>, c: char)
    ensures
        all_digits(seq![c]) <==> seq!['0', '1', '2', '3', '4', '5', '6', '7', '8', '9'].contains(c),
        all_digits(a + b) <==> all_digits(a) && all_digits(b),
{
    let ten = seq!['0', '1', '2', '3', '4', '5', '6', '7', '8', '9'];
    let all = a + b;
    assert(ten[0] == '0' && ten[1] == '1' && ten[2] == '2' && ten[3] == '3' && ten[4] == '4'
        && ten[5] == '5' && ten[6] == '6' && ten[7] == '7' && ten[8] == '8' && ten[9] == '9');
    assert(seq![c][0] == c);
    if '0' <= c <= '9' {
        assert(ten[c as int - 48] == c);
    }
    assert forall|i: int| 0 <= i < a.len() implies a[i] == all[i] by {}
    assert forall|i: int| 0 <= i < b.len() implies b[i] == all[a.len() + i] by {}
    if all_digits(all) {
        assert forall|i: int| 0 <= i < a.len() implies '0' <= #[trigger] a[i] <= '9' by {
            assert('0' <= all[i] <= '9');
        }
        assert forall|i: int| 0 <= i < b.len() implies '0' <= #[trigger] b[i] <= '9' by {
            assert('0' <= all[a.len() + i] <= '9');
        }
    }
}

} // verus!
