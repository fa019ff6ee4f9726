use vstd::prelude::*;

verus! {

/// The decimal digits of a number, without leading zeros (`0` for zero).
pub open spec fn decimal(n: nat) -> Seq<char>
    decreases n,
{
    if n < 10 {
        seq![digit_char(n)]
    } else {
        decimal(n / 10).push(digit_char(n % 10))
    }
}

/// The character of a decimal digit.
pub open spec fn digit_char(d: nat) -> char {
    (('0' as u32) + d) as char
}

/// The decimal digits of a number, padded with zeros in front to at least
/// `width` characters.
pub open spec fn padded_decimal(n: nat, width: nat) -> Seq<char> {
    let d = decimal(n);
    if d.len() < width {
        Seq::new((width - d.len()) as nat, |i: int| '0') + d
    } else {
        d
    }
}

/// Calls `String::push`: the string with one more character at its end.
#[verifier::external_body]
pub fn push_char(s: &mut String, c: char)
    ensures
        final(s)@ == old(s)@.push(c),
{
    s.push(c);
}

/// Appends a string slice.
pub fn push_str(s: &mut String, t: &str)
    ensures
        final(s)@ == old(s)@ + t@,
{
    let mut i: usize = 0;
    let ghost start = s@;
    proof {
        assert(t@.take(0) =~= Seq::<char>::empty());
        assert(s@ =~= start + t@.take(0));
    }
    for c in it: t.chars()
        invariant
            it.seq() == t@,
            it.index() <= t@.len(),
            s@ == start + t@.take(it.index() as int),
    {
        let ghost k = it.index() as int;
        push_char(s, c);
        proof {
            assert(t@.take(k + 1) =~= t@.take(k).push(t@[k]));
            assert(s@ =~= start + t@.take(k + 1));
        }
    }
    proof {
        assert(t@.take(t@.len() as int) =~= t@);
    }
}

/// Appends the decimal digits of `n`, padded with zeros to `width`.
pub fn push_decimal(s: &mut String, n: u64, width: usize)
    ensures
        final(s)@ == old(s)@ + padded_decimal(n as nat, width as nat),
{
    let mut digits: Vec<char> = Vec::new();
    let mut m: u64 = n;
    loop
        invariant_except_break
            digits@.len() == 0 ==> m == n,
            digits@.len() > 0 ==> m > 0 && decimal(n as nat) == decimal_prefix(n as nat, m as nat)
                + digits@.reverse(),
        ensures
            decimal(n as nat) == digits@.reverse(),
        decreases m,
    {
        let d = m % 10;
        let c = digit_of(d);
        let ghost old_digits = digits@;
        proof {
            lemma_decimal_step(n as nat, m as nat, old_digits);
        }
        digits.push(c);
        m = m / 10;
        if m == 0 {
            proof {
                assert(decimal_prefix(n as nat, 0) =~= Seq::<char>::empty());
            }
            break;
        }
    }
    let total = digits.len();
    if total < width {
        let mut k: usize = 0;
        let ghost start = s@;
        while k < width - total
            invariant
                k <= width - total,
                s@ == start + Seq::new(k as nat, |i: int| '0'),
            decreases width - total - k,
        {
            push_char(s, '0');
            k += 1;
            proof {
                assert(s@ =~= start + Seq::new(k as nat, |i: int| '0'));
            }
        }
    }
    let ghost mid = s@;
    let mut j: usize = total;
    while j > 0
        invariant
            j <= total,
            total == digits@.len(),
            s@ == mid + digits@.reverse().take((total - j) as int),
        decreases j,
    {
        j -= 1;
        let ghost before = s@;
        push_char(s, digits[j]);
        proof {
            let r = digits@.reverse();
            assert(r[(total - j - 1) as int] == digits@[j as int]);
            assert(r.take((total - j) as int) =~= r.take((total - j - 1) as int).push(digits@[j as int]));
            assert(s@ =~= mid + r.take((total - j) as int));
        }
    }
    proof {
        assert(digits@.reverse().take(total as int) =~= digits@.reverse());
        if total < width {
            assert(s@ =~= old(s)@ + padded_decimal(n as nat, width as nat));
        } else {
            assert(s@ =~= old(s)@ + padded_decimal(n as nat, width as nat));
        }
    }
}

/// The decimal digits of a number, padded with spaces in front to at least
/// `width` characters.
pub open spec fn spaced_decimal(n: nat, width: nat) -> Seq<char> {
    let d = decimal(n);
    if d.len() < width {
        Seq::new((width - d.len()) as nat, |i: int| ' ') + d
    } else {
        d
    }
}

/// Appends the decimal digits of `n`, right-aligned in `width` columns.
pub fn push_spaced_decimal(s: &mut String, n: u64, width: usize)
    ensures
        final(s)@ == old(s)@ + spaced_decimal(n as nat, width as nat),
{
    let mut digits = String::new();
    push_decimal(&mut digits, n, 0);
    proof {
        assert(digits@ =~= decimal(n as nat));
    }
    let count = digits.as_str().unicode_len();
    let ghost start = s@;
    if count < width {
        let mut k: usize = 0;
        while k < width - count
            invariant
                k <= width - count,
                s@ == start + Seq::new(k as nat, |i: int| ' '),
            decreases width - count - k,
        {
            push_char(s, ' ');
            k += 1;
            proof {
                assert(s@ =~= start + Seq::new(k as nat, |i: int| ' '));
            }
        }
    }
    let ghost mid = s@;
    push_str(s, digits.as_str());
    proof {
        assert(s@ =~= start + spaced_decimal(n as nat, width as nat));
    }
}

/// The digits of `n` that come before those of its last `k` digit
/// positions, where `m` is what remains of `n` after dropping them.
pub open spec fn decimal_prefix(n: nat, m: nat) -> Seq<char> {
    if m == 0 {
        Seq::empty()
    } else {
        decimal(m)
    }
}

proof fn lemma_decimal_step(n: nat, m: nat, digits: Seq<char>)
    requires
        (digits.len() == 0 && m == n) || (digits.len() > 0 && m > 0 && decimal(n) == decimal_prefix(
            n,
            m,
        ) + digits.reverse()),
    ensures
        decimal(n) == decimal_prefix(n, m / 10) + digits.push(digit_char(m % 10)).reverse(),
{
    assert(digits.push(digit_char(m % 10)).reverse() =~= seq![digit_char(m % 10)] + digits.reverse());
    if m >= 10 {
        assert(decimal(m) == decimal(m / 10).push(digit_char(m % 10)));
        assert(decimal_prefix(n, m / 10) == decimal(m / 10));
        assert(decimal(m / 10).push(digit_char(m % 10)) + digits.reverse() =~= decimal(m / 10) + (
        seq![digit_char(m % 10)] + digits.reverse()));
    } else {
        assert(decimal_prefix(n, m / 10) =~= Seq::<char>::empty());
        if m > 0 {
            if digits.len() == 0 {
                assert(digits.reverse() =~= Seq::<char>::empty());
            }
            assert(decimal(m) == seq![digit_char(m)]);
            assert(seq![digit_char(m)] + digits.reverse() =~= Seq::<char>::empty() + (seq![
                digit_char(m % 10),
            ] + digits.reverse()));
        } else {
            assert(decimal(0) == seq![digit_char(0)]);
            assert(digits.len() == 0);
            assert(digits.reverse() =~= Seq::<char>::empty());
            assert(decimal(n) =~= Seq::<char>::empty() + (seq![digit_char(m % 10)] + digits.reverse()));
        }
    }
}

fn digit_of(d: u64) -> (c: char)
    requires
        d < 10,
    ensures
        c == digit_char(d as nat),
{
    if d == 0 {
        '0'
    } else if d == 1 {
        '1'
    } else if d == 2 {
        '2'
    } else if d == 3 {
        '3'
    } else if d == 4 {
        '4'
    } else if d == 5 {
        '5'
    } else if d == 6 {
        '6'
    } else if d == 7 {
        '7'
    } else if d == 8 {
        '8'
    } else {
        '9'
    }
}

} // verus!
