//! Numbers as text: the digits that names, messages and metrics are made of.
use vstd::prelude::*;
use vstd::string::*;

verus! {

/// The character for one hexadecimal digit.
pub open spec fn digit_char(d: nat) -> char {
    if d == 0 {
        '0'
    } else if d == 1 {
        '1'
    } else if d == 2 {
        '2'
    } else if d == 3 {
        '3'
    } else if d == 4 {
        '4'
    } else if d == 5 {
        '5'
    } else if d == 6 {
        '6'
    } else if d == 7 {
        '7'
    } else if d == 8 {
        '8'
    } else if d == 9 {
        '9'
    } else if d == 10 {
        'a'
    } else if d == 11 {
        'b'
    } else if d == 12 {
        'c'
    } else if d == 13 {
        'd'
    } else if d == 14 {
        'e'
    } else {
        'f'
    }
}

/// The value of a decimal digit character, or `None` for any other character.
pub open spec fn digit_value(c: char) -> Option<nat> {
    if c == '0' {
        Some(0)
    } else if c == '1' {
        Some(1)
    } else if c == '2' {
        Some(2)
    } else if c == '3' {
        Some(3)
    } else if c == '4' {
        Some(4)
    } else if c == '5' {
        Some(5)
    } else if c == '6' {
        Some(6)
    } else if c == '7' {
        Some(7)
    } else if c == '8' {
        Some(8)
    } else if c == '9' {
        Some(9)
    } else {
        None
    }
}

/// `n` in decimal, without leading zeros.
pub open spec fn decimal(n: nat) -> Seq<char>
    decreases n,
{
    if n < 10 {
        seq![digit_char(n)]
    } else {
        decimal(n / 10).push(digit_char(n % 10))
    }
}

/// The `width` lowest digits of `n` in `base`, zero-padded.
pub open spec fn padded(n: nat, base: nat, width: nat) -> Seq<char>
    decreases width,
{
    if width == 0 {
        Seq::empty()
    } else {
        padded(n / base, base, (width - 1) as nat).push(digit_char(n % base))
    }
}

/// The number that a run of decimal digits denotes; `None` if a character is
/// not a digit.
pub open spec fn parsed(s: Seq<char>) -> Option<nat>
    decreases s.len(),
{
    if s.len() == 0 {
        Some(0)
    } else {
        match (parsed(s.drop_last()), digit_value(s.last())) {
            (Some(high), Some(low)) => Some(high * 10 + low),
            _ => None,
        }
    }
}

/// Ten to the `n`.
pub open spec fn pow10(n: nat) -> nat
    decreases n,
{
    if n == 0 {
        1
    } else {
        10 * pow10((n - 1) as nat)
    }
}

pub proof fn lemma_padded_len(n: nat, base: nat, width: nat)
    requires
        base > 0,
    ensures
        padded(n, base, width).len() == width,
    decreases width,
{
    if width > 0 {
        vstd::arithmetic::div_mod::lemma_div_pos_is_pos(n as int, base as int);
        lemma_padded_len(n / base, base, (width - 1) as nat);
    }
}

/// Zero-padded digits denote the number, if it fits the width.
pub proof fn lemma_parsed_padded(n: nat, width: nat)
    requires
        n < pow10(width),
    ensures
        parsed(padded(n, 10, width)) == Some(n),
    decreases width,
{
    if width > 0 {
        let high = padded(n / 10, 10, (width - 1) as nat);
        lemma_parsed_padded(n / 10, (width - 1) as nat);
        assert(padded(n, 10, width).drop_last() =~= high);
        assert(digit_value(digit_char(n % 10)) == Some(n % 10));
    }
}

/// A run of digits is the zero-padded form of the number it denotes.
pub proof fn lemma_padded_parsed(s: Seq<char>)
    requires
        parsed(s) is Some,
    ensures
        padded(parsed(s)->0, 10, s.len()) == s,
    decreases s.len(),
{
    if s.len() > 0 {
        lemma_padded_parsed(s.drop_last());
        let n = parsed(s)->0;
        assert(n % 10 == digit_value(s.last())->0);
        assert(n / 10 == parsed(s.drop_last())->0);
        assert(digit_char(n % 10) == s.last());
        assert(padded(n, 10, s.len()) =~= s);
    } else {
        assert(padded(0, 10, 0) =~= s);
    }
}

pub proof fn lemma_parsed_prefix(s: Seq<char>, k: int)
    requires
        0 <= k <= s.len(),
        parsed(s) is Some,
    ensures
        parsed(s.subrange(0, k)) is Some,
        parsed(s.subrange(0, k))->0 <= parsed(s)->0,
    decreases s.len(),
{
    if k == s.len() {
        assert(s.subrange(0, k) =~= s);
    } else {
        lemma_parsed_prefix(s.drop_last(), k);
        assert(s.drop_last().subrange(0, k) =~= s.subrange(0, k));
    }
}

/// Whether a text comes before another of the same length: at the first place
/// where they differ it has the smaller character.
pub open spec fn sorts_before(a: Seq<char>, b: Seq<char>) -> bool {
    &&& a.len() == b.len()
    &&& exists|k: int|
        0 <= k < a.len() && a.subrange(0, k) == b.subrange(0, k) && #[trigger] a[k] < b[k]
}

/// Zero-padded numbers sort as the numbers do.
pub proof fn lemma_padded_sorts(a: nat, b: nat, width: nat) -> (k: int)
    requires
        a < b < pow10(width),
    ensures
        0 <= k < width,
        padded(a, 10, width).len() == width,
        padded(b, 10, width).len() == width,
        padded(a, 10, width).subrange(0, k) == padded(b, 10, width).subrange(0, k),
        padded(a, 10, width)[k] < padded(b, 10, width)[k],
    decreases width,
{
    let w = (width - 1) as nat;
    lemma_padded_len(a, 10, width);
    lemma_padded_len(b, 10, width);
    lemma_padded_len(a / 10, 10, w);
    lemma_padded_len(b / 10, 10, w);
    let x = padded(a, 10, width);
    let y = padded(b, 10, width);
    let high_x = padded(a / 10, 10, w);
    let high_y = padded(b / 10, 10, w);
    if a / 10 < b / 10 {
        let k = lemma_padded_sorts(a / 10, b / 10, w);
        assert(x.subrange(0, k) =~= high_x.subrange(0, k));
        assert(y.subrange(0, k) =~= high_y.subrange(0, k));
        k
    } else {
        assert(x.subrange(0, w as int) =~= high_x);
        assert(y.subrange(0, w as int) =~= high_y);
        w as int
    }
}

pub proof fn lemma_pow10_20()
    ensures
        pow10(20) == 100_000_000_000_000_000_000,
{
    reveal_with_fuel(pow10, 21);
}

fn push_digit(s: &mut String, d: u64)
    requires
        d < 16,
    ensures
        final(s)@ == old(s)@.push(digit_char(d as nat)),
{
    proof {
        reveal_strlit("0");
        reveal_strlit("1");
        reveal_strlit("2");
        reveal_strlit("3");
        reveal_strlit("4");
        reveal_strlit("5");
        reveal_strlit("6");
        reveal_strlit("7");
        reveal_strlit("8");
        reveal_strlit("9");
        reveal_strlit("a");
        reveal_strlit("b");
        reveal_strlit("c");
        reveal_strlit("d");
        reveal_strlit("e");
        reveal_strlit("f");
    }
    let digit = if d == 0 {
        "0"
    } else if d == 1 {
        "1"
    } else if d == 2 {
        "2"
    } else if d == 3 {
        "3"
    } else if d == 4 {
        "4"
    } else if d == 5 {
        "5"
    } else if d == 6 {
        "6"
    } else if d == 7 {
        "7"
    } else if d == 8 {
        "8"
    } else if d == 9 {
        "9"
    } else if d == 10 {
        "a"
    } else if d == 11 {
        "b"
    } else if d == 12 {
        "c"
    } else if d == 13 {
        "d"
    } else if d == 14 {
        "e"
    } else {
        "f"
    };
    assert(digit@ =~= seq![digit_char(d as nat)]);
    s.append(digit);
    assert(s@ =~= old(s)@.push(digit_char(d as nat)));
}

/// Append `n` in decimal.
pub fn push_decimal(s: &mut String, n: u64)
    ensures
        final(s)@ == old(s)@ + decimal(n as nat),
    decreases n,
{
    if n >= 10 {
        push_decimal(s, n / 10);
    }
    let ghost mid = s@;
    push_digit(s, n % 10);
    assert(s@ =~= old(s)@ + decimal(n as nat));
}

/// Append the `width` lowest digits of `n` in `base`, zero-padded.
pub fn push_padded(s: &mut String, n: u64, base: u64, width: usize)
    requires
        2 <= base <= 16,
    ensures
        final(s)@ == old(s)@ + padded(n as nat, base as nat, width as nat),
    decreases width,
{
    if width > 0 {
        push_padded(s, n / base, base, width - 1);
        push_digit(s, n % base);
    }
    assert(s@ =~= old(s)@ + padded(n as nat, base as nat, width as nat));
}

fn digit_of(c: char) -> (d: Option<u64>)
    ensures
        match d {
            Some(v) => digit_value(c) == Some(v as nat) && v < 10,
            None => digit_value(c) is None,
        },
{
    if c == '0' {
        Some(0)
    } else if c == '1' {
        Some(1)
    } else if c == '2' {
        Some(2)
    } else if c == '3' {
        Some(3)
    } else if c == '4' {
        Some(4)
    } else if c == '5' {
        Some(5)
    } else if c == '6' {
        Some(6)
    } else if c == '7' {
        Some(7)
    } else if c == '8' {
        Some(8)
    } else if c == '9' {
        Some(9)
    } else {
        None
    }
}

/// Parse a run of decimal digits. `None` if a character is not a digit or the
/// number exceeds `u64::MAX`.
pub fn parse_digits(s: &str) -> (n: Option<u64>)
    ensures
        match n {
            Some(v) => parsed(s@) == Some(v as nat),
            None => parsed(s@) is None || parsed(s@)->0 > u64::MAX,
        },
{
    let len: usize = s.unicode_len();
    let mut acc: u64 = 0;
    let mut i: usize = 0;
    while i < len
        invariant
            i <= len,
            len == s@.len(),
            parsed(s@.subrange(0, i as int)) == Some(acc as nat),
        decreases len - i,
    {
        let ghost next = s@.subrange(0, i + 1);
        proof {
            assert(next.drop_last() =~= s@.subrange(0, i as int));
            assert(next.last() == s@[i as int]);
            if parsed(s@) is Some {
                lemma_parsed_prefix(s@, i + 1);
            }
        }
        let c = s.get_char(i);
        match digit_of(c) {
            None => {
                return None;
            },
            Some(d) => {
                if acc > (u64::MAX - d) / 10 {
                    assert(acc * 10 + d > u64::MAX);
                    return None;
                }
                acc = acc * 10 + d;
            },
        }
        i = i + 1;
    }
    assert(s@.subrange(0, len as int) =~= s@);
    Some(acc)
}

/// Whether two strings hold the same characters.
pub fn same_text(a: &str, b: &str) -> (r: bool)
    ensures
        r == (a@ == b@),
{
    let n: usize = a.unicode_len();
    if b.unicode_len() != n {
        return false;
    }
    let mut i: usize = 0;
    while i < n
        invariant
            i <= n,
            n == a@.len(),
            n == b@.len(),
            forall|k: int| 0 <= k < i ==> a@[k] == b@[k],
        decreases n - i,
    {
        if a.get_char(i) != b.get_char(i) {
            assert(a@[i as int] != b@[i as int]);
            return false;
        }
        i = i + 1;
    }
    assert(a@ =~= b@);
    true
}

/// The decimal form of a number reads back as the number, and has no zero in front but
/// for the number 0.
pub proof fn law_decimal_reads_back(n: nat)
    ensures
        parsed(decimal(n)) == Some(n),
        decimal(n).len() > 0,
        n > 0 ==> decimal(n)[0] != '0',
    decreases n,
{
    if n >= 10 {
        law_decimal_reads_back(n / 10);
        assert(decimal(n).drop_last() =~= decimal(n / 10));
        assert(digit_value(digit_char(n % 10)) == Some(n % 10));
        assert(decimal(n)[0] == decimal(n / 10)[0]);
    } else {
        let none = Seq::<char>::empty();
        assert(decimal(n).drop_last() =~= none);
        assert(parsed(none) == Some(0nat));
        assert(digit_value(digit_char(n)) == Some(n));
    }
}

} // verus!
