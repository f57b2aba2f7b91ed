//! Text of the messages and control lines that the crate hands out.
use vstd::prelude::*;
use vstd::string::StringExecFns;

verus! {

/// The character of a decimal digit.
pub open spec fn digit(d: nat) -> char {
    if d == 0 {
        '0'
    } else if d == 1 {
        '1'
    } else if d == 2 {
        '2'
    } else if d == 3 {
        '3'
    } else if d == 4 {
        '4'
    } else if d == 5 {
        '5'
    } else if d == 6 {
        '6'
    } else if d == 7 {
        '7'
    } else if d == 8 {
        '8'
    } else {
        '9'
    }
}

/// The decimal digits of `n`, without leading zeros.
pub open spec fn decimal(n: nat) -> Seq<char>
    decreases n,
{
    if n < 10 {
        seq![digit(n)]
    } else {
        decimal(n / 10).push(digit(n % 10))
    }
}

/// The text of one decimal digit.
fn digit_text(d: u64) -> (s: &'static str)
    requires
        d < 10,
    ensures
        s@ == seq![digit(d as nat)],
{
    proof {
        reveal_strlit("0");
        reveal_strlit("1");
        reveal_strlit("2");
        reveal_strlit("3");
        reveal_strlit("4");
        reveal_strlit("5");
        reveal_strlit("6");
        reveal_strlit("7");
        reveal_strlit("8");
        reveal_strlit("9");
    }
    if d == 0 {
        "0"
    } else if d == 1 {
        "1"
    } else if d == 2 {
        "2"
    } else if d == 3 {
        "3"
    } else if d == 4 {
        "4"
    } else if d == 5 {
        "5"
    } else if d == 6 {
        "6"
    } else if d == 7 {
        "7"
    } else if d == 8 {
        "8"
    } else {
        "9"
    }
}

/// Appends the decimal digits of `n`.
pub fn push_decimal(out: &mut String, n: u64)
    ensures
        final(out)@ == old(out)@ + decimal(n as nat),
    decreases n,
{
    if n >= 10 {
        push_decimal(out, n / 10);
    }
    out.append(digit_text(n % 10));
    assert(out@ =~= old(out)@ + decimal(n as nat));
}

/// The character of a hexadecimal digit.
pub open spec fn hex_digit(d: nat) -> char {
    if d < 10 {
        digit(d)
    } else if d == 10 {
        'a'
    } else if d == 11 {
        'b'
    } else if d == 12 {
        'c'
    } else if d == 13 {
        'd'
    } else if d == 14 {
        'e'
    } else {
        'f'
    }
}

/// The hexadecimal digits of `n`, lower case and without leading zeros.
pub open spec fn hexadecimal(n: nat) -> Seq<char>
    decreases n,
{
    if n < 16 {
        seq![hex_digit(n)]
    } else {
        hexadecimal(n / 16).push(hex_digit(n % 16))
    }
}

/// The text of one hexadecimal digit.
fn hex_digit_text(d: u64) -> (s: &'static str)
    requires
        d < 16,
    ensures
        s@ == seq![hex_digit(d as nat)],
{
    proof {
        reveal_strlit("a");
        reveal_strlit("b");
        reveal_strlit("c");
        reveal_strlit("d");
        reveal_strlit("e");
        reveal_strlit("f");
    }
    if d < 10 {
        digit_text(d)
    } else if d == 10 {
        "a"
    } else if d == 11 {
        "b"
    } else if d == 12 {
        "c"
    } else if d == 13 {
        "d"
    } else if d == 14 {
        "e"
    } else {
        "f"
    }
}

/// Appends the hexadecimal digits of `n`.
pub fn push_hexadecimal(out: &mut String, n: u64)
    ensures
        final(out)@ == old(out)@ + hexadecimal(n as nat),
    decreases n,
{
    if n >= 16 {
        push_hexadecimal(out, n / 16);
    }
    out.append(hex_digit_text(n % 16));
    assert(out@ =~= old(out)@ + hexadecimal(n as nat));
}

/// The text `head`, then the digits of `n`.
pub fn label(head: &str, n: u64) -> (s: String)
    ensures
        s@ == head@ + decimal(n as nat),
{
    let mut s = String::from_str(head);
    push_decimal(&mut s, n);
    s
}

/// The text `head`, the digits of `n`, the text `mid`, and the digits of `m`.
pub fn label_pair(head: &str, n: u64, mid: &str, m: u64) -> (s: String)
    ensures
        s@ == head@ + decimal(n as nat) + mid@ + decimal(m as nat),
{
    let mut s = label(head, n);
    s.append(mid);
    push_decimal(&mut s, m);
    s
}

/// The digits of a number, with a sign where it is negative.
pub open spec fn signed(n: int) -> Seq<char> {
    if n < 0 {
        "-"@ + decimal((-n) as nat)
    } else {
        decimal(n as nat)
    }
}

/// Appends the digits of a number, with a sign where it is negative.
pub fn push_signed(out: &mut String, n: i64)
    ensures
        final(out)@ == old(out)@ + signed(n as int),
{
    if n < 0 {
        out.append("-");
        let magnitude: u64 = if n == i64::MIN {
            0x8000_0000_0000_0000
        } else {
            (-n) as u64
        };
        push_decimal(out, magnitude);
        assert(out@ =~= old(out)@ + signed(n as int));
    } else {
        push_decimal(out, n as u64);
    }
}

/// Decimal numbers are written with the digits '0' to '9', the most significant
/// first and without leading zeros: a number below ten is its digit, and any other
/// is the number without its last digit, followed by that digit.
pub proof fn law_decimal_digits(n: nat, d: nat)
    requires
        d < 10,
    ensures
        decimal(d).len() == 1,
        decimal(d)[0] as u32 == '0' as u32 + d,
        n > 0 ==> decimal(10 * n + d) == decimal(n) + decimal(d),
{
    if n > 0 {
        assert((10 * n + d) / 10 == n);
        assert((10 * n + d) % 10 == d);
        assert(decimal(10 * n + d) =~= decimal(n) + decimal(d));
    }
}

/// Hexadecimal numbers are written likewise, with 'a' to 'f' behind '9'.
pub proof fn law_hexadecimal_digits(n: nat, d: nat)
    requires
        d < 16,
    ensures
        hexadecimal(d).len() == 1,
        d < 10 ==> hexadecimal(d)[0] as u32 == '0' as u32 + d,
        d >= 10 ==> hexadecimal(d)[0] as u32 == 'a' as u32 + d - 10,
        n > 0 ==> hexadecimal(16 * n + d) == hexadecimal(n) + hexadecimal(d),
{
    if n > 0 {
        assert((16 * n + d) / 16 == n);
        assert((16 * n + d) % 16 == d);
        assert(hexadecimal(16 * n + d) =~= hexadecimal(n) + hexadecimal(d));
    }
}

/// A negative number is written as its amount behind a minus sign.
pub proof fn law_signed_numbers(n: nat)
    ensures
        signed(n as int) == decimal(n),
        n > 0 ==> signed(-(n as int)) == "-"@ + decimal(n),
{
}

/// The text tells the parts in order, with words before, between and behind them.
pub open spec fn tells(text: Seq<char>, parts: Seq<Seq<char>>) -> bool
    decreases parts.len(),
{
    parts.len() == 0 || exists|rest: Seq<char>, words: Seq<char>|
        #![trigger rest + parts.last() + words]
        text == rest + parts.last() + words && tells(rest, parts.drop_last())
}

/// One part behind those that the beginning tells.
proof fn lemma_tells_more(
    text: Seq<char>,
    rest: Seq<char>,
    parts: Seq<Seq<char>>,
    part: Seq<char>,
    words: Seq<char>,
)
    requires
        text == rest + part + words,
        tells(rest, parts),
    ensures
        tells(text, parts.push(part)),
{
    let all = parts.push(part);
    assert(all.drop_last() =~= parts);
    assert(text == rest + all.last() + words);
}

pub proof fn lemma_tells_one(text: Seq<char>, a: Seq<char>, p: Seq<char>, b: Seq<char>)
    requires
        text =~= a + p + b,
    ensures
        tells(text, seq![p]),
{
    lemma_tells_more(text, a, Seq::empty(), p, b);
    assert(Seq::<Seq<char>>::empty().push(p) =~= seq![p]);
}

pub proof fn lemma_tells_two(
    text: Seq<char>,
    a: Seq<char>,
    p: Seq<char>,
    b: Seq<char>,
    q: Seq<char>,
    c: Seq<char>,
)
    requires
        text =~= a + p + b + q + c,
    ensures
        tells(text, seq![p, q]),
{
    lemma_tells_one(a + p + b, a, p, b);
    lemma_tells_more(text, a + p + b, seq![p], q, c);
    assert(seq![p].push(q) =~= seq![p, q]);
}

pub proof fn lemma_tells_three(
    text: Seq<char>,
    a: Seq<char>,
    p: Seq<char>,
    b: Seq<char>,
    q: Seq<char>,
    c: Seq<char>,
    r: Seq<char>,
    d: Seq<char>,
)
    requires
        text =~= a + p + b + q + c + r + d,
    ensures
        tells(text, seq![p, q, r]),
{
    lemma_tells_two(a + p + b + q + c, a, p, b, q, c);
    lemma_tells_more(text, a + p + b + q + c, seq![p, q], r, d);
    assert(seq![p, q].push(r) =~= seq![p, q, r]);
}

pub proof fn lemma_tells_four(
    text: Seq<char>,
    a: Seq<char>,
    p: Seq<char>,
    b: Seq<char>,
    q: Seq<char>,
    c: Seq<char>,
    r: Seq<char>,
    d: Seq<char>,
    s: Seq<char>,
    e: Seq<char>,
)
    requires
        text =~= a + p + b + q + c + r + d + s + e,
    ensures
        tells(text, seq![p, q, r, s]),
{
    lemma_tells_three(a + p + b + q + c + r + d, a, p, b, q, c, r, d);
    lemma_tells_more(text, a + p + b + q + c + r + d, seq![p, q, r], s, e);
    assert(seq![p, q, r].push(s) =~= seq![p, q, r, s]);
}

} // verus!
