//! Small verified helpers: decimal rendering of counters and status
//! codes, string comparison, and the color-to-hue lookup.
use vstd::prelude::*;

verus! {

/// The decimal digit character for a value below ten.
pub open spec fn digit_char(d: int) -> char {
    if d == 0 {
        '0'
    } else if d == 1 {
        '1'
    } else if d == 2 {
        '2'
    } else if d == 3 {
        '3'
    } else if d == 4 {
        '4'
    } else if d == 5 {
        '5'
    } else if d == 6 {
        '6'
    } else if d == 7 {
        '7'
    } else if d == 8 {
        '8'
    } else {
        '9'
    }
}

/// The decimal digits of a positive number; empty for zero.
pub open spec fn dec_rec(n: int) -> Seq<char>
    decreases n,
{
    if n <= 0 {
        Seq::empty()
    } else {
        dec_rec(n / 10).push(digit_char(n % 10))
    }
}

/// The decimal rendering of a non-negative number, `"0"` included.
pub open spec fn dec_digits(n: int) -> Seq<char> {
    if n == 0 {
        seq!['0']
    } else {
        dec_rec(n)
    }
}

/// Distinct digits render as distinct characters.
proof fn lemma_digit_char_injective(a: int, b: int)
    requires
        0 <= a < 10,
        0 <= b < 10,
        digit_char(a) == digit_char(b),
    ensures
        a == b,
{
}

/// Distinct positive numbers render as distinct digit strings.
proof fn lemma_dec_rec_injective(a: int, b: int)
    requires
        a >= 0,
        b >= 0,
        dec_rec(a) == dec_rec(b),
    ensures
        a == b,
    decreases a,
{
    if a == 0 {
        if b > 0 {
            assert(dec_rec(b).len() >= 1);
        }
    } else if b == 0 {
        assert(dec_rec(a).len() >= 1);
    } else {
        assert(dec_rec(a).last() == digit_char(a % 10));
        assert(dec_rec(b).last() == digit_char(b % 10));
        lemma_digit_char_injective(a % 10, b % 10);
        assert(dec_rec(a).drop_last() =~= dec_rec(a / 10));
        assert(dec_rec(b).drop_last() =~= dec_rec(b / 10));
        lemma_dec_rec_injective(a / 10, b / 10);
    }
}

/// Law: the decimal rendering is injective, so two values render equal
/// exactly when they are equal. In particular two distinct idempotency
/// counters always yield distinct token strings.
pub proof fn lemma_dec_digits_injective(a: int, b: int)
    requires
        a >= 0,
        b >= 0,
        dec_digits(a) == dec_digits(b),
    ensures
        a == b,
{
    if a == 0 && b == 0 {
    } else if a == 0 {
        assert(dec_rec(b) == seq!['0']);
        assert(dec_rec(b).last() == digit_char(b % 10));
        assert(digit_char(b % 10) == '0');
        lemma_digit_char_injective(b % 10, 0);
        assert(dec_rec(b).drop_last() =~= dec_rec(b / 10));
        assert(dec_rec(b / 10).len() == 0);
        if b / 10 > 0 {
            assert(dec_rec(b / 10).len() >= 1);
        }
        assert(b == 10 * (b / 10) + b % 10);
    } else if b == 0 {
        assert(dec_rec(a) == seq!['0']);
        assert(dec_rec(a).last() == digit_char(a % 10));
        lemma_digit_char_injective(a % 10, 0);
        assert(dec_rec(a).drop_last() =~= dec_rec(a / 10));
        if a / 10 > 0 {
            assert(dec_rec(a / 10).len() >= 1);
        }
        assert(a == 10 * (a / 10) + a % 10);
    } else {
        lemma_dec_rec_injective(a, b);
    }
}

/// The one-character string for a decimal digit.
fn digit_str(d: u64) -> (r: &'static str)
    requires
        d < 10,
    ensures
        r@ == seq![digit_char(d as int)],
{
    proof {
        reveal_strlit("0");
        reveal_strlit("1");
        reveal_strlit("2");
        reveal_strlit("3");
        reveal_strlit("4");
        reveal_strlit("5");
        reveal_strlit("6");
        reveal_strlit("7");
        reveal_strlit("8");
        reveal_strlit("9");
    }
    match d {
        0 => "0",
        1 => "1",
        2 => "2",
        3 => "3",
        4 => "4",
        5 => "5",
        6 => "6",
        7 => "7",
        8 => "8",
        _ => "9",
    }
}

/// Renders a number in decimal.
pub fn u64_to_string(n: u64) -> (r: String)
    ensures
        r@ == dec_digits(n as int),
{
    if n == 0 {
        let r = String::from_str(digit_str(0));
        proof {
            assert(r@ =~= dec_digits(0));
        }
        return r;
    }
    let mut rev: Vec<u64> = Vec::new();
    let mut m: u64 = n;
    while m > 0
        invariant
            m >= 0,
            forall|j: int| 0 <= j < rev@.len() ==> 0 <= (#[trigger] rev@[j]) < 10,
            dec_rec(n as int) =~= dec_rec(m as int) + digits_of(rev@),
        decreases m,
    {
        let d = m % 10;
        proof {
            let ghost rv0 = rev@;
            assert(dec_rec(m as int) == dec_rec(m as int / 10).push(digit_char(m as int % 10)));
            assert(digits_of(rv0.push(d)) =~= seq![digit_char(d as int)] + digits_of(rv0))
                by {
                assert forall|j: int| 0 <= j < rv0.push(d).len() implies #[trigger] digits_of(
                    rv0.push(d),
                )[j] == (seq![digit_char(d as int)] + digits_of(rv0))[j] by {
                    if j == 0 {
                    } else {
                        assert(rv0.push(d)[rv0.push(d).len() - 1 - j] == rv0[rv0.len() - j]);
                    }
                }
            }
        }
        rev.push(d);
        m = m / 10;
    }
    let mut r = String::new();
    let mut i: usize = rev.len();
    while i > 0
        invariant
            i <= rev@.len(),
            forall|j: int| 0 <= j < rev@.len() ==> 0 <= (#[trigger] rev@[j]) < 10,
            r@ =~= digits_of(rev@).take(rev@.len() - i),
        decreases i,
    {
        i = i - 1;
        let ghost r0 = r@;
        r.append(digit_str(rev[i]));
        proof {
            let k = rev@.len() - 1 - i;
            assert(digits_of(rev@)[k] == digit_char(rev@[i as int] as int));
            assert(r@ =~= digits_of(rev@).take(k + 1));
        }
    }
    proof {
        assert(digits_of(rev@).take(rev@.len() as int) =~= digits_of(rev@));
        assert(dec_rec(0) =~= Seq::<char>::empty());
        assert(dec_rec(n as int) =~= digits_of(rev@));
        assert(r@ =~= dec_digits(n as int));
    }
    r
}

/// The characters of digits collected lowest-first, read highest-first.
spec fn digits_of(rev: Seq<u64>) -> Seq<char> {
    Seq::new(rev.len(), |j: int| digit_char(rev[rev.len() - 1 - j] as int))
}

/// Whether two strings hold the same characters.
pub fn str_eq(a: &str, b: &str) -> (r: bool)
    ensures
        r == (a@ == b@),
{
    let alen = a.unicode_len();
    let blen = b.unicode_len();
    if alen != blen {
        proof {
            if a@ == b@ {
                assert(a@.len() == b@.len());
            }
        }
        return false;
    }
    let mut i: usize = 0;
    while i < alen
        invariant
            i <= alen,
            alen == a@.len(),
            alen == b@.len(),
            forall|j: int| 0 <= j < i ==> a@[j] == b@[j],
        decreases alen - i,
    {
        if a.get_char(i) != b.get_char(i) {
            return false;
        }
        i = i + 1;
    }
    proof {
        assert(a@ =~= b@);
    }
    true
}

/// The hue value each supported color name maps to; unsupported names map
/// to zero.
pub open spec fn hue_of(color: Seq<char>) -> u8 {
    if color == "red"@ {
        254u8
    } else if color == "green"@ {
        85u8
    } else if color == "blue"@ {
        170u8
    } else {
        0u8
    }
}

/// Accepts 'red', 'green' or 'blue' as string and returns the related hue
/// value; any other name yields zero.
pub fn get_hue_from_color(color: &str) -> (r: u8)
    ensures
        r == hue_of(color@),
{
    if str_eq(color, "red") {
        254
    } else if str_eq(color, "green") {
        85
    } else if str_eq(color, "blue") {
        170
    } else {
        0
    }
}

} // verus!
