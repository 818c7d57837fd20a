//! Names of bucket files: the slot size in decimal, then `.cache`.

use vstd::prelude::*;
use vstd::string::StringExecFns;

verus! {

/// The character of the decimal digit `d`.
pub open spec fn digit(d: nat) -> char {
    if d == 0 {
        '0'
    } else if d == 1 {
        '1'
    } else if d == 2 {
        '2'
    } else if d == 3 {
        '3'
    } else if d == 4 {
        '4'
    } else if d == 5 {
        '5'
    } else if d == 6 {
        '6'
    } else if d == 7 {
        '7'
    } else if d == 8 {
        '8'
    } else {
        '9'
    }
}

/// The decimal digit that `c` is, if it is one.
pub open spec fn digit_value(c: char) -> Option<nat> {
    if c == '0' {
        Some(0nat)
    } else if c == '1' {
        Some(1nat)
    } else if c == '2' {
        Some(2nat)
    } else if c == '3' {
        Some(3nat)
    } else if c == '4' {
        Some(4nat)
    } else if c == '5' {
        Some(5nat)
    } else if c == '6' {
        Some(6nat)
    } else if c == '7' {
        Some(7nat)
    } else if c == '8' {
        Some(8nat)
    } else if c == '9' {
        Some(9nat)
    } else {
        None
    }
}

/// `n` in decimal, without leading zeros.
pub open spec fn decimal(n: nat) -> Seq<char>
    decreases n,
{
    if n < 10 {
        seq![digit(n)]
    } else {
        decimal(n / 10).push(digit(n % 10))
    }
}

/// The number that a non-empty string of decimal digits writes.
pub open spec fn digits_value(s: Seq<char>) -> Option<nat>
    decreases s.len(),
{
    if s.len() == 0 {
        None
    } else if s.len() == 1 {
        digit_value(s[0])
    } else {
        match (digits_value(s.drop_last()), digit_value(s.last())) {
            (Some(high), Some(low)) => Some(10 * high + low),
            _ => None,
        }
    }
}

/// What follows the slot size in the name of a bucket file.
pub open spec fn extension() -> Seq<char> {
    seq!['.', 'c', 'a', 'c', 'h', 'e']
}

/// The name of the bucket file with slots of `size` bytes.
pub open spec fn bucket_name(size: nat) -> Seq<char> {
    decimal(size) + extension()
}

/// The slot size that a file name gives: the name is one or more decimal
/// digits followed by `.cache`, and the number fits in 64 bits.
pub open spec fn parse_name(name: Seq<char>) -> Option<u64> {
    if name.len() > 6 && name.subrange(name.len() - 6, name.len() as int) == extension() {
        match digits_value(name.subrange(0, name.len() - 6)) {
            Some(v) => if v <= u64::MAX {
                Some(v as u64)
            } else {
                None
            },
            None => None,
        }
    } else {
        None
    }
}

/// The decimal form of a number reads back as that number.
pub proof fn lemma_decimal_reads_back(n: nat)
    ensures
        decimal(n).len() >= 1,
        digits_value(decimal(n)) == Some(n),
    decreases n,
{
    if n >= 10 {
        lemma_decimal_reads_back(n / 10);
        let s = decimal(n);
        assert(s.drop_last() =~= decimal(n / 10));
        assert(s.last() == digit(n % 10));
    }
}

/// The name of a bucket file gives back the slot size it was made from.
pub proof fn lemma_name_reads_back(size: u64)
    ensures
        parse_name(bucket_name(size as nat)) == Some(size),
{
    lemma_decimal_reads_back(size as nat);
    let name = bucket_name(size as nat);
    assert(name.subrange(name.len() - 6, name.len() as int) =~= extension());
    assert(name.subrange(0, name.len() - 6) =~= decimal(size as nat));
}

/// A string of digits writes at least what any shorter beginning of it does.
pub proof fn lemma_digits_grow(s: Seq<char>, i: int)
    requires
        1 <= i <= s.len(),
        digits_value(s) is Some,
    ensures
        digits_value(s.subrange(0, i)) is Some,
        digits_value(s.subrange(0, i))->Some_0 <= digits_value(s)->Some_0,
    decreases s.len(),
{
    if i == s.len() {
        assert(s.subrange(0, i) =~= s);
    } else {
        assert(s.drop_last().subrange(0, i) =~= s.subrange(0, i));
        lemma_digits_grow(s.drop_last(), i);
    }
}

/// The one-character string of the decimal digit `d`.
fn digit_str(d: u64) -> (r: &'static str)
    requires
        d < 10,
    ensures
        r@ == seq![digit(d as nat)],
{
    proof {
        reveal_strlit("0");
        reveal_strlit("1");
        reveal_strlit("2");
        reveal_strlit("3");
        reveal_strlit("4");
        reveal_strlit("5");
        reveal_strlit("6");
        reveal_strlit("7");
        reveal_strlit("8");
        reveal_strlit("9");
    }
    let r = if d == 0 {
        "0"
    } else if d == 1 {
        "1"
    } else if d == 2 {
        "2"
    } else if d == 3 {
        "3"
    } else if d == 4 {
        "4"
    } else if d == 5 {
        "5"
    } else if d == 6 {
        "6"
    } else if d == 7 {
        "7"
    } else if d == 8 {
        "8"
    } else {
        "9"
    };
    assert(r@ =~= seq![digit(d as nat)]);
    r
}

/// The name of the bucket file with slots of `size` bytes.
pub fn file_name_of(size: u64) -> (name: String)
    ensures
        name@ == bucket_name(size as nat),
{
    let mut quotients: Vec<u64> = Vec::new();
    let mut q = size;
    quotients.push(q);
    while q >= 10
        invariant
            quotients@.len() >= 1,
            quotients@[0] == size,
            quotients@.last() == q,
            forall|j: int|
                0 <= j < quotients@.len() - 1 ==> #[trigger] quotients@[j] >= 10 && quotients@[j
                    + 1] == quotients@[j] / 10,
        decreases q,
    {
        q = q / 10;
        quotients.push(q);
    }
    let mut name = String::new();
    let mut j = quotients.len();
    while j > 0
        invariant
            0 <= j <= quotients@.len(),
            quotients@.len() >= 1,
            quotients@.last() < 10,
            forall|j: int|
                0 <= j < quotients@.len() - 1 ==> #[trigger] quotients@[j] >= 10 && quotients@[j
                    + 1] == quotients@[j] / 10,
            j == quotients@.len() ==> name@ == Seq::<char>::empty(),
            j < quotients@.len() ==> name@ == decimal(quotients@[j as int] as nat),
        decreases j,
    {
        j -= 1;
        let ghost before = name@;
        name.append(digit_str(quotients[j] % 10));
        proof {
            if j == quotients@.len() - 1 {
                assert(name@ =~= decimal(quotients@[j as int] as nat));
            } else {
                assert(quotients@[j as int] >= 10);
                assert(name@ =~= decimal(quotients@[j as int] as nat));
            }
        }
    }
    proof {
        reveal_strlit(".cache");
    }
    let ghost digits = name@;
    name.append(".cache");
    assert(name@ =~= bucket_name(size as nat));
    name
}

/// The decimal digit that `c` is, if it is one.
fn digit_of(c: char) -> (r: Option<u64>)
    ensures
        match r {
            Some(d) => digit_value(c) == Some(d as nat) && d < 10,
            None => digit_value(c) is None,
        },
{
    if c == '0' {
        Some(0)
    } else if c == '1' {
        Some(1)
    } else if c == '2' {
        Some(2)
    } else if c == '3' {
        Some(3)
    } else if c == '4' {
        Some(4)
    } else if c == '5' {
        Some(5)
    } else if c == '6' {
        Some(6)
    } else if c == '7' {
        Some(7)
    } else if c == '8' {
        Some(8)
    } else if c == '9' {
        Some(9)
    } else {
        None
    }
}

/// Reads the slot size from the name of a bucket file; `None` for any other
/// name.
pub fn read_name(name: &str) -> (r: Option<u64>)
    ensures
        r == parse_name(name@),
{
    let n = name.unicode_len();
    if n <= 6 {
        return None;
    }
    let stem = n - 6;
    if name.get_char(stem) != '.' || name.get_char(stem + 1) != 'c' || name.get_char(stem + 2)
        != 'a' || name.get_char(stem + 3) != 'c' || name.get_char(stem + 4) != 'h'
        || name.get_char(stem + 5) != 'e' {
        proof {
            let tail = name@.subrange(name@.len() - 6, name@.len() as int);
            assert(tail[0] == name@[stem as int]);
            assert(tail[1] == name@[stem + 1]);
            assert(tail[2] == name@[stem + 2]);
            assert(tail[3] == name@[stem + 3]);
            assert(tail[4] == name@[stem + 4]);
            assert(tail[5] == name@[stem + 5]);
        }
        return None;
    }
    assert(name@.subrange(name@.len() - 6, name@.len() as int) =~= extension());
    let ghost digits = name@.subrange(0, stem as int);
    let mut value: u64 = 0;
    let mut i: usize = 0;
    while i < stem
        invariant
            0 <= i <= stem,
            stem + 6 == name@.len(),
            digits == name@.subrange(0, stem as int),
            i > 0 ==> digits_value(digits.subrange(0, i as int)) == Some(value as nat),
        decreases stem - i,
    {
        let c = name.get_char(i);
        let ghost head = digits.subrange(0, i as int);
        let ghost next = digits.subrange(0, i + 1);
        proof {
            assert(next.drop_last() =~= head);
            assert(next.last() == c);
        }
        match digit_of(c) {
            None => {
                proof {
                    assert(digits_value(next) is None);
                    if digits_value(digits) is Some {
                        lemma_digits_grow(digits, i + 1);
                    }
                }
                return None;
            },
            Some(d) => {
                if i > 0 && value > (u64::MAX - d) / 10 {
                    proof {
                        assert(digits_value(next) == Some(10 * (value as nat) + (d as nat)));
                        if digits_value(digits) is Some {
                            lemma_digits_grow(digits, i + 1);
                        }
                    }
                    return None;
                }
                value = if i == 0 {
                    d
                } else {
                    10 * value + d
                };
            },
        }
        i += 1;
    }
    assert(digits.subrange(0, stem as int) =~= digits);
    Some(value)
}

} // verus!
