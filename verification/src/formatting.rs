//! Decimal formatting of counts with thousands separators.
use vstd::prelude::*;

verus! {

/// The character of decimal digit `d`.
pub open spec fn digit_char(d: int) -> char {
    if d == 0 {
        '0'
    } else if d == 1 {
        '1'
    } else if d == 2 {
        '2'
    } else if d == 3 {
        '3'
    } else if d == 4 {
        '4'
    } else if d == 5 {
        '5'
    } else if d == 6 {
        '6'
    } else if d == 7 {
        '7'
    } else if d == 8 {
        '8'
    } else {
        '9'
    }
}

/// The decimal representation of `n`, most significant digit first.
pub open spec fn decimal_digits(n: nat) -> Seq<char>
    decreases n,
{
    if n < 10 {
        seq![digit_char(n as int)]
    } else {
        decimal_digits(n / 10).push(digit_char((n % 10) as int))
    }
}

/// The first `i` characters of `d`, with a comma after every character
/// that is followed by a positive multiple of three characters.
pub open spec fn grouped_prefix(d: Seq<char>, i: int) -> Seq<char>
    decreases i,
{
    if i <= 0 {
        Seq::empty()
    } else {
        let prev = grouped_prefix(d, i - 1).push(d[i - 1]);
        if (d.len() - i) % 3 == 0 && i < d.len() {
            prev.push(',')
        } else {
            prev
        }
    }
}

/// `d` with a comma between each group of three characters, counted from the right.
pub open spec fn with_thousands_separators(d: Seq<char>) -> Seq<char> {
    grouped_prefix(d, d.len() as int)
}

fn digit_str(d: u64) -> (s: &'static str)
    requires
        d < 10,
    ensures
        s@ == seq![digit_char(d as int)],
{
    if d == 0 {
        proof {
            reveal_strlit("0");
        }
        "0"
    } else if d == 1 {
        proof {
            reveal_strlit("1");
        }
        "1"
    } else if d == 2 {
        proof {
            reveal_strlit("2");
        }
        "2"
    } else if d == 3 {
        proof {
            reveal_strlit("3");
        }
        "3"
    } else if d == 4 {
        proof {
            reveal_strlit("4");
        }
        "4"
    } else if d == 5 {
        proof {
            reveal_strlit("5");
        }
        "5"
    } else if d == 6 {
        proof {
            reveal_strlit("6");
        }
        "6"
    } else if d == 7 {
        proof {
            reveal_strlit("7");
        }
        "7"
    } else if d == 8 {
        proof {
            reveal_strlit("8");
        }
        "8"
    } else {
        proof {
            reveal_strlit("9");
        }
        "9"
    }
}

/// Format `n` in decimal with a comma between groups of three digits
/// (`1234567` becomes `1,234,567`).
pub fn format_with_commas(n: u64) -> (s: String)
    ensures
        s@ == with_thousands_separators(decimal_digits(n as nat)),
{
    let ghost all = decimal_digits(n as nat);
    // Digits of the part already split off, most significant first.
    let mut digits: Vec<u64> = Vec::new();
    let mut cur = n;
    while cur >= 10
        invariant
            all == decimal_digits(n as nat),
            forall|j: int| 0 <= j < digits@.len() ==> #[trigger] digits@[j] < 10,
            all =~= decimal_digits(cur as nat) + digits@.map_values(|d: u64| digit_char(d as int)),
        decreases cur,
    {
        let ghost old_digits = digits@;
        digits.insert(0, cur % 10);
        proof {
            assert(digits@.map_values(|d: u64| digit_char(d as int)) =~= seq![
                digit_char((cur % 10) as int),
            ] + old_digits.map_values(|d: u64| digit_char(d as int)));
        }
        cur = cur / 10;
    }
    let ghost old_digits = digits@;
    digits.insert(0, cur);
    assert(digits@.map_values(|d: u64| digit_char(d as int)) =~= seq![digit_char(cur as int)]
        + old_digits.map_values(|d: u64| digit_char(d as int)));
    assert(all =~= digits@.map_values(|d: u64| digit_char(d as int)));
    let len = digits.len();
    let mut s = String::new();
    let mut i: usize = 0;
    while i < len
        invariant
            all == digits@.map_values(|d: u64| digit_char(d as int)),
            len == digits@.len(),
            forall|j: int| 0 <= j < digits@.len() ==> #[trigger] digits@[j] < 10,
            i <= len,
            s@ == grouped_prefix(all, i as int),
        decreases len - i,
    {
        let d = digits[i];
        s.append(digit_str(d));
        if (len - 1 - i) % 3 == 0 && i + 1 < len {
            proof {
                reveal_strlit(",");
            }
            s.append(",");
        }
        i = i + 1;
    }
    s
}

/// `s` with every comma removed.
pub open spec fn without_commas(s: Seq<char>) -> Seq<char>
    decreases s.len(),
{
    if s.len() == 0 {
        s
    } else if s.last() == ',' {
        without_commas(s.drop_last())
    } else {
        without_commas(s.drop_last()).push(s.last())
    }
}

/// Number of characters of the first group of an `n`-character string: 1 to 3.
pub open spec fn first_group_len(n: int) -> int {
    (n - 1) % 3 + 1
}

/// Number of commas among the first `i` characters of `d` once grouped.
spec fn commas_before(n: int, i: int) -> int {
    if i < first_group_len(n) {
        0
    } else if i < n {
        (i - first_group_len(n)) / 3 + 1
    } else {
        (n - 1) / 3
    }
}

proof fn lemma_group_step(n: int, i: int)
    requires
        1 <= i <= n,
    ensures
        ({
            let g = first_group_len(n);
            let l = i - 1 + commas_before(n, i - 1);
            let comma = (n - i) % 3 == 0 && i < n;
            &&& !(l >= g && (l - g) % 4 == 0)
            &&& (comma <==> (l + 1 >= g && (l + 1 - g) % 4 == 0 && i < n))
            &&& commas_before(n, i) == commas_before(n, i - 1) + if comma {
                1int
            } else {
                0int
            }
        }),
{
    let g = first_group_len(n);
    let m = (n - 1) / 3;
    assert(n - 1 == 3 * m + (n - 1) % 3);
    assert(n == g + 3 * m);
    if i - 1 < g {
        assert(commas_before(n, i - 1) == 0);
        if i == g {
            assert((n - i) % 3 == 0) by {
                assert(n - i == 3 * m);
            }
        } else {
            assert(1 <= g - i <= 2);
            assert((n - i) % 3 != 0) by {
                assert(n - i == 3 * m + (g - i));
            }
        }
    } else {
        let q = (i - 1 - g) / 3;
        let r = (i - 1 - g) % 3;
        assert(i - 1 - g == 3 * q + r);
        assert(0 <= r < 3);
        assert(commas_before(n, i - 1) == q + 1);
        let l = i - 1 + q + 1;
        assert(l - g == 4 * q + r + 1);
        assert((4 * q + r + 1) % 4 == r + 1);
        assert((4 * q + r + 2) % 4 == (r + 2) % 4);
        assert(n - i == 3 * (m - q - 1) + (2 - r));
        assert((n - i) % 3 == 0 <==> r == 2) by {
            if r == 2 {
                assert(n - i == 3 * (m - q - 1));
            }
        }
        if i < n {
            assert((i - g) / 3 == q + if r == 2 {
                1int
            } else {
                0int
            }) by {
                if r == 2 {
                    assert(i - g == 3 * (q + 1));
                } else {
                    assert(i - g == 3 * q + r + 1);
                }
            }
        } else {
            assert(3 * m - 1 == 3 * q + r);
            assert(q == m - 1 && r == 2);
        }
    }
}

proof fn lemma_grouped_prefix_shape(d: Seq<char>, i: int)
    requires
        d.len() >= 1,
        0 <= i <= d.len(),
        forall|k: int| 0 <= k < d.len() ==> d[k] != ',',
    ensures
        without_commas(grouped_prefix(d, i)) == d.subrange(0, i),
        grouped_prefix(d, i).len() == i + commas_before(d.len() as int, i),
        forall|j: int|
            0 <= j < grouped_prefix(d, i).len() ==> (grouped_prefix(d, i)[j] == ',' <==> (j
                >= first_group_len(d.len() as int) && (j - first_group_len(d.len() as int)) % 4
                == 0)),
    decreases i,
{
    let n = d.len() as int;
    let g = first_group_len(n);
    if i > 0 {
        lemma_grouped_prefix_shape(d, i - 1);
        let prev = grouped_prefix(d, i - 1);
        let with_digit = prev.push(d[i - 1]);
        assert(with_digit.drop_last() =~= prev);
        assert(d.subrange(0, i) =~= d.subrange(0, i - 1).push(d[i - 1]));
        assert(without_commas(with_digit) == d.subrange(0, i));
        let comma = (n - i) % 3 == 0 && i < n;
        lemma_group_step(n, i);
        if comma {
            let with_comma = with_digit.push(',');
            assert(with_comma.drop_last() =~= with_digit);
            assert(grouped_prefix(d, i) == with_comma);
        } else {
            assert(grouped_prefix(d, i) == with_digit);
        }
    }
}

/// Grouping `d` (a string of at least one character and no comma) keeps its
/// characters: without the commas it is `d` again. It starts with a group of
/// 1 to 3 characters, and every comma is followed by exactly 3 characters
/// before the next comma or the end: commas stand exactly at the positions
/// `g, g + 4, g + 8, …` where `g` is the length of the first group.
pub proof fn lemma_thousands_separators_shape(d: Seq<char>)
    requires
        d.len() >= 1,
        forall|k: int| 0 <= k < d.len() ==> d[k] != ',',
    ensures
        without_commas(with_thousands_separators(d)) == d,
        1 <= first_group_len(d.len() as int) <= 3,
        with_thousands_separators(d).len() == d.len() + (d.len() - 1) / 3,
        with_thousands_separators(d).len() == first_group_len(d.len() as int) + 4 * ((d.len() - 1) / 3),
        forall|j: int|
            0 <= j < with_thousands_separators(d).len() ==> (with_thousands_separators(d)[j] == ','
                <==> (j >= first_group_len(d.len() as int) && (j - first_group_len(d.len() as int)) % 4
                == 0)),
{
    lemma_grouped_prefix_shape(d, d.len() as int);
    assert(d.subrange(0, d.len() as int) =~= d);
}

proof fn lemma_decimal_digits_shape(n: nat)
    ensures
        decimal_digits(n).len() >= 1,
        forall|k: int| 0 <= k < decimal_digits(n).len() ==> decimal_digits(n)[k] != ',',
    decreases n,
{
    if n >= 10 {
        lemma_decimal_digits_shape(n / 10);
    }
}

/// `format_with_commas(n)` without its commas is the plain decimal `n`, and
/// it is a first group of 1 to 3 digits followed by groups of exactly 3
/// digits, each after a comma.
pub proof fn lemma_format_with_commas_shape(n: nat)
    ensures
        without_commas(with_thousands_separators(decimal_digits(n))) == decimal_digits(n),
        forall|j: int|
            0 <= j < with_thousands_separators(decimal_digits(n)).len() ==> (
            with_thousands_separators(decimal_digits(n))[j] == ',' <==> (j >= first_group_len(
                decimal_digits(n).len() as int,
            ) && (j - first_group_len(decimal_digits(n).len() as int)) % 4 == 0)),
        with_thousands_separators(decimal_digits(n)).len() == first_group_len(
            decimal_digits(n).len() as int,
        ) + 4 * ((decimal_digits(n).len() - 1) / 3),
        1 <= first_group_len(decimal_digits(n).len() as int) <= 3,
{
    lemma_decimal_digits_shape(n);
    lemma_thousands_separators_shape(decimal_digits(n));
}

} // verus!
