//! Spelling numbers out in English words, with the conjunction "and" between
//! hundreds and the rest in the British style.

use vstd::prelude::*;

verus! {

/// The name of a single non-zero digit.
pub open spec fn spec_digit_name(d: int) -> Seq<char> {
    if d == 1 {
        "one"@
    } else if d == 2 {
        "two"@
    } else if d == 3 {
        "three"@
    } else if d == 4 {
        "four"@
    } else if d == 5 {
        "five"@
    } else if d == 6 {
        "six"@
    } else if d == 7 {
        "seven"@
    } else if d == 8 {
        "eight"@
    } else {
        "nine"@
    }
}

/// The name of a number from ten to nineteen.
pub open spec fn spec_teen_name(t: int) -> Seq<char> {
    if t == 10 {
        "ten"@
    } else if t == 11 {
        "eleven"@
    } else if t == 12 {
        "twelve"@
    } else if t == 13 {
        "thirteen"@
    } else if t == 14 {
        "fourteen"@
    } else if t == 15 {
        "fifteen"@
    } else if t == 16 {
        "sixteen"@
    } else if t == 17 {
        "seventeen"@
    } else if t == 18 {
        "eighteen"@
    } else {
        "nineteen"@
    }
}

/// The name of a multiple of ten, from twenty to ninety, by its tens digit.
pub open spec fn spec_ten_name(t: int) -> Seq<char> {
    if t == 2 {
        "twenty"@
    } else if t == 3 {
        "thirty"@
    } else if t == 4 {
        "forty"@
    } else if t == 5 {
        "fifty"@
    } else if t == 6 {
        "sixty"@
    } else if t == 7 {
        "seventy"@
    } else if t == 8 {
        "eighty"@
    } else {
        "ninety"@
    }
}

/// A separating space, added only after something already written.
pub open spec fn spec_sep(w: Seq<char>) -> Seq<char> {
    if w.len() > 0 {
        w + " "@
    } else {
        w
    }
}

/// The English words for a number: thousands first, then hundreds, then —
/// joined by "and" where a hundreds part precedes them — the teens, or the
/// tens and units. Zero is the empty string.
pub open spec fn words_spec(n: nat) -> Seq<char>
    decreases n,
{
    let units = n % 10;
    let tens = (n / 10) % 10;
    let teens = n % 100;
    let hundreds = (n / 100) % 10;
    let thousands = n / 1000;
    let w0: Seq<char> = if thousands > 0 {
        words_spec(thousands) + " thousand"@
    } else {
        Seq::empty()
    };
    let w1: Seq<char> = if hundreds > 0 {
        spec_sep(w0) + spec_digit_name(hundreds as int) + " hundred"@
    } else {
        w0
    };
    let needs_and = hundreds > 0;
    if 9 < teens && teens < 20 {
        let w2 = if needs_and {
            w1 + " and"@
        } else {
            w1
        };
        spec_sep(w2) + spec_teen_name(teens as int)
    } else {
        let w3: Seq<char> = if tens != 0 && needs_and {
            w1 + " and"@
        } else {
            w1
        };
        let w4: Seq<char> = if tens != 0 {
            spec_sep(w3) + spec_ten_name(tens as int)
        } else {
            w3
        };
        let still_needs_and = needs_and && tens == 0;
        if units != 0 {
            let w5 = if still_needs_and {
                w4 + " and"@
            } else {
                w4
            };
            spec_sep(w5) + spec_digit_name(units as int)
        } else {
            w4
        }
    }
}

fn digit_name(d: usize) -> (r: &'static str)
    requires
        1 <= d <= 9,
    ensures
        r@ == spec_digit_name(d as int),
{
    match d {
        1 => "one",
        2 => "two",
        3 => "three",
        4 => "four",
        5 => "five",
        6 => "six",
        7 => "seven",
        8 => "eight",
        _ => "nine",
    }
}

fn teen_name(t: usize) -> (r: &'static str)
    requires
        10 <= t <= 19,
    ensures
        r@ == spec_teen_name(t as int),
{
    match t {
        10 => "ten",
        11 => "eleven",
        12 => "twelve",
        13 => "thirteen",
        14 => "fourteen",
        15 => "fifteen",
        16 => "sixteen",
        17 => "seventeen",
        18 => "eighteen",
        _ => "nineteen",
    }
}

fn ten_name(t: usize) -> (r: &'static str)
    requires
        2 <= t <= 9,
    ensures
        r@ == spec_ten_name(t as int),
{
    match t {
        2 => "twenty",
        3 => "thirty",
        4 => "forty",
        5 => "fifty",
        6 => "sixty",
        7 => "seventy",
        8 => "eighty",
        _ => "ninety",
    }
}

/// Spell `n` out in words, as `words_spec` describes.
pub fn number_as_words(n: usize) -> (r: String)
    ensures
        r@ == words_spec(n as nat),
    decreases n,
{
    let units = n % 10;
    let tens = (n / 10) % 10;
    let teens = n % 100;
    let hundreds = (n / 100) % 10;
    let thousands = n / 1000;

    let mut words = String::new();

    if thousands > 0 {
        proof {
            assert(thousands < n) by {
                vstd::arithmetic::div_mod::lemma_div_decreases(n as int, 1000);
            }
        }
        let prefix = number_as_words(thousands);
        words.append(prefix.as_str());
        words.append(" thousand");
    }
    let ghost w0 = words@;

    let mut needs_and = false;
    if hundreds > 0 {
        if !words.as_str().is_empty() {
            words.append(" ");
        }
        words.append(digit_name(hundreds));
        words.append(" hundred");
        needs_and = true;
    }
    let ghost w1 = words@;

    if teens < 20 && teens > 9 {
        if needs_and {
            words.append(" and");
        }
        let ghost w2 = words@;
        if !words.as_str().is_empty() {
            words.append(" ");
        }
        proof {
            assert(words@ == spec_sep(w2));
        }
        words.append(teen_name(teens));
    } else {
        if tens != 0 {
            if needs_and {
                words.append(" and");
                needs_and = false;
            }
            let ghost w3 = words@;
            if !words.as_str().is_empty() {
                words.append(" ");
            }
            proof {
                assert(words@ == spec_sep(w3));
            }
            words.append(ten_name(tens));
        }
        if units != 0 {
            if needs_and {
                words.append(" and");
            }
            let ghost w5 = words@;
            if !words.as_str().is_empty() {
                words.append(" ");
            }
            proof {
                assert(words@ == spec_sep(w5));
            }
            words.append(digit_name(units));
        }
    }
    words
}

} // verus!
