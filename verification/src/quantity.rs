//! Resource quantities: exact non-negative amounts written with decimal or
//! binary suffixes, held as whole units and thousandths of a unit.

use core::cmp::Ordering;
use vstd::arithmetic::div_mod::lemma_fundamental_div_mod;
use vstd::prelude::*;

verus! {

/// The text was not a quantity this library can hold.
#[derive(Debug, Clone, Copy, PartialEq, Eq, Structural)]
pub struct InvalidQuantity;

/// A non-negative amount of some resource: up to 2^128 - 1 units, to the
/// thousandth.
///
/// The value is `units + thousandths / 1000`. `binary` records that the amount was
/// written with a power-of-1024 suffix and can be written so again.
#[derive(Debug, Clone, Copy)]
pub struct Quantity {
    units: u128,
    thousandths: u16,
    binary: bool,
}

/// Whether `c` is one of `0` to `9`.
pub open spec fn is_digit(c: char) -> bool {
    48 <= c as u32 <= 57
}

/// The number that the digit `c` stands for.
pub open spec fn digit_value(c: char) -> nat {
    (c as u32 - 48) as nat
}

/// The number written by the decimal digits `s`, most significant first.
pub open spec fn digits_value(s: Seq<char>) -> nat
    decreases s.len(),
{
    if s.len() == 0 {
        0
    } else {
        digits_value(s.drop_last()) * 10 + digit_value(s.last())
    }
}

/// The index at which the run of digits that starts at `from` ends.
pub open spec fn digit_run(s: Seq<char>, from: int) -> int
    decreases s.len() - from,
{
    if 0 <= from < s.len() && is_digit(s[from]) {
        digit_run(s, from + 1)
    } else {
        from
    }
}

/// `v` with `places` trailing decimal zeros removed, if it ends in that many.
pub open spec fn strip_zeros(v: nat, places: nat) -> Option<nat>
    decreases places,
{
    if places == 0 {
        Some(v)
    } else if v % 10 != 0 {
        None
    } else {
        strip_zeros(v / 10, (places - 1) as nat)
    }
}

/// What a suffix does to the number: the factor by which it multiplies it, the
/// decimal places by which it then moves the point to the left, and whether it is
/// a power of 1024. No suffix leaves the number as it is, `m` makes thousandths
/// of it, `k` or `K`, `M`, `G`, `T`, `P`, `E` multiply by powers of 1000, and `Ki`,
/// `Mi`, `Gi`, `Ti`, `Pi`, `Ei` by powers of 1024.
pub open spec fn suffix_scale(suffix: Seq<char>) -> Option<(nat, nat, bool)> {
    if suffix.len() == 0 {
        Some((1nat, 0nat, false))
    } else if suffix.len() == 1 {
        let c = suffix[0];
        if c == 'm' {
            Some((1nat, 3nat, false))
        } else if c == 'k' || c == 'K' {
            Some((1_000nat, 0nat, false))
        } else if c == 'M' {
            Some((1_000_000nat, 0nat, false))
        } else if c == 'G' {
            Some((1_000_000_000nat, 0nat, false))
        } else if c == 'T' {
            Some((1_000_000_000_000nat, 0nat, false))
        } else if c == 'P' {
            Some((1_000_000_000_000_000nat, 0nat, false))
        } else if c == 'E' {
            Some((1_000_000_000_000_000_000nat, 0nat, false))
        } else {
            None
        }
    } else if suffix.len() == 2 && suffix[1] == 'i' {
        let c = suffix[0];
        if c == 'K' {
            Some((1_024nat, 0nat, true))
        } else if c == 'M' {
            Some((1_048_576nat, 0nat, true))
        } else if c == 'G' {
            Some((1_073_741_824nat, 0nat, true))
        } else if c == 'T' {
            Some((1_099_511_627_776nat, 0nat, true))
        } else if c == 'P' {
            Some((1_125_899_906_842_624nat, 0nat, true))
        } else if c == 'E' {
            Some((1_152_921_504_606_846_976nat, 0nat, true))
        } else {
            None
        }
    } else {
        None
    }
}

/// The character that writes the digit `d`.
pub open spec fn digit_char(d: nat) -> char {
    if d == 0 {
        '0'
    } else if d == 1 {
        '1'
    } else if d == 2 {
        '2'
    } else if d == 3 {
        '3'
    } else if d == 4 {
        '4'
    } else if d == 5 {
        '5'
    } else if d == 6 {
        '6'
    } else if d == 7 {
        '7'
    } else if d == 8 {
        '8'
    } else {
        '9'
    }
}

/// The decimal digits of `n`, most significant first, without leading zeros.
pub open spec fn digits_of(n: nat) -> Seq<char>
    decreases n,
{
    if n < 10 {
        seq![digit_char(n)]
    } else {
        digits_of(n / 10).push(digit_char(n % 10))
    }
}

/// The number and the suffix that write `whole` units with the largest power of
/// 1000 that leaves a whole number.
pub open spec fn decimal_form(whole: nat) -> (nat, Seq<char>) {
    if whole == 0 {
        (0nat, seq![])
    } else if whole % 1_000_000_000_000_000_000 == 0 {
        (whole / 1_000_000_000_000_000_000, seq!['E'])
    } else if whole % 1_000_000_000_000_000 == 0 {
        (whole / 1_000_000_000_000_000, seq!['P'])
    } else if whole % 1_000_000_000_000 == 0 {
        (whole / 1_000_000_000_000, seq!['T'])
    } else if whole % 1_000_000_000 == 0 {
        (whole / 1_000_000_000, seq!['G'])
    } else if whole % 1_000_000 == 0 {
        (whole / 1_000_000, seq!['M'])
    } else if whole % 1_000 == 0 {
        (whole / 1_000, seq!['k'])
    } else {
        (whole, seq![])
    }
}

/// The number and the suffix that write `whole` units, a multiple of 1024, with
/// the largest power of 1024 that leaves a whole number.
pub open spec fn binary_form(whole: nat) -> (nat, Seq<char>) {
    if whole % 1_152_921_504_606_846_976 == 0 {
        (whole / 1_152_921_504_606_846_976, seq!['E', 'i'])
    } else if whole % 1_125_899_906_842_624 == 0 {
        (whole / 1_125_899_906_842_624, seq!['P', 'i'])
    } else if whole % 1_099_511_627_776 == 0 {
        (whole / 1_099_511_627_776, seq!['T', 'i'])
    } else if whole % 1_073_741_824 == 0 {
        (whole / 1_073_741_824, seq!['G', 'i'])
    } else if whole % 1_048_576 == 0 {
        (whole / 1_048_576, seq!['M', 'i'])
    } else {
        (whole / 1_024, seq!['K', 'i'])
    }
}

/// The number and the suffix of the canonical text: thousandths with `m` where
/// the amount is no whole number of units, else the largest suffix of its
/// notation that leaves a whole number.
pub open spec fn canonical_form(thousandths: nat, binary: bool) -> (nat, Seq<char>) {
    if thousandths % 1000 != 0 {
        (thousandths, seq!['m'])
    } else if binary {
        binary_form(thousandths / 1000)
    } else {
        decimal_form(thousandths / 1000)
    }
}

/// The three digits that write a number below a thousand, zeros in front.
pub open spec fn three_digits(part: nat) -> Seq<char> {
    seq![digit_char(part / 100), digit_char((part / 10) % 10), digit_char(part % 10)]
}

/// The canonical text of an amount: a whole number without leading zeros, then
/// the suffix. An amount that is no whole number of units and, in thousandths,
/// beyond 128 bits is written as units, a point and three digits.
pub open spec fn render_spec(thousandths: nat, binary: bool) -> Seq<char> {
    if thousandths % 1000 != 0 && thousandths > u128::MAX {
        digits_of(thousandths / 1000) + seq!['.'] + three_digits(thousandths % 1000)
    } else {
        let form = canonical_form(thousandths, binary);
        digits_of(form.0) + form.1
    }
}

/// Whether an amount of `thousandths` can be written in binary notation.
pub open spec fn binary_writable(thousandths: nat) -> bool {
    thousandths > 0 && thousandths % 1_024_000 == 0
}

/// The largest amount that a quantity holds, in thousandths.
pub open spec fn max_amount() -> nat {
    u128::MAX as nat * 1000 + 999
}

/// The amount that `text` denotes, in thousandths, and whether it is kept in
/// binary notation; `None` where `text` is no quantity.
///
/// A quantity is one or more digits, optionally a point and one or more digits,
/// then a suffix (none, `m`, `k`, `K`, `M`, `G`, `T`, `P`, `E`, `Ki`, `Mi`, `Gi`,
/// `Ti`, `Pi`, `Ei`). The digits before the point, times the suffix's factor,
/// must fit in 128 bits, and so must the digits behind it, times the factor and a
/// thousand. The amount must be a whole number of thousandths and no more than a
/// quantity holds.
pub open spec fn parse_spec(text: Seq<char>) -> Option<(nat, bool)> {
    let int_end = digit_run(text, 0);
    let has_point = int_end < text.len() && text[int_end] == '.';
    let frac_start = if has_point { int_end + 1 } else { int_end };
    let frac_end = digit_run(text, frac_start);
    if int_end == 0 || (has_point && frac_end == frac_start) {
        None
    } else {
        match suffix_scale(text.subrange(frac_end, text.len() as int)) {
            None => None,
            Some((factor, shift, binary)) => {
                let whole = digits_value(text.subrange(0, int_end)) * factor;
                let part = digits_value(text.subrange(frac_start, frac_end)) * factor * 1000;
                if whole > u128::MAX || part > u128::MAX {
                    None
                } else {
                    match (
                        strip_zeros(whole * 1000, shift),
                        strip_zeros(part, (frac_end - frac_start) as nat + shift),
                    ) {
                        (Some(a), Some(b)) => if a + b <= max_amount() {
                            Some((a + b, binary && binary_writable(a + b)))
                        } else {
                            None
                        },
                        _ => None,
                    }
                }
            },
        }
    }
}

/// Every suffix multiplies by one or more; it moves the point by three places or
/// by none, and by three only where it multiplies by one.
proof fn lemma_suffix_scale(suffix: Seq<char>)
    ensures
        suffix_scale(suffix) matches Some((factor, shift, _)) ==> 1 <= factor
            <= 1_152_921_504_606_846_976 && (shift == 0 || (shift == 3 && factor == 1)),
{
}

/// A number times one or more is no less than the number.
proof fn lemma_product_grows(d: nat, factor: nat)
    requires
        factor >= 1,
    ensures
        d * factor >= d,
{
    assert(d * factor >= d) by (nonlinear_arith)
        requires
            factor >= 1,
            d >= 0,
    ;
}

/// Reads the run of digits of `text` from `from` on, continuing the number `start`
/// that `before` wrote. Returns where the run ends and the number, or `None` for a
/// number beyond 128 bits.
fn scan_digits(
    text: &str,
    n: usize,
    from: usize,
    start: u128,
    Ghost(before): Ghost<Seq<char>>,
) -> (r: (usize, Option<u128>))
    requires
        n == text@.len(),
        from <= n,
        start == digits_value(before),
    ensures
        from <= r.0 <= n,
        r.0 == digit_run(text@, from as int),
        match r.1 {
            Some(v) => v == digits_value(before + text@.subrange(from as int, r.0 as int)),
            None => digits_value(before + text@.subrange(from as int, r.0 as int)) > u128::MAX,
        },
{
    let mut i: usize = from;
    let mut acc: Option<u128> = Some(start);
    let mut scanning: bool = true;
    proof {
        assert(before + text@.subrange(from as int, from as int) =~= before);
    }
    while scanning && i < n
        invariant
            n == text@.len(),
            from <= i <= n,
            digit_run(text@, from as int) == digit_run(text@, i as int),
            !scanning ==> i < n && !is_digit(text@[i as int]),
            match acc {
                Some(v) => v == digits_value(before + text@.subrange(from as int, i as int)),
                None => digits_value(before + text@.subrange(from as int, i as int)) > u128::MAX,
            },
        decreases n - i + if scanning { 1nat } else { 0nat },
    {
        let c: char = text.get_char(i);
        let code: u32 = c as u32;
        if 48 <= code && code <= 57 {
            let d: u128 = (code - 48) as u128;
            proof {
                let longer = before + text@.subrange(from as int, i + 1);
                assert(longer.drop_last() =~= before + text@.subrange(from as int, i as int));
                assert(longer.last() == c);
            }
            acc = match acc {
                Some(v) => if v <= (u128::MAX - d) / 10 {
                    Some(v * 10 + d)
                } else {
                    None
                },
                None => None,
            };
            i = i + 1;
        } else {
            scanning = false;
        }
    }
    (i, acc)
}

/// Reads the suffix that `text` ends with from `from` on.
fn read_suffix(text: &str, n: usize, from: usize) -> (r: Option<(u128, bool, bool)>)
    requires
        n == text@.len(),
        from <= n,
    ensures
        match r {
            Some((factor, milli, binary)) => suffix_scale(text@.subrange(from as int, n as int))
                == Some((factor as nat, if milli { 3nat } else { 0nat }, binary)),
            None => suffix_scale(text@.subrange(from as int, n as int)) is None,
        },
{
    let ghost suffix = text@.subrange(from as int, n as int);
    let rest: usize = n - from;
    if rest == 0 {
        Some((1, false, false))
    } else if rest == 1 {
        let c: char = text.get_char(from);
        assert(suffix[0] == c);
        if c == 'm' {
            Some((1, true, false))
        } else if c == 'k' || c == 'K' {
            Some((1_000, false, false))
        } else if c == 'M' {
            Some((1_000_000, false, false))
        } else if c == 'G' {
            Some((1_000_000_000, false, false))
        } else if c == 'T' {
            Some((1_000_000_000_000, false, false))
        } else if c == 'P' {
            Some((1_000_000_000_000_000, false, false))
        } else if c == 'E' {
            Some((1_000_000_000_000_000_000, false, false))
        } else {
            None
        }
    } else if rest == 2 {
        let c: char = text.get_char(from);
        let i: char = text.get_char(from + 1);
        assert(suffix[0] == c);
        assert(suffix[1] == i);
        if i != 'i' {
            None
        } else if c == 'K' {
            Some((1_024, false, true))
        } else if c == 'M' {
            Some((1_048_576, false, true))
        } else if c == 'G' {
            Some((1_073_741_824, false, true))
        } else if c == 'T' {
            Some((1_099_511_627_776, false, true))
        } else if c == 'P' {
            Some((1_125_899_906_842_624, false, true))
        } else if c == 'E' {
            Some((1_152_921_504_606_846_976, false, true))
        } else {
            None
        }
    } else {
        None
    }
}

/// Removes `places` trailing decimal zeros from `v`, if it ends in that many.
fn strip(v: u128, places: usize) -> (r: Option<u128>)
    ensures
        match r {
            Some(q) => strip_zeros(v as nat, places as nat) == Some(q as nat),
            None => strip_zeros(v as nat, places as nat) is None,
        },
{
    let mut cur: u128 = v;
    let mut left: usize = places;
    while left > 0
        invariant
            strip_zeros(v as nat, places as nat) == strip_zeros(cur as nat, left as nat),
        decreases left,
    {
        if cur % 10 != 0 {
            return None;
        }
        cur = cur / 10;
        left = left - 1;
    }
    Some(cur)
}

/// A thousand times a number ends in three zeros: removing three or more zeros
/// from it is removing three fewer from the number.
proof fn lemma_strip_thousand(v: nat, places: nat)
    requires
        places >= 3,
    ensures
        strip_zeros(v * 1000, places) == strip_zeros(v, (places - 3) as nat),
{
    assert((v * 1000) % 10 == 0 && (v * 1000) / 10 == v * 100);
    assert((v * 100) % 10 == 0 && (v * 100) / 10 == v * 10);
    assert((v * 10) % 10 == 0 && (v * 10) / 10 == v);
    assert(strip_zeros(v * 1000, places) == strip_zeros(v * 100, (places - 1) as nat));
    assert(strip_zeros(v * 100, (places - 1) as nat) == strip_zeros(v * 10, (places - 2) as nat));
    assert(strip_zeros(v * 10, (places - 2) as nat) == strip_zeros(v, (places - 3) as nat));
}

/// The digits of a number are digits, at least one, and write that number.
pub proof fn lemma_digits_of(n: nat)
    ensures
        digits_of(n).len() >= 1,
        forall|i: int| 0 <= i < digits_of(n).len() ==> is_digit(#[trigger] digits_of(n)[i]),
        digits_value(digits_of(n)) == n,
    decreases n,
{
    if n < 10 {
        let one = seq![digit_char(n)];
        assert(one.drop_last() =~= Seq::<char>::empty());
        assert(digits_value(one.drop_last()) == 0);
        assert(one.last() == digit_char(n));
    } else {
        lemma_digits_of(n / 10);
        let all = digits_of(n);
        assert(all.drop_last() =~= digits_of(n / 10));
        assert(all.last() == digit_char(n % 10));
        assert forall|i: int| 0 <= i < all.len() implies is_digit(#[trigger] all[i]) by {
            if i < all.len() - 1 {
                assert(all[i] == digits_of(n / 10)[i]);
            }
        }
    }
}

/// The three digits of a number below a thousand are digits and write it.
proof fn lemma_three_digits(part: nat)
    requires
        part < 1000,
    ensures
        three_digits(part).len() == 3,
        forall|i: int| 0 <= i < 3 ==> is_digit(#[trigger] three_digits(part)[i]),
        digits_value(three_digits(part)) == part,
{
    let three = three_digits(part);
    let two = three.drop_last();
    let one = two.drop_last();
    assert(one.drop_last() =~= Seq::<char>::empty());
    assert(digits_value(one.drop_last()) == 0);
    assert(one.last() == digit_char(part / 100));
    assert(digits_value(one) == part / 100);
    assert(two.last() == digit_char((part / 10) % 10));
    assert(digits_value(two) == (part / 100) * 10 + (part / 10) % 10);
    assert(three.last() == digit_char(part % 10));
}

/// A run of digits that starts within a stretch of digits ends where the stretch
/// ends.
proof fn lemma_run_ends(text: Seq<char>, start: int, end: int, from: int)
    requires
        0 <= start <= from <= end <= text.len(),
        forall|i: int| start <= i < end ==> is_digit(#[trigger] text[i]),
        end < text.len() ==> !is_digit(text[end]),
    ensures
        digit_run(text, from) == end,
    decreases end - from,
{
    if from < end {
        lemma_run_ends(text, start, end, from + 1);
    }
}

/// Removing trailing zeros never makes a number larger.
proof fn lemma_strip_shrinks(v: nat, places: nat)
    ensures
        strip_zeros(v, places) matches Some(q) ==> q <= v,
    decreases places,
{
    if places > 0 && v % 10 == 0 {
        lemma_strip_shrinks(v / 10, (places - 1) as nat);
    }
}

/// What a text denotes is an amount that a quantity holds, and it is kept in
/// binary notation only where it can be written in it.
pub proof fn lemma_parse_spec_well_formed(text: Seq<char>)
    ensures
        parse_spec(text) matches Some((v, binary)) ==> v <= max_amount() && (binary
            ==> binary_writable(v)),
{
}

/// A multiple of `step`, divided by it and multiplied by it, is itself.
proof fn lemma_scaled(whole: nat, step: nat)
    requires
        step > 0,
        whole % step == 0,
    ensures
        (whole / step) * step == whole,
{
    lemma_fundamental_div_mod(whole as int, step as int);
    assert((whole / step) * step == step * (whole / step)) by (nonlinear_arith);
}

/// A whole number of units that is a multiple of `step`, divided by it, then
/// multiplied by it and by a thousand, is the amount in thousandths.
proof fn lemma_form_step(thousandths: nat, whole: nat, step: nat)
    requires
        step > 0,
        whole % step == 0,
        thousandths == whole * 1000,
        whole <= u128::MAX,
    ensures
        (whole / step) * step <= u128::MAX,
        strip_zeros((whole / step) * step * 1000, 0) == Some(thousandths),
{
    lemma_scaled(whole, step);
}

/// The number of the canonical form, scaled as its suffix says, is the amount;
/// the suffix is binary exactly where the notation is, and it starts with
/// neither a digit nor a point.
proof fn lemma_canonical_form(thousandths: nat, binary: bool)
    requires
        binary ==> binary_writable(thousandths),
        thousandths <= max_amount(),
        thousandths % 1000 == 0 || thousandths <= u128::MAX,
    ensures
        ({
            let form = canonical_form(thousandths, binary);
            &&& suffix_scale(form.1) matches Some((factor, shift, b)) && form.0 * factor
                <= u128::MAX && strip_zeros(form.0 * factor * 1000, shift) == Some(thousandths)
                && b == binary
            &&& form.1.len() > 0 ==> !is_digit(form.1[0]) && form.1[0] != '.'
        }),
{
    let whole = thousandths / 1000;
    if thousandths % 1000 != 0 {
        if binary {
            assert(thousandths == 1_024_000 * (thousandths / 1_024_000));
            assert(thousandths == 1000 * (1024 * (thousandths / 1_024_000)));
        }
        assert(canonical_form(thousandths, binary).1 =~= seq!['m']);
        assert(thousandths * 1 == thousandths);
        lemma_strip_thousand(thousandths, 3);
    } else if binary {
        assert(thousandths == 1_024_000 * (thousandths / 1_024_000));
        assert(whole == 1024 * (thousandths / 1_024_000));
        lemma_binary_form(thousandths, whole);
    } else {
        lemma_decimal_form(thousandths, whole);
    }
}

/// What `lemma_canonical_form` says, of whole units in binary notation.
proof fn lemma_binary_form(thousandths: nat, whole: nat)
    requires
        thousandths == whole * 1000,
        whole <= u128::MAX,
        whole % 1024 == 0,
    ensures
        ({
            let form = binary_form(whole);
            &&& suffix_scale(form.1) matches Some((factor, shift, b)) && form.0 * factor
                <= u128::MAX && strip_zeros(form.0 * factor * 1000, shift) == Some(thousandths)
                && b
            &&& form.1.len() == 2 && !is_digit(form.1[0]) && form.1[0] != '.'
        }),
{
    if whole % 1_152_921_504_606_846_976 == 0 {
        lemma_form_step(thousandths, whole, 1_152_921_504_606_846_976);
    } else if whole % 1_125_899_906_842_624 == 0 {
        lemma_form_step(thousandths, whole, 1_125_899_906_842_624);
    } else if whole % 1_099_511_627_776 == 0 {
        lemma_form_step(thousandths, whole, 1_099_511_627_776);
    } else if whole % 1_073_741_824 == 0 {
        lemma_form_step(thousandths, whole, 1_073_741_824);
    } else if whole % 1_048_576 == 0 {
        lemma_form_step(thousandths, whole, 1_048_576);
    } else {
        lemma_form_step(thousandths, whole, 1_024);
    }
}

/// What `lemma_canonical_form` says, of whole units in decimal notation.
proof fn lemma_decimal_form(thousandths: nat, whole: nat)
    requires
        thousandths == whole * 1000,
        whole <= u128::MAX,
    ensures
        ({
            let form = decimal_form(whole);
            &&& suffix_scale(form.1) matches Some((factor, shift, b)) && form.0 * factor
                <= u128::MAX && strip_zeros(form.0 * factor * 1000, shift) == Some(thousandths)
                && !b
            &&& form.1.len() > 0 ==> !is_digit(form.1[0]) && form.1[0] != '.'
        }),
{
    if whole == 0 {
        lemma_form_step(thousandths, whole, 1);
    } else if whole % 1_000_000_000_000_000_000 == 0 {
        lemma_form_step(thousandths, whole, 1_000_000_000_000_000_000);
    } else if whole % 1_000_000_000_000_000 == 0 {
        lemma_form_step(thousandths, whole, 1_000_000_000_000_000);
    } else if whole % 1_000_000_000_000 == 0 {
        lemma_form_step(thousandths, whole, 1_000_000_000_000);
    } else if whole % 1_000_000_000 == 0 {
        lemma_form_step(thousandths, whole, 1_000_000_000);
    } else if whole % 1_000_000 == 0 {
        lemma_form_step(thousandths, whole, 1_000_000);
    } else if whole % 1_000 == 0 {
        lemma_form_step(thousandths, whole, 1_000);
    } else {
        lemma_form_step(thousandths, whole, 1);
    }
}

/// A text of digits, then something that starts with no digit: the run of digits
/// at its start is those digits, and what follows is the rest.
proof fn lemma_leading_digits(digits: Seq<char>, rest: Seq<char>)
    requires
        forall|i: int| 0 <= i < digits.len() ==> is_digit(#[trigger] digits[i]),
        rest.len() > 0 ==> !is_digit(rest[0]),
    ensures
        digit_run(digits + rest, 0) == digits.len(),
        (digits + rest).subrange(0, digits.len() as int) == digits,
        (digits + rest).subrange(digits.len() as int, (digits + rest).len() as int) == rest,
{
    let text = digits + rest;
    let len = digits.len() as int;
    assert forall|i: int| 0 <= i < len implies is_digit(#[trigger] text[i]) by {
        assert(text[i] == digits[i]);
    }
    if rest.len() > 0 {
        assert(text[len] == rest[0]);
    }
    lemma_run_ends(text, 0, len, 0);
    assert(text.subrange(0, len) =~= digits);
    assert(text.subrange(len, text.len() as int) =~= rest);
}

/// Units, a point and three digits denote the units and that many thousandths.
#[verifier::rlimit(50)]
proof fn lemma_point_form_parses(units: nat, part: nat)
    requires
        units <= u128::MAX,
        part < 1000,
    ensures
        parse_spec(digits_of(units) + seq!['.'] + three_digits(part)) == Some(
            (units * 1000 + part, false),
        ),
{
    let digits = digits_of(units);
    let three = three_digits(part);
    let rest = seq!['.'] + three;
    let text = digits + seq!['.'] + three;
    let none = Seq::<char>::empty();
    assert(text =~= digits + rest);
    lemma_digits_of(units);
    lemma_three_digits(part);
    lemma_leading_digits(digits, rest);
    let len = digits.len() as int;
    assert(text.len() == len + 4);
    assert(text[len] == '.');
    assert forall|i: int| len + 1 <= i < len + 4 implies is_digit(#[trigger] text[i]) by {
        assert(text[i] == three[i - len - 1]);
    }
    lemma_run_ends(text, len + 1, len + 4, len + 1);
    assert(text.subrange(len + 1, len + 4) =~= three);
    assert(text.subrange(len + 4, text.len() as int) =~= none);
    assert(suffix_scale(none) == Some((1nat, 0nat, false)));
    assert(units * 1 == units);
    assert(part * 1 * 1000 == part * 1000);
    assert(strip_zeros(units * 1000, 0) == Some(units * 1000));
    lemma_strip_thousand(part, 3);
    assert(strip_zeros(part, 0) == Some(part));
    assert(strip_zeros(part * 1000, 3) == Some(part));
}

/// A number and a suffix denote the number, scaled as the suffix says.
#[verifier::rlimit(50)]
proof fn lemma_suffix_form_parses(number: nat, suffix: Seq<char>, thousandths: nat)
    requires
        suffix.len() > 0 ==> !is_digit(suffix[0]) && suffix[0] != '.',
        thousandths <= max_amount(),
        suffix_scale(suffix) matches Some((factor, shift, _)) && number * factor <= u128::MAX
            && strip_zeros(number * factor * 1000, shift) == Some(thousandths),
    ensures
        parse_spec(digits_of(number) + suffix) == Some(
            (thousandths, suffix_scale(suffix).unwrap().2 && binary_writable(thousandths)),
        ),
{
    let digits = digits_of(number);
    let text = digits + suffix;
    let none = Seq::<char>::empty();
    let scale = suffix_scale(suffix).unwrap();
    lemma_digits_of(number);
    lemma_leading_digits(digits, suffix);
    lemma_suffix_scale(suffix);
    let len = digits.len() as int;
    lemma_run_ends(text, 0, len, len);
    assert(text.subrange(len, len) =~= none);
    assert(digits_value(none) == 0);
    assert(0nat * scale.0 * 1000 == 0) by (nonlinear_arith);
    lemma_strip_thousand(0, 3);
    assert(strip_zeros(0, 0) == Some(0nat));
    assert(strip_zeros(0, scale.1) == Some(0nat));
}

/// The canonical text of an amount denotes that amount, in the same notation.
pub proof fn lemma_render_parses_back(thousandths: nat, binary: bool)
    requires
        thousandths <= max_amount(),
        binary ==> binary_writable(thousandths),
    ensures
        parse_spec(render_spec(thousandths, binary)) == Some((thousandths, binary)),
{
    if thousandths % 1000 != 0 && thousandths > u128::MAX {
        if binary {
            assert(thousandths == 1_024_000 * (thousandths / 1_024_000));
            assert(thousandths == 1000 * (1024 * (thousandths / 1_024_000)));
        }
        lemma_point_form_parses(thousandths / 1000, thousandths % 1000);
    } else {
        let form = canonical_form(thousandths, binary);
        lemma_canonical_form(thousandths, binary);
        lemma_suffix_form_parses(form.0, form.1, thousandths);
    }
}

/// Reading a text and writing what was read gives the canonical text, and doing
/// both once more changes nothing: the canonical text denotes what the text
/// denotes, in the same notation, and is its own canonical text.
pub proof fn lemma_canonical_render_idempotent(text: Seq<char>)
    requires
        parse_spec(text) is Some,
    ensures
        ({
            let read = parse_spec(text).unwrap();
            let canonical = render_spec(read.0, read.1);
            &&& parse_spec(canonical) == Some(read)
            &&& render_spec(parse_spec(canonical).unwrap().0, parse_spec(canonical).unwrap().1)
                == canonical
        }),
{
    lemma_parse_spec_well_formed(text);
    let read = parse_spec(text).unwrap();
    lemma_render_parses_back(read.0, read.1);
}

/// Quantities are ordered by their amounts alone, and that order is total: of
/// two amounts exactly one is smaller or they are the same, and what is smaller
/// than a second amount is smaller than all that the second is smaller than.
pub proof fn lemma_order_is_total(a: Quantity, b: Quantity, c: Quantity)
    ensures
        (a@ < b@ && !(b@ < a@) && a@ != b@) || (b@ < a@ && !(a@ < b@) && a@ != b@) || (a@ == b@
            && !(a@ < b@) && !(b@ < a@)),
        a@ < b@ && b@ < c@ ==> a@ < c@,
        a@ <= b@ && b@ <= a@ ==> a@ == b@,
{
}

/// The text of one digit.
fn digit_text(d: u128) -> (text: &'static str)
    requires
        d < 10,
    ensures
        text@ == seq![digit_char(d as nat)],
{
    proof {
        reveal_strlit("0");
        reveal_strlit("1");
        reveal_strlit("2");
        reveal_strlit("3");
        reveal_strlit("4");
        reveal_strlit("5");
        reveal_strlit("6");
        reveal_strlit("7");
        reveal_strlit("8");
        reveal_strlit("9");
    }
    let text: &'static str = if d == 0 {
        "0"
    } else if d == 1 {
        "1"
    } else if d == 2 {
        "2"
    } else if d == 3 {
        "3"
    } else if d == 4 {
        "4"
    } else if d == 5 {
        "5"
    } else if d == 6 {
        "6"
    } else if d == 7 {
        "7"
    } else if d == 8 {
        "8"
    } else {
        "9"
    };
    assert(text@ =~= seq![digit_char(d as nat)]);
    text
}

/// Writes a number in decimal digits.
fn write_number(n: u128) -> (text: String)
    ensures
        text@ == digits_of(n as nat),
    decreases n,
{
    if n < 10 {
        digit_text(n).to_owned()
    } else {
        let mut text: String = write_number(n / 10);
        text.append(digit_text(n % 10));
        assert(text@ =~= digits_of(n as nat));
        text
    }
}

impl PartialEq for Quantity {
    /// Whether the two are the same amount, whatever the notations.
    fn eq(&self, other: &Self) -> (same: bool) {
        proof {
            use_type_invariant(self);
            use_type_invariant(other);
        }
        self.units == other.units && self.thousandths == other.thousandths
    }
}

impl vstd::std_specs::cmp::PartialEqSpecImpl for Quantity {
    open spec fn obeys_eq_spec() -> bool {
        true
    }

    open spec fn eq_spec(&self, other: &Self) -> bool {
        self@ == other@
    }
}

impl PartialOrd for Quantity {
    /// How the amounts stand to each other, whatever the notations.
    fn partial_cmp(&self, other: &Self) -> (order: Option<Ordering>) {
        proof {
            use_type_invariant(self);
            use_type_invariant(other);
        }
        if self.units < other.units {
            Some(Ordering::Less)
        } else if self.units > other.units {
            Some(Ordering::Greater)
        } else if self.thousandths < other.thousandths {
            Some(Ordering::Less)
        } else if self.thousandths == other.thousandths {
            Some(Ordering::Equal)
        } else {
            Some(Ordering::Greater)
        }
    }
}

impl vstd::std_specs::cmp::PartialOrdSpecImpl for Quantity {
    open spec fn obeys_partial_cmp_spec() -> bool {
        true
    }

    open spec fn partial_cmp_spec(&self, other: &Self) -> Option<Ordering> {
        if self@ < other@ {
            Some(Ordering::Less)
        } else if self@ == other@ {
            Some(Ordering::Equal)
        } else {
            Some(Ordering::Greater)
        }
    }
}

impl View for Quantity {
    type V = nat;

    /// The amount in thousandths.
    closed spec fn view(&self) -> nat {
        self.units as nat * 1000 + self.thousandths as nat
    }
}

impl Quantity {
    /// Whether the amount is kept in binary notation.
    pub closed spec fn is_binary(&self) -> bool {
        self.binary
    }

    /// What holds of every quantity: the thousandths are fewer than a thousand,
    /// and an amount in binary notation can be written in it.
    #[verifier::type_invariant]
    pub closed spec fn well_formed(&self) -> bool {
        &&& self.thousandths < 1000
        &&& self.binary ==> self.thousandths == 0 && self.units > 0 && self.units % 1024 == 0
    }

    /// What `well_formed` says of the amount.
    pub proof fn lemma_well_formed(&self)
        requires
            self.well_formed(),
        ensures
            self@ <= max_amount(),
            self.is_binary() ==> binary_writable(self@),
            self@ / 1000 <= u128::MAX,
    {
        if self.binary {
            lemma_binary_units(self.units as nat);
        }
    }

    /// No units and no thousandths.
    pub fn zero() -> (q: Quantity)
        ensures
            q@ == 0,
            !q.is_binary(),
            q.well_formed(),
    {
        Quantity { units: 0, thousandths: 0, binary: false }
    }

    /// The quantity of `thousandths`, in decimal notation.
    pub fn from_thousandths(thousandths: u128) -> (q: Quantity)
        ensures
            q@ == thousandths,
            !q.is_binary(),
            q.well_formed(),
    {
        Quantity {
            units: thousandths / 1000,
            thousandths: (thousandths % 1000) as u16,
            binary: false,
        }
    }

    /// Makes the quantity of units and thousandths, in binary notation where that
    /// is asked for and possible.
    fn make(units: u128, thousandths: u16, binary: bool) -> (q: Quantity)
        requires
            thousandths < 1000,
        ensures
            q@ == units as nat * 1000 + thousandths as nat,
            q.is_binary() == (binary && binary_writable(q@)),
            q.well_formed(),
    {
        proof {
            if thousandths == 0 {
                lemma_binary_units(units as nat);
            } else {
                lemma_fraction_not_binary(units as nat, thousandths as nat);
            }
        }
        Quantity {
            units,
            thousandths,
            binary: binary && thousandths == 0 && units > 0 && units % 1024 == 0,
        }
    }

    /// Reads a quantity from its text.
    pub fn parse(text: &str) -> (r: Result<Quantity, InvalidQuantity>)
        ensures
            match r {
                Ok(q) => parse_spec(text@) == Some((q@, q.is_binary())) && q.well_formed(),
                Err(_) => parse_spec(text@) is None,
            },
    {
        let n: usize = text.unicode_len();
        let ghost none = Seq::<char>::empty();
        let (int_end, before_point) = scan_digits(text, n, 0, 0, Ghost(none));
        if int_end == 0 {
            return Err(InvalidQuantity);
        }
        let has_point: bool = int_end < n && text.get_char(int_end) == '.';
        let frac_start: usize = if has_point { int_end + 1 } else { int_end };
        let (frac_end, behind_point) = scan_digits(text, n, frac_start, 0, Ghost(none));
        if has_point && frac_end == frac_start {
            return Err(InvalidQuantity);
        }
        let (factor, milli, binary) = match read_suffix(text, n, frac_end) {
            Some(found) => found,
            None => {
                return Err(InvalidQuantity);
            },
        };
        let ghost int_digits = text@.subrange(0, int_end as int);
        let ghost frac_digits = text@.subrange(frac_start as int, frac_end as int);
        let ghost shift: nat = if milli { 3 } else { 0 };
        proof {
            assert(none + int_digits =~= int_digits);
            assert(none + frac_digits =~= frac_digits);
            lemma_suffix_scale(text@.subrange(frac_end as int, n as int));
            lemma_product_grows(digits_value(int_digits), factor as nat);
            lemma_product_grows(digits_value(frac_digits), factor as nat);
            lemma_product_grows(digits_value(frac_digits) * factor as nat, 1000);
        }
        let whole: u128 = match before_point {
            Some(v) => match v.checked_mul(factor) {
                Some(w) => w,
                None => {
                    return Err(InvalidQuantity);
                },
            },
            None => {
                return Err(InvalidQuantity);
            },
        };
        let scaled: u128 = match behind_point {
            Some(v) => match v.checked_mul(factor) {
                Some(w) => w,
                None => {
                    return Err(InvalidQuantity);
                },
            },
            None => {
                return Err(InvalidQuantity);
            },
        };
        let part: u128 = match scaled.checked_mul(1000) {
            Some(p) => p,
            None => {
                return Err(InvalidQuantity);
            },
        };
        let places: usize = frac_end - frac_start;
        // What stands before the point, and what stands behind it.
        let (front, back): (Quantity, Option<u128>) = if milli {
            proof {
                lemma_strip_thousand(whole as nat, 3);
                lemma_strip_thousand(scaled as nat, places as nat + 3);
            }
            (Quantity::from_thousandths(whole), strip(scaled, places))
        } else {
            (Quantity::make(whole, 0, false), strip(part, places))
        };
        let back: Quantity = match back {
            Some(b) => Quantity::from_thousandths(b),
            None => {
                return Err(InvalidQuantity);
            },
        };
        match front.checked_add(&back) {
            Some(sum) => Ok(Quantity::make(sum.units, sum.thousandths, binary)),
            None => Err(InvalidQuantity),
        }
    }

    /// The sum of the two amounts, in the notation of `self` where the sum can be
    /// written in it; `None` where the sum is beyond what a quantity holds.
    pub fn checked_add(&self, other: &Quantity) -> (sum: Option<Quantity>)
        ensures
            match sum {
                Some(s) => s@ == self@ + other@ && s.well_formed() && s.is_binary() == (
                self.is_binary() && binary_writable(s@)),
                None => self@ + other@ > max_amount(),
            },
    {
        proof {
            use_type_invariant(self);
            use_type_invariant(other);
        }
        let part: u16 = self.thousandths + other.thousandths;
        let carry: u128 = if part >= 1000 { 1 } else { 0 };
        let rest: u16 = if part >= 1000 { part - 1000 } else { part };
        match self.units.checked_add(other.units) {
            Some(units) => match units.checked_add(carry) {
                Some(units) => Some(Quantity::make(units, rest, self.binary)),
                None => None,
            },
            None => None,
        }
    }

    /// What is left of `self` when `other` is taken away, and nothing where `other`
    /// is the larger; in the notation of `self` where the rest can be written in it.
    pub fn saturating_sub(&self, other: &Quantity) -> (rest: Quantity)
        ensures
            rest@ == if self@ >= other@ {
                self@ - other@
            } else {
                0
            },
            rest.well_formed(),
            rest.is_binary() == (self.is_binary() && binary_writable(rest@)),
    {
        proof {
            use_type_invariant(self);
            use_type_invariant(other);
        }
        if self.units < other.units || (self.units == other.units && self.thousandths
            < other.thousandths) {
            Quantity::make(0, 0, self.binary)
        } else if self.thousandths >= other.thousandths {
            Quantity::make(
                self.units - other.units,
                self.thousandths - other.thousandths,
                self.binary,
            )
        } else {
            Quantity::make(
                self.units - other.units - 1,
                self.thousandths + 1000 - other.thousandths,
                self.binary,
            )
        }
    }

    /// The amount in thousandths, held at `limit`.
    pub fn held_at(&self, limit: u128) -> (held: u128)
        ensures
            held == if self@ > limit {
                limit as nat
            } else {
                self@
            },
    {
        proof {
            use_type_invariant(self);
        }
        if self.units > limit / 1000 {
            limit
        } else {
            match self.units.checked_mul(1000) {
                Some(whole) => match whole.checked_add(self.thousandths as u128) {
                    Some(all) => if all > limit {
                        limit
                    } else {
                        all
                    },
                    None => limit,
                },
                None => limit,
            }
        }
    }

    /// The canonical text of the quantity: thousandths with `m` where the amount
    /// is no whole number of units, else the largest suffix of its notation that
    /// leaves a whole number. Read again, the text gives the quantity back.
    pub fn canonical_render(&self) -> (text: String)
        ensures
            text@ == render_spec(self@, self.is_binary()),
            parse_spec(text@) == Some((self@, self.is_binary())),
    {
        proof {
            use_type_invariant(self);
            self.lemma_well_formed();
            lemma_render_parses_back(self@, self.is_binary());
        }
        self.write()
    }

    /// Writes the canonical text.
    fn write(&self) -> (text: String)
        ensures
            text@ == render_spec(self@, self.is_binary()),
    {
        proof {
            use_type_invariant(self);
        }
        if self.thousandths != 0 {
            let part: u128 = self.thousandths as u128;
            if self.units <= (u128::MAX - part) / 1000 {
                let mut text: String = write_number(self.units * 1000 + part);
                proof {
                    reveal_strlit("m");
                    assert("m"@ =~= canonical_form(self@, self.is_binary()).1);
                }
                text.append("m");
                return text;
            }
            let mut text: String = write_number(self.units);
            proof {
                reveal_strlit(".");
                assert("."@ =~= seq!['.']);
            }
            text.append(".");
            text.append(digit_text(part / 100));
            text.append(digit_text((part / 10) % 10));
            text.append(digit_text(part % 10));
            proof {
                assert(self@ / 1000 == self.units && self@ % 1000 == part);
                assert(text@ =~= render_spec(self@, self.is_binary()));
            }
            return text;
        }
        let whole: u128 = self.units;
        let (number, suffix): (u128, &str) = if self.binary {
            if whole % 1_152_921_504_606_846_976 == 0 {
                (whole / 1_152_921_504_606_846_976, "Ei")
            } else if whole % 1_125_899_906_842_624 == 0 {
                (whole / 1_125_899_906_842_624, "Pi")
            } else if whole % 1_099_511_627_776 == 0 {
                (whole / 1_099_511_627_776, "Ti")
            } else if whole % 1_073_741_824 == 0 {
                (whole / 1_073_741_824, "Gi")
            } else if whole % 1_048_576 == 0 {
                (whole / 1_048_576, "Mi")
            } else {
                (whole / 1_024, "Ki")
            }
        } else {
            if whole == 0 {
                (0, "")
            } else if whole % 1_000_000_000_000_000_000 == 0 {
                (whole / 1_000_000_000_000_000_000, "E")
            } else if whole % 1_000_000_000_000_000 == 0 {
                (whole / 1_000_000_000_000_000, "P")
            } else if whole % 1_000_000_000_000 == 0 {
                (whole / 1_000_000_000_000, "T")
            } else if whole % 1_000_000_000 == 0 {
                (whole / 1_000_000_000, "G")
            } else if whole % 1_000_000 == 0 {
                (whole / 1_000_000, "M")
            } else if whole % 1_000 == 0 {
                (whole / 1_000, "k")
            } else {
                (whole, "")
            }
        };
        proof {
            reveal_strlit("");
            reveal_strlit("k");
            reveal_strlit("M");
            reveal_strlit("G");
            reveal_strlit("T");
            reveal_strlit("P");
            reveal_strlit("E");
            reveal_strlit("Ki");
            reveal_strlit("Mi");
            reveal_strlit("Gi");
            reveal_strlit("Ti");
            reveal_strlit("Pi");
            reveal_strlit("Ei");
            assert(self@ / 1000 == whole);
            assert(suffix@ =~= canonical_form(self@, self.is_binary()).1);
        }
        let mut text: String = write_number(number);
        text.append(suffix);
        text
    }

    /// The whole units of the amount.
    pub fn units(&self) -> (u: u128)
        ensures
            u == self@ / 1000,
    {
        proof {
            use_type_invariant(self);
        }
        self.units
    }

    /// The thousandths of the amount beyond its whole units.
    pub fn thousandths(&self) -> (t: u16)
        ensures
            t == self@ % 1000,
    {
        proof {
            use_type_invariant(self);
        }
        self.thousandths
    }

    /// Whether the amount is kept in binary notation.
    pub fn binary(&self) -> (b: bool)
        ensures
            b == self.is_binary(),
    {
        self.binary
    }
}

/// Whole units can be written in binary notation exactly where they are a
/// positive multiple of 1024.
proof fn lemma_binary_units(units: nat)
    ensures
        binary_writable(units * 1000) <==> units > 0 && units % 1024 == 0,
{
    if units % 1024 == 0 {
        assert(units == 1024 * (units / 1024));
        assert(units * 1000 == 1_024_000 * (units / 1024));
    }
    if (units * 1000) % 1_024_000 == 0 {
        let q = (units * 1000) / 1_024_000;
        assert(units * 1000 == 1_024_000 * q);
        assert(units == 1024 * q);
    }
}

/// An amount that is no whole number of units cannot be written in binary
/// notation.
proof fn lemma_fraction_not_binary(units: nat, part: nat)
    requires
        0 < part < 1000,
    ensures
        !binary_writable(units * 1000 + part),
{
    let t = units * 1000 + part;
    if t % 1_024_000 == 0 {
        let q = t / 1_024_000;
        assert(t == 1_024_000 * q);
        assert(t == 1000 * (1024 * q));
    }
}

} // verus!
