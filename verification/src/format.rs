//! Numbers and text as the screen shows them.

use vstd::prelude::*;
use vstd::string::*;

use crate::double;
use crate::double::Double;
use crate::text;

verus! {

/// The first `i` of `digits`, with a comma before each one that starts a group
/// of three.
pub open spec fn grouped(digits: Seq<char>, i: nat) -> Seq<char>
    decreases i,
{
    if i == 0 {
        seq![]
    } else {
        let before = grouped(digits, (i - 1) as nat);
        let comma = i > 1 && (digits.len() - (i - 1)) % 3 == 0;
        (if comma {
            before.push(',')
        } else {
            before
        }).push(digits[i - 1])
    }
}

/// The decimal digits of `n` in groups of three.
pub open spec fn int_text(n: nat) -> Seq<char> {
    grouped(text::digits(n), text::digits(n).len())
}

/// Comma-separated decimal: 1234567 is "1,234,567".
pub fn fmt_int(n: u64) -> (r: String)
    ensures
        r@ == int_text(n as nat),
{
    let s = text::decimal(n as u128);
    let len = s.as_str().unicode_len();
    let ghost ds = text::digits(n as nat);
    let mut out = String::new();
    let mut i: usize = 0;
    while i < len
        invariant
            i <= len,
            len == ds.len(),
            s@ == ds,
            out@ == grouped(ds, i as nat),
        decreases len - i,
    {
        if i > 0 && (len - i) % 3 == 0 {
            out.push(',');
        }
        out.push(s.as_str().get_char(i));
        i = i + 1;
    }
    out
}

/// Keeps every character but commas.
pub open spec fn but_commas() -> spec_fn(char) -> bool {
    |c: char| c != ','
}

/// Taking the commas out of [`fmt_int`]'s text leaves the digits of the number.
pub proof fn int_text_without_commas(n: nat)
    ensures
        int_text(n).filter(but_commas()) == text::digits(n),
{
    let ds = text::digits(n);
    digits_are_not_commas(n);
    grouped_without_commas(ds, ds.len());
    assert(ds.subrange(0, ds.len() as int) =~= ds);
}

proof fn digits_are_not_commas(n: nat)
    ensures
        forall|i: int| 0 <= i < text::digits(n).len() ==> text::digits(n)[i] != ',',
    decreases n,
{
    assert(forall|d: nat| d < 10 ==> #[trigger] text::digit_char(d) != ',');
    if n >= 10 {
        digits_are_not_commas(n / 10);
        let before = text::digits(n / 10);
        assert(text::digits(n) == before.push(text::digit_char(n % 10)));
        assert forall|i: int| 0 <= i < text::digits(n).len() implies text::digits(n)[i]
            != ',' by {
            if i < before.len() {
                assert(text::digits(n)[i] == before[i]);
            }
        }
    } else {
        assert(text::digits(n) == seq![text::digit_char(n)]);
    }
}

proof fn grouped_without_commas(ds: Seq<char>, i: nat)
    requires
        i <= ds.len(),
        forall|j: int| 0 <= j < ds.len() ==> ds[j] != ',',
    ensures
        grouped(ds, i).filter(but_commas()) == ds.subrange(0, i as int),
    decreases i,
{
    reveal(Seq::filter);
    let keep = but_commas();
    if i == 0 {
        assert(grouped(ds, i).filter(keep) =~= ds.subrange(0, 0));
    } else {
        grouped_without_commas(ds, (i - 1) as nat);
        let before = grouped(ds, (i - 1) as nat);
        let with_comma = before.push(',');
        assert(with_comma.drop_last() =~= before);
        assert(with_comma.filter(keep) == before.filter(keep));
        let mid = if i > 1 && (ds.len() - (i - 1)) % 3 == 0 {
            with_comma
        } else {
            before
        };
        let whole = mid.push(ds[i - 1]);
        assert(whole.drop_last() =~= mid);
        assert(whole.filter(keep) == mid.filter(keep).push(ds[i - 1]));
        assert(ds.subrange(0, i as int) =~= ds.subrange(0, i - 1).push(ds[i - 1]));
    }
}

/// Ten to the power `places`.
pub open spec fn ten_to(places: nat) -> nat
    decreases places,
{
    if places == 0 {
        1
    } else {
        10 * ten_to((places - 1) as nat)
    }
}

/// `x` with `places` decimals.
pub open spec fn fixed_text(x: Double, places: nat) -> Seq<char> {
    if x is Nan {
        seq!['N', 'a', 'N']
    } else if x is Infinity {
        seq!['i', 'n', 'f']
    } else {
        let p = double::parts_of(x, ten_to(places));
        let whole = text::digits(p / ten_to(places));
        if places == 0 {
            whole
        } else {
            whole.push('.') + text::last_digits(p, places)
        }
    }
}

/// `x` with `places` decimals, the last one rounded half to even.
pub fn fixed(x: Double, places: u32) -> (r: String)
    requires
        x.wf(),
        x is Finite ==> double::within(x, 100),
        places <= 3,
    ensures
        r@ == fixed_text(x, places as nat),
{
    let mut out = String::new();
    match x {
        Double::Nan => {
            out.push('N');
            out.push('a');
            out.push('N');
            proof {
                assert(out@ =~= fixed_text(x, places as nat));
            }
        },
        Double::Infinity => {
            out.push('i');
            out.push('n');
            out.push('f');
            proof {
                assert(out@ =~= fixed_text(x, places as nat));
            }
        },
        _ => {
            reveal_with_fuel(ten_to, 5);
            let scale: u64 = if places == 0 {
                1
            } else if places == 1 {
                10
            } else if places == 2 {
                100
            } else {
                1000
            };
            let p = x.parts(scale);
            text::push_digits(&mut out, p / (scale as u128));
            if places > 0 {
                out.push('.');
                text::push_last_digits(&mut out, p, places);
            }
            proof {
                assert(out@ =~= fixed_text(x, places as nat));
            }
        },
    }
    out
}

/// `v` divided by 1024 while it is at least that, at most `4 - u` times, and
/// `u` plus how often.
pub open spec fn scaled(v: Double, u: nat) -> (Double, nat)
    decreases 4 - u,
{
    if u < 4 && double::at_most(double::of_int(1024), v) {
        scaled(double::quotient_of(v, double::of_int(1024)), u + 1)
    } else {
        (v, u)
    }
}

/// `n` as a multiple of a power of 1024, and that power.
fn scale_1024(n: u64) -> (r: (Double, usize))
    ensures
        r.0 == scaled(double::of_int(n as nat), 0).0,
        r.1 == scaled(double::of_int(n as nat), 0).1,
        r.1 <= 4,
        r.0.wf(),
        double::within(r.0, 64),
{
    let k = Double::of(1024);
    let mut v = Double::of(n);
    let mut u: usize = 0;
    proof {
        double::lemma_of_within(n);
        double::lemma_of_within(1024);
    }
    while u < 4 && k.le(v)
        invariant
            u <= 4,
            v.wf(),
            k.wf(),
            k == double::of_int(1024),
            double::beyond(k, 0),
            double::within(v, 64),
            scaled(v, u as nat) == scaled(double::of_int(n as nat), 0),
        decreases 4 - u,
    {
        proof {
            double::lemma_quotient_within(v, k, 64, 0);
        }
        v = v.over(k);
        u = u + 1;
    }
    (v, u)
}

/// The name of the unit of `1024^u` bytes.
pub open spec fn long_unit(u: nat) -> Seq<char> {
    if u == 0 {
        "B"@
    } else if u == 1 {
        "KB"@
    } else if u == 2 {
        "MB"@
    } else if u == 3 {
        "GB"@
    } else {
        "TB"@
    }
}

/// The letter of the unit of `1024^u` bytes.
pub open spec fn short_unit(u: nat) -> Seq<char> {
    if u == 0 {
        "B"@
    } else if u == 1 {
        "K"@
    } else if u == 2 {
        "M"@
    } else if u == 3 {
        "G"@
    } else {
        "T"@
    }
}

/// `n` bytes in the largest unit that leaves at least one, with two decimals.
pub open spec fn bytes_text(n: nat) -> Seq<char> {
    let (v, u) = scaled(double::of_int(n), 0);
    if u == 0 {
        text::digits(n) + " B"@
    } else {
        fixed_text(v, 2) + " "@ + long_unit(u)
    }
}

/// `n` bytes in the largest unit that leaves at least one, with one decimal.
pub open spec fn bytes_short_text(n: nat) -> Seq<char> {
    let (v, u) = scaled(double::of_int(n), 0);
    if n < 1024 {
        text::digits(n) + "B"@
    } else {
        fixed_text(v, 1) + short_unit(u)
    }
}

/// Long byte format: "1.23 MB". Two decimals once past 1 KiB.
pub fn fmt_bytes(n: u64) -> (r: String)
    ensures
        r@ == bytes_text(n as nat),
{
    let (v, u) = scale_1024(n);
    if u == 0 {
        let s = text::decimal(n as u128);
        text::join(s.as_str(), " B")
    } else {
        proof {
            double::lemma_within_weaken(v, 64, 100);
        }
        let unit = if u == 1 {
            "KB"
        } else if u == 2 {
            "MB"
        } else if u == 3 {
            "GB"
        } else {
            "TB"
        };
        let mut s = fixed(v, 2);
        s.append(" ");
        s.append(unit);
        s
    }
}

/// Compact byte format: "1.2M". One decimal, no space, single-letter unit.
pub fn fmt_bytes_short(n: u64) -> (r: String)
    ensures
        r@ == bytes_short_text(n as nat),
{
    if n < 1024 {
        let s = text::decimal(n as u128);
        return text::join(s.as_str(), "B");
    }
    let (v, u) = scale_1024(n);
    proof {
        double::lemma_within_weaken(v, 64, 100);
    }
    let unit = if u == 0 {
        "B"
    } else if u == 1 {
        "K"
    } else if u == 2 {
        "M"
    } else if u == 3 {
        "G"
    } else {
        "T"
    };
    let mut s = fixed(v, 1);
    s.append(unit);
    s
}

/// `n / div` with about three digits, and a suffix.
pub open spec fn compact_with(n: nat, div: nat, suffix: Seq<char>) -> Seq<char> {
    let v = double::quotient_of(double::of_int(n), double::of_int(div));
    if double::at_most(double::of_int(100), v) {
        fixed_text(v, 0) + suffix
    } else if double::at_most(double::of_int(10), v) {
        fixed_text(v, 1) + suffix
    } else {
        fixed_text(v, 2) + suffix
    }
}

/// `n` itself below ten thousand, else in thousands, millions, and so on.
pub open spec fn compact_text(n: nat) -> Seq<char> {
    if n < 10_000 {
        int_text(n)
    } else if n >= 1_000_000_000_000 {
        compact_with(n, 1_000_000_000_000, "T"@)
    } else if n >= 1_000_000_000 {
        compact_with(n, 1_000_000_000, "B"@)
    } else if n >= 1_000_000 {
        compact_with(n, 1_000_000, "M"@)
    } else {
        compact_with(n, 1_000, "K"@)
    }
}

fn compact_in(n: u64, div: u64, suffix: &str) -> (r: String)
    requires
        div > 0,
    ensures
        r@ == compact_with(n as nat, div as nat, suffix@),
{
    let x = Double::of(n);
    let y = Double::of(div);
    proof {
        double::lemma_of_within(n);
        double::lemma_of_within(div);
        double::lemma_quotient_within(x, y, 64, 0);
        double::lemma_within_weaken(double::quotient_of(x, y), 64, 100);
    }
    let v = x.over(y);
    let mut s = if Double::of(100).le(v) {
        fixed(v, 0)
    } else if Double::of(10).le(v) {
        fixed(v, 1)
    } else {
        fixed(v, 2)
    };
    s.append(suffix);
    s
}

/// Compact decimal for the legend: "8,742", "12.3K", "6.99M".
pub fn fmt_compact(n: u64) -> (r: String)
    ensures
        r@ == compact_text(n as nat),
{
    if n < 10_000 {
        fmt_int(n)
    } else if n >= 1_000_000_000_000 {
        compact_in(n, 1_000_000_000_000, "T")
    } else if n >= 1_000_000_000 {
        compact_in(n, 1_000_000_000, "B")
    } else if n >= 1_000_000 {
        compact_in(n, 1_000_000, "M")
    } else {
        compact_in(n, 1_000, "K")
    }
}

/// `p` percent: without decimals from ten on, and never above 100.
pub open spec fn pct_text(p: Double) -> Seq<char> {
    if double::at_most(double::of_int(100), p) {
        "100%"@
    } else if double::at_most(double::of_int(10), p) {
        fixed_text(p, 0) + "%"@
    } else {
        fixed_text(p, 1) + "%"@
    }
}

proof fn lemma_rounded_parts(n: nat, d: nat, k: nat)
    requires
        d > 0,
        n < k * d,
    ensures
        double::half_even(n, d) <= k,
{
    let q = n / d;
    vstd::arithmetic::div_mod::lemma_fundamental_div_mod(n as int, d as int);
    assert(q < k) by (nonlinear_arith)
        requires
            n == d * q + n % d,
            n % d >= 0,
            n < k * d,
            d > 0,
    ;
}

proof fn lemma_few_digits(n: nat)
    requires
        n < 1000,
    ensures
        text::digits(n).len() <= 3,
        n < 100 ==> text::digits(n).len() <= 2,
{
    reveal_with_fuel(text::digits, 4);
}

/// A percentage is at most five characters long.
pub proof fn percentages_are_short(p: Double)
    requires
        p.wf(),
    ensures
        pct_text(p).len() <= 5,
{
    let one = double::one_units();
    reveal(double::less);
    reveal(double::parts_of);
    reveal_strlit("%");
    reveal_strlit("100%");
    vstd::arithmetic::power2::lemma_pow2_pos(1074);
    double::lemma_of_int_exact(10);
    double::lemma_of_int_exact(100);
    reveal_with_fuel(ten_to, 3);
    assert(ten_to(0) == 1 && ten_to(1) == 10);
    if p is Finite && !double::at_most(double::of_int(100), p) {
        let u = p.units();
        if double::at_most(double::of_int(10), p) {
            let n = double::parts_of(p, 1);
            assert(u * 1 < 100 * one);
            assert(n == double::half_even(u * 1, one));
            lemma_rounded_parts(u * 1, one, 100);
            assert(n <= 100);
            assert(n / 1 == n);
            lemma_few_digits(n);
        } else {
            let n = double::parts_of(p, 10);
            assert(u * 10 < 100 * one);
            assert(n == double::half_even(u * 10, one));
            lemma_rounded_parts(u * 10, one, 100);
            assert(n <= 100);
            lemma_few_digits(n / 10);
            reveal_with_fuel(text::last_digits, 3);
            assert(text::last_digits(n, 1).len() == 1);
        }
    }
}

/// Percentage rounded to fit in 5 chars.
pub fn fmt_pct(p: Double) -> (r: String)
    requires
        p.wf(),
    ensures
        r@ == pct_text(p),
        r@.len() <= 5,
{
    proof {
        percentages_are_short(p);
    }
    let hundred = Double::of(100);
    if hundred.le(p) {
        return "100%".to_string();
    }
    proof {
        if p is Finite {
            double::lemma_of_within(100);
            double::lemma_less_within(p, hundred, 64);
            double::lemma_within_weaken(p, 64, 100);
        }
    }
    let mut s = if Double::of(10).le(p) {
        fixed(p, 0)
    } else {
        fixed(p, 1)
    };
    s.append("%");
    s
}

/// `s`, or its first characters and an ellipsis, in at most `max` characters.
pub open spec fn truncated_text(s: Seq<char>, max: nat) -> Seq<char> {
    if s.len() <= max {
        s
    } else if max <= 1 {
        s.take(max as int)
    } else {
        s.take(max - 1).push('…')
    }
}

/// `s`, or an ellipsis and its last characters, in at most `max` characters.
pub open spec fn truncated_left_text(s: Seq<char>, max: nat) -> Seq<char> {
    if s.len() <= max {
        s
    } else if max <= 1 {
        s.skip(s.len() - max)
    } else {
        seq!['…'] + s.skip(s.len() - (max - 1))
    }
}

/// Appends the characters of `s` from `from` up to `to`.
fn push_range(out: &mut String, s: &str, from: usize, to: usize)
    requires
        from <= to <= s@.len(),
    ensures
        final(out)@ == old(out)@ + s@.subrange(from as int, to as int),
{
    let mut i: usize = from;
    while i < to
        invariant
            from <= i <= to <= s@.len(),
            out@ =~= old(out)@ + s@.subrange(from as int, i as int),
        decreases to - i,
    {
        out.push(s.get_char(i));
        i = i + 1;
    }
}

/// Truncate to `max` chars, append `…` when shortened.
pub fn truncate(s: &str, max: usize) -> (r: String)
    ensures
        r@ == truncated_text(s@, max as nat),
        r@.len() <= max,
{
    let n = s.unicode_len();
    if n <= max {
        return s.to_string();
    }
    let mut out = String::new();
    if max <= 1 {
        push_range(&mut out, s, 0, max);
    } else {
        push_range(&mut out, s, 0, max - 1);
        out.push('…');
    }
    proof {
        assert(out@ =~= truncated_text(s@, max as nat));
    }
    out
}

/// Truncate from the left, prepending `…` when shortened.
pub fn truncate_left(s: &str, max: usize) -> (r: String)
    ensures
        r@ == truncated_left_text(s@, max as nat),
        r@.len() <= max,
{
    let n = s.unicode_len();
    if n <= max {
        return s.to_string();
    }
    let mut out = String::new();
    if max <= 1 {
        push_range(&mut out, s, n - max, n);
    } else {
        out.push('…');
        push_range(&mut out, s, n - (max - 1), n);
    }
    proof {
        assert(out@ =~= truncated_left_text(s@, max as nat));
    }
    out
}

/// How far from the right the characters of digit `e` of `l` digits stand, and
/// how many characters the digits before it take.
proof fn lemma_places(l: int, e: int)
    requires
        0 < e < l,
    ensures
        ({
            let at = e + (l - 1) / 3 - (l - e) / 3;
            let right = l + (l - 1) / 3 - 1 - at;
            &&& (l - e) % 3 == 0 ==> right % 4 == 3 && (right - 1) % 4 != 3 && at + 2 == e + 1 + (l
                - 1) / 3 - (l - e - 1) / 3
            &&& (l - e) % 3 != 0 ==> right % 4 != 3 && at + 1 == e + 1 + (l - 1) / 3 - (l - e - 1)
                / 3
        }),
{
    let m = (l - e) / 3;
    let r = (l - e) % 3;
    assert(l - e == 3 * m + r);
    let right = l + (l - 1) / 3 - 1 - (e + (l - 1) / 3 - m);
    assert(right == 4 * m + r - 1);
    if r == 0 {
        assert((l - e - 1) / 3 == m - 1);
        assert(right == 4 * (m - 1) + 3);
    } else {
        assert((l - e - 1) / 3 == m);
    }
}

proof fn lemma_commas(ds: Seq<char>, i: nat)
    requires
        1 <= i <= ds.len(),
        text::all_digits(ds),
    ensures
        grouped(ds, i).len() == i + (ds.len() - 1) / 3 - (ds.len() - i) / 3,
        forall|j: int|
            0 <= j < grouped(ds, i).len() ==> (#[trigger] grouped(ds, i)[j] == ',' <==> (ds.len()
                + (ds.len() - 1) / 3 - 1 - j) % 4 == 3),
    decreases i,
{
    let l = ds.len() as int;
    let now = grouped(ds, i);
    if i == 1 {
        assert(grouped(ds, 0) =~= seq![]);
        assert(now =~= seq![ds[0]]);
        let q = (l - 1) / 3;
        assert(l - 1 == 3 * q + (l - 1) % 3);
        assert((l + q - 1 - 0) % 4 != 3);
        assert('0' <= ds[0] <= '9');
    } else {
        let e = i - 1;
        lemma_commas(ds, e as nat);
        lemma_places(l, e);
        let before = grouped(ds, e as nat);
        let at = before.len() as int;
        assert('0' <= ds[e] <= '9');
        if (l - e) % 3 == 0 {
            assert(now == before.push(',').push(ds[e]));
        } else {
            assert(now == before.push(ds[e]));
        }
        assert forall|j: int| 0 <= j < now.len() implies (#[trigger] now[j] == ',' <==> (l + (l - 1)
            / 3 - 1 - j) % 4 == 3) by {
            if j < at {
                assert(now[j] == before[j]);
            }
        }
    }
}

/// Counted from the right there is a comma in every fourth place, and nowhere
/// else.
pub proof fn every_third_digit_has_a_comma(n: nat)
    ensures
        int_text(n).len() == text::digits(n).len() + (text::digits(n).len() - 1) / 3,
        forall|j: int|
            0 <= j < int_text(n).len() ==> (int_text(n)[int_text(n).len() - 1 - j] == ','
                <==> #[trigger] (j % 4) == 3),
{
    text::digits_stand_for_the_number(n);
    let ds = text::digits(n);
    lemma_commas(ds, ds.len());
    let t = int_text(n);
    assert forall|j: int| 0 <= j < t.len() implies (t[t.len() - 1 - j] == ',' <==> #[trigger] (j
        % 4) == 3) by {
        let k = t.len() - 1 - j;
        assert(grouped(ds, ds.len())[k] == ',' <==> (ds.len() + (ds.len() - 1) / 3 - 1 - k) % 4
            == 3);
    }
}

proof fn lemma_ten_to_pos(w: nat)
    ensures
        ten_to(w) > 0,
    decreases w,
{
    if w > 0 {
        lemma_ten_to_pos((w - 1) as nat);
    }
}

/// The last digits of a number stand for what is left of it after division.
pub proof fn last_digits_stand_for_the_rest(n: nat, w: nat)
    ensures
        text::last_digits(n, w).len() == w,
        text::all_digits(text::last_digits(n, w)),
        text::value_of(text::last_digits(n, w)) == n % ten_to(w),
    decreases w,
{
    if w > 0 {
        let t = ten_to((w - 1) as nat);
        let s = text::last_digits(n, w);
        last_digits_stand_for_the_rest(n / 10, (w - 1) as nat);
        lemma_ten_to_pos((w - 1) as nat);
        assert(s.drop_last() =~= text::last_digits(n / 10, (w - 1) as nat));
        assert forall|i: int| 0 <= i < s.len() implies '0' <= #[trigger] s[i] <= '9' by {
            if i < w - 1 {
                assert(s[i] == text::last_digits(n / 10, (w - 1) as nat)[i]);
            }
        }
        let q = n / 10;
        vstd::arithmetic::div_mod::lemma_fundamental_div_mod(q as int, t as int);
        let a = (q / t) as int;
        let b = (q % t) as int;
        let rest = 10 * b + (n % 10) as int;
        assert(n == a * (10 * t) + rest) by (nonlinear_arith)
            requires
                n == 10 * q + (n % 10),
                q == t * a + b,
                rest == 10 * b + (n % 10) as int,
        ;
        vstd::arithmetic::div_mod::lemma_fundamental_div_mod_converse(
            n as int,
            10 * t as int,
            a,
            rest,
        );
    }
}

/// `p` of the parts of which `ten_to(places)` make one, in decimals.
pub open spec fn decimals(p: nat, places: nat) -> Seq<char> {
    if places == 0 {
        text::digits(p)
    } else {
        text::digits(p / ten_to(places)) + seq!['.'] + text::last_digits(p, places)
    }
}

/// A number is shown by the decimals that are nearest to it.
pub proof fn the_nearest_decimals_are_shown(x: Double, places: nat)
    requires
        x is Finite,
    ensures
        exists|p: nat|
            fixed_text(x, places) == #[trigger] decimals(p, places) && 2 * (p
                * double::one_units()) <= 2 * (x.units() * ten_to(places)) + double::one_units()
                && 2 * (x.units() * ten_to(places)) <= 2 * (p * double::one_units())
                + double::one_units(),
{
    reveal(double::parts_of);
    let p = double::parts_of(x, ten_to(places));
    double::lemma_one_positive();
    double::lemma_half_even_error(x.units() * ten_to(places), double::one_units());
    assert(fixed_text(x, places) =~= decimals(p, places)) by {
        if places == 0 {
            assert(p / 1 == p);
        }
    }
}

/// A text that fits stays; of one that is too long the start is kept, or the
/// end, and an ellipsis stands for the rest.
pub proof fn long_texts_are_cut(s: Seq<char>, max: nat, i: int)
    ensures
        s.len() <= max ==> truncated_text(s, max) == s && truncated_left_text(s, max) == s,
        s.len() > max ==> truncated_text(s, max).len() == max && truncated_left_text(s, max).len()
            == max,
        s.len() > max >= 2 ==> truncated_text(s, max)[max - 1] == '…' && truncated_left_text(
            s,
            max,
        )[0] == '…',
        s.len() > max >= 2 && 0 <= i < max - 1 ==> truncated_text(s, max)[i] == s[i]
            && truncated_left_text(s, max)[max - 1 - i] == s[s.len() - 1 - i],
        s.len() > max == 1 ==> truncated_text(s, max)[0] == s[0] && truncated_left_text(s, max)[0]
            == s[s.len() - 1],
{
}

/// A ratio that was rounded and then shown is off by at most one in its last
/// place.
proof fn lemma_shown(n: nat, x: Double, d: nat, v: Double, scale: nat, p: nat)
    requires
        d > 0,
        v is Finite,
        0 < scale <= 1000,
        n * scale <= d * 0x1_0000_0000_0000,
        double::MANT_END * x.units() <= double::MANT_END * (n * double::one_units()) + n
            * double::one_units() + double::MANT_MIN,
        double::MANT_END * (n * double::one_units()) <= double::MANT_END * x.units() + n
            * double::one_units() + double::MANT_MIN,
        double::MANT_END * (v.units() * d) <= double::MANT_END * x.units() + x.units()
            + double::MANT_MIN * d,
        double::MANT_END * x.units() <= double::MANT_END * (v.units() * d) + x.units()
            + double::MANT_MIN * d,
        2 * (p * double::one_units()) <= 2 * (v.units() * scale) + double::one_units(),
        2 * (v.units() * scale) <= 2 * (p * double::one_units()) + double::one_units(),
    ensures
        p * d <= n * scale + d,
        n * scale <= p * d + d,
{
    let m = double::MANT_END as int;
    let one = double::one_units() as int;
    double::lemma_one_is_many();
    let full = n * one;
    let xu = x.units() as int;
    let qd = (v.units() * d) as int;
    let s = scale as int;
    let di = d as int;
    assert(xu <= 2 * full + 1);
    let near = 3 * full + 1 + double::MANT_MIN + double::MANT_MIN * di;
    assert(m * qd <= m * full + near && m * full <= m * qd + near);
    let ns = (n * scale) as int;
    let qds = qd * s;
    let fs = full * s;
    let slack = near * s;
    assert(m * qds <= m * fs + slack && m * fs <= m * qds + slack) by (nonlinear_arith)
        requires
            m * qd <= m * full + near,
            m * full <= m * qd + near,
            qds == qd * s,
            fs == full * s,
            slack == near * s,
            s > 0,
    {
        assert((m * qd) * s <= (m * full + near) * s);
        assert((m * full) * s <= (m * qd + near) * s);
        assert((m * qd) * s == m * (qd * s));
        assert((m * full + near) * s == m * (full * s) + near * s);
        assert((m * full) * s == m * (full * s));
        assert((m * qd + near) * s == m * (qd * s) + near * s);
    }
    assert(fs == ns * one) by (nonlinear_arith)
        requires
            fs == full * s,
            full == n * one,
            ns == n * s,
    ;
    let w = di * one;
    assert(ns * one <= 0x1_0000_0000_0000 * w) by (nonlinear_arith)
        requires
            ns <= di * 0x1_0000_0000_0000,
            w == di * one,
            one > 0,
    ;
    let rest = (1 + double::MANT_MIN + double::MANT_MIN * di) * s;
    assert(slack == 3 * fs + rest) by (nonlinear_arith)
        requires
            slack == (3 * full + 1 + double::MANT_MIN + double::MANT_MIN * di) * s,
            rest == (1 + double::MANT_MIN + double::MANT_MIN * di) * s,
            fs == full * s,
    ;
    let mm = double::MANT_MIN as int;
    assert(rest <= 3000 * mm * di) by (nonlinear_arith)
        requires
            rest == (1 + mm + mm * di) * s,
            0 < s <= 1000,
            mm >= 1,
            di >= 1,
    {
        assert(mm <= mm * di);
        assert(1 <= mm * di);
        assert((1 + mm + mm * di) * s <= (3 * (mm * di)) * s);
        assert((3 * (mm * di)) * s <= (3 * (mm * di)) * 1000);
        assert((3 * (mm * di)) * 1000 == 3000 * mm * di);
    }
    assert(3000 * mm * di <= w) by (nonlinear_arith)
        requires
            w == di * one,
            one >= 3000 * mm,
            di >= 1,
    ;
    assert(8 * slack <= m * w);
    assert(8 * qds <= 8 * fs + w && 8 * fs <= 8 * qds + w) by (nonlinear_arith)
        requires
            m * qds <= m * fs + slack,
            m * fs <= m * qds + slack,
            8 * slack <= m * w,
            m > 0,
    {
        assert(m * (8 * qds) <= m * (8 * fs + w));
        assert(m * (8 * fs) <= m * (8 * qds + w));
    }
    let pd = (p * d) as int;
    let vs = (v.units() * scale) as int;
    assert(vs * di == qds && (p * one) * di == pd * one) by (nonlinear_arith)
        requires
            vs == v.units() * s,
            qds == (v.units() * di) * s,
            pd == p * di,
    ;
    assert(2 * (pd * one) <= 2 * qds + w && 2 * qds <= 2 * (pd * one) + w) by (nonlinear_arith)
        requires
            2 * (p * one) <= 2 * vs + one,
            2 * vs <= 2 * (p * one) + one,
            vs * di == qds,
            (p * one) * di == pd * one,
            w == di * one,
            di > 0,
    {
        assert((2 * (p * one)) * di <= (2 * vs + one) * di);
        assert((2 * vs) * di <= (2 * (p * one) + one) * di);
    }
    assert(8 * (pd * one) <= 8 * (ns * one) + 5 * w && 8 * (ns * one) <= 8 * (pd * one) + 5 * w);
    assert(pd <= ns + di && ns <= pd + di) by (nonlinear_arith)
        requires
            8 * (pd * one) <= 8 * (ns * one) + 5 * w,
            8 * (ns * one) <= 8 * (pd * one) + 5 * w,
            w == di * one,
            one > 0,
            di > 0,
    ;
}

/// The decimals that show `n / d` are off by at most one in their last place.
pub proof fn lemma_shown_ratio(n: nat, d: nat, places: nat)
    requires
        n <= u64::MAX,
        0 < d < double::MANT_END,
        places <= 3,
        n * ten_to(places) <= d * 0x1_0000_0000_0000,
    ensures
        ({
            let v = double::quotient_of(double::of_int(n), double::of_int(d));
            let p = double::parts_of(v, ten_to(places));
            &&& v is Finite
            &&& fixed_text(v, places) == decimals(p, places)
            &&& p * d <= n * ten_to(places) + d
            &&& n * ten_to(places) <= p * d + d
            &&& 2 * (p * double::one_units()) <= 2 * (v.units() * ten_to(places))
                + double::one_units()
            &&& 2 * (v.units() * ten_to(places)) <= 2 * (p * double::one_units())
                + double::one_units()
        }),
{
    let one = double::one_units();
    let x = double::of_int(n);
    let y = double::of_int(d);
    let v = double::quotient_of(x, y);
    let p = double::parts_of(v, ten_to(places));
    reveal_with_fuel(ten_to, 5);
    double::lemma_one_is_many();
    double::lemma_of_within(n as u64);
    double::lemma_of_within(d as u64);
    double::lemma_of_int_exact(d);
    double::lemma_quotient_within(x, y, 64, 0);
    assert(d * one > 0) by (nonlinear_arith)
        requires
            d > 0,
            one > 0,
    ;
    double::lemma_quotient_error(x, y);
    assert(x is Finite);
    reveal(double::of_int);
    double::lemma_nearest_error(n * one, 1);
    assert(x == double::nearest(n * one, 1));
    let m = double::MANT_END as int;
    let xu = x.units() as int;
    let q = v.units() as int;
    let di = d as int;
    let o = one as int;
    let mm = double::MANT_MIN as int;
    assert(m * (q * di) <= m * xu + xu + mm * di && m * xu <= m * (q * di) + xu + mm * di)
        by (nonlinear_arith)
        requires
            m * (q * (di * o)) <= m * (xu * o) + xu * o + mm * (di * o),
            m * (xu * o) <= m * (q * (di * o)) + xu * o + mm * (di * o),
            o > 0,
    {
        assert(m * (q * (di * o)) == (m * (q * di)) * o);
        assert(m * (xu * o) + xu * o + mm * (di * o) == (m * xu + xu + mm * di) * o);
        assert(m * (xu * o) == (m * xu) * o);
        assert(m * (q * (di * o)) + xu * o + mm * (di * o) == (m * (q * di) + xu + mm * di) * o);
    }
    reveal(double::parts_of);
    double::lemma_half_even_error(v.units() * ten_to(places), one);
    lemma_shown(n, x, d, v, ten_to(places), p);
    assert(fixed_text(v, places) =~= decimals(p, places)) by {
        if places == 0 {
            assert(p / 1 == p);
        }
    }
}

/// Whether a text shows `n / d` with `places` decimals, off by at most one in
/// the last place: `p` is what it shows without the point.
pub open spec fn shows_ratio(s: Seq<char>, n: nat, d: nat, places: nat, p: nat) -> bool {
    &&& s == decimals(p, places)
    &&& p * d <= n * ten_to(places) + d
    &&& n * ten_to(places) <= p * d + d
}

/// The largest of a thousand, a million and so on that a number has, and its
/// letter.
pub open spec fn large_unit(n: nat) -> (nat, char) {
    if n < 1_000_000 {
        (1_000, 'K')
    } else if n < 1_000_000_000 {
        (1_000_000, 'M')
    } else if n < 1_000_000_000_000 {
        (1_000_000_000, 'B')
    } else {
        (1_000_000_000_000, 'T')
    }
}

/// Large numbers are shown in thousands, millions, thousands of millions or
/// millions of millions, whichever is the largest that the number has; there are
/// three digits, or four where rounding carries.
pub proof fn large_numbers_are_shown_in_their_unit(n: nat)
    requires
        10_000 <= n <= u64::MAX,
    ensures
        compact_text(n).last() == large_unit(n).1,
        exists|places: nat, p: nat|
            places <= 2 && #[trigger] shows_ratio(
                compact_text(n).drop_last(),
                n,
                large_unit(n).0,
                places,
                p,
            ) && p >= 99 && (p > 1000 ==> n >= 1_000_000_000_000_000),
{
    reveal_strlit("K");
    reveal_strlit("M");
    reveal_strlit("B");
    reveal_strlit("T");
    let suffix = if n < 1_000_000 {
        "K"@
    } else if n < 1_000_000_000 {
        "M"@
    } else if n < 1_000_000_000_000 {
        "B"@
    } else {
        "T"@
    };
    let (places, p) = lemma_compact(n, large_unit(n).0, suffix);
    assert(compact_text(n) == compact_with(n, large_unit(n).0, suffix));
    assert(shows_ratio(compact_text(n).drop_last(), n, large_unit(n).0, places, p));
}

proof fn lemma_compact(n: nat, d: nat, suffix: Seq<char>) -> (r: (nat, nat))
    requires
        n <= u64::MAX,
        1_000 <= d <= 1_000_000_000_000,
        d <= n,
        n < 1000 * d || d == 1_000_000_000_000,
        suffix.len() == 1,
    ensures
        compact_with(n, d, suffix).last() == suffix[0],
        r.0 <= 2,
        shows_ratio(compact_with(n, d, suffix).drop_last(), n, d, r.0, r.1),
        r.1 >= 99,
        r.1 > 1000 ==> n >= 1000 * d,
{
    let v = double::quotient_of(double::of_int(n), double::of_int(d));
    let one = double::one_units();
    reveal_with_fuel(ten_to, 4);
    double::lemma_one_is_many();
    double::lemma_of_int_exact(100);
    double::lemma_of_int_exact(10);
    reveal(double::less);
    let k: nat = if double::at_most(double::of_int(100), v) {
        0
    } else if double::at_most(double::of_int(10), v) {
        1
    } else {
        2
    };
    assert(n * ten_to(k) <= n * 100) by (nonlinear_arith)
        requires
            ten_to(k) <= 100,
    ;
    lemma_shown_ratio(n, d, k);
    let p = double::parts_of(v, ten_to(k));
    let t = compact_with(n, d, suffix);
    assert(t == fixed_text(v, k) + suffix);
    assert(t.drop_last() =~= decimals(p, k));
    assert(shows_ratio(t.drop_last(), n, d, k, p));
    let u = v.units();
    if k == 0 {
        assert(p >= 100) by (nonlinear_arith)
            requires
                2 * (u * 1) <= 2 * (p * one) + one,
                u >= 100 * one,
                one > 0,
        ;
        if n < 1000 * d {
            assert(p <= 1000) by (nonlinear_arith)
                requires
                    p * d <= n * 1 + d,
                    n < 1000 * d,
                    d > 0,
            ;
        }
    } else if k == 1 {
        assert(p >= 100) by (nonlinear_arith)
            requires
                2 * (u * 10) <= 2 * (p * one) + one,
                u >= 10 * one,
                one > 0,
        ;
        assert(p <= 1000) by (nonlinear_arith)
            requires
                2 * (p * one) <= 2 * (u * 10) + one,
                u < 100 * one,
                one > 0,
        ;
    } else {
        assert(p >= 99) by (nonlinear_arith)
            requires
                n * 100 <= p * d + d,
                n >= d,
                d > 0,
        ;
        assert(p <= 1000) by (nonlinear_arith)
            requires
                2 * (p * one) <= 2 * (u * 100) + one,
                u < 10 * one,
                one > 0,
        ;
    }
    (k, p)
}

/// 1024 to the power `u`.
pub open spec fn kilo_to(u: nat) -> nat
    decreases u,
{
    if u == 0 {
        1
    } else {
        1024 * kilo_to((u - 1) as nat)
    }
}

proof fn lemma_scaled(v: Double, u: nat)
    requires
        v is Finite,
        v.wf(),
        u <= 4,
    ensures
        ({
            let (w, t) = scaled(v, u);
            &&& w is Finite
            &&& u <= t <= 4
            &&& w.units() * kilo_to((t - u) as nat) == v.units()
            &&& t < 4 ==> w.units() < 1024 * double::one_units()
            &&& t > u ==> w.units() >= double::one_units()
        }),
    decreases 4 - u,
{
    double::lemma_of_int_exact(1024);
    reveal(double::less);
    let (w, t) = scaled(v, u);
    if u < 4 && double::at_most(double::of_int(1024), v) {
        double::lemma_quotient_of_kilo(v);
        let q = double::quotient_of(v, double::of_int(1024));
        lemma_scaled(q, u + 1);
        let k = kilo_to((t - u - 1) as nat);
        assert(kilo_to((t - u) as nat) == 1024 * k);
        assert(w.units() * (1024 * k) == v.units()) by (nonlinear_arith)
            requires
                w.units() * k == q.units(),
                q.units() * 1024 == v.units(),
        ;
        if t == u + 1 {
            assert(w == q) by {
                assert(kilo_to(0) == 1);
            }
            assert(q.units() >= double::one_units());
        }
    } else {
        assert(kilo_to(0) == 1);
        assert(w.units() * 1 == v.units());
    }
}

/// The largest unit that so many bytes have, and its letter.
pub open spec fn byte_unit(n: nat) -> (nat, char) {
    if n < 1_048_576 {
        (1_024, 'K')
    } else if n < 1_073_741_824 {
        (1_048_576, 'M')
    } else if n < 1_099_511_627_776 {
        (1_073_741_824, 'G')
    } else {
        (1_099_511_627_776, 'T')
    }
}

/// Bytes are shown in the largest unit that they have, each 1024 times the one
/// before, with two decimals or one; below 1024 they are shown as they are.
pub proof fn bytes_are_shown_in_their_unit(n: nat)
    requires
        n <= u64::MAX,
    ensures
        n < 1024 ==> bytes_text(n) == text::digits(n) + seq![' ', 'B'] && bytes_short_text(n)
            == text::digits(n) + seq!['B'],
        n >= 1024 ==> {
            let size = byte_unit(n).0;
            let letter = byte_unit(n).1;
            let long = bytes_text(n);
            let short = bytes_short_text(n);
            &&& exists|p: nat|
                #[trigger] shows_ratio(long.take(long.len() - 3), n, size, 2, p) && long
                    == decimals(p, 2) + seq![' ', letter, 'B']
            &&& exists|p: nat|
                #[trigger] shows_ratio(short.drop_last(), n, size, 1, p) && short == decimals(p, 1)
                    + seq![letter]
        },
{
    reveal_strlit(" B");
    reveal_strlit("B");
    reveal_strlit(" ");
    reveal_strlit("KB");
    reveal_strlit("MB");
    reveal_strlit("GB");
    reveal_strlit("TB");
    reveal_strlit("K");
    reveal_strlit("M");
    reveal_strlit("G");
    reveal_strlit("T");
    let one = double::one_units();
    let x = double::of_int(n);
    double::lemma_one_is_many();
    double::lemma_of_within(n as u64);
    let (v, u) = scaled(x, 0);
    lemma_scaled(x, 0);
    let d = kilo_to(u);
    reveal_with_fuel(kilo_to, 6);
    reveal_with_fuel(ten_to, 4);
    if n >= double::MANT_END {
        double::lemma_of_int_exact(1_125_899_906_842_624);
        double::lemma_of_int_monotone(1_125_899_906_842_624, n);
        reveal(double::less);
    } else {
        double::lemma_of_int_exact(n);
    }
    assert(u == if n < 1024 {
        0nat
    } else if n < 1_048_576 {
        1
    } else if n < 1_073_741_824 {
        2
    } else if n < 1_099_511_627_776 {
        3
    } else {
        4
    }) by {
        lemma_unit(n, x, v, u, d);
    }
    if n < 1024 {
        assert(bytes_text(n) =~= text::digits(n) + seq![' ', 'B']);
        assert(bytes_short_text(n) =~= text::digits(n) + seq!['B']);
    } else {
        let letter = byte_unit(n).1;
        assert(d == byte_unit(n).0);
        assert(long_unit(u) =~= seq![letter, 'B']);
        assert(short_unit(u) =~= seq![letter]);
        lemma_shown_unit(n, x, v, d, 2);
        lemma_shown_unit(n, x, v, d, 1);
        let p2 = double::parts_of(v, 100);
        let p1 = double::parts_of(v, 10);
        let long = bytes_text(n);
        let short = bytes_short_text(n);
        assert(long =~= decimals(p2, 2) + seq![' ', letter, 'B']);
        assert(short =~= decimals(p1, 1) + seq![letter]);
        assert(long.take(long.len() - 3) =~= decimals(p2, 2));
        assert(short.drop_last() =~= decimals(p1, 1));
        assert(shows_ratio(long.take(long.len() - 3), n, d, 2, p2));
        assert(shows_ratio(short.drop_last(), n, d, 1, p1));
    }
}

proof fn lemma_unit(n: nat, x: Double, v: Double, u: nat, d: nat)
    requires
        u <= 4,
        d == kilo_to(u),
        v.units() * d == x.units(),
        u < 4 ==> v.units() < 1024 * double::one_units(),
        u > 0 ==> v.units() >= double::one_units(),
        n < double::MANT_END ==> x.units() == n * double::one_units(),
        n >= double::MANT_END ==> x.units() >= 1_125_899_906_842_624 * double::one_units(),
    ensures
        u < 4 ==> n < 1024 * d,
        u > 0 ==> n >= d,
{
    let one = double::one_units();
    reveal_with_fuel(kilo_to, 6);
    double::lemma_one_positive();
    if u < 4 {
        assert(x.units() < (1024 * d) * one) by (nonlinear_arith)
            requires
                v.units() * d == x.units(),
                v.units() < 1024 * one,
                d > 0,
        ;
        if n < double::MANT_END {
            assert(n < 1024 * d) by (nonlinear_arith)
                requires
                    n * one < (1024 * d) * one,
                    one > 0,
            ;
        } else {
            assert((1024 * d) * one <= 1_125_899_906_842_624 * one) by (nonlinear_arith)
                requires
                    1024 * d <= 1_125_899_906_842_624,
                    one > 0,
            ;
        }
    }
    if u > 0 && n < double::MANT_END {
        assert(n >= d) by (nonlinear_arith)
            requires
                v.units() * d == n * one,
                v.units() >= one,
                one > 0,
                d > 0,
        ;
    }
}

proof fn lemma_shown_unit(n: nat, x: Double, v: Double, d: nat, places: nat)
    requires
        n <= u64::MAX,
        x == double::of_int(n),
        x is Finite,
        v is Finite,
        1 <= d <= 1_099_511_627_776,
        n < 1024 * d || d == 1_099_511_627_776,
        v.units() * d == x.units(),
        places <= 2,
    ensures
        ({
            let p = double::parts_of(v, ten_to(places));
            &&& fixed_text(v, places) == decimals(p, places)
            &&& p * d <= n * ten_to(places) + d
            &&& n * ten_to(places) <= p * d + d
        }),
{
    let one = double::one_units();
    let p = double::parts_of(v, ten_to(places));
    reveal_with_fuel(ten_to, 4);
    double::lemma_one_is_many();
    reveal(double::of_int);
    double::lemma_nearest_error(n * one, 1);
    reveal(double::parts_of);
    double::lemma_half_even_error(v.units() * ten_to(places), one);
    assert(n * ten_to(places) <= n * 100) by (nonlinear_arith)
        requires
            ten_to(places) <= 100,
    ;
    assert(double::MANT_MIN * d >= 0) by (nonlinear_arith);
    lemma_shown(n, x, d, v, ten_to(places), p);
    assert(fixed_text(v, places) =~= decimals(p, places)) by {
        if places == 0 {
            assert(p / 1 == p);
        }
    }
}

} // verus!
