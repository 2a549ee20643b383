//! What the keys do, and what they leave alone.

use vstd::arithmetic::div_mod::*;
use vstd::arithmetic::power2::*;
use vstd::prelude::*;

use crate::accuracy;
use crate::args;
use crate::binary64;
use crate::binary64::Binary64;
use crate::history;
use crate::rounding;
use crate::rounding::{HIDDEN, INF_BITS, SIGNIFICAND_END};
use crate::ui::{faster, keyed, quits, slower, stale, Key, Overlay, Ui};

verus! {

/// No key touches anything but what it is for.
pub proof fn keys_leave_the_rest_alone(
    ui: Ui,
    paused: bool,
    key: Key,
    size: Option<(u16, u16)>,
    now: u64,
)
    ensures
        ({
            let r = keyed(ui, paused, key, size, now);
            let scrolls = key == Key::Up || key == Key::Down || key == Key::Char('j') || key
                == Key::Char('k');
            &&& r.insecure == ui.insecure
            &&& key != Key::Char(' ') ==> r.paused_since == ui.paused_since
            &&& key != Key::Char('c') ==> r.compact == ui.compact
            &&& key != Key::Char('g') ==> r.graphs_on == ui.graphs_on
            &&& key != Key::Char('t') ==> r.theme_idx == ui.theme_idx
            &&& key != Key::Char('1') && key != Key::Char('2') && key != Key::Char('3')
                ==> r.window_focus == ui.window_focus
            &&& key != Key::Char('e') && key != Key::Char('?') ==> r.overlay == ui.overlay
            &&& key != Key::Char('+') && key != Key::Char('=') && key != Key::Char('-')
                ==> r.interval == ui.interval
            &&& key != Key::Char('e') && !scrolls ==> r.scroll == ui.scroll
        }),
        quits(key) <==> key == Key::Char('q') || key == Key::Esc,
{
}

/// The digits focus the windows of 5, 15 and 60 seconds, the graphs and the layout change
/// over, a pause starts and ends, the themes come in turn, and the overlays open from the
/// top and close again.
#[verifier::rlimit(40)]
pub proof fn keys_do_what_they_are_for(ui: Ui, paused: bool, size: Option<(u16, u16)>, now: u64)
    requires
        ui.wf(),
    ensures
        ({
            let after = |key: Key| keyed(ui, paused, key, size, now);
            let shown_small = match ui.compact {
                Some(c) => c,
                None => match size {
                    Some((cols, rows)) => rows < 26 || cols < 90,
                    None => false,
                },
            };
            &&& after(Key::Char('1')).window_focus == 0
            &&& after(Key::Char('2')).window_focus == 1
            &&& after(Key::Char('3')).window_focus == 2
            &&& after(Key::Char('g')).graphs_on != ui.graphs_on
            &&& after(Key::Char('c')).compact == Some(!shown_small)
            &&& after(Key::Char(' ')).paused_since == (if paused {
                None
            } else {
                Some(now)
            })
            &&& after(Key::Char('t')).theme_idx == (if ui.theme_idx == 2 {
                0
            } else {
                ui.theme_idx + 1
            })
            &&& after(Key::Char('e')).overlay == (if ui.overlay == Overlay::Explain {
                Overlay::Closed
            } else {
                Overlay::Explain
            })
            &&& after(Key::Char('e')).scroll == 0
            &&& after(Key::Char('?')).overlay == (if ui.overlay == Overlay::Help {
                Overlay::Closed
            } else {
                Overlay::Help
            })
            &&& ui.overlay == Overlay::Explain && ui.scroll < u16::MAX ==> after(Key::Down).scroll
                == ui.scroll + 1 && after(Key::Char('j')).scroll == ui.scroll + 1
            &&& ui.overlay != Overlay::Explain ==> after(Key::Down).scroll == ui.scroll && after(
                Key::Char('j'),
            ).scroll == ui.scroll
            &&& ui.scroll > 0 ==> after(Key::Up).scroll == ui.scroll - 1 && after(
                Key::Char('k'),
            ).scroll == ui.scroll - 1
            &&& ui.scroll == 0 ==> after(Key::Up).scroll == 0 && after(Key::Char('k')).scroll == 0
            &&& after(Key::Char('=')).interval == after(Key::Char('+')).interval
        }),
{
}

/// Twice a number of the ordinary range is the number a binade further on.
proof fn lemma_twice(k: nat)
    requires
        k >= HIDDEN,
    ensures
        rounding::magnitude(k + HIDDEN as nat) == 2 * rounding::magnitude(k),
{
    let h = HIDDEN as nat;
    let s = (k / h - 1) as nat;
    assert((k + h) / h == k / h + 1) by (nonlinear_arith)
        requires
            h > 0,
    ;
    lemma_pow2_unfold(s + 1);
    let m = (k - s * h) as nat;
    assert((k + h) - (s + 1) * h == m) by (nonlinear_arith)
        requires
            m == k - s * h,
    ;
    assert(m * pow2(s + 1) == 2 * (m * pow2(s))) by (nonlinear_arith)
        requires
            pow2(s + 1) == 2 * pow2(s),
    ;
}

proof fn lemma_ordinary(x: Binary64)
    requires
        args::in_bounds(x),
    ensures
        x.finite(),
        !x.negative(),
        HIDDEN + HIDDEN <= x.abs_bits(),
        x.abs_bits() + HIDDEN < INF_BITS,
        pow2(1073) <= x.mag() <= 10 * pow2(1074),
{
    args::lemma_in_bounds(x);
    accuracy::half_is_exact();
    accuracy::small_integers_are_exact(10);
    accuracy::integers_keep_order(0, 10);
    let h = HIDDEN as nat;
    lemma2_to64();
    lemma2_to64_rest();
    accuracy::order_is_by_value(x, history::half());
    accuracy::order_is_by_value(binary64::integer(10), x);
    assert(pow2(1073) <= x.mag() <= 10 * pow2(1074));
    lemma_pow2_strictly_increases(54, 1073);
    lemma_pow2_adds(53, 1);
    if x.abs_bits() < h + h {
        accuracy::magnitudes_ascend(x.abs_bits(), h + h);
        accuracy::lemma_magnitude_at(1, h);
        assert(1 * h + h == h + h);
    }
    // Sixteen lies below the upper end, and ten below sixteen.
    accuracy::small_integers_are_exact(16);
    accuracy::integers_keep_order(10, 16);
    accuracy::lemma_magnitude_at(1026, h);
    lemma_pow2_adds(52, 1026);
    lemma_pow2_adds(4, 1074);
    assert(h * pow2(1026) == 16 * pow2(1074));
    let top = 1026 * h + h;
    if x.abs_bits() > top {
        accuracy::magnitudes_ascend(top, x.abs_bits());
    }
}

/// The plus key doubles the interval as far as ten seconds, the minus key halves it as far
/// as half a second, both exactly, and the one undoes the other.
#[verifier::rlimit(40)]
pub proof fn intervals_double_and_halve(x: Binary64)
    requires
        args::in_bounds(x),
    ensures
        x.units() <= 5 * pow2(1074) ==> slower(x).units() == 2 * x.units(),
        x.units() >= 5 * pow2(1074) ==> slower(x).units() == 10 * pow2(1074),
        x.units() >= pow2(1074) ==> 2 * faster(x).units() == x.units(),
        x.units() <= pow2(1074) ==> 2 * faster(x).units() == pow2(1074),
        x.units() <= 5 * pow2(1074) ==> faster(slower(x)) == x,
        x.units() >= pow2(1074) ==> slower(faster(x)) == x,
{
    let h = HIDDEN as nat;
    let p = pow2(1074);
    lemma_pow2_pos(1074);
    lemma_pow2_unfold(1074);
    lemma_ordinary(x);
    lemma_doubled(x);
    lemma_halved(x);
    accuracy::half_is_exact();
    accuracy::small_integers_are_exact(10);
    accuracy::integers_keep_order(0, 10);
    let two = binary64::product(x, binary64::integer(2));
    let cut = binary64::quotient(x, binary64::integer(2));
    accuracy::order_is_by_value(binary64::integer(10), two);
    accuracy::order_is_by_value(cut, history::half());
    let s = slower(x);
    let f = faster(x);
    crate::ui::interval_stays_in_bounds(x);
    if x.units() <= 5 * p {
        assert(s == two);
        lemma_ordinary(s);
        lemma_halved(s);
        let back = binary64::quotient(s, binary64::integer(2));
        accuracy::order_is_by_value(back, history::half());
        assert(back == x);
    }
    if x.units() >= p {
        assert(f == cut);
        lemma_ordinary(f);
        lemma_doubled(f);
        let back = binary64::product(f, binary64::integer(2));
        accuracy::order_is_by_value(binary64::integer(10), back);
        assert(back == x);
    }
}

proof fn lemma_doubled(x: Binary64)
    requires
        x.finite(),
        !x.negative(),
        HIDDEN <= x.abs_bits(),
        x.abs_bits() + HIDDEN < INF_BITS,
    ensures
        binary64::product(x, binary64::integer(2)) == binary64::signed(
            false,
            x.abs_bits() + HIDDEN as nat,
        ),
        binary64::product(x, binary64::integer(2)).units() == 2 * x.units(),
{
    let h = HIDDEN as nat;
    let p = pow2(1074);
    lemma_pow2_pos(1074);
    lemma_twice(x.abs_bits());
    accuracy::small_integers_are_exact(2);
    accuracy::integers_keep_order(0, 2);
    let m = x.mag();
    assert(m * (2 * p) == (2 * m) * p) by (nonlinear_arith);
    rounding::lemma_nearest_scale(2 * m, 1, p);
    assert(1 * p == p);
    accuracy::rounding_keeps_numbers(x.abs_bits() + h);
}

proof fn lemma_halved(x: Binary64)
    requires
        x.finite(),
        !x.negative(),
        HIDDEN + HIDDEN <= x.abs_bits(),
    ensures
        binary64::quotient(x, binary64::integer(2)) == binary64::signed(
            false,
            (x.abs_bits() - HIDDEN) as nat,
        ),
        2 * binary64::quotient(x, binary64::integer(2)).units() == x.units(),
{
    let h = HIDDEN as nat;
    let p = pow2(1074);
    lemma_pow2_pos(1074);
    let k = (x.abs_bits() - h) as nat;
    lemma_twice(k);
    accuracy::small_integers_are_exact(2);
    accuracy::integers_keep_order(0, 2);
    assert(rounding::magnitude(0) == 0);
    let m = rounding::magnitude(k);
    assert((2 * m) * p == m * (2 * p)) by (nonlinear_arith);
    rounding::lemma_nearest_scale(m, 1, 2 * p);
    assert(1 * (2 * p) == 2 * p);
    accuracy::rounding_keeps_numbers(k);
}

/// The scraper is told an interval in milliseconds, to the millisecond.
#[verifier::rlimit(40)]
pub proof fn intervals_are_told_in_milliseconds(x: Binary64)
    requires
        args::in_bounds(x),
    ensures
        args::millis(x) * pow2(1074) <= 1000 * x.units() + pow2(1074),
        1000 * x.units() <= (args::millis(x) + 2) * pow2(1074),
{
    let p = pow2(1074);
    let e = SIGNIFICAND_END as int;
    lemma_pow2_pos(1074);
    lemma2_to64();
    lemma2_to64_rest();
    lemma_pow2_adds(53, 53);
    lemma_pow2_strictly_increases(106, 1074);
    lemma_ordinary(x);
    accuracy::small_integers_are_exact(10);
    accuracy::small_integers_are_exact(1000);
    accuracy::small_integers_are_exact(10_000);
    accuracy::integers_keep_order(0, 10);
    accuracy::integers_keep_order(0, 1000);
    accuracy::integers_keep_order(0, 10_000);
    let k = binary64::integer(1000);
    let m = x.mag();
    let a = binary64::product(x, k);
    accuracy::products_keep_order(x, binary64::integer(10), k);
    accuracy::small_products_are_exact(10, 1000);
    assert(a.finite() && !a.negative());
    let am = a.mag();
    crate::axis_laws::lemma_rounding_error(m * (1000 * p), p);
    let d = accuracy::distance(m * (1000 * p), p, a.abs_bits());
    let f = (am - 1000 * m) * e;
    assert(-(1000 * m + e) <= f <= 1000 * m + e) by (nonlinear_arith)
        requires
            f == (am - 1000 * m) * e,
            -d <= am * p - m * (1000 * p) <= d,
            d * e <= m * (1000 * p) + p * e,
            p > 0,
            e > 0,
    ;
    assert(-p <= am - 1000 * m <= p) by (nonlinear_arith)
        requires
            f == (am - 1000 * m) * e,
            -(1000 * m + e) <= f <= 1000 * m + e,
            m <= 10 * p,
            p > e * e,
            e > 20_000,
    ;
    args::millis_are_bounded(x);
    accuracy::lemma_mag_order(a, binary64::integer(10_000));
    lemma_fundamental_div_mod(am as int, p as int);
    let ms = am / p;
    assert(p * ms == ms * p) by (nonlinear_arith);
    accuracy::lemma_whole_at_most(a, 10_000);
    assert(args::millis(x) == ms);
    assert((ms + 2) * p == ms * p + 2 * p) by (nonlinear_arith);
}

/// With an interval of a whole number of seconds, data is stale from the first nanosecond
/// after three intervals and a second.
pub proof fn data_of_whole_seconds_goes_stale_to_the_nanosecond(k: nat, age: u64)
    requires
        1 <= k <= 10,
    ensures
        stale(Some(age), binary64::integer(k)) <==> age > (3 * k + 1) * 1_000_000_000,
{
    let p = pow2(1074);
    lemma_pow2_pos(1074);
    accuracy::small_products_are_exact(k, 3);
    accuracy::small_sums_are_exact(k * 3, 1);
    let m = (k * 3 + 1) as nat;
    accuracy::small_integers_are_exact(m);
    accuracy::integers_keep_order(0, m);
    let g = 1_000_000_000nat;
    let n = m * g;
    assert((m * p) * g == n * p) by (nonlinear_arith)
        requires
            n == m * g,
    ;
    lemma_div_multiples_vanish(n as int, p as int);
    lemma_mod_multiples_basic(n as int, p as int);
    assert(p * n == n * p) by (nonlinear_arith);
    assert(rounding::round_even(n * p, p) == n);
    assert(crate::ui::stale_after(binary64::integer(k)) == n);
}

/// Rounding to an integer is off by at most one half.
proof fn lemma_round_half(num: nat, den: nat)
    requires
        den > 0,
    ensures
        -(den as int) <= 2 * (rounding::round_even(num, den) * den) - 2 * num <= den,
{
    let q = num / den;
    lemma_fundamental_div_mod(num as int, den as int);
    assert((q + 1) * den == den * q + den) by (nonlinear_arith);
    assert(q * den == den * q) by (nonlinear_arith);
}

/// Data is stale once it is older than three intervals and a second, to the nanosecond, and
/// data that never came is stale.
#[verifier::rlimit(40)]
pub proof fn data_goes_stale_after_three_intervals_and_a_second(x: Binary64, age: u64)
    requires
        args::in_bounds(x),
    ensures
        stale(None, x),
        age * pow2(1074) > (3 * x.units() + pow2(1074)) * 1_000_000_000 + pow2(1074) ==> stale(
            Some(age),
            x,
        ),
        age * pow2(1074) < (3 * x.units() + pow2(1074)) * 1_000_000_000 - pow2(1074) ==> !stale(
            Some(age),
            x,
        ),
{
    let p = pow2(1074);
    let e = SIGNIFICAND_END as int;
    lemma_pow2_pos(1074);
    lemma2_to64();
    lemma2_to64_rest();
    lemma_pow2_adds(53, 53);
    lemma_pow2_strictly_increases(106, 1074);
    lemma_ordinary(x);
    assert(rounding::magnitude(0) == 0);
    accuracy::small_integers_are_exact(1);
    accuracy::small_integers_are_exact(3);
    accuracy::small_integers_are_exact(10);
    accuracy::small_integers_are_exact(30);
    accuracy::integers_keep_order(0, 1);
    accuracy::integers_keep_order(0, 3);
    accuracy::integers_keep_order(0, 10);
    accuracy::integers_keep_order(0, 30);
    let m = x.mag();
    let three = binary64::integer(3);
    let one = binary64::integer(1);
    let a = binary64::product(x, three);
    accuracy::products_keep_order(x, binary64::integer(10), three);
    accuracy::small_products_are_exact(10, 3);
    assert(a.finite() && !a.negative());
    accuracy::lemma_plain(a);
    accuracy::lemma_mag_order(a, binary64::integer(30));
    let am = a.mag();
    assert(m * three.mag() == m * (3 * p));
    crate::axis_laws::lemma_rounding_error(m * (3 * p), p);
    let e1 = accuracy::distance(m * (3 * p), p, a.abs_bits());
    let s = binary64::sum(a, one);
    accuracy::sums_keep_order(a, binary64::integer(30), one);
    accuracy::small_sums_are_exact(30, 1);
    accuracy::small_integers_are_exact(31);
    accuracy::integers_keep_order(0, 31);
    assert(s.finite() && !s.negative());
    let sm = s.mag();
    let t = am + p;
    assert(1 * p == p);
    crate::axis_laws::lemma_rounding_error(t, 1);
    let e2 = accuracy::distance(t, 1, s.abs_bits());
    assert(sm * 1 == sm);
    let f1 = (am - 3 * m) * e;
    assert(-(31 * p) <= f1 <= 31 * p) by {
        assert(-(3 * m + e) <= f1 <= 3 * m + e) by (nonlinear_arith)
            requires
                f1 == (am - 3 * m) * e,
                -e1 <= am * p - m * (3 * p) <= e1,
                e1 * e <= m * (3 * p) + p * e,
                p > 0,
                e > 0,
        ;
        assert(e <= p) by (nonlinear_arith)
            requires
                p > e * e,
                e > 1,
        ;
    }
    let f2 = (sm - t) * e;
    assert(-(32 * p) <= f2 <= 32 * p) by {
        assert(-(t + e) <= f2 <= t + e) by (nonlinear_arith)
            requires
                f2 == (sm - t) * e,
                -e2 <= sm - t <= e2,
                e2 * e <= t + 1 * e,
                e > 0,
        ;
        assert(e <= p) by (nonlinear_arith)
            requires
                p > e * e,
                e > 1,
        ;
    }
    let off = sm - (3 * m + p);
    assert(off * e == f1 + f2) by (nonlinear_arith)
        requires
            off == sm - (3 * m + p),
            t == am + p,
            f1 == (am - 3 * m) * e,
            f2 == (sm - t) * e,
    ;
    let g = 1_000_000_000int;
    assert(-p <= 2 * (off * g) <= p) by (nonlinear_arith)
        requires
            -(63 * p) <= off * e <= 63 * p,
            e >= 126 * g,
            g > 0,
            p > 0,
    ;
    lemma_round_half(sm * 1_000_000_000, p);
    let n = crate::ui::stale_after(x);
    assert(n == rounding::round_even(sm * 1_000_000_000, p));
    assert(sm * g == (3 * m + p) * g + off * g) by (nonlinear_arith)
        requires
            off == sm - (3 * m + p),
    ;
    assert(-p <= n * p - (3 * m + p) * g <= p);
    if age > n {
        assert(age * p >= n * p + p) by (nonlinear_arith)
            requires
                age >= n + 1,
                p > 0,
        ;
    } else {
        assert(age * p <= n * p) by (nonlinear_arith)
            requires
                age <= n,
                p > 0,
        ;
    }
}

} // verus!
