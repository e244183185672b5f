//! Triangular probing: from any start, the offsets 0, 1, 3, 6, 10, ... taken modulo a
//! power of two reach every index once before repeating.

use vstd::arithmetic::div_mod::{lemma_add_mod_noop_right, lemma_fundamental_div_mod};
use vstd::prelude::*;
use vstd::relations::injective_on;
use vstd::set_lib::{lemma_int_range, lemma_len_subset, lemma_map_size, set_int_range};

verus! {

/// 0 + 1 + ... + x: the offset from the start after `x` probe steps.
pub open spec fn triangle(x: nat) -> nat
    decreases x,
{
    if x == 0 {
        0
    } else {
        triangle((x - 1) as nat) + x
    }
}

/// `n` is 1, 2, 4, 8, ...
pub open spec fn is_power_of_two(n: nat) -> bool
    decreases n,
{
    if n <= 1 {
        n == 1
    } else {
        n % 2 == 0 && is_power_of_two(n / 2)
    }
}

/// The index that probe step `y` from `start` visits in a table of `cap` buckets.
pub open spec fn probe_index(start: int, cap: nat, y: nat) -> int {
    (start + triangle(y)) % (cap as int)
}

/// The closed form of the triangular numbers.
proof fn lemma_triangle_closed(x: nat)
    ensures
        2 * triangle(x) == x * (x + 1),
    decreases x,
{
    if x > 0 {
        let w = (x - 1) as nat;
        lemma_triangle_closed(w);
        assert(triangle(x) == triangle(w) + x);
        assert(x * (x + 1) == w * (w + 1) + 2 * x) by (nonlinear_arith)
            requires
                w + 1 == x,
        ;
    } else {
        assert(x * (x + 1) == 0) by (nonlinear_arith)
            requires
                x == 0,
        ;
    }
}

/// If an odd number times `x` is a multiple of a power of two, so is `x`.
proof fn lemma_odd_factor(n: int, x: int, q: int, p: nat)
    requires
        n % 2 == 1,
        is_power_of_two(p),
        n * x == q * p,
    ensures
        exists|c: int| #[trigger] (c * p) == x,
    decreases p,
{
    if p == 1 {
        assert(x * 1 == x);
    } else {
        let p2 = p / 2;
        assert(p == 2 * p2);
        assert(q * p == 2 * (q * p2)) by (nonlinear_arith)
            requires
                p == 2 * p2,
        ;
        let y = x / 2;
        if x % 2 == 1 {
            let i = n / 2;
            assert(n * x == 2 * (2 * i * y + i + y) + 1) by (nonlinear_arith)
                requires
                    n == 2 * i + 1,
                    x == 2 * y + 1,
            ;
        }
        assert(x == 2 * y);
        assert(n * y == q * p2) by (nonlinear_arith)
            requires
                n * x == 2 * (q * p2),
                x == 2 * y,
        ;
        lemma_odd_factor(n, y, q, p2);
        let c = choose|c: int| #[trigger] (c * p2) == y;
        assert(x == c * p) by (nonlinear_arith)
            requires
                x == 2 * y,
                y == c * p2,
                p == 2 * p2,
        ;
    }
}

/// Two probe steps below `cap` differ in offset by no multiple of `cap`.
proof fn lemma_triangle_gap(cap: nat, a: nat, b: nat, q: int)
    requires
        is_power_of_two(cap),
        b < a < cap,
    ensures
        triangle(a) - triangle(b) != q * cap,
{
    if triangle(a) - triangle(b) == q * cap {
        lemma_triangle_closed(a);
        lemma_triangle_closed(b);
        let d: int = a - b;
        let s: int = (a + b + 1) as int;
        let p = 2 * cap;
        assert(is_power_of_two(p)) by {
            assert(p / 2 == cap);
        }
        assert(d * s == q * p) by (nonlinear_arith)
            requires
                2 * triangle(a) == a * (a + 1),
                2 * triangle(b) == b * (b + 1),
                triangle(a) - triangle(b) == q * cap,
                d == a - b,
                s == a + b + 1,
                p == 2 * cap,
        ;
        if d % 2 == 1 {
            lemma_odd_factor(d, s, q, p);
            let c = choose|c: int| #[trigger] (c * p) == s;
            assert(false) by (nonlinear_arith)
                requires
                    s == c * p,
                    0 < s < p,
            ;
        } else {
            assert(s % 2 == 1);
            assert(s * d == q * p) by (nonlinear_arith)
                requires
                    d * s == q * p,
            ;
            lemma_odd_factor(s, d, q, p);
            let c = choose|c: int| #[trigger] (c * p) == d;
            assert(false) by (nonlinear_arith)
                requires
                    d == c * p,
                    0 < d < p,
            ;
        }
    }
}

/// The first `cap` probe steps from `start` visit `cap` distinct indices.
pub proof fn lemma_probe_distinct(start: int, cap: nat, a: nat, b: nat)
    requires
        is_power_of_two(cap),
        a < cap,
        b < cap,
        probe_index(start, cap, a) == probe_index(start, cap, b),
    ensures
        a == b,
{
    if a != b {
        let (hi, lo) = if a > b { (a, b) } else { (b, a) };
        let m = cap as int;
        lemma_fundamental_div_mod(start + triangle(hi), m);
        lemma_fundamental_div_mod(start + triangle(lo), m);
        let qh = (start + triangle(hi)) / m;
        let ql = (start + triangle(lo)) / m;
        assert(triangle(hi) - triangle(lo) == (qh - ql) * m) by (nonlinear_arith)
            requires
                start + triangle(hi) == m * qh + probe_index(start, cap, hi),
                start + triangle(lo) == m * ql + probe_index(start, cap, lo),
                probe_index(start, cap, hi) == probe_index(start, cap, lo),
        ;
        lemma_triangle_gap(cap, hi, lo, qh - ql);
    }
}

/// One probe step: adding `x` to the index of step `x - 1` gives the index of step `x`.
pub proof fn lemma_probe_step(start: int, cap: nat, x: nat)
    requires
        cap > 0,
        x > 0,
    ensures
        (probe_index(start, cap, (x - 1) as nat) + x) % (cap as int) == probe_index(start, cap, x),
{
    let m = cap as int;
    lemma_add_mod_noop_right(x as int, start + triangle((x - 1) as nat), m);
}

/// Where the first `cap` probe steps from `start` all land in `s`, `s` has at least
/// `cap` members.
pub proof fn lemma_probe_covers(start: int, cap: nat, s: Set<int>)
    requires
        is_power_of_two(cap),
        s.finite(),
        forall|y: nat| y < cap ==> s.contains(#[trigger] probe_index(start, cap, y)),
    ensures
        s.len() >= cap,
{
    let steps = set_int_range(0, cap as int);
    let f = |y: int| probe_index(start, cap, y as nat);
    lemma_int_range(0, cap as int);
    assert(injective_on(f, steps)) by {
        assert forall|a: int, b: int| steps.contains(a) && steps.contains(b) && #[trigger] f(a) == #[trigger] f(b) implies a == b by {
            lemma_probe_distinct(start, cap, a as nat, b as nat);
        }
    }
    lemma_map_size(steps, steps.map(f), f);
    assert(steps.map(f).subset_of(s)) by {
        assert forall|v: int| steps.map(f).contains(v) implies s.contains(v) by {
            let y = choose|y: int| steps.contains(y) && f(y) == v;
            assert(s.contains(probe_index(start, cap, y as nat)));
        }
    }
    lemma_len_subset(steps.map(f), s);
}

} // verus!
