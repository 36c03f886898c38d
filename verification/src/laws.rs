//! Global properties of the tracker, stated over the spec-level run model.
//!
//! `run_from` folds `step_state` over a sample sequence; since `next`'s
//! contract pins each update to exactly one `step_state` application, these
//! lemmas describe every reachable tracker.  The central one,
//! `lemma_window_minimum`, states that after every update the reported value
//! is a smallest member of the current window.

use vstd::prelude::*;

use vstd::arithmetic::div_mod::lemma_fundamental_div_mod;
use vstd::arithmetic::div_mod::lemma_mod_division_less_than_divisor;
use vstd::arithmetic::div_mod::lemma_mod_equivalence;
use vstd::arithmetic::div_mod::lemma_mod_multiples_vanish;
use vstd::arithmetic::div_mod::lemma_mod_sub_multiples_vanish;
use vstd::arithmetic::div_mod::lemma_small_mod;

use crate::minimum::Minimum;
use crate::minimum::all_ge;
use crate::minimum::init_buf;
use crate::minimum::is_first_real;
use crate::minimum::is_scan_choice;
use crate::minimum::lemma_first_real_unique;
use crate::minimum::lemma_scan_choice_exists;
use crate::minimum::scan_min_index;
use crate::minimum::step_state;
use crate::sample::INF_BITS;
use crate::sample::is_nan;
use crate::sample::lemma_inf_not_nan;
use crate::sample::lemma_inf_top;
use crate::sample::lemma_lt_irrefl;
use crate::sample::lemma_lt_trans;
use crate::sample::lt_bits;

verus! {

/// No entry of `xs` is a NaN.
pub open spec fn nan_free(xs: Seq<u64>) -> bool {
    forall|i: int| 0 <= i < xs.len() ==> !is_nan(#[trigger] xs[i])
}

/// The tracker state after feeding `xs`, one sample at a time, to a tracker
/// whose state was `(b, m, c)`.
pub open spec fn run_from(b: Seq<u64>, m: int, c: int, xs: Seq<u64>) -> (Seq<u64>, int, int)
    decreases xs.len(),
{
    if xs.len() == 0 {
        (b, m, c)
    } else {
        let (b1, m1, c1) = run_from(b, m, c, xs.drop_last());
        step_state(b1, m1, c1, xs.last())
    }
}

/// The value reported after feeding `xs` from state `(b, m, c)`.
pub open spec fn out_from(b: Seq<u64>, m: int, c: int, xs: Seq<u64>) -> u64 {
    let (b1, m1, c1) = run_from(b, m, c, xs);
    b1[m1]
}

/// The tracker state after feeding `xs` to a freshly built tracker of
/// window length `len`.
pub open spec fn run_result(len: int, xs: Seq<u64>) -> (Seq<u64>, int, int) {
    run_from(init_buf(len), 0, 0, xs)
}

/// The value reported after feeding `xs` to a freshly built tracker.
pub open spec fn run_out(len: int, xs: Seq<u64>) -> u64 {
    out_from(init_buf(len), 0, 0, xs)
}

/// The first stream index whose sample is still inside the window right
/// after sample `n - 1` arrived.
pub open spec fn win_lo(len: int, n: int) -> int {
    if n - len >= 0 {
        n - len
    } else {
        0
    }
}

/// The samples of `xs` inside the window right after sample `k` arrived:
/// the last `len` samples, or all of them while fewer have been seen.
pub open spec fn window(len: int, xs: Seq<u64>, k: int) -> Seq<u64> {
    xs.subrange(win_lo(len, k + 1), k + 1)
}

/// The stream index of the most recent sample written to slot `i`, once
/// `n` samples have been fed to a window of length `len`.
pub open spec fn last_idx(len: int, n: int, i: int) -> int {
    n - 1 - ((n - 1 - i) % len)
}

/// `last_idx` lands on a stream index of slot `i`'s residue class, within
/// the last `len` stream indices.
proof fn lemma_last_idx_mod(len: int, n: int, i: int)
    requires
        1 <= len,
        0 <= i < len,
        i < n,
    ensures
        last_idx(len, n, i) % len == i,
        n - len <= last_idx(len, n, i) <= n - 1,
{
    let a = n - 1 - i;
    lemma_mod_division_less_than_divisor(a, len);
    lemma_fundamental_div_mod(a, len);
    let q = a / len;
    let j = last_idx(len, n, i);
    assert(j == i + len * q);
    lemma_mod_multiples_vanish(q, i, len);
    lemma_small_mod(i as nat, len as nat);
}

/// The buffer-geometry half of the reachable-state invariant: the buffer
/// spans the window, the cursor counts the samples modulo the length, slots
/// never yet written hold the sentinel, slot `j % len` holds sample `j` for
/// every stream index `j` still in the window (and conversely every written
/// slot holds its residue class's most recent sample), and no NaN-free
/// stream ever puts a NaN in the buffer.
pub open spec fn buf_inv(len: int, p: Seq<u64>, b: Seq<u64>, c: int) -> bool {
    let n = p.len() as int;
    &&& b.len() == len
    &&& 0 <= c < len
    &&& c == n % len
    &&& (forall|i: int| n <= i < len ==> #[trigger] b[i] == INF_BITS)
    &&& (forall|j: int| win_lo(len, n) <= j < n ==> b[j % len] == #[trigger] p[j])
    &&& (forall|i: int|
        #![trigger b[i]]
        #![trigger last_idx(len, n, i)]
        0 <= i < len && i < n ==> win_lo(len, n) <= last_idx(len, n, i) < n && p[last_idx(
            len,
            n,
            i,
        )] == b[i])
    &&& (forall|i: int| 0 <= i < len ==> !is_nan(#[trigger] b[i]))
}

/// The minimum-pointer half of the reachable-state invariant: the pointer is
/// in range and points at a written slot, nothing in the buffer is below its
/// value, and that value is a real one whenever the buffer holds any.
pub open spec fn min_inv(len: int, p: Seq<u64>, b: Seq<u64>, m: int) -> bool {
    let n = p.len() as int;
    &&& 0 <= m < len
    &&& all_ge(b, b[m])
    &&& (n == 0 ==> m == 0)
    &&& (1 <= n < len ==> m < n)
    &&& ((exists|i: int| 0 <= i < len && lt_bits(#[trigger] b[i], INF_BITS)) ==> lt_bits(
        b[m],
        INF_BITS,
    ))
}

/// Everything that holds of the tracker state `(b, m, c)` after feeding the
/// stream prefix `p` to a fresh tracker of window length `len`.
pub open spec fn tracker_inv(len: int, p: Seq<u64>, b: Seq<u64>, m: int, c: int) -> bool {
    &&& buf_inv(len, p, b, c)
    &&& min_inv(len, p, b, m)
}

/// The initial state satisfies the invariant.
proof fn lemma_init_inv(len: int)
    requires
        1 <= len,
    ensures
        tracker_inv(len, Seq::<u64>::empty(), init_buf(len), 0, 0),
{
    lemma_inf_not_nan();
    lemma_lt_irrefl(INF_BITS);
    lemma_small_mod(0nat, len as nat);
}

/// One update preserves the buffer-geometry invariant.
#[verifier::rlimit(100)]
#[verifier::spinoff_prover]
proof fn lemma_step_buf(len: int, p: Seq<u64>, b: Seq<u64>, c: int, x: u64)
    requires
        1 <= len,
        !is_nan(x),
        buf_inv(len, p, b, c),
    ensures
        buf_inv(
            len,
            p.push(x),
            b.update(c, x),
            if c + 1 < len {
                c + 1
            } else {
                0
            },
        ),
{
    let n0 = p.len() as int;
    let n = n0 + 1;
    let p2 = p.push(x);
    let b2 = b.update(c, x);

    // Cursor: the advanced cursor is n % len.
    let q = n0 / len;
    lemma_fundamental_div_mod(n0, len);
    if c + 1 < len {
        lemma_mod_multiples_vanish(q, c + 1, len);
        lemma_small_mod((c + 1) as nat, len as nat);
        assert(n == len * q + (c + 1));
        assert(n % len == c + 1);
    } else {
        assert(len * (q + 1) == len * q + len) by (nonlinear_arith);
        lemma_mod_multiples_vanish(q + 1, 0, len);
        lemma_small_mod(0nat, len as nat);
        assert(n == len * (q + 1) + 0);
        assert(n % len == 0);
    }

    // Slots never yet written still hold the sentinel.
    assert forall|i: int| n <= i < len implies #[trigger] b2[i] == INF_BITS by {
        lemma_small_mod(n0 as nat, len as nat);
        assert(c == n0);
        assert(b[i] == INF_BITS);
    }

    // Every in-window stream index is present at its slot.
    assert forall|j: int| win_lo(len, n) <= j < n implies b2[j % len] == #[trigger] p2[j] by {
        lemma_mod_division_less_than_divisor(j, len);
        if j == n0 {
            assert(b2[c] == x);
        } else {
            if j % len == c {
                lemma_mod_equivalence(n0, j, len);
                lemma_small_mod((n0 - j) as nat, len as nat);
                assert(false);
            }
            assert(win_lo(len, n0) <= j < n0);
            assert(b[j % len] == p[j]);
        }
    }

    // Conversely, every written slot holds some in-window sample.
    assert forall|i: int|
        #![trigger b2[i]]
        #![trigger last_idx(len, n, i)]
        0 <= i < len && i < n implies win_lo(len, n) <= last_idx(len, n, i) < n && p2[last_idx(
        len,
        n,
        i,
    )] == b2[i] by {
        lemma_last_idx_mod(len, n, i);
        let j = last_idx(len, n, i);
        if i == c {
            // The slot just written: its latest stream index is the new one.
            lemma_mod_equivalence(n0, j, len);
            if j < n0 {
                lemma_small_mod((n0 - j) as nat, len as nat);
            }
            assert(j == n0);
            assert(p2[j] == x && b2[i] == x);
        } else {
            assert(j != n0);
            assert(j < n0);
            assert(i != n0 % len);
            if i >= n0 {
                lemma_small_mod(n0 as nat, len as nat);
                assert(false);
            }
            assert(b2[i] == b[i]);
            assert(0 <= i < len && i < p.len());
            assert(win_lo(len, n0) <= last_idx(len, n0, i) < n0 && p[last_idx(len, n0, i)]
                == b[i]);
            let j0 = last_idx(len, n0, i);
            lemma_last_idx_mod(len, n0, i);
            if j > j0 {
                lemma_mod_equivalence(j, j0, len);
                lemma_small_mod((j - j0) as nat, len as nat);
            }
            if j < j0 {
                lemma_mod_equivalence(j0, j, len);
                lemma_small_mod((j0 - j) as nat, len as nat);
            }
            assert(j == j0);
            if j0 == n0 - len {
                lemma_mod_sub_multiples_vanish(n0, len);
                assert(false);
            }
            assert(p2[j] == p[j0]);
        }
    }

    // No NaN ever sits in the buffer.
    assert forall|i: int| 0 <= i < len implies !is_nan(#[trigger] b2[i]) by {
        if i != c {
            assert(!is_nan(b[i]));
        }
    }
}

/// One update preserves the minimum-pointer invariant.
#[verifier::rlimit(100)]
#[verifier::spinoff_prover]
proof fn lemma_step_min(len: int, p: Seq<u64>, b: Seq<u64>, m: int, c: int, x: u64)
    requires
        1 <= len,
        !is_nan(x),
        buf_inv(len, p, b, c),
        min_inv(len, p, b, m),
        buf_inv(
            len,
            p.push(x),
            b.update(c, x),
            if c + 1 < len {
                c + 1
            } else {
                0
            },
        ),
    ensures
        min_inv(len, p.push(x), b.update(c, x), step_state(b, m, c, x).1),
{
    let n0 = p.len() as int;
    let n = n0 + 1;
    let b2 = b.update(c, x);
    let m2 = step_state(b, m, c, x).1;

    if lt_bits(x, b2[m]) {
        assert(m != c) by {
            if m == c {
                lemma_lt_irrefl(x);
            }
        }
        assert(m2 == c);
        assert forall|i: int| 0 <= i < b2.len() implies !lt_bits(#[trigger] b2[i], b2[m2]) by {
            if i == c {
                lemma_lt_irrefl(x);
            } else {
                if lt_bits(b2[i], x) {
                    lemma_lt_trans(b2[i], x, b[m]);
                    assert(!lt_bits(b[i], b[m]));
                }
            }
        }
        assert(lt_bits(x, INF_BITS)) by {
            if !lt_bits(b[m], INF_BITS) {
                lemma_inf_top(b[m]);
            } else {
                lemma_lt_trans(x, b[m], INF_BITS);
            }
        }
        if n < len {
            lemma_small_mod(n0 as nat, len as nat);
            assert(m2 < n);
        }
    } else if m == c {
        assert(m2 == scan_min_index(b2));
        if exists|i: int| 0 <= i < b2.len() && lt_bits(b2[i], INF_BITS) {
            lemma_scan_choice_exists(b2);
            assert(is_scan_choice(b2, scan_min_index(b2)));
            assert(lt_bits(b2[m2], INF_BITS));
            if n <= m2 < len {
                assert(b2[m2] == INF_BITS);
                lemma_lt_irrefl(INF_BITS);
                assert(false);
            }
        } else {
            assert(forall|k: int| !is_scan_choice(b2, k));
            assert(is_first_real(b2, 0));
            let fr = choose|k: int| is_first_real(b2, k);
            lemma_first_real_unique(b2, 0, fr);
            assert(m2 == 0);
            assert(!lt_bits(b2[0], INF_BITS));
            lemma_inf_top(b2[0]);
            assert forall|i: int| 0 <= i < b2.len() implies !lt_bits(#[trigger] b2[i], b2[m2]) by {
                assert(!lt_bits(b2[i], INF_BITS));
            }
        }
    } else {
        assert(m2 == m);
        assert(b2[m] == b[m]);
        assert forall|i: int| 0 <= i < b2.len() implies !lt_bits(#[trigger] b2[i], b2[m2]) by {
            if i != c {
                assert(!lt_bits(b[i], b[m]));
            }
        }
        if exists|i: int| 0 <= i < len && lt_bits(#[trigger] b2[i], INF_BITS) {
            if exists|i: int| 0 <= i < len && lt_bits(#[trigger] b[i], INF_BITS) {
                assert(lt_bits(b[m], INF_BITS));
            } else {
                let iw = choose|i: int| 0 <= i < len && lt_bits(#[trigger] b2[i], INF_BITS);
                assert(iw == c);
                lemma_inf_top(b[m]);
                assert(lt_bits(x, b2[m]));
                assert(false);
            }
        }
        if 1 <= n < len {
            assert(n0 < len);
            assert(m < n);
        }
    }
}

/// One `step_state` application preserves the invariant when the new sample
/// is not a NaN.
proof fn lemma_step_preserves(len: int, p: Seq<u64>, b: Seq<u64>, m: int, c: int, x: u64)
    requires
        1 <= len,
        !is_nan(x),
        tracker_inv(len, p, b, m, c),
    ensures
        ({
            let (b2, m2, c2) = step_state(b, m, c, x);
            tracker_inv(len, p.push(x), b2, m2, c2)
        }),
{
    lemma_step_buf(len, p, b, c, x);
    lemma_step_min(len, p, b, m, c, x);
}

/// The invariant holds of every reachable state of a fresh tracker fed a
/// NaN-free stream.
#[verifier::rlimit(60)]
#[verifier::spinoff_prover]
pub proof fn lemma_run_invariant(len: int, p: Seq<u64>)
    requires
        1 <= len,
        nan_free(p),
    ensures
        ({
            let (b, m, c) = run_result(len, p);
            tracker_inv(len, p, b, m, c)
        }),
    decreases p.len(),
{
    if p.len() == 0 {
        assert(p =~= Seq::<u64>::empty());
        lemma_init_inv(len);
    } else {
        let p0 = p.drop_last();
        assert(nan_free(p0)) by {
            assert forall|i: int| 0 <= i < p0.len() implies !is_nan(#[trigger] p0[i]) by {
                assert(p0[i] == p[i]);
            }
        }
        lemma_run_invariant(len, p0);
        let (b0, m0, c0) = run_result(len, p0);
        lemma_step_preserves(len, p0, b0, m0, c0, p.last());
        assert(p0.push(p.last()) =~= p);
    }
}

/// After every update of a fresh tracker fed a NaN-free stream, the
/// reported value is a member of the current window, nothing in the window
/// is below it, and it is a real value whenever the window holds one: the
/// tracker reports exactly the minimum of the most recent samples.
pub proof fn lemma_window_minimum(len: int, xs: Seq<u64>, k: int)
    requires
        1 <= len,
        nan_free(xs),
        0 <= k < xs.len(),
    ensures
        ({
            let w = window(len, xs, k);
            let r = run_out(len, xs.take(k + 1));
            &&& exists|j: int| 0 <= j < w.len() && #[trigger] w[j] == r
            &&& forall|j: int| 0 <= j < w.len() ==> !lt_bits(#[trigger] w[j], r)
            &&& ((exists|j: int| 0 <= j < w.len() && lt_bits(#[trigger] w[j], INF_BITS))
                ==> lt_bits(r, INF_BITS))
        }),
{
    let p = xs.take(k + 1);
    let n = k + 1;
    assert(nan_free(p)) by {
        assert forall|i: int| 0 <= i < p.len() implies !is_nan(#[trigger] p[i]) by {
            assert(p[i] == xs[i]);
        }
    }
    lemma_run_invariant(len, p);
    let (b, m, c) = run_result(len, p);
    let r = run_out(len, p);
    assert(r == b[m]);
    let lo = win_lo(len, n);
    let w = window(len, xs, k);
    assert(w.len() == n - lo);

    // Membership: the minimum slot holds some in-window sample.
    assert(m < n);
    assert(win_lo(len, n) <= last_idx(len, n, m) < n && p[last_idx(len, n, m)] == b[m]);
    let jm = last_idx(len, n, m);
    assert(w[jm - lo] == xs[jm] == p[jm] == r);

    // Minimality and reality: every window sample sits in the buffer.
    assert forall|j: int| 0 <= j < w.len() implies !lt_bits(#[trigger] w[j], r) by {
        lemma_mod_division_less_than_divisor(lo + j, len);
        assert(b[(lo + j) % len] == p[lo + j]);
        assert(w[j] == p[lo + j]);
        assert(!lt_bits(b[(lo + j) % len], b[m]));
    }
    if exists|j: int| 0 <= j < w.len() && lt_bits(#[trigger] w[j], INF_BITS) {
        let jw = choose|j: int| 0 <= j < w.len() && lt_bits(#[trigger] w[j], INF_BITS);
        lemma_mod_division_less_than_divisor(lo + jw, len);
        assert(b[(lo + jw) % len] == p[lo + jw]);
        assert(w[jw] == p[lo + jw]);
        assert(lt_bits(b[(lo + jw) % len], INF_BITS));
        assert(lt_bits(r, INF_BITS));
    }
}

/// Feeding a sequence extended by one sample runs the old sequence first
/// and then applies one `step_state`; this is how `next`'s contract chains
/// into the run model.
pub proof fn lemma_run_from_snoc(b: Seq<u64>, m: int, c: int, xs: Seq<u64>, x: u64)
    ensures
        run_from(b, m, c, xs.push(x)) == ({
            let (b1, m1, c1) = run_from(b, m, c, xs);
            step_state(b1, m1, c1, x)
        }),
{
    assert(xs.push(x).drop_last() =~= xs);
    assert(xs.push(x).last() == x);
}

/// After `reset`, whose contract pins the state to all sentinels with both
/// indices at slot 0, feeding any sample sequence yields exactly the states
/// and outputs of a tracker freshly built with the same window length:
/// reset replays like construction.
pub proof fn lemma_reset_replay(t: Minimum, xs: Seq<u64>)
    requires
        t.buf() == init_buf(t.window_len()),
        t.min_slot() == 0,
        t.cursor() == 0,
    ensures
        run_from(t.buf(), t.min_slot(), t.cursor(), xs) == run_result(t.window_len(), xs),
        out_from(t.buf(), t.min_slot(), t.cursor(), xs) == run_out(t.window_len(), xs),
{
}

/// A tracker built by `Default` (whose contract pins the state to a fresh
/// window of length 14) behaves identically to one built by `new(14)`: from
/// their equal starting states, every sample sequence yields equal states
/// and outputs.
pub proof fn lemma_default_matches_new(d: Minimum, t: Minimum, xs: Seq<u64>)
    requires
        d.window_len() == 14,
        d.buf() == init_buf(14),
        d.min_slot() == 0,
        d.cursor() == 0,
        t.window_len() == 14,
        t.buf() == init_buf(14),
        t.min_slot() == 0,
        t.cursor() == 0,
    ensures
        d.window_len() == t.window_len(),
        run_from(d.buf(), d.min_slot(), d.cursor(), xs) == run_from(
            t.buf(),
            t.min_slot(),
            t.cursor(),
            xs,
        ),
        out_from(d.buf(), d.min_slot(), d.cursor(), xs) == out_from(
            t.buf(),
            t.min_slot(),
            t.cursor(),
            xs,
        ),
{
}

/// When several slots hold the numerically smallest value, a rescan selects
/// the lowest such slot index.
pub proof fn lemma_scan_tie_lowest(s: Seq<u64>, i: int, j: int)
    requires
        is_scan_choice(s, i),
        0 <= j < s.len(),
        j != i,
        !is_nan(s[j]),
        !lt_bits(s[i], s[j]),
        !lt_bits(s[j], s[i]),
    ensures
        i < j,
{
    if j < i {
        assert(is_nan(s[j]) || lt_bits(s[i], s[j]));
    }
}

} // verus!
