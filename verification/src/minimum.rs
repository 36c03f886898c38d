//! The sliding-window minimum tracker.
//!
//! A fixed number of slots holds the most recent samples in a circular
//! buffer; `min_index` points at a slot whose value nothing in the buffer is
//! below.  Each update overwrites the oldest slot and either adopts the new
//! sample as minimum (strictly smaller than the incumbent), rescans the whole
//! buffer (the incumbent's slot was just overwritten), or keeps the incumbent.

use vstd::prelude::*;

use crate::errors::Error;
use crate::errors::ErrorKind;
use crate::sample::INF_BITS;
use crate::sample::Sample;
use crate::sample::is_nan;
use crate::sample::val_is_nan;
use crate::sample::lemma_inf_top;
use crate::sample::lemma_lt_irrefl;
use crate::sample::lemma_lt_le_trans;
use crate::sample::lemma_lt_trans;
use crate::sample::lt_bits;
use crate::sample::val_lt;
use crate::text::dec_digits;
use crate::text::push_decimal;
use crate::traits::Low;

verus! {

/// The diagnostic label of a tracker: `MIN(` followed by the decimal window
/// length and `)`.
pub open spec fn render_label(len: int) -> Seq<char> {
    seq!['M', 'I', 'N', '('] + dec_digits(len) + seq![')']
}

/// Nothing in `s` is strictly below `v`.
pub open spec fn all_ge(s: Seq<u64>, v: u64) -> bool {
    forall|j: int| 0 <= j < s.len() ==> !lt_bits(s[j], v)
}

/// `i` is the slot a full rescan selects: a slot strictly below the
/// sentinel, with nothing in the buffer below it, and strictly below every
/// non-NaN slot at a smaller index (ties go to the lowest index, and a NaN
/// is never selected).
pub open spec fn is_scan_choice(s: Seq<u64>, i: int) -> bool {
    &&& 0 <= i < s.len()
    &&& lt_bits(s[i], INF_BITS)
    &&& all_ge(s, s[i])
    &&& forall|j: int| 0 <= j < i ==> is_nan(s[j]) || lt_bits(s[i], s[j])
}

/// `i` is the lowest slot holding a non-NaN value.
pub open spec fn is_first_real(s: Seq<u64>, i: int) -> bool {
    &&& 0 <= i < s.len()
    &&& !is_nan(s[i])
    &&& forall|j: int| 0 <= j < i ==> is_nan(s[j])
}

/// The slot a full rescan of `s` selects.  Normally the `is_scan_choice`
/// slot; when no slot is strictly below the sentinel, the lowest non-NaN
/// slot, so that the rescan reports the sentinel itself rather than a NaN.
/// Only a buffer in which every slot holds a NaN leaves nothing valid to
/// point at; slot 0 is kept then, a documented degenerate choice (the
/// minimum of an all-NaN window is undefined, since the pointer must point
/// somewhere).
pub open spec fn scan_min_index(s: Seq<u64>) -> int {
    if exists|i: int| is_scan_choice(s, i) {
        choose|i: int| is_scan_choice(s, i)
    } else if exists|i: int| is_first_real(s, i) {
        choose|i: int| is_first_real(s, i)
    } else {
        0
    }
}

/// At most one slot satisfies `is_scan_choice`.
pub proof fn lemma_scan_choice_unique(s: Seq<u64>, i: int, j: int)
    requires
        is_scan_choice(s, i),
        is_scan_choice(s, j),
    ensures
        i == j,
{
    if i < j {
        assert(is_nan(s[i]) || lt_bits(s[j], s[i]));
        assert(!lt_bits(s[j], s[i]));
    }
    if j < i {
        assert(is_nan(s[j]) || lt_bits(s[i], s[j]));
        assert(!lt_bits(s[i], s[j]));
    }
}

/// At most one slot satisfies `is_first_real`.
pub proof fn lemma_first_real_unique(s: Seq<u64>, i: int, j: int)
    requires
        is_first_real(s, i),
        is_first_real(s, j),
    ensures
        i == j,
{
    if i < j {
        assert(is_nan(s[i]));
    }
    if j < i {
        assert(is_nan(s[j]));
    }
}

/// If any slot is strictly below the sentinel, some slot satisfies
/// `is_scan_choice`.
pub proof fn lemma_scan_choice_exists(s: Seq<u64>)
    requires
        exists|i: int| 0 <= i < s.len() && lt_bits(s[i], INF_BITS),
    ensures
        exists|i: int| is_scan_choice(s, i),
    decreases s.len(),
{
    let n = s.len() as int;
    let s0 = s.drop_last();
    let last = s.last();
    if exists|i: int| 0 <= i < n - 1 && lt_bits(s[i], INF_BITS) {
        assert(exists|i: int| 0 <= i < s0.len() && lt_bits(s0[i], INF_BITS)) by {
            let w = choose|i: int| 0 <= i < n - 1 && lt_bits(s[i], INF_BITS);
            assert(0 <= w < s0.len() && lt_bits(s0[w], INF_BITS));
        }
        lemma_scan_choice_exists(s0);
        let i0 = choose|i: int| is_scan_choice(s0, i);
        assert(is_scan_choice(s0, i0));
        assert(s[i0] == s0[i0]);
        if lt_bits(last, s0[i0]) {
            lemma_lt_trans(last, s0[i0], INF_BITS);
            assert forall|j: int| 0 <= j < n implies !lt_bits(s[j], last) by {
                if j < n - 1 {
                    if lt_bits(s[j], last) {
                        lemma_lt_trans(s[j], last, s0[i0]);
                        assert(!lt_bits(s0[j], s0[i0]));
                    }
                } else {
                    lemma_lt_irrefl(last);
                }
            }
            assert forall|j: int| 0 <= j < n - 1 implies is_nan(s[j]) || lt_bits(last, s[j]) by {
                if !is_nan(s[j]) {
                    assert(!lt_bits(s0[j], s0[i0]));
                    lemma_lt_le_trans(last, s0[i0], s[j]);
                }
            }
            assert(is_scan_choice(s, n - 1));
        } else {
            assert forall|j: int| 0 <= j < n implies !lt_bits(s[j], s[i0]) by {
                if j < n - 1 {
                    assert(!lt_bits(s0[j], s0[i0]));
                }
            }
            assert forall|j: int| 0 <= j < i0 implies is_nan(s[j]) || lt_bits(s[i0], s[j]) by {
                assert(is_nan(s0[j]) || lt_bits(s0[i0], s0[j]));
            }
            assert(is_scan_choice(s, i0));
        }
    } else {
        assert(lt_bits(last, INF_BITS)) by {
            let w = choose|i: int| 0 <= i < n && lt_bits(s[i], INF_BITS);
            assert(w == n - 1);
        }
        assert forall|j: int| 0 <= j < n implies !lt_bits(s[j], last) by {
            if j < n - 1 {
                if lt_bits(s[j], last) {
                    lemma_lt_trans(s[j], last, INF_BITS);
                }
            } else {
                lemma_lt_irrefl(last);
            }
        }
        assert forall|j: int| 0 <= j < n - 1 implies is_nan(s[j]) || lt_bits(last, s[j]) by {
            if !is_nan(s[j]) {
                lemma_inf_top(s[j]);
            }
        }
        assert(is_scan_choice(s, n - 1));
    }
}

/// The buffer contents right after construction or reset: every slot holds
/// the sentinel.
pub open spec fn init_buf(len: int) -> Seq<u64> {
    Seq::new(len as nat, |i: int| INF_BITS)
}

/// One update of the tracker state `(buffer, min_index, cursor)` with the
/// sample bits `x`: the cursor's slot is overwritten, the minimum pointer
/// moves to the cursor when the new sample is strictly smaller than the
/// incumbent, is recomputed by a full rescan when the incumbent's slot was
/// just overwritten, and stays put otherwise; the cursor then advances by
/// one, wrapping at the window length.
pub open spec fn step_state(buf: Seq<u64>, mi: int, cur: int, x: u64) -> (Seq<u64>, int, int) {
    let b2 = buf.update(cur, x);
    let m2 = if lt_bits(x, b2[mi]) {
        cur
    } else if mi == cur {
        scan_min_index(b2)
    } else {
        mi
    };
    let c2 = if cur + 1 < buf.len() {
        cur + 1
    } else {
        0
    };
    (b2, m2, c2)
}

/// Returns the lowest value observed over the most recent `length` samples.
#[derive(Clone, Debug)]
pub struct Minimum {
    length: usize,
    vec: Vec<u64>,
    min_index: usize,
    cur_index: usize,
}

impl Minimum {
    /// The fixed window length.
    pub closed spec fn window_len(&self) -> int {
        self.length as int
    }

    /// The buffer contents, as sample bits.
    pub closed spec fn buf(&self) -> Seq<u64> {
        self.vec@
    }

    /// The slot believed to hold the window minimum.
    pub closed spec fn min_slot(&self) -> int {
        self.min_index as int
    }

    /// The slot the next sample will overwrite.
    pub closed spec fn cursor(&self) -> int {
        self.cur_index as int
    }

    /// Well-formedness: the buffer spans exactly the window, both indices
    /// are in range, and nothing in the buffer is below the incumbent
    /// minimum's slot.
    pub open spec fn wf(&self) -> bool {
        &&& 1 <= self.window_len()
        &&& self.buf().len() == self.window_len()
        &&& 0 <= self.min_slot() < self.window_len()
        &&& 0 <= self.cursor() < self.window_len()
        &&& all_ge(self.buf(), self.buf()[self.min_slot()])
    }

    /// Builds a tracker spanning `length` samples; a zero length is
    /// rejected with `InvalidParameter`.
    pub fn new(length: u32) -> (r: Result<Minimum, Error>)
        ensures
            r is Ok <==> length >= 1,
            r matches Ok(t) ==> t.wf() && t.window_len() == length && t.buf() == init_buf(
                length as int,
            ) && t.min_slot() == 0 && t.cursor() == 0,
            r matches Err(e) ==> e.kind == ErrorKind::InvalidParameter,
    {
        if length == 0 {
            return Err(Error::from_kind(ErrorKind::InvalidParameter));
        }
        let len: usize = length as usize;
        let mut vec: Vec<u64> = Vec::new();
        let mut i: usize = 0;
        while i < len
            invariant
                i <= len,
                vec@.len() == i,
                forall|j: int| 0 <= j < i ==> vec@[j] == INF_BITS,
            decreases len - i,
        {
            vec.push(INF_BITS);
            i = i + 1;
        }
        let t = Minimum { length: len, vec, min_index: 0, cur_index: 0 };
        proof {
            assert(t.buf() =~= init_buf(length as int));
            lemma_lt_irrefl(INF_BITS);
        }
        Ok(t)
    }

    /// Rescans every slot for the smallest value, ties to the lowest index,
    /// never selecting a NaN: when nothing is below the sentinel, the lowest
    /// non-NaN slot is selected, so that the sentinel is reported; only when
    /// every slot holds a NaN does the degenerate slot 0 remain.
    fn find_min_index(&self) -> (r: usize)
        requires
            1 <= self.window_len(),
            self.buf().len() == self.window_len(),
        ensures
            r as int == scan_min_index(self.buf()),
            r < self.window_len(),
    {
        let n = self.length;
        let mut min_val: u64 = INF_BITS;
        let mut index: usize = 0;
        let mut updated: bool = false;
        let mut real_index: usize = 0;
        let mut real_found: bool = false;
        let mut i: usize = 0;
        while i < n
            invariant
                n == self.window_len(),
                1 <= n,
                self.buf().len() == n,
                i <= n,
                index < n,
                real_index < n,
                forall|j: int| 0 <= j < i ==> !lt_bits(self.buf()[j], min_val),
                forall|j: int|
                    0 <= j < index ==> is_nan(self.buf()[j]) || lt_bits(min_val, self.buf()[j]),
                updated <==> exists|j: int| 0 <= j < i && lt_bits(self.buf()[j], INF_BITS),
                updated ==> lt_bits(min_val, INF_BITS) && index < i && self.buf()[index as int]
                    == min_val,
                !updated ==> min_val == INF_BITS && index == 0,
                real_found ==> real_index < i && !is_nan(self.buf()[real_index as int]) && forall|
                    j: int,
                | 0 <= j < real_index ==> is_nan(self.buf()[j]),
                !real_found ==> real_index == 0 && forall|j: int| 0 <= j < i ==> is_nan(
                    self.buf()[j],
                ),
            decreases n - i,
        {
            let v = self.vec[i];
            if !real_found && !val_is_nan(v) {
                real_index = i;
                real_found = true;
            }
            if val_lt(v, min_val) {
                proof {
                    let s = self.buf();
                    assert forall|j: int| 0 <= j < i + 1 implies !lt_bits(s[j], v) by {
                        if j < i {
                            if lt_bits(s[j], v) {
                                lemma_lt_trans(s[j], v, min_val);
                            }
                        } else {
                            lemma_lt_irrefl(v);
                        }
                    }
                    assert forall|j: int| 0 <= j < i implies is_nan(s[j]) || lt_bits(v, s[j]) by {
                        if !is_nan(s[j]) {
                            lemma_lt_le_trans(v, min_val, s[j]);
                        }
                    }
                    if updated {
                        lemma_lt_trans(v, min_val, INF_BITS);
                    }
                }
                min_val = v;
                index = i;
                updated = true;
            }
            i = i + 1;
        }
        if updated {
            proof {
                let s = self.buf();
                assert(is_scan_choice(s, index as int));
                let ii = choose|k: int| is_scan_choice(s, k);
                lemma_scan_choice_unique(s, index as int, ii);
            }
            index
        } else if real_found {
            proof {
                let s = self.buf();
                assert(forall|k: int| !is_scan_choice(s, k));
                assert(is_first_real(s, real_index as int));
                let ii = choose|k: int| is_first_real(s, k);
                lemma_first_real_unique(s, real_index as int, ii);
            }
            real_index
        } else {
            proof {
                let s = self.buf();
                assert(forall|k: int| !is_scan_choice(s, k));
                assert(forall|k: int| !is_first_real(s, k));
            }
            0
        }
    }

    /// Feeds one sample: overwrites the oldest slot, maintains the minimum
    /// pointer, advances the cursor, and returns the current window minimum
    /// (the state moves exactly as `step_state` describes).
    pub fn next(&mut self, input: Sample) -> (r: Sample)
        requires
            old(self).wf(),
        ensures
            final(self).wf(),
            final(self).window_len() == old(self).window_len(),
            (final(self).buf(), final(self).min_slot(), final(self).cursor()) == step_state(
                old(self).buf(),
                old(self).min_slot(),
                old(self).cursor(),
                input.bits,
            ),
            r.bits == final(self).buf()[final(self).min_slot()],
            all_ge(final(self).buf(), r.bits),
    {
        let ghost b0 = old(self).buf();
        let ghost m0 = old(self).min_slot();
        let ghost c0 = old(self).cursor();
        let x = input.bits;
        let c = self.cur_index;
        self.vec.set(c, x);
        let ghost b2 = self.buf();
        assert(b2 == b0.update(c0, x));
        if val_lt(x, self.vec[self.min_index]) {
            proof {
                assert(lt_bits(x, b2[m0]));
                if m0 == c0 {
                    lemma_lt_irrefl(x);
                }
                assert forall|j: int| 0 <= j < b2.len() implies !lt_bits(b2[j], x) by {
                    if j == c0 {
                        lemma_lt_irrefl(x);
                    } else {
                        if lt_bits(b2[j], x) {
                            lemma_lt_trans(b2[j], x, b0[m0]);
                        }
                    }
                }
            }
            self.min_index = c;
        } else if self.min_index == c {
            proof {
                if exists|i: int| 0 <= i < b2.len() && lt_bits(b2[i], INF_BITS) {
                    lemma_scan_choice_exists(b2);
                    assert(is_scan_choice(b2, scan_min_index(b2)));
                } else {
                    assert(forall|k: int| !is_scan_choice(b2, k));
                    if exists|k: int| is_first_real(b2, k) {
                        let fr = choose|k: int| is_first_real(b2, k);
                        assert(is_first_real(b2, fr));
                        assert(scan_min_index(b2) == fr);
                        lemma_inf_top(b2[fr]);
                        assert forall|j: int| 0 <= j < b2.len() implies !lt_bits(b2[j], b2[fr]) by {
                            assert(!lt_bits(b2[j], INF_BITS));
                        }
                    } else {
                        assert(scan_min_index(b2) == 0);
                        assert(!is_first_real(b2, 0));
                        assert(is_nan(b2[0]));
                    }
                }
            }
            self.min_index = self.find_min_index();
        } else {
            proof {
                assert forall|j: int| 0 <= j < b2.len() implies !lt_bits(b2[j], b2[m0]) by {
                    if j != c0 {
                        assert(!lt_bits(b0[j], b0[m0]));
                    }
                }
            }
        }
        self.cur_index = if c + 1 < self.length {
            c + 1
        } else {
            0
        };
        Sample { bits: self.vec[self.min_index] }
    }

    /// Feeds the record's lowest value, exactly as `next` would feed that
    /// value directly: the state steps on `input.low_spec()` and nothing
    /// else.
    pub fn next_low<T: Low>(&mut self, input: &T) -> (r: Sample)
        requires
            old(self).wf(),
        ensures
            final(self).wf(),
            final(self).window_len() == old(self).window_len(),
            (final(self).buf(), final(self).min_slot(), final(self).cursor()) == step_state(
                old(self).buf(),
                old(self).min_slot(),
                old(self).cursor(),
                input.low_spec().bits,
            ),
            r.bits == final(self).buf()[final(self).min_slot()],
            all_ge(final(self).buf(), r.bits),
    {
        let v = input.low();
        self.next(v)
    }

    /// Restores the construction-time state: every slot back to the
    /// sentinel, minimum pointer and cursor back to slot 0.
    pub fn reset(&mut self)
        requires
            old(self).wf(),
        ensures
            final(self).wf(),
            final(self).window_len() == old(self).window_len(),
            final(self).buf() == init_buf(old(self).window_len()),
            final(self).min_slot() == 0,
            final(self).cursor() == 0,
    {
        let n = self.length;
        let mut i: usize = 0;
        while i < n
            invariant
                n == self.window_len(),
                self.buf().len() == n,
                i <= n,
                forall|j: int| 0 <= j < i ==> self.buf()[j] == INF_BITS,
            decreases n - i,
        {
            self.vec.set(i, INF_BITS);
            i = i + 1;
        }
        self.min_index = 0;
        self.cur_index = 0;
        proof {
            assert(self.buf() =~= init_buf(self.window_len()));
            lemma_lt_irrefl(INF_BITS);
        }
    }

    /// The human-readable label `MIN(<length>)`.
    pub fn render(&self) -> (r: String)
        ensures
            r@ == render_label(self.window_len()),
    {
        let mut out = String::from_str("MIN(");
        proof {
            reveal_strlit("MIN(");
        }
        push_decimal(&mut out, self.length);
        out.append(")");
        proof {
            reveal_strlit(")");
            assert(out@ =~= render_label(self.window_len()));
        }
        out
    }

    /// The window length the tracker was built with.
    pub fn length(&self) -> (r: usize)
        ensures
            r as int == self.window_len(),
    {
        self.length
    }

    /// The slot currently believed to hold the window minimum.
    pub fn min_index(&self) -> (r: usize)
        ensures
            r as int == self.min_slot(),
    {
        self.min_index
    }

    /// The slot the next sample will overwrite.
    pub fn cur_index(&self) -> (r: usize)
        ensures
            r as int == self.cursor(),
    {
        self.cur_index
    }

    /// The buffer contents, as sample bits.
    pub fn buffer(&self) -> (r: &Vec<u64>)
        ensures
            r@ == self.buf(),
    {
        &self.vec
    }

    /// Rebuilds a tracker from a previously captured state, validating the
    /// well-formedness invariant; `None` exactly when the parts do not form
    /// a valid tracker state.
    pub fn from_parts(length: usize, buffer: Vec<u64>, min_index: usize, cur_index: usize) -> (r:
        Option<Minimum>)
        ensures
            r is Some <==> {
                &&& 1 <= length
                &&& buffer@.len() == length
                &&& min_index < length
                &&& cur_index < length
                &&& all_ge(buffer@, buffer@[min_index as int])
            },
            r matches Some(t) ==> t.wf() && t.window_len() == length && t.buf() == buffer@
                && t.min_slot() == min_index && t.cursor() == cur_index,
    {
        if length == 0 || buffer.len() != length || min_index >= length || cur_index >= length {
            return None;
        }
        let mv = buffer[min_index];
        let mut i: usize = 0;
        while i < length
            invariant
                length == buffer@.len(),
                min_index < length,
                mv == buffer@[min_index as int],
                i <= length,
                forall|j: int| 0 <= j < i ==> !lt_bits(buffer@[j], mv),
            decreases length - i,
        {
            if val_lt(buffer[i], mv) {
                return None;
            }
            i = i + 1;
        }
        Some(Minimum { length, vec: buffer, min_index, cur_index })
    }
}

impl Default for Minimum {
    /// A tracker with the conventional default window length of 14.
    fn default() -> (d: Minimum)
        ensures
            d.wf(),
            d.window_len() == 14,
            d.buf() == init_buf(14),
            d.min_slot() == 0,
            d.cursor() == 0,
    {
        Minimum::new(14).unwrap()
    }
}

} // verus!
