use vstd::prelude::*;
use crate::watch::{VideoWatch, RATIO_ONE};
use crate::bignat::BigNat;

verus! {

/// Watches shorter than this are noise (a misclick, a scroll past).
pub const QUALIFYING_MS: u32 = 7_000;

/// A session longer than this always calls for a break (20 minutes).
pub const HARD_LIMIT_MS: u64 = 1_200_000;

/// A low-attention session longer than this calls for a break (8 minutes).
pub const DOOMSCROLL_MS: u64 = 480_000;

/// Average attention below this (parts per million) counts as low.
pub const LOW_ATTENTION: u64 = 250_000;

/// Shortest break, at hour 0 (5 minutes).
pub const BASE_BREAK_MS: u64 = 300_000;

/// What a guardrail holds, as mathematical values: each qualifying watch as
/// its watched time and video length.
pub struct GuardrailsModel {
    pub attention: Seq<(u32, u32)>,
    pub session_ms: nat,
    pub hour: nat,
    pub override_ms: Option<u64>,
}

/// Tracks one viewing session and decides when a break is due.
pub struct Guardrails {
    watches: Vec<(u32, u32)>,
    ratio_sum_num: BigNat,
    ratio_sum_den: BigNat,
    session_ms: u64,
    current_hour: u8,
    parent_break_override_ms: Option<u64>,
}

impl View for Guardrails {
    type V = GuardrailsModel;

    closed spec fn view(&self) -> GuardrailsModel {
        GuardrailsModel {
            attention: self.watches@,
            session_ms: self.session_ms as nat,
            hour: self.current_hour as nat,
            override_ms: self.parent_break_override_ms,
        }
    }
}

/// Denominator of the sum of the attention ratios `watch / video` of `s`: the
/// product of the non-zero video lengths.
pub open spec fn ratio_den(s: Seq<(u32, u32)>) -> nat
    decreases s.len(),
{
    if s.len() == 0 {
        1
    } else {
        let v = s.last().1;
        ratio_den(s.drop_last()) * if v == 0 {
            1nat
        } else {
            v as nat
        }
    }
}

/// Numerator of the sum of the attention ratios of `s` over `ratio_den(s)`; a
/// video of length zero has ratio zero.
pub open spec fn ratio_num(s: Seq<(u32, u32)>) -> nat
    decreases s.len(),
{
    if s.len() == 0 {
        0
    } else {
        let (w, v) = s.last();
        if v == 0 {
            ratio_num(s.drop_last())
        } else {
            ratio_num(s.drop_last()) * (v as nat) + (w as nat) * ratio_den(s.drop_last())
        }
    }
}

/// The exact mean of the recorded ratios in parts per million, rounded down
/// once; a full ratio when none is recorded.
pub open spec fn average_attention_spec(m: GuardrailsModel) -> nat {
    let n = m.attention.len();
    if n == 0 {
        RATIO_ONE as nat
    } else {
        ((RATIO_ONE as nat) * ratio_num(m.attention) / (n * ratio_den(m.attention))) as nat
    }
}

/// Whether the exact mean of the recorded ratios is below a quarter.
pub open spec fn attention_low(m: GuardrailsModel) -> bool {
    m.attention.len() > 0 && 4 * ratio_num(m.attention) < m.attention.len() * ratio_den(
        m.attention,
    )
}

/// Five minutes, plus five minutes times hour / 24.
pub open spec fn hour_break_ms(hour: nat) -> nat {
    (BASE_BREAK_MS + BASE_BREAK_MS * hour / 24) as nat
}

pub open spec fn break_length_spec(m: GuardrailsModel) -> nat {
    match m.override_ms {
        Some(ms) => ms as nat,
        None => hour_break_ms(m.hour),
    }
}

pub open spec fn should_break_spec(m: GuardrailsModel) -> bool {
    m.session_ms > HARD_LIMIT_MS || (attention_low(m) && m.session_ms > DOOMSCROLL_MS)
}

/// Whether a watch of this length counts toward the session.
pub open spec fn qualifies(watch_ms: u32) -> bool {
    watch_ms >= QUALIFYING_MS
}

proof fn lemma_ratio_bound(s: Seq<(u32, u32)>)
    ensures
        ratio_den(s) >= 1,
        ratio_num(s) <= 0x1_0000_0000 * s.len() * ratio_den(s),
    decreases s.len(),
{
    if s.len() > 0 {
        let p = s.drop_last();
        lemma_ratio_bound(p);
        let (w, v) = s.last();
        let d = ratio_den(p);
        let x = ratio_num(p);
        let n = p.len();
        if v == 0 {
            assert(x <= 0x1_0000_0000 * (n + 1) * d) by (nonlinear_arith)
                requires x <= 0x1_0000_0000 * n * d, d >= 1;
        } else {
            assert(d * (v as nat) >= 1) by (nonlinear_arith)
                requires d >= 1, v >= 1;
            assert(x * (v as nat) + (w as nat) * d <= 0x1_0000_0000 * (n + 1) * (d * (v as nat)))
                by (nonlinear_arith)
                requires x <= 0x1_0000_0000 * n * d, d >= 1, v >= 1, w < 0x1_0000_0000;
        }
    }
}

impl Guardrails {
    pub closed spec fn wf(&self) -> bool {
        &&& self.ratio_sum_num@ == ratio_num(self.watches@)
        &&& self.ratio_sum_den@ == ratio_den(self.watches@)
    }

    /// A fresh session at the given hour of day (0 to 23), with no parent override.
    pub fn new(hour: u8) -> (g: Guardrails)
        requires
            hour < 24,
        ensures
            g.wf(),
            g@.attention.len() == 0,
            g@.session_ms == 0,
            g@.hour == hour,
            g@.override_ms.is_none(),
    {
        Guardrails {
            watches: Vec::new(),
            ratio_sum_num: BigNat::from_u32(0),
            ratio_sum_den: BigNat::from_u32(1),
            session_ms: 0,
            current_hour: hour,
            parent_break_override_ms: None,
        }
    }

    /// Sets (or clears) the break length, in milliseconds, that a parent imposes.
    pub fn set_parent_override(&mut self, ms: Option<u64>)
        requires
            old(self).wf(),
        ensures
            final(self).wf(),
            final(self)@ == (GuardrailsModel { override_ms: ms, ..old(self)@ }),
    {
        self.parent_break_override_ms = ms;
    }

    /// Counts a watch toward the session; a watch under seven seconds is ignored.
    pub fn record(&mut self, watch: &VideoWatch)
        requires
            old(self).wf(),
            qualifies(watch.watch_ms) ==> old(self)@.session_ms + watch.watch_ms <= u64::MAX,
        ensures
            final(self).wf(),
            qualifies(watch.watch_ms) ==> final(self)@ == (GuardrailsModel {
                attention: old(self)@.attention.push((watch.watch_ms, watch.video_ms)),
                session_ms: (old(self)@.session_ms + watch.watch_ms) as nat,
                ..old(self)@
            }),
            !qualifies(watch.watch_ms) ==> final(self)@ == old(self)@,
    {
        if watch.watch_ms < QUALIFYING_MS {
            return;
        }
        let ghost before = self.watches@;
        let w = watch.watch_ms;
        let v = watch.video_ms;
        let ghost num0 = self.ratio_sum_num@;
        let ghost den0 = self.ratio_sum_den@;
        if v != 0 {
            let scaled = self.ratio_sum_num.scale(v as u64);
            let part = self.ratio_sum_den.scale(w as u64);
            self.ratio_sum_num = scaled.add(&part);
            self.ratio_sum_den = self.ratio_sum_den.scale(v as u64);
        }
        self.watches.push((w, v));
        assert(self.watches@.drop_last() =~= before);
        assert(self.watches@.last() == (w, v));
        proof {
            if v != 0 {
                assert(self.ratio_sum_num@ == num0 * (v as nat) + den0 * (w as nat));
                assert(den0 * (w as nat) == (w as nat) * den0) by (nonlinear_arith);
                assert(self.ratio_sum_num@ == ratio_num(self.watches@));
                assert(self.ratio_sum_den@ == ratio_den(self.watches@));
            } else {
                assert(den0 * 1 == den0);
                assert(self.ratio_sum_den@ == ratio_den(self.watches@));
            }
        }
        self.session_ms = self.session_ms + w as u64;
    }

    /// The mean of the recorded attention ratios, in parts per million,
    /// rounded down; a full ratio before any record.
    pub fn avg_attention(&self) -> (r: u64)
        requires
            self.wf(),
        ensures
            r == average_attention_spec(self@),
    {
        let n = self.watches.len();
        if n == 0 {
            return RATIO_ONE;
        }
        let total = self.ratio_sum_den.scale(n as u64);
        let target = self.ratio_sum_num.scale(RATIO_ONE);
        let ghost d = total@;
        let ghost y = target@;
        proof {
            let s = self.watches@;
            lemma_ratio_bound(s);
            assert(d >= 1) by (nonlinear_arith)
                requires d == ratio_den(s) * (n as nat), ratio_den(s) >= 1, n >= 1;
            assert(y < 0x20_0000_0000_0000 * d) by (nonlinear_arith)
                requires
                    y == ratio_num(s) * 1_000_000,
                    d == ratio_den(s) * (n as nat),
                    ratio_num(s) <= 0x1_0000_0000 * (n as nat) * ratio_den(s),
                    d >= 1;
        }
        let mut lo: u64 = 0;
        let mut hi: u64 = 0x20_0000_0000_0000;
        while hi - lo > 1
            invariant
                lo < hi,
                hi <= 0x20_0000_0000_0000,
                total@ == d,
                target@ == y,
                (lo as nat) * d <= y,
                y < (hi as nat) * d,
            decreases hi - lo,
        {
            let mid = lo + (hi - lo) / 2;
            let bar = total.scale(mid);
            assert(bar@ == (mid as nat) * d) by (nonlinear_arith)
                requires bar@ == d * (mid as nat);
            if target.lt(&bar) {
                hi = mid;
            } else {
                lo = mid;
            }
        }
        proof {
            assert(hi == lo + 1);
            assert(y / d == lo as nat) by (nonlinear_arith)
                requires (lo as nat) * d <= y, y < (lo as nat + 1) * d, d >= 1;
            assert(y == 1_000_000 * ratio_num(self.watches@)) by (nonlinear_arith)
                requires y == ratio_num(self.watches@) * 1_000_000;
            assert(d == (n as nat) * ratio_den(self.watches@)) by (nonlinear_arith)
                requires d == ratio_den(self.watches@) * (n as nat);
        }
        lo
    }

    /// Break length in milliseconds: the parent override when set, else five
    /// minutes scaled up by the hour of day.
    pub fn break_length_ms(&self) -> (r: u64)
        ensures
            r == break_length_spec(self@),
    {
        match self.parent_break_override_ms {
            Some(ms) => ms,
            None => BASE_BREAK_MS + BASE_BREAK_MS * (self.current_hour as u64) / 24,
        }
    }

    /// True past twenty minutes of session, or past eight minutes with a mean
    /// attention under a quarter.
    pub fn should_break(&self) -> (r: bool)
        requires
            self.wf(),
        ensures
            r == should_break_spec(self@),
    {
        if self.session_ms > HARD_LIMIT_MS {
            return true;
        }
        let n = self.watches.len();
        if n > 0 && self.session_ms > DOOMSCROLL_MS {
            let weighted = self.ratio_sum_num.scale(4);
            let bar = self.ratio_sum_den.scale(n as u64);
            assert(weighted@ == 4 * ratio_num(self@.attention));
            assert(bar@ == self@.attention.len() * ratio_den(self@.attention)) by (nonlinear_arith)
                requires bar@ == ratio_den(self@.attention) * (n as nat), n == self@.attention.len();
            return weighted.lt(&bar);
        }
        false
    }

    /// Clears the attention history; session time and override stay.
    pub fn reset_daily(&mut self)
        requires
            old(self).wf(),
        ensures
            final(self).wf(),
            final(self)@ == (GuardrailsModel { attention: Seq::empty(), ..old(self)@ }),
    {
        self.watches.clear();
        self.ratio_sum_num = BigNat::from_u32(0);
        self.ratio_sum_den = BigNat::from_u32(1);
    }

    /// Total qualifying watch time so far, in milliseconds.
    pub fn session_time_ms(&self) -> (r: u64)
        ensures
            r == self@.session_ms,
    {
        self.session_ms
    }

    /// Number of watches recorded since the last reset.
    pub fn attention_count(&self) -> (r: usize)
        ensures
            r == self@.attention.len(),
    {
        self.watches.len()
    }
}

} // verus!
