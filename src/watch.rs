use vstd::prelude::*;

verus! {

/// One in a million: attention ratios are held in parts per million.
pub const RATIO_ONE: u64 = 1_000_000;

/// One viewing of one video. Durations are in milliseconds.
pub struct VideoWatch {
    pub watch_ms: u32,
    pub video_ms: u32,
    pub video_name: String,
    pub hashtags: Vec<String>,
    pub liked: bool,
    pub disliked: bool,
    /// Order of occurrence, starting at 1.
    pub watched_at: u64,
}

/// Watched time over video length in parts per million, rounded down; zero
/// for a video of length zero.
pub open spec fn attention_ratio_spec(watch_ms: u32, video_ms: u32) -> nat {
    if video_ms == 0 {
        0
    } else {
        ((watch_ms as nat) * (RATIO_ONE as nat) / (video_ms as nat)) as nat
    }
}

impl VideoWatch {
    /// Watched time over video length, in parts per million (rounded down).
    pub fn attention_ratio(&self) -> (r: u64)
        ensures
            r == attention_ratio_spec(self.watch_ms, self.video_ms),
    {
        if self.video_ms == 0 {
            return 0;
        }
        let w = self.watch_ms as u64;
        assert(w * 1_000_000 <= 0xffff_ffffu64 * 1_000_000) by (nonlinear_arith)
            requires w <= 0xffff_ffffu64;
        (w * RATIO_ONE) / (self.video_ms as u64)
    }
}

} // verus!
