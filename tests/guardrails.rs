use feedloop::guardrails::Guardrails;
use feedloop::watch::VideoWatch;

fn watch(watch_ms: u32, video_ms: u32) -> VideoWatch {
    VideoWatch {
        watch_ms,
        video_ms,
        video_name: String::from("Some video"),
        hashtags: vec![],
        liked: false,
        disliked: false,
        watched_at: 1,
    }
}

#[test]
fn attention_ratio_of_zero_length_video_is_zero() {
    assert_eq!(watch(5_000, 0).attention_ratio(), 0);
}

#[test]
fn attention_ratio_in_parts_per_million() {
    assert_eq!(watch(100_000, 120_000).attention_ratio(), 833_333);
    assert_eq!(watch(200_000, 100_000).attention_ratio(), 2_000_000);
}

#[test]
fn short_watch_is_ignored() {
    let mut g = Guardrails::new(10);
    g.record(&watch(6_999, 10_000));
    g.record(&watch(0, 10_000));
    assert_eq!(g.attention_count(), 0);
    assert_eq!(g.session_time_ms(), 0);
    g.record(&watch(7_000, 10_000));
    assert_eq!(g.attention_count(), 1);
    assert_eq!(g.session_time_ms(), 7_000);
    assert_eq!(g.avg_attention(), 700_000);
}

#[test]
fn average_attention_defaults_to_full() {
    let g = Guardrails::new(3);
    assert_eq!(g.avg_attention(), 1_000_000);
}

#[test]
fn average_attention_is_mean() {
    let mut g = Guardrails::new(3);
    g.record(&watch(100_000, 120_000));
    g.record(&watch(200_000, 300_000));
    g.record(&watch(180_000, 200_000));
    // (5/6 + 2/3 + 9/10) / 3 is exactly 0.8
    assert_eq!(g.avg_attention(), 800_000);
    assert_eq!(g.session_time_ms(), 480_000);
    assert!(!g.should_break());
}

#[test]
fn hard_limit_is_strict() {
    let mut g = Guardrails::new(12);
    g.record(&watch(1_200_000, 1_200_000));
    assert_eq!(g.session_time_ms(), 1_200_000);
    assert!(!g.should_break());
    g.record(&watch(7_000, 7_000));
    assert!(g.should_break());
}

#[test]
fn hard_limit_ignores_attention() {
    let mut g = Guardrails::new(12);
    g.record(&watch(1_300_000, 1_300_000));
    assert_eq!(g.avg_attention(), 1_000_000);
    assert!(g.should_break());
}

#[test]
fn low_attention_boundary_is_not_low() {
    let mut g = Guardrails::new(12);
    g.record(&watch(480_001, 1_920_004));
    assert_eq!(g.avg_attention(), 250_000);
    assert!(!g.should_break());
}

#[test]
fn low_attention_past_eight_minutes_breaks() {
    let mut g = Guardrails::new(12);
    g.record(&watch(480_001, 1_920_008));
    assert_eq!(g.avg_attention(), 249_999);
    assert!(g.should_break());
}

#[test]
fn low_attention_at_eight_minutes_does_not_break() {
    let mut g = Guardrails::new(12);
    g.record(&watch(480_000, 1_920_008));
    assert!(g.avg_attention() < 250_000);
    assert_eq!(g.session_time_ms(), 480_000);
    assert!(!g.should_break());
}

#[test]
fn break_length_scales_with_hour() {
    assert_eq!(Guardrails::new(0).break_length_ms(), 300_000);
    assert_eq!(Guardrails::new(12).break_length_ms(), 450_000);
    assert_eq!(Guardrails::new(21).break_length_ms(), 562_500);
    assert_eq!(Guardrails::new(23).break_length_ms(), 587_500);
}

#[test]
fn parent_override_wins() {
    let mut g = Guardrails::new(23);
    g.set_parent_override(Some(60_000));
    assert_eq!(g.break_length_ms(), 60_000);
    g.set_parent_override(Some(3_600_000));
    assert_eq!(g.break_length_ms(), 3_600_000);
    g.set_parent_override(None);
    assert_eq!(g.break_length_ms(), 587_500);
}

#[test]
fn reset_daily_keeps_session_time() {
    let mut g = Guardrails::new(8);
    g.record(&watch(600_000, 6_000_000));
    g.record(&watch(700_000, 7_000_000));
    assert!(g.should_break());
    g.reset_daily();
    assert_eq!(g.attention_count(), 0);
    assert_eq!(g.session_time_ms(), 1_300_000);
    assert_eq!(g.avg_attention(), 1_000_000);
    assert!(g.should_break());
}

#[test]
fn exact_quarter_mean_does_not_break() {
    let mut g = Guardrails::new(12);
    g.record(&watch(300_000, 900_000));
    g.record(&watch(300_000, 1_800_000));
    assert_eq!(g.session_time_ms(), 600_000);
    assert_eq!(g.avg_attention(), 250_000);
    assert!(!g.should_break());
}

#[test]
fn mean_just_under_quarter_breaks() {
    let mut g = Guardrails::new(12);
    g.record(&watch(300_000, 900_000));
    g.record(&watch(299_999, 1_800_000));
    assert_eq!(g.avg_attention(), 249_999);
    assert!(g.should_break());
}

#[test]
fn sample_session_with_short_watch() {
    let mut g = Guardrails::new(21);
    g.record(&watch(100_000, 120_000));
    g.record(&watch(200_000, 300_000));
    g.record(&watch(180_000, 200_000));
    g.record(&watch(3_000, 600_000));
    assert_eq!(g.attention_count(), 3);
    assert_eq!(g.session_time_ms(), 480_000);
    assert_eq!(g.avg_attention(), 800_000);
}

#[test]
fn zero_length_video_counts_as_no_attention() {
    let mut g = Guardrails::new(12);
    g.record(&watch(500_000, 0));
    g.record(&watch(100_000, 100_000));
    assert_eq!(g.avg_attention(), 500_000);
}
