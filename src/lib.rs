//! A short-form video feed's self-query loop: a wellbeing guardrail that
//! decides when a viewer should take a break, and a feed engine that turns a
//! watch history into search terms.

pub mod watch;
pub mod guardrails;
pub mod tokens;
pub mod chain;
pub mod feed;
pub mod relevance;
pub mod laws;
pub mod bignat;
