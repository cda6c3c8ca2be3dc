//! Counters of embedding requests. A counter that is full starts again at
//! zero. Threads that share the counters take turns behind a lock of their
//! own.

use vstd::prelude::*;

verus! {

/// Counters of embedding requests.
pub struct EmbedMetrics {
    requests: u64,
    texts: u64,
    total_tokens: u64,
    total_latency_ns: u64,
}

/// The counters as they were read.
#[derive(Debug, Clone, Copy, PartialEq, Eq, Structural)]
pub struct EmbedMetricsSnapshot {
    /// Embedding requests made.
    pub requests: u64,
    /// Texts embedded.
    pub texts: u64,
    /// Tokens processed.
    pub total_tokens: u64,
    /// Nanoseconds spent in all requests together. The average per request
    /// is this over `requests`, where there was any.
    pub total_latency_ns: u64,
}

impl EmbedMetricsSnapshot {
    /// The figures after requests, texts and tokens were counted, and the
    /// time they took.
    pub open spec fn counted(
        self,
        request_count: u64,
        text_count: u64,
        token_count: u64,
        latency_ns: u64,
    ) -> EmbedMetricsSnapshot {
        EmbedMetricsSnapshot {
            requests: self.requests.wrapping_add(request_count),
            texts: self.texts.wrapping_add(text_count),
            total_tokens: self.total_tokens.wrapping_add(token_count),
            total_latency_ns: self.total_latency_ns.wrapping_add(latency_ns),
        }
    }
}

impl EmbedMetrics {
    /// What the counters hold.
    pub closed spec fn figures(&self) -> EmbedMetricsSnapshot {
        EmbedMetricsSnapshot {
            requests: self.requests,
            texts: self.texts,
            total_tokens: self.total_tokens,
            total_latency_ns: self.total_latency_ns,
        }
    }

    /// Counters at zero.
    pub fn new() -> (r: Self)
        ensures
            r.figures() == (EmbedMetricsSnapshot {
                requests: 0,
                texts: 0,
                total_tokens: 0,
                total_latency_ns: 0,
            }),
    {
        EmbedMetrics { requests: 0, texts: 0, total_tokens: 0, total_latency_ns: 0 }
    }

    /// Count requests, texts and tokens, and the time they took.
    pub fn record(&mut self, request_count: u64, text_count: u64, token_count: u64, latency_ns: u64)
        ensures
            final(self).figures() == old(self).figures().counted(
                request_count,
                text_count,
                token_count,
                latency_ns,
            ),
    {
        self.requests = self.requests.wrapping_add(request_count);
        self.texts = self.texts.wrapping_add(text_count);
        self.total_tokens = self.total_tokens.wrapping_add(token_count);
        self.total_latency_ns = self.total_latency_ns.wrapping_add(latency_ns);
    }

    /// Read the counters.
    pub fn snapshot(&self) -> (r: EmbedMetricsSnapshot)
        ensures
            r == self.figures(),
    {
        EmbedMetricsSnapshot {
            requests: self.requests,
            texts: self.texts,
            total_tokens: self.total_tokens,
            total_latency_ns: self.total_latency_ns,
        }
    }
}

} // verus!
