//! Errors reported by embedding providers.

use vstd::prelude::*;

verus! {

/// What went wrong while asking a provider for an embedding.
#[derive(Debug)]
pub enum EmbeddingError {
    RequestFailed(String),
    ApiError(String),
    InvalidResponse(String),
    ConfigError(String),
    RateLimitExceeded,
    AuthenticationFailed(String),
    ProviderUnavailable(String),
    Timeout(String),
    InvalidModel(String),
}

impl EmbeddingError {
    /// Whether a retry can help: everything but a bad configuration, failed
    /// authentication and an unknown model.
    pub open spec fn recoverable(self) -> bool {
        !(self is ConfigError || self is AuthenticationFailed || self is InvalidModel)
    }

    pub fn is_recoverable(&self) -> (r: bool)
        ensures
            r == self.recoverable(),
    {
        match self {
            Self::RequestFailed(_) => true,
            Self::ApiError(_) => true,
            Self::InvalidResponse(_) => true,
            Self::ConfigError(_) => false,
            Self::RateLimitExceeded => true,
            Self::AuthenticationFailed(_) => false,
            Self::ProviderUnavailable(_) => true,
            Self::Timeout(_) => true,
            Self::InvalidModel(_) => false,
        }
    }
}

} // verus!
