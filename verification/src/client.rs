//! The node's chat/image endpoint settings. The network calls themselves are
//! made by the embedder; this type only carries the settings they need.

use vstd::prelude::*;

verus! {

/// Connection settings for a serving node's OpenAI-style API.
pub struct GaiaNodeClient {
    pub base_url: String,
    pub api_key: String,
    pub current_model: String,
}

impl GaiaNodeClient {
    pub fn new(base_url: String, api_key: String, model: String) -> (r: Self)
        ensures
            r.base_url@ == base_url@,
            r.api_key@ == api_key@,
            r.current_model@ == model@,
    {
        Self { base_url, api_key, current_model: model }
    }
}

/// A chat turn's reply text.
pub struct ChatResponse {
    pub response: String,
}

} // verus!
