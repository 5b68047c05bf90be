//! The text-generation capability. The built-in backend is a deterministic
//! stub that describes the prompt it was given.
use vstd::prelude::*;

use crate::text::{chars_of, decimal, decimal_string, push_str};

verus! {

/// A failure of the generation backend.
#[derive(Debug, Clone)]
pub struct GenerationError {
    pub message: String,
}

#[derive(Debug, Clone, Copy, PartialEq, Eq, Structural)]
enum Backend {
    Stub,
}

/// A handle on a text-generation backend.
#[derive(Debug, Clone)]
pub struct LLMEngine {
    backend: Backend,
}

/// The stub backend's reply to a prompt.
pub open spec fn stub_reply(prompt: Seq<char>) -> Seq<char> {
    "LLM(stub) response for prompt ("@ + decimal(prompt.len()) + " chars)."@
}

impl LLMEngine {
    /// Whether replies come from the built-in stub backend.
    pub closed spec fn is_stub(&self) -> bool {
        self.backend == Backend::Stub
    }

    pub fn new() -> (r: LLMEngine)
        ensures
            r.is_stub(),
    {
        LLMEngine { backend: Backend::Stub }
    }

    /// An engine for a local model file. No model runtime is built in, so the
    /// settings are accepted and the stub backend answers.
    pub fn with_candle(
        model_path: String,
        device: Option<String>,
        tokenizer_path: Option<String>,
        max_tokens: Option<usize>,
        top_k: Option<usize>,
    ) -> (r: LLMEngine)
        ensures
            r.is_stub(),
    {
        LLMEngine { backend: Backend::Stub }
    }

    /// Generates a reply to `prompt`: the stub backend, the only one built in,
    /// describes the prompt.
    pub fn generate(&self, prompt: &str) -> (r: Result<String, GenerationError>)
        ensures
            r matches Ok(t) && t@ == stub_reply(prompt@),
    {
        match self.backend {
            Backend::Stub => {
                let cs = chars_of(prompt);
                let mut out = String::new();
                push_str(&mut out, "LLM(stub) response for prompt (");
                let n = decimal_string(cs.len());
                push_str(&mut out, n.as_str());
                push_str(&mut out, " chars).");
                Ok(out)
            },
        }
    }
}

} // verus!
