use vstd::prelude::*;

use crate::batch::static_batch::InferenceRequest;
use crate::text;
use crate::text::has_text;

verus! {

/// A request line, once it was read as JSON.
#[derive(Debug)]
pub enum WireRequest {
    /// Standard inference request.
    Infer { id: u64, prompt_tokens: Vec<u32>, max_new_tokens: usize, eos_token_id: u32 },
    /// Query of the current fragmentation metrics.
    Stats,
    /// Inference request that does not name its type.
    LegacyInfer { id: u64, prompt_tokens: Vec<u32>, max_new_tokens: usize, eos_token_id: u32 },
}

/// End token of requests that name none.
pub fn default_eos() -> (r: u32)
    ensures
        r == 2,
{
    2
}

/// How a request line is handled before it is read as JSON.
#[derive(Debug, Clone, Copy, PartialEq, Eq, Structural)]
pub enum LineKind {
    /// Nothing was sent.
    Closed,
    /// Answered with the current metrics.
    Stats,
    /// Has to be read as JSON.
    Request,
}

/// Tell a line apart. `read` is the number of bytes read, line end included.
pub fn line_kind(line: &str, read: usize) -> (r: LineKind)
    ensures
        r == if read == 0 {
            LineKind::Closed
        } else if text::contains_text(line@, "\"stats\""@) {
            LineKind::Stats
        } else {
            LineKind::Request
        },
{
    if read == 0 {
        LineKind::Closed
    } else if has_text(line, "\"stats\"") {
        LineKind::Stats
    } else {
        LineKind::Request
    }
}

/// The inference that a request asks for; `None` for a query of metrics, which
/// is answered with empty ones.
pub fn inference_of(req: WireRequest) -> (r: Option<InferenceRequest>)
    ensures
        match req {
            WireRequest::Infer { id, prompt_tokens, max_new_tokens, eos_token_id } => r == Some(
                InferenceRequest { id, prompt_tokens, max_new_tokens, eos_token_id },
            ),
            WireRequest::LegacyInfer { id, prompt_tokens, max_new_tokens, eos_token_id } => r
                == Some(InferenceRequest { id, prompt_tokens, max_new_tokens, eos_token_id }),
            WireRequest::Stats => r is None,
        },
{
    match req {
        WireRequest::Infer { id, prompt_tokens, max_new_tokens, eos_token_id } => Some(
            InferenceRequest { id, prompt_tokens, max_new_tokens, eos_token_id },
        ),
        WireRequest::LegacyInfer { id, prompt_tokens, max_new_tokens, eos_token_id } => Some(
            InferenceRequest { id, prompt_tokens, max_new_tokens, eos_token_id },
        ),
        WireRequest::Stats => None,
    }
}

/// A response as it goes over the wire: its bytes and a line end.
pub fn response_line(body: Vec<u8>) -> (r: Vec<u8>)
    ensures
        r@ == body@.push(10),
{
    let mut out: Vec<u8> = body;
    out.push(10);
    out
}

} // verus!
