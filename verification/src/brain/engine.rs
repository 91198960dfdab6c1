//! What every model backend shares: the chat format, and the arithmetic of a
//! context window.

use crate::text::same;
use vstd::prelude::*;
use vstd::string::StringExecFns;

verus! {

/// System and user turns in a model's chat format. Anything unrecognised is
/// taken for `chatml`.
pub open spec fn wrapped(template: Seq<char>, system: Seq<char>, user: Seq<char>) -> Seq<char> {
    if template == "llama3"@ {
        "<|begin_of_text|><|start_header_id|>system<|end_header_id|>\n\n"@ + system
            + "<|eot_id|><|start_header_id|>user<|end_header_id|>\n\n"@ + user
            + "<|eot_id|><|start_header_id|>assistant<|end_header_id|>\n\n"@
    } else if template == "mistral"@ {
        "<s>[INST] "@ + system + "\n\n"@ + user + " [/INST]"@
    } else if template == "plain"@ {
        system + "\n\n"@ + user + "\n\n"@
    } else {
        "<|im_start|>system\n"@ + system + "<|im_end|>\n<|im_start|>user\n"@ + user
            + "<|im_end|>\n<|im_start|>assistant\n"@
    }
}

/// Wrap system and user turns in the model's chat format.
pub fn wrap(template: &str, system: &str, user: &str) -> (r: String)
    ensures
        r@ == wrapped(template@, system@, user@),
{
    let mut out = String::new();
    if same(template, "llama3") {
        out.append("<|begin_of_text|><|start_header_id|>system<|end_header_id|>\n\n");
        out.append(system);
        out.append("<|eot_id|><|start_header_id|>user<|end_header_id|>\n\n");
        out.append(user);
        out.append("<|eot_id|><|start_header_id|>assistant<|end_header_id|>\n\n");
    } else if same(template, "mistral") {
        out.append("<s>[INST] ");
        out.append(system);
        out.append("\n\n");
        out.append(user);
        out.append(" [/INST]");
    } else if same(template, "plain") {
        out.append(system);
        out.append("\n\n");
        out.append(user);
        out.append("\n\n");
    } else {
        out.append("<|im_start|>system\n");
        out.append(system);
        out.append("<|im_end|>\n<|im_start|>user\n");
        out.append(user);
        out.append("<|im_end|>\n<|im_start|>assistant\n");
    }
    assert(out@ =~= wrapped(template@, system@, user@));
    out
}

/// Whether a prompt leaves no room for its answer in the context window.
pub fn overfills(prompt_tokens: i32, max_tokens: i32, context: u32) -> (r: bool)
    ensures
        r == (prompt_tokens + max_tokens >= context),
{
    prompt_tokens as i64 + max_tokens as i64 >= context as i64
}

/// Whether the tokens of a picture and its answer overfill the context window.
pub fn picture_overfills(total_tokens: usize, max_tokens: i32, context: u32) -> (r: bool)
    ensures
        r == (total_tokens + max_tokens >= context),
{
    total_tokens as i128 + max_tokens as i128 >= context as i128
}

} // verus!
