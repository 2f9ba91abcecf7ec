//! The parts of a request to the Anthropic messages API that the library
//! decides, and how a reply is read.
use vstd::prelude::*;
use vstd::string::StringExecFns;

verus! {

/// One message of a conversation.
#[derive(Debug)]
pub struct Message {
    pub role: String,
    pub content: String,
}

/// One block of a reply's content.
#[derive(Debug)]
pub struct ContentBlock {
    pub block_type: String,
    pub text: Option<String>,
}

/// The user message that asks for the intent of `prompt`.
pub fn intent_message(prompt: &str) -> (m: Message)
    ensures
        m.role@ == "user"@,
        m.content@ == "Analyze this prompt and extract intent:\n\n"@ + prompt@,
{
    let mut content = String::from_str("Analyze this prompt and extract intent:\n\n");
    content.append(prompt);
    Message { role: String::from_str("user"), content }
}

/// The user message that asks for the patterns of `code_snippets`.
pub fn patterns_message(code_snippets: &str) -> (m: Message)
    ensures
        m.role@ == "user"@,
        m.content@ == "Analyze the following code and extract common patterns and conventions:\n\n"@
            + code_snippets@,
{
    let mut content = String::from_str(
        "Analyze the following code and extract common patterns and conventions:\n\n",
    );
    content.append(code_snippets);
    Message { role: String::from_str("user"), content }
}

/// The text of a reply: that of its first content block, or an error when
/// the reply has no block or its first block holds no text.
pub fn reply_text(content: &Vec<ContentBlock>) -> (r: Result<String, String>)
    ensures
        match r {
            Ok(t) => content@.len() > 0 && content@[0].text == Some(t),
            Err(e) => (content@.len() == 0 || content@[0].text is None) && e@ == "No content in response"@,
        },
{
    if content.len() > 0 {
        if let Some(text) = &content[0].text {
            return Ok(text.clone());
        }
    }
    Err(String::from_str("No content in response"))
}

} // verus!
