//! The stand-in for the AI stage: how a prompt is laid out, and the canned
//! answers that are given until a model is there.

use vstd::prelude::*;
use vstd::string::StringExecFns;
use crate::messages::MessageContext;
use crate::text::{
    decimal_string, decimal_text, lowercase_of, occurs_in, str_contains, to_lowercase,
};

verus! {

/// The number of tokens that are generated where the request names none.
pub const DEFAULT_OUTPUT_TOKENS: usize = 100;

/// The largest number of tokens that are generated for one answer.
pub const MAX_OUTPUT_TOKENS: usize = 512;

impl View for MessageContext {
    type V = (Seq<char>, Seq<char>);

    open spec fn view(&self) -> (Seq<char>, Seq<char>) {
        (self.role@, self.content@)
    }
}

/// The messages of a conversation as mathematical values, each a role and a
/// content.
pub open spec fn context_view(context: Seq<MessageContext>) -> Seq<(Seq<char>, Seq<char>)> {
    Seq::new(context.len(), |i: int| context[i]@)
}

/// One turn of a conversation in the chat template: the role between the
/// header marks, the content on the next line, the mark for the end of the
/// turn.
pub open spec fn turn_text(role: Seq<char>, content: Seq<char>) -> Seq<char> {
    "<|start_header_id|>"@ + role + "<|end_header_id|>\n"@ + content + "<|eot_id|>"@
}

/// The turns of a conversation, one after the other.
pub open spec fn turns_text(context: Seq<(Seq<char>, Seq<char>)>) -> Seq<char>
    decreases context.len(),
{
    if context.len() == 0 {
        Seq::empty()
    } else {
        turns_text(context.drop_last()) + turn_text(context.last().0, context.last().1)
    }
}

/// The prompt for a query: the turns of the conversation so far, the query
/// as a turn of the user, and the header of the assistant's turn.
pub open spec fn prompt_text(query: Seq<char>, context: Seq<(Seq<char>, Seq<char>)>) -> Seq<char> {
    turns_text(context) + turn_text("user"@, query)
        + "<|start_header_id|>assistant<|end_header_id|>\n"@
}

/// Appends one turn to a prompt.
fn push_turn(prompt: &mut String, role: &str, content: &str)
    ensures
        final(prompt)@ == old(prompt)@ + turn_text(role@, content@),
{
    prompt.append("<|start_header_id|>");
    prompt.append(role);
    prompt.append("<|end_header_id|>\n");
    prompt.append(content);
    prompt.append("<|eot_id|>");
    assert(prompt@ =~= old(prompt)@ + turn_text(role@, content@));
}

/// Lays out the prompt for a query in the chat template. A query without a
/// conversation gives the prompt of one with an empty conversation.
pub fn build_prompt(query: &str, context: Option<&[MessageContext]>) -> (r: String)
    ensures
        r@ == prompt_text(
            query@,
            match context {
                Some(c) => context_view(c@),
                None => Seq::empty(),
            },
        ),
{
    let mut prompt: String = String::new();
    let ghost turns: Seq<(Seq<char>, Seq<char>)> = match context {
        Some(c) => context_view(c@),
        None => Seq::empty(),
    };
    match context {
        Some(c) => {
            let mut i: usize = 0;
            assert(turns.take(0) =~= Seq::<(Seq<char>, Seq<char>)>::empty());
            while i < c.len()
                invariant
                    0 <= i <= c.len(),
                    turns == context_view(c@),
                    prompt@ == turns_text(turns.take(i as int)),
                decreases c.len() - i,
            {
                let ghost next = turns.take(i + 1);
                assert(next.drop_last() =~= turns.take(i as int));
                assert(next.last() == c@[i as int]@);
                push_turn(&mut prompt, c[i].role.as_str(), c[i].content.as_str());
                i += 1;
            }
            assert(turns.take(i as int) =~= turns);
        },
        None => {},
    }
    push_turn(&mut prompt, "user", query);
    prompt.append("<|start_header_id|>assistant<|end_header_id|>\n");
    prompt
}

/// The kinds of canned answer.
#[derive(Debug, Clone, Copy, PartialEq, Eq, Structural)]
pub enum AnswerKind {
    /// To a greeting.
    Greeting,
    /// To a question.
    Question,
    /// To a request to explain.
    Explanation,
    /// To a request to calculate.
    Calculation,
    /// To anything else within a conversation.
    InContext,
    /// To anything else.
    Plain,
}

/// The kind of answer that a text in lower case gets: the words are tried
/// in a fixed order and the first group that has one in the text decides.
pub open spec fn kind_of_lowered(q: Seq<char>, in_conversation: bool) -> AnswerKind {
    if occurs_in("hello"@, q) || occurs_in("hi"@, q) || occurs_in("greet"@, q) {
        AnswerKind::Greeting
    } else if occurs_in("what"@, q) || occurs_in("who"@, q) || occurs_in("where"@, q) || occurs_in(
        "when"@,
        q,
    ) || occurs_in("why"@, q) || occurs_in("how"@, q) {
        AnswerKind::Question
    } else if occurs_in("explain"@, q) || occurs_in("describe"@, q) || occurs_in("tell me"@, q) {
        AnswerKind::Explanation
    } else if occurs_in("calculate"@, q) || occurs_in("compute"@, q) || occurs_in("math"@, q) {
        AnswerKind::Calculation
    } else if in_conversation {
        AnswerKind::InContext
    } else {
        AnswerKind::Plain
    }
}

/// The kind of answer that a query gets: that of the query in lower case.
pub open spec fn answer_kind(query: Seq<char>, in_conversation: bool) -> AnswerKind {
    kind_of_lowered(lowercase_of(query), in_conversation)
}

/// Decides which kind of canned answer a text gets that is in lower case
/// already.
pub fn classify_lowered(q: &str, in_conversation: bool) -> (r: AnswerKind)
    ensures
        r == kind_of_lowered(q@, in_conversation),
{
    if str_contains(q, "hello") || str_contains(q, "hi") || str_contains(q, "greet") {
        AnswerKind::Greeting
    } else if str_contains(q, "what") || str_contains(q, "who") || str_contains(q, "where")
        || str_contains(q, "when") || str_contains(q, "why") || str_contains(q, "how") {
        AnswerKind::Question
    } else if str_contains(q, "explain") || str_contains(q, "describe") || str_contains(
        q,
        "tell me",
    ) {
        AnswerKind::Explanation
    } else if str_contains(q, "calculate") || str_contains(q, "compute") || str_contains(q, "math") {
        AnswerKind::Calculation
    } else if in_conversation {
        AnswerKind::InContext
    } else {
        AnswerKind::Plain
    }
}

/// Decides which kind of canned answer a query gets.
pub fn classify_query(query: &str, in_conversation: bool) -> (r: AnswerKind)
    ensures
        r == answer_kind(query@, in_conversation),
{
    let lower: String = to_lowercase(query);
    classify_lowered(lower.as_str(), in_conversation)
}

/// The words of the canned answer of a kind, for a query in a conversation
/// of `messages` messages.
pub open spec fn answer_text(kind: AnswerKind, query: Seq<char>, messages: nat) -> Seq<char> {
    match kind {
        AnswerKind::Greeting => "Hello! I'm an AI assistant (stub implementation). How can I help you today?"@,
        AnswerKind::Question => "That's an interesting question! In a real implementation, I would use a llama model to generate a thoughtful response. For now, this is a stub response."@,
        AnswerKind::Explanation => "I'd be happy to explain that! However, this is currently a stub implementation. Once the llama model is integrated, I'll be able to provide detailed explanations."@,
        AnswerKind::Calculation => "I can help with calculations! This is a stub response. The actual implementation will use llama model for mathematical reasoning."@,
        AnswerKind::InContext => "Based on our conversation context ("@ + decimal_text(messages)
            + " messages), I understand you're asking: '"@ + query
            + "'. This is a stub response that will be replaced with llama model inference."@,
        AnswerKind::Plain => "Thank you for your query: '"@ + query
            + "'. This is a stub AI response. The actual implementation will use a llama model to generate intelligent, context-aware responses."@,
    }
}

/// The canned answer of a kind to a query in a conversation of `messages`
/// messages.
pub fn canned_answer(kind: AnswerKind, query: &str, messages: usize) -> (r: String)
    ensures
        r@ == answer_text(kind, query@, messages as nat),
{
    match kind {
        AnswerKind::Greeting => "Hello! I'm an AI assistant (stub implementation). How can I help you today?".to_owned(),
        AnswerKind::Question => "That's an interesting question! In a real implementation, I would use a llama model to generate a thoughtful response. For now, this is a stub response.".to_owned(),
        AnswerKind::Explanation => "I'd be happy to explain that! However, this is currently a stub implementation. Once the llama model is integrated, I'll be able to provide detailed explanations.".to_owned(),
        AnswerKind::Calculation => "I can help with calculations! This is a stub response. The actual implementation will use llama model for mathematical reasoning.".to_owned(),
        AnswerKind::InContext => {
            let mut text: String = "Based on our conversation context (".to_owned();
            text.append(decimal_string(messages as u64).as_str());
            text.append(" messages), I understand you're asking: '");
            text.append(query);
            text.append("'. This is a stub response that will be replaced with llama model inference.");
            text
        },
        AnswerKind::Plain => {
            let mut text: String = "Thank you for your query: '".to_owned();
            text.append(query);
            text.append("'. This is a stub AI response. The actual implementation will use a llama model to generate intelligent, context-aware responses.");
            text
        },
    }
}

/// The canned answer to a query, within a conversation or without one.
pub fn generate_stub_response(query: &str, context: Option<&[MessageContext]>) -> (r: String)
    ensures
        r@ == answer_text(
            answer_kind(query@, context is Some),
            query@,
            match context {
                Some(c) => c@.len(),
                None => 0,
            },
        ),
{
    let messages: usize = match context {
        Some(c) => c.len(),
        None => 0,
    };
    canned_answer(classify_query(query, context.is_some()), query, messages)
}

/// The number of tokens that an answer may have: what the request asks for,
/// or the default, and never more than the maximum.
pub fn output_token_budget(max_tokens: Option<usize>) -> (r: usize)
    ensures
        r == match max_tokens {
            Some(n) => if n <= 512 {
                n
            } else {
                512
            },
            None => 100,
        },
{
    let wanted: usize = match max_tokens {
        Some(n) => n,
        None => DEFAULT_OUTPUT_TOKENS,
    };
    if wanted <= MAX_OUTPUT_TOKENS {
        wanted
    } else {
        MAX_OUTPUT_TOKENS
    }
}

} // verus!
