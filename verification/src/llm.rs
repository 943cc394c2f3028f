//! Prompt assembly and error text for the generation service.
//!
//! The HTTP client that carries the request lives outside the library; what
//! it sends and what it reports on failure is computed here, verified.

use vstd::prelude::*;
use crate::text::dec_digits;
use crate::text::u64_to_dec;

verus! {

/// The texts joined by single newlines.
pub open spec fn join_nl(ts: Seq<Seq<char>>) -> Seq<char>
    decreases ts.len(),
{
    if ts.len() == 0 {
        Seq::empty()
    } else if ts.len() == 1 {
        ts[0]
    } else {
        ts[0] + seq!['\n'] + join_nl(ts.drop_first())
    }
}

/// Joining one more text appends a newline and the text.
pub proof fn lemma_join_nl_push(ts: Seq<Seq<char>>, t: Seq<char>)
    ensures
        ts.len() == 0 ==> join_nl(ts.push(t)) == t,
        ts.len() > 0 ==> join_nl(ts.push(t)) == join_nl(ts) + seq!['\n'] + t,
    decreases ts.len(),
{
    if ts.len() == 0 {
        assert(join_nl(ts.push(t)) == ts.push(t)[0]);
        assert(ts.push(t)[0] == t);
    } else {
        lemma_join_nl_push(ts.drop_first(), t);
        assert(ts.push(t).drop_first() =~= ts.drop_first().push(t));
        if ts.len() == 1 {
            assert(join_nl(ts.push(t)) == ts[0] + seq!['\n'] + t);
            assert(join_nl(ts) == ts[0]);
        } else {
            assert(join_nl(ts.push(t)) == ts[0] + seq!['\n'] + join_nl(ts.drop_first().push(t)));
            assert(join_nl(ts.push(t)) =~= join_nl(ts) + seq!['\n'] + t);
        }
    }
}

/// Join texts with single newlines.
pub fn join_lines(lines: &Vec<String>) -> (r: String)
    ensures
        r@ == join_nl(lines.deep_view()),
{
    let mut out = String::new();
    let mut k: usize = 0;
    proof {
        assert(lines.deep_view().subrange(0, 0) =~= Seq::<Seq<char>>::empty());
    }
    while k < lines.len()
        invariant
            0 <= k <= lines@.len(),
            out@ == join_nl(lines.deep_view().subrange(0, k as int)),
        decreases lines@.len() - k,
    {
        proof {
            let part = lines.deep_view().subrange(0, k as int);
            lemma_join_nl_push(part, lines.deep_view()[k as int]);
            assert(part.push(lines.deep_view()[k as int]) =~= lines.deep_view().subrange(
                0,
                k + 1,
            ));
        }
        if k > 0 {
            out.append("\n");
            proof {
                reveal_strlit("\n");
                assert("\n"@ =~= seq!['\n']);
            }
        }
        out.append(lines[k].as_str());
        k = k + 1;
    }
    proof {
        assert(lines.deep_view().subrange(0, lines.deep_view().len() as int)
            =~= lines.deep_view());
    }
    out
}

/// What the generation service is asked: the prompt alone when no knowledge
/// was retrieved, else a context preamble listing the knowledge line by
/// line, a blank line, and the prompt.
pub open spec fn full_prompt_spec(prompt: Seq<char>, context: Seq<Seq<char>>) -> Seq<char> {
    if context.len() == 0 {
        prompt
    } else {
        "Context from Knowledge Folder: "@ + join_nl(context) + "\n\n"@ + prompt
    }
}

/// Assemble the text sent to the generation service.
pub fn build_generation_prompt(prompt: &str, context: &Vec<String>) -> (r: String)
    ensures
        r@ == full_prompt_spec(prompt@, context.deep_view()),
{
    if context.len() == 0 {
        return prompt.to_owned();
    }
    let mut out = "Context from Knowledge Folder: ".to_owned();
    let joined = join_lines(context);
    out.append(joined.as_str());
    out.append("\n\n");
    out.append(prompt);
    out
}

/// The error text reported when the generation service answers with a
/// non-success status.
pub open spec fn failure_message_spec(status: int, body: Seq<char>) -> Seq<char> {
    "LLM API request failed: "@ + dec_digits(status) + " - "@ + body
}

/// Render the error text for a failed generation request.
pub fn generation_failure_message(status: u32, body: &str) -> (r: String)
    ensures
        r@ == failure_message_spec(status as int, body@),
{
    let mut out = "LLM API request failed: ".to_owned();
    let digits = u64_to_dec(status as u64);
    out.append(digits.as_str());
    out.append(" - ");
    out.append(body);
    out
}

/// The error text reported when a successful response lacks the generated
/// text field.
pub open spec fn missing_field_message() -> Seq<char> {
    "Error: 'generated_text' field not found in LLM response"@
}

/// Whether an HTTP status code reports success.
pub open spec fn is_success_status(status: int) -> bool {
    200 <= status < 300
}

/// Decide the generation service's answer: the generated text exactly when
/// the status reports success and the response carried the expected field;
/// otherwise the error that names what went wrong. The HTTP carry and the
/// field extraction happen outside; the decision is made here.
pub fn decide_generation_response(
    status: u32,
    body: &str,
    generated_text: Option<String>,
) -> (r: Result<String, String>)
    ensures
        !is_success_status(status as int) ==> r is Err && (r->Err_0)@ == failure_message_spec(
            status as int,
            body@,
        ),
        is_success_status(status as int) && generated_text is Some ==> r is Ok && (r->Ok_0)@ == (
        generated_text->0)@,
        is_success_status(status as int) && generated_text is None ==> r is Err && (r->Err_0)@
            == missing_field_message(),
{
    if status < 200 || status >= 300 {
        return Err(generation_failure_message(status, body));
    }
    match generated_text {
        Some(t) => Ok(t),
        None => Err("Error: 'generated_text' field not found in LLM response".to_owned()),
    }
}

} // verus!
