use vstd::prelude::*;
use vstd::string::StringExecFns;

verus! {

/// The opening question of a run, built around the user's topic.
pub fn initial_prompt(topic: &str) -> (r: String)
    ensures
        r@ == "How does "@ + topic@ + " relate to other fields of science?"@,
{
    let mut s = "How does ".to_owned();
    s.append(topic);
    s.append(" relate to other fields of science?");
    s
}

/// The request that asks the generation endpoint to re-express `text` as a
/// JSON array of insight records, with one worked example to bias the format.
pub fn insight_prompt(text: &str) -> (r: String)
    ensures
        r@
            == "Analyze the following text and return JSON with these fields: topic, concept, definition, example, subtopic.\nExample JSON format:\n{ \"topic\": \"Physics\", \"concept\": \"Gravity\", \"definition\": \"A force...\", \"example\": \"An apple falling...\", \"subtopic\": \"Newton's Laws\" }\n\nTest: \""@
            + text@ + "\""@,
{
    let mut s =
        "Analyze the following text and return JSON with these fields: topic, concept, definition, example, subtopic.\nExample JSON format:\n{ \"topic\": \"Physics\", \"concept\": \"Gravity\", \"definition\": \"A force...\", \"example\": \"An apple falling...\", \"subtopic\": \"Newton's Laws\" }\n\nTest: \"".to_owned();
    s.append(text);
    s.append("\"");
    s
}

/// The follow-up question for one concept taken off the worklist: how it
/// relates to other disciplines in the context of the original topic.
pub fn related_prompt(concept: &str, topic: &str) -> (r: String)
    ensures
        r@ == "How does "@ + concept@ + " relate to other disciplines in the context of "@
            + topic@ + "? Provide related concepts, definitions, and examples."@,
{
    let mut s = "How does ".to_owned();
    s.append(concept);
    s.append(" relate to other disciplines in the context of ");
    s.append(topic);
    s.append("? Provide related concepts, definitions, and examples.");
    s
}

} // verus!
