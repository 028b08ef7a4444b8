//! The parameters, of which there are none.

use crate::text;
use vstd::prelude::*;

verus! {

pub const PARAMS_SCHEMA: &'static str =
    "{\"type\":\"object\",\"properties\":{},\"additionalProperties\":false}";

/// Parameters that say nothing: none at all, or an empty object.
pub open spec fn says_nothing(params: Seq<char>) -> bool {
    text::trimmed(params) == ""@ || text::trimmed(params) == "{}"@
}

/// What is said of parameters that say something.
pub open spec fn no_params_text(params: Seq<char>) -> Seq<char> {
    "matte takes no params, got: "@ + text::trimmed(params)
}

/// This module takes no parameters: the net has no classes and no threshold.
pub fn validate_params(params: &str) -> (r: Result<(), String>)
    ensures
        r is Ok <==> says_nothing(params@),
        r matches Err(message) ==> message@ == no_params_text(params@),
        r is Ok <==> text::trimmed(params@) == ""@ || text::trimmed(params@) == "{}"@,
        r matches Err(message) ==> message@ == "matte takes no params, got: "@ + text::trimmed(
            params@,
        ),
{
    let said = text::trim(params);
    if text::same_text(said, "") || text::same_text(said, "{}") {
        Ok(())
    } else {
        let mut message = "matte takes no params, got: ".to_string();
        message.append(said);
        Err(message)
    }
}

/// Parameters given later are held to the same rule.
pub fn set_params(params: &str) -> (r: Result<(), String>)
    ensures
        r is Ok <==> says_nothing(params@),
        r matches Err(message) ==> message@ == no_params_text(params@),
        r is Ok <==> text::trimmed(params@) == ""@ || text::trimmed(params@) == "{}"@,
        r matches Err(message) ==> message@ == "matte takes no params, got: "@ + text::trimmed(
            params@,
        ),
{
    validate_params(params)
}

} // verus!
