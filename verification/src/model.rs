use vstd::prelude::*;

verus! {

/// The value of the `Authorization` header that carries `token`.
pub fn authorization_value(token: &str) -> (r: String)
    ensures
        r@ == "Bearer "@ + token@,
{
    let mut r = "Bearer ".to_owned();
    r.append(token);
    r
}

/// The explanation shown for a model reply: its text, or a notice when the
/// reply holds none.
pub fn explanation_or_notice(text: Option<&str>) -> (r: String)
    ensures
        match text {
            Some(t) => r@ == t@,
            None => r@ == "Error communicating with Llama."@,
        },
{
    match text {
        Some(t) => t.to_owned(),
        None => "Error communicating with Llama.".to_owned(),
    }
}

} // verus!
