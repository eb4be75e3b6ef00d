use blvflag::model::{authorization_value, explanation_or_notice};

#[test]
fn authorization_value_is_bearer() {
    assert_eq!(authorization_value("abc123"), "Bearer abc123");
    assert_eq!(authorization_value(""), "Bearer ");
}

#[test]
fn explanation_falls_back_to_notice() {
    assert_eq!(explanation_or_notice(Some("It failed.")), "It failed.");
    assert_eq!(explanation_or_notice(None), "Error communicating with Llama.");
}
