use text_input::semantics::{SemanticToken, UnderlineStyle};
use text_input::styles;

#[test]
fn test_flags() {
    let mut token = SemanticToken::new("Semantics".to_string(), (255, 255, 255, 255), UnderlineStyle::Plain, styles::ITALIC);

    assert_eq!(token.styles, 0x01);

    token.set_bold(true);

    assert_eq!(token.styles, 0b011);

    token.set_bold(false);

    assert_eq!(token.styles, 0x01);

    token.set_bold(false);

    assert_eq!(token.styles, 0x01);
}
