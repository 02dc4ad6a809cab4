use text_input::collider::Collider;
use text_input::semantics::{SemanticToken, UnderlineStyle};
use text_input::style_flags;
use text_input::styles;
use text_input::token_style::TokenStyle;

#[test]
fn token_style_flags() {
    let mut t = TokenStyle::new(style_flags::BOLD | style_flags::FADED);
    assert!(t.is_bold());
    assert!(t.is_faded());
    assert!(!t.is_italic());
    t.set_flag(style_flags::ITALIC, true);
    t.set_flag(style_flags::BOLD, false);
    assert_eq!(t.flags, 0b0100_0010);
    assert!(t.is_italic() && !t.is_bold());
    t.set_flags(0xff);
    assert!(t.is_underline() && t.is_strikethrough() && t.is_error());
    assert!(t.is_warning() && t.is_background());
    t.clear_flags();
    assert_eq!(t.flags, 0);
}

#[test]
fn semantic_token_styles() {
    let mut t = SemanticToken::new("x".to_string(), (1, 2, 3, 4), UnderlineStyle::Squiggly((9, 9, 9, 9)), styles::NONE);
    t.set_italic(true);
    t.set_strikethrough(true);
    assert_eq!(t.styles, 0b101);
    t.set_italic(false);
    assert_eq!(t.styles, 0b100);
    t.set_style(0xff);
    assert_eq!(t.styles, 0b111);
    assert_eq!(t.color, (1, 2, 3, 4));
}

#[test]
fn collider_holds_box() {
    let c = Collider::new(-3, 4, 10, 20);
    assert_eq!(c.position, (-3, 4));
    assert_eq!(c.size, (10, 20));
}
