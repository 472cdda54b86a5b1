use gpui_react::text_key::TextKey;

#[test]
fn node_keys_parse_from_their_string_form() {
    assert_eq!(TextKey::parse("text:42"), TextKey::Node(42));
    assert_eq!(TextKey::parse("text:+7"), TextKey::Node(7));
    assert_eq!(TextKey::parse("text:007"), TextKey::Node(7));
    assert_eq!(TextKey::parse("text:4294967295"), TextKey::Node(u32::MAX));
    assert_eq!(TextKey::Node(42).to_text(), "text:42");
    assert_eq!(TextKey::parse(&TextKey::Node(0).to_text()), TextKey::Node(0));
}

#[test]
fn anything_else_is_a_name() {
    for text in ["title", "text:", "text:4294967296", "text:-1", "text:1a", "TEXT:1", "text: 1", "text:+", "é"] {
        assert_eq!(TextKey::parse(text), TextKey::Named(text.to_string()), "{text}");
    }
    assert_eq!(TextKey::Named("body".to_string()).to_text(), "body");
}
