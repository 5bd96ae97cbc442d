use enso_data::log_entry::Content;

#[test]
fn content_messages() {
    let message = Content::Message("hello".to_string());
    assert_eq!(message.message(), Some("hello"));
    let group = Content::group_begin(true, "group".to_string());
    assert_eq!(group.message(), Some("group"));
    match &group {
        Content::GroupBegin(t) => assert!(t.collapsed),
        _ => panic!("expected the start of a group"),
    }
    assert_eq!(Content::GroupEnd.message(), None);
}
