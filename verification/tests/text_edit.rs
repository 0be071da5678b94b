use byte_engine::primitive::TextEdit;

#[test]
fn text_edit_applies_to_app_owned_string() {
    let mut content = String::from("Hi");

    TextEdit::Inserted('é').apply_to(&mut content);

    assert_eq!(content, "Hié");

    TextEdit::Deleted('é').apply_to(&mut content);

    assert_eq!(content, "Hi");

    TextEdit::Deleted('x').apply_to(&mut content);

    assert_eq!(content, "Hi");
}

#[test]
fn deleting_from_an_empty_string_keeps_it_empty() {
    let mut content = String::new();
    TextEdit::Deleted('a').apply_to(&mut content);
    assert_eq!(content, "");
    TextEdit::Inserted('a').apply_to(&mut content);
    TextEdit::Deleted('a').apply_to(&mut content);
    assert_eq!(content, "");
}
