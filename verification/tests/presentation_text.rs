use understory::presentation::{ImageFit, PathPaintOrder, SliceMode, TextAlign, TextContent, TextOverflow};

#[test]
fn plain_text_content_exposes_str() {
    let content = TextContent::plain("Apply");

    assert!(!content.is_empty());
    assert_eq!(content.as_str(), "Apply");
}

#[test]
fn empty_text_content_is_empty() {
    let content = TextContent::default();
    assert!(content.is_empty());
    assert_eq!(content.as_str(), "");
    assert!(TextContent::plain("").is_empty());
}

#[test]
fn primitive_enums_default_to_their_first_variant() {
    assert_eq!(TextAlign::default(), TextAlign::Start);
    assert_eq!(TextOverflow::default(), TextOverflow::Clip);
    assert_eq!(ImageFit::default(), ImageFit::Stretch);
    assert_eq!(SliceMode::default(), SliceMode::Stretch);
    assert_eq!(PathPaintOrder::default(), PathPaintOrder::FillThenStroke);
}
