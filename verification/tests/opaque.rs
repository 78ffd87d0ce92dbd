use tohdr::opaque::{MetadataSupport, OpaqueItem};

#[test]
fn labels_read_like_the_item_they_name() {
    let apple = OpaqueItem {
        item_type: *b"uri ",
        name: "metadata".into(),
        content_type: None,
        uri_type: Some("tag:apple.com,2023:photo:metadata:styles".into()),
        hidden: true,
        data: vec![1, 2, 3],
    };
    assert_eq!(apple.label(), "uri:metadata");
    assert_eq!(
        OpaqueItem {
            name: String::new(),
            ..apple
        }
        .label(),
        "uri"
    );
}

#[test]
fn nothing_is_supported_by_default() {
    assert_eq!(MetadataSupport::default(), MetadataSupport::none());
    assert!(!MetadataSupport::none().exif);
    assert!(MetadataSupport::all().exif && MetadataSupport::all().xmp);
}

#[test]
fn a_type_that_is_not_text_is_labelled_all_the_same() {
    let item = OpaqueItem {
        item_type: [0xff, 0xfe, 0, 1],
        name: "x".into(),
        content_type: None,
        uri_type: None,
        hidden: false,
        data: Vec::new(),
    };
    assert_eq!(item.label(), "????:x");
}
