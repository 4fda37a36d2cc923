use vac::{parse, to_string, video_format, DocumentExt, Easing, Error, Property, VideoFormat};

#[test]
fn video_format_by_extension() {
    assert!(matches!(video_format("a.gif", Some("gif")), Ok(VideoFormat::Gif)));
    assert!(matches!(video_format("a.GIF", Some("GIF")), Ok(VideoFormat::Gif)));
    match video_format("a.MP4", Some("MP4")) {
        Err(Error::UnsupportedVideoFormat { ext }) => assert_eq!(ext, "mp4"),
        _ => panic!("expected an unsupported format"),
    }
    match video_format("movie", None) {
        Err(Error::MissingExtension { path }) => assert_eq!(path, "movie"),
        _ => panic!("expected a missing extension"),
    }
}

#[test]
fn facade_parse_reports_syntax_errors() {
    match vac::facade::parse("canvas 8x8 @30fps\nscene s { duration 1s\n  let a = triangle(1) }") {
        Err(Error::Parse(_)) => {}
        _ => panic!("expected a parse error"),
    }
    let doc = vac::facade::parse("canvas 8x8 @30fps\n").ok().expect("parses");
    assert_eq!(doc.canvas.width, 8);
}

#[test]
fn text_conversions_agree() {
    let doc = parse("canvas 800x600 @30fps\nscene main {\n  duration 3s\n}\n").expect("parses");
    assert_eq!(to_string(&doc), doc.to_vac_string());
    assert!(to_string(&doc).starts_with("canvas 800x600 @30fps\n"));
}

#[test]
fn names_round_trip() {
    for p in [Property::Fill, Property::Stroke] {
        assert_eq!(Property::from_str(p.as_str()), Some(p));
    }
    for e in [Easing::Linear, Easing::EaseIn, Easing::EaseOut, Easing::EaseInOut] {
        assert_eq!(Easing::from_str(e.as_str()), Some(e));
    }
    assert_eq!(Easing::from_str("Linear"), None);
}

#[test]
fn easing_curves_scaled_to_integers() {
    assert_eq!(Easing::Linear.apply(750, 1500), 1_125_000);
    assert_eq!(Easing::EaseIn.apply(750, 1500), 562_500);
    assert_eq!(Easing::EaseOut.apply(750, 1500), 1_687_500);
    assert_eq!(Easing::EaseInOut.apply(750, 1500), 1_125_000);
    assert_eq!(Easing::EaseInOut.apply(300, 1500), 180_000);
    assert_eq!(Easing::EaseIn.apply(3000, 1500), 2_250_000);
}
