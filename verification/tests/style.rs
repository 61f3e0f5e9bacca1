use draw_engine::bucket::{paint_fill_style, shared_among};
use draw_engine::cursor::HoverCursor;
use draw_engine::element::DrawElementType;
use draw_engine::style::{
    has_background, has_fill_style, has_stroke_color, merge_style_patch, push_kind,
    takes_roundness, ArrowType, Common, DrawElementStylePatch, FillStyle, StrokeStyle,
};

fn empty_patch() -> DrawElementStylePatch {
    DrawElementStylePatch {
        stroke_color: None,
        background_color: None,
        fill_style: None,
        stroke_width: None,
        stroke_style: None,
        roughness: None,
        opacity: None,
        roundness: None,
    }
}

#[test]
fn a_patch_overrides_only_what_it_sets() {
    let base = DrawElementStylePatch {
        stroke_color: Some("#000".into()),
        background_color: Some("#fff".into()),
        fill_style: Some(FillStyle::Hachure),
        stroke_width: Some(2.0f64.to_bits()),
        stroke_style: Some(StrokeStyle::Solid),
        roughness: Some(1.0f64.to_bits()),
        opacity: Some(100.0f64.to_bits()),
        roundness: None,
    };
    let mut patch = empty_patch();
    patch.stroke_color = Some("#f00".into());
    patch.stroke_width = Some(4.0f64.to_bits());
    patch.roundness = Some(3.0f64.to_bits());
    let merged = merge_style_patch(&base, &patch);
    assert_eq!(merged.stroke_color.as_deref(), Some("#f00"));
    assert_eq!(merged.background_color.as_deref(), Some("#fff"));
    assert_eq!(merged.fill_style, Some(FillStyle::Hachure));
    assert_eq!(merged.stroke_width.map(f64::from_bits), Some(4.0));
    assert_eq!(merged.stroke_style, Some(StrokeStyle::Solid));
    assert_eq!(merged.roughness.map(f64::from_bits), Some(1.0));
    assert_eq!(merged.opacity.map(f64::from_bits), Some(100.0));
    assert_eq!(merged.roundness.map(f64::from_bits), Some(3.0));
}

#[test]
fn merging_the_empty_patch_changes_nothing() {
    let mut base = empty_patch();
    base.background_color = Some("#abc".into());
    base.fill_style = Some(FillStyle::Solid);
    let merged = merge_style_patch(&base, &empty_patch());
    assert_eq!(merged.background_color.as_deref(), Some("#abc"));
    assert_eq!(merged.fill_style, Some(FillStyle::Solid));
    assert_eq!(merged.stroke_color, None);
    let merged = merge_style_patch(&empty_patch(), &base);
    assert_eq!(merged.background_color.as_deref(), Some("#abc"));
}

#[test]
fn a_shared_value_is_the_one_everything_agrees_on() {
    let mut c: Common<u8> = Common::new();
    assert_eq!(Common::<u8>::new().get(), None);
    c.add(3);
    c.add(3);
    assert_eq!(c.get(), Some(3));
    let mut c: Common<u8> = Common::new();
    c.add(3);
    c.add(4);
    c.add(3);
    assert_eq!(c.get(), None);
}

#[test]
fn arrow_types_parse_sharp_and_round_only() {
    assert_eq!(ArrowType::parse("sharp"), Some(ArrowType::Sharp));
    assert_eq!(ArrowType::parse("round"), Some(ArrowType::Round));
    assert_eq!(ArrowType::parse("elbow"), None);
}

#[test]
fn kinds_carry_the_styles_they_have() {
    assert!(has_stroke_color(DrawElementType::Text));
    assert!(!has_stroke_color(DrawElementType::Image));
    assert!(!has_stroke_color(DrawElementType::Frame));
    assert!(has_background(DrawElementType::StickyNote));
    assert!(!has_background(DrawElementType::Arrow));
    assert!(has_fill_style(DrawElementType::Line));
    assert!(!has_fill_style(DrawElementType::StickyNote));
    assert!(takes_roundness(DrawElementType::Image));
    assert!(!takes_roundness(DrawElementType::Ellipse));
}

#[test]
fn a_kind_is_listed_once() {
    let mut kinds = vec![DrawElementType::Line];
    push_kind(&mut kinds, DrawElementType::Arrow);
    push_kind(&mut kinds, DrawElementType::Line);
    assert_eq!(kinds, vec![DrawElementType::Line, DrawElementType::Arrow]);
}

#[test]
fn a_bucket_paints_solid() {
    assert_eq!(paint_fill_style(FillStyle::Hachure), FillStyle::Solid);
    assert_eq!(paint_fill_style(FillStyle::CrossHatch), FillStyle::Solid);
    assert_eq!(paint_fill_style(FillStyle::Solid), FillStyle::Solid);
    assert_eq!(paint_fill_style(FillStyle::Zigzag), FillStyle::Zigzag);
}

#[test]
fn a_region_belongs_where_every_wall_agrees() {
    let f = |s: &str| Some(s.to_string());
    assert_eq!(shared_among(&[f("frame"), f("frame")]), f("frame"));
    assert_eq!(shared_among(&[f("frame"), f("other")]), None);
    assert_eq!(shared_among(&[f("frame"), None]), None);
    assert_eq!(shared_among(&[None, None]), None);
    assert_eq!(shared_among(&[]), None);
}

#[test]
fn cursor_codes_are_fixed() {
    assert_eq!(HoverCursor::Default.code(), 0);
    assert_eq!(HoverCursor::Move.code(), 1);
    assert_eq!(HoverCursor::ResizeNwse.code(), 5);
    assert_eq!(HoverCursor::Grab.code(), 6);
    assert_eq!(HoverCursor::Text.code(), 10);
}

#[test]
fn a_value_is_shown_only_where_every_one_agrees() {
    let mut agree: Common<u8> = Common::new();
    for v in [3, 3, 3] {
        agree.add(v);
    }
    assert_eq!(agree.get(), Some(3));
    let mut disagree: Common<u8> = Common::new();
    for v in [3, 4, 3] {
        disagree.add(v);
    }
    assert_eq!(disagree.get(), None);
}
