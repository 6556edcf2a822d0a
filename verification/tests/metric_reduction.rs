use typesetter::metrics::{metrics_from_glyphs, GlyphPos, MetricCache, BoxMetrics};

fn glyph(x_advance: i64, y_advance: i64, x_offset: i64, y_offset: i64) -> GlyphPos {
    GlyphPos { x_advance, y_advance, x_offset, y_offset }
}

#[test]
fn advances_are_summed_and_offsets_maxed() {
    let glyphs = vec![glyph(100, 2, 7, -3), glyph(-20, 5, 30, 1), glyph(30, 0, 12, 0)];
    let m = metrics_from_glyphs(&glyphs);
    assert_eq!(m.width, 110);
    assert_eq!(m.height, 7);
    assert_eq!(m.x_offset, 30);
    assert_eq!(m.y_offset, 1);
}

#[test]
fn offsets_never_fall_below_zero() {
    let glyphs = vec![glyph(64, 0, -5, -9)];
    let m = metrics_from_glyphs(&glyphs);
    assert_eq!(m.width, 64);
    assert_eq!(m.x_offset, 0);
    assert_eq!(m.y_offset, 0);
}

#[test]
fn no_glyphs_yield_zero_metrics() {
    let m = metrics_from_glyphs(&Vec::new());
    assert_eq!(m.width, 0);
    assert_eq!(m.height, 0);
    assert_eq!(m.x_offset, 0);
    assert_eq!(m.y_offset, 0);
}

#[test]
fn cache_remembers_measurements() {
    let mut cache = MetricCache::new();
    let ab: Vec<char> = "ab".chars().collect();
    let cd: Vec<char> = "cd".chars().collect();
    assert!(cache.lookup(&ab).is_none());
    let m = BoxMetrics { width: 640, height: 0, x_offset: 1, y_offset: 2 };
    cache.insert(ab.clone(), Some(m));
    let hit = cache.lookup(&ab).unwrap().unwrap();
    assert_eq!(hit.width, 640);
    assert_eq!(hit.x_offset, 1);
    assert!(cache.lookup(&cd).is_none());
}

#[test]
fn cache_remembers_failed_measurements() {
    let mut cache = MetricCache::new();
    let key: Vec<char> = "無".chars().collect();
    cache.insert(key.clone(), None);
    assert!(matches!(cache.lookup(&key), Some(None)));
}
