use egui::{ColorImage, Context, TextureHandle, TextureOptions};
use tree_pdf_viewer::cache::TextureCache;

fn texture(ctx: &Context, name: &str) -> TextureHandle {
    ctx.load_texture(name, ColorImage::example(), TextureOptions::LINEAR)
}

#[test]
fn get_returns_what_insert_stored() {
    let ctx = Context::default();
    let mut cache = TextureCache::new(3);
    assert!(cache.get("page_0").is_none());
    let t = texture(&ctx, "page_0");
    let id = t.id();
    cache.insert("page_0".to_string(), t);
    assert_eq!(cache.get("page_0").map(|h| h.id()), Some(id));
}

#[test]
fn full_cache_drops_least_recently_used() {
    let ctx = Context::default();
    let mut cache = TextureCache::new(2);
    cache.insert("a".to_string(), texture(&ctx, "a"));
    cache.insert("b".to_string(), texture(&ctx, "b"));
    assert!(cache.get("a").is_some());
    cache.insert("c".to_string(), texture(&ctx, "c"));
    assert!(cache.get("b").is_none());
    assert!(cache.get("a").is_some());
    assert!(cache.get("c").is_some());
}

#[test]
fn reinserting_a_key_replaces_without_eviction() {
    let ctx = Context::default();
    let mut cache = TextureCache::new(2);
    cache.insert("a".to_string(), texture(&ctx, "a1"));
    cache.insert("b".to_string(), texture(&ctx, "b"));
    let newer = texture(&ctx, "a2");
    let id = newer.id();
    cache.insert("a".to_string(), newer);
    assert_eq!(cache.get("a").map(|h| h.id()), Some(id));
    assert!(cache.get("b").is_some());
}

#[test]
fn clear_empties() {
    let ctx = Context::default();
    let mut cache = TextureCache::new(5);
    cache.insert("a".to_string(), texture(&ctx, "a"));
    cache.clear();
    assert!(cache.get("a").is_none());
}
