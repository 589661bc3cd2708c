use entity_store::summarize_callstack;

#[test]
fn summarize_known_sites_in_table_order() {
    let stack = "at std::collections::hash::map::HashMap<K,V,S>::insert\nat re_data_store::DataStore>::insert\nat gltf::import";
    assert_eq!(summarize_callstack(stack), "DataStore, gltf, HashMap");
}

#[test]
fn summarize_repeated_pattern_appears_twice() {
    assert_eq!(summarize_callstack("re_entity_db::EntityDb::add"), "EntityDb, EntityDb");
}

#[test]
fn summarize_maps_pattern_to_label() {
    assert_eq!(summarize_callstack("epaint::texture_atlas::TextureAtlas::new"), "egui font texture");
    assert_eq!(summarize_callstack("image::image::decode"), "image");
}

#[test]
fn summarize_nothing_known() {
    assert_eq!(summarize_callstack("main"), "");
    assert_eq!(summarize_callstack(""), "");
}
