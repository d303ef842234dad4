//! Tests of the dispatcher and the session: extension routing, the zip
//! sniff, save/load orchestration, the recent-files history, its
//! serialized form, labels, and locking.

use std::sync::Mutex;

use mindmap_core::codecs;
use mindmap_core::dispatch;
use mindmap_core::dispatch::MapFormat;
use mindmap_core::errors::MapError;
use mindmap_core::lock::lock_mutex;
use mindmap_core::model::MindMap;
use mindmap_core::session::format_recent_label;
use mindmap_core::session::push_recent;
use mindmap_core::session::recent_files_from_json;
use mindmap_core::session::recent_files_to_json;
use mindmap_core::session::Session;

#[test]
fn extensions_route_to_their_codecs() {
    assert_eq!(dispatch::format_for_path("mind.xmind"), MapFormat::XMind);
    assert_eq!(dispatch::format_for_path("/a/b/mind.XMIND"), MapFormat::XMind);
    assert_eq!(dispatch::format_for_path("notes.opml"), MapFormat::Opml);
    assert_eq!(dispatch::format_for_path("plan.mmap"), MapFormat::Mmap);
    assert_eq!(dispatch::format_for_path("ideas.MindNode"), MapFormat::MindNode);
    assert_eq!(dispatch::format_for_path("c:\\maps\\x.smmx"), MapFormat::Smmx);
}

#[test]
fn unrecognized_or_missing_extensions_fall_back_to_default() {
    assert_eq!(dispatch::format_for_path("file.unknownext"), MapFormat::FreeMind);
    assert_eq!(dispatch::format_for_path("file"), MapFormat::FreeMind);
    assert_eq!(dispatch::format_for_path("file.mm"), MapFormat::FreeMind);
    assert_eq!(dispatch::format_for_path(""), MapFormat::FreeMind);
    assert_eq!(dispatch::format_for_path("dir.xmind/file"), MapFormat::FreeMind);
    assert_eq!(dispatch::format_for_path("xmind"), MapFormat::FreeMind);
    assert_eq!(dispatch::format_for_path("a.xmindx"), MapFormat::FreeMind);
}

#[test]
fn dispatcher_round_trips_through_every_extension() {
    let mut m = MindMap::new();
    m.change_node(0, "root".to_string()).unwrap();
    let _ = m.add_child(0, "kid".to_string()).unwrap();
    for path in [
        "a.mm",
        "a.xmind",
        "a.opml",
        "a.mmap",
        "a.mindnode",
        "a.smmx",
        "a.unknownext",
    ] {
        let content = dispatch::encode_for_path(path, &m).unwrap();
        let back = dispatch::decode_for_path(path, content.as_bytes()).unwrap();
        assert_eq!(back.node_text(0).unwrap().as_str(), "root");
        assert_eq!(back.node_children(0).unwrap().len(), 1);
    }
}

#[test]
fn scenario_zip_packaged_smmx_leaves_session_unchanged() {
    // Loading a `.smmx` file whose first four bytes are the zip magic
    // fails with `UnsupportedVariant`; document and active path stay as
    // they were.
    let mut s = Session::new();
    let a = s.map.add_child(0, "kept".to_string()).unwrap();
    let data = b"PK\x03\x04zipzipzip".to_vec();
    assert_eq!(s.load_map("broken.smmx", &data), Err(MapError::UnsupportedVariant));
    assert_eq!(s.get_file_path(), &None);
    assert_eq!(s.get_map().node_text(a).unwrap().as_str(), "kept");
}

#[test]
fn scenario_save_without_any_path_fails() {
    // `save(None)` on a session that was never loaded or saved fails with
    // `NoActivePath` and changes nothing.
    let mut s = Session::new();
    assert_eq!(s.prepare_save(None), Err(MapError::NoActivePath));
    assert_eq!(s.get_file_path(), &None);
}

#[test]
fn save_commits_active_path_only_after_the_write() {
    let mut s = Session::new();
    s.map.change_node(0, "content".to_string()).unwrap();
    let (target, text) = s.prepare_save(Some("out.mm".to_string())).unwrap();
    assert_eq!(target.as_str(), "out.mm");
    // Preparing alone changes nothing: a save whose write fails is atomic.
    assert_eq!(s.get_file_path(), &None);
    let back = codecs::from_xml(&text).unwrap();
    assert_eq!(back.node_text(0).unwrap().as_str(), "content");
    // The caller commits the path once the bytes reached the file.
    s.commit_save(&target);
    assert_eq!(s.get_file_path(), &Some("out.mm".to_string()));
    // A later save without a path goes to the recorded one.
    let (target2, _text2) = s.prepare_save(None).unwrap();
    assert_eq!(target2.as_str(), "out.mm");
}

#[test]
fn load_map_replaces_document_and_records_path() {
    let mut m = MindMap::new();
    m.change_node(0, "loaded".to_string()).unwrap();
    let text = codecs::to_opml(&m).unwrap();
    let mut s = Session::new();
    let mut recent: Vec<String> = Vec::new();
    s.load_map("notes.opml", text.as_bytes()).unwrap();
    push_recent(&mut recent, "notes.opml");
    assert_eq!(s.get_map().node_text(0).unwrap().as_str(), "loaded");
    assert_eq!(s.get_file_path(), &Some("notes.opml".to_string()));
    assert_eq!(recent.len(), 1);
    assert_eq!(recent[0].as_str(), "notes.opml");
}

#[test]
fn load_map_failure_changes_nothing() {
    let mut s = Session::new();
    let r = s.load_map("bad.mm", b"this is not a document");
    assert!(matches!(r, Err(MapError::DecodeError(_))));
    assert_eq!(s.get_file_path(), &None);
}

#[test]
fn recent_files_keep_at_most_ten_most_recent() {
    let mut recent: Vec<String> = Vec::new();
    for i in 0..11 {
        push_recent(&mut recent, &format!("/maps/map{i}.mm"));
    }
    assert_eq!(recent.len(), 10);
    assert_eq!(recent[0].as_str(), "/maps/map10.mm");
    assert_eq!(recent[9].as_str(), "/maps/map1.mm");
    // The eleventh distinct path evicted the least recently used one.
    assert!(!recent.iter().any(|p| p == "/maps/map0.mm"));
}

#[test]
fn reusing_a_recent_path_moves_it_to_the_front_without_duplicate() {
    let mut recent: Vec<String> = Vec::new();
    push_recent(&mut recent, "a.mm");
    push_recent(&mut recent, "b.mm");
    push_recent(&mut recent, "c.mm");
    push_recent(&mut recent, "a.mm");
    let views: Vec<&str> = recent.iter().map(|p| p.as_str()).collect();
    assert_eq!(views, vec!["a.mm", "c.mm", "b.mm"]);
}

#[test]
fn recent_files_serialization_round_trips() {
    let paths = vec![
        "/home/u/maps/a.mm".to_string(),
        "b \"quoted\".xmind".to_string(),
        "ünïcode.opml".to_string(),
    ];
    let text = recent_files_to_json(&paths).unwrap();
    let back = recent_files_from_json(&text);
    assert_eq!(back, paths);
    assert_eq!(recent_files_from_json("not json").len(), 0);
    assert_eq!(recent_files_from_json("").len(), 0);
}

#[test]
fn recent_labels_show_file_name_and_path() {
    assert_eq!(format_recent_label("/home/u/plan.mm"), "plan.mm - /home/u/plan.mm");
    assert_eq!(format_recent_label("plan.mm"), "plan.mm - plan.mm");
    assert_eq!(format_recent_label("/ends/with/"), "/ends/with/ - /ends/with/");
    assert_eq!(format_recent_label("c:\\maps\\x.smmx"), "x.smmx - c:\\maps\\x.smmx");
}

#[test]
fn lock_mutex_yields_guard_or_message() {
    let cell = Mutex::new(41i32);
    {
        let mut g = lock_mutex(&cell, "state lock was poisoned").unwrap();
        *g += 1;
    }
    let g = lock_mutex(&cell, "state lock was poisoned").unwrap();
    assert_eq!(*g, 42);
}

#[test]
fn new_map_resets_document_and_clears_path() {
    let mut s = Session::new();
    s.map.add_child(0, "x".to_string()).unwrap();
    s.commit_save("keep.mm");
    assert_eq!(s.get_file_path(), &Some("keep.mm".to_string()));
    s.new_map();
    assert_eq!(s.get_map().node_children(0).unwrap().len(), 0);
    assert_eq!(s.get_file_path(), &None);
}
