//! Tests of the six codecs: exact encodings of a small document, round
//! trips through every format, the lossy icon mapping of the outline
//! exchange format, escaping, and malformed input.

use mindmap_core::codecs;
use mindmap_core::errors::MapError;
use mindmap_core::model::MindMap;

/// A document with two levels, icons, and text that needs escaping.
fn sample() -> MindMap {
    let mut m = MindMap::new();
    m.change_node(0, "Root <&> \"q\"".to_string()).unwrap();
    let a = m.add_child(0, "Alpha".to_string()).unwrap();
    let _b = m.add_child(0, "Beta".to_string()).unwrap();
    let a1 = m.add_child(a, "A1".to_string()).unwrap();
    m.add_icon(a, "star".to_string()).unwrap();
    m.add_icon(a, "flag".to_string()).unwrap();
    m.add_icon(a1, "bolt".to_string()).unwrap();
    m
}

/// The two documents hold the same tree below the two given nodes
/// (texts, icons, and child shape); geometry and identities may differ.
fn assert_same_tree(x: &MindMap, xid: usize, y: &MindMap, yid: usize) {
    assert_eq!(
        x.node_text(xid).unwrap().as_str(),
        y.node_text(yid).unwrap().as_str()
    );
    let xi = x.node_icons(xid).unwrap();
    let yi = y.node_icons(yid).unwrap();
    assert_eq!(xi.len(), yi.len());
    for k in 0..xi.len() {
        assert_eq!(xi[k].as_str(), yi[k].as_str());
    }
    let xc = x.node_children(xid).unwrap();
    let yc = y.node_children(yid).unwrap();
    assert_eq!(xc.len(), yc.len());
    for k in 0..xc.len() {
        assert_same_tree(x, xc[k], y, yc[k]);
    }
}

fn icon_count(m: &MindMap, id: usize) -> usize {
    let mut n = m.node_icons(id).unwrap().len();
    for c in m.node_children(id).unwrap() {
        n += icon_count(m, c);
    }
    n
}

#[test]
fn freemind_exact_encoding() {
    let mut m = MindMap::new();
    m.change_node(0, "Hi".to_string()).unwrap();
    let a = m.add_child(0, "A&B".to_string()).unwrap();
    m.add_icon(a, "star".to_string()).unwrap();
    let s = codecs::to_xml(&m).unwrap();
    assert_eq!(
        s,
        "<map version=\"1.0\"><node TEXT=\"Hi\"><node TEXT=\"A&amp;B\">\
         <icon BUILTIN=\"star\"/></node></node></map>"
    );
}

#[test]
fn mindnode_exact_encoding_is_json_shaped() {
    let mut m = MindMap::new();
    m.change_node(0, "r".to_string()).unwrap();
    let a = m.add_child(0, "a".to_string()).unwrap();
    m.add_icon(a, "i1".to_string()).unwrap();
    m.add_icon(a, "i2".to_string()).unwrap();
    let _b = m.add_child(0, "b".to_string()).unwrap();
    let s = codecs::to_mindnode(&m).unwrap();
    assert_eq!(
        s,
        "{\"format\":\"mindnode\",\"root\":{\"title\":\"r\",\"icons\":[],\"children\":[\
         {\"title\":\"a\",\"icons\":[\"i1\",\"i2\"],\"children\":[]},\
         {\"title\":\"b\",\"icons\":[],\"children\":[]}]}}"
    );
}

#[test]
fn freemind_round_trip() {
    let m = sample();
    let s = codecs::to_xml(&m).unwrap();
    let back = codecs::from_xml(&s).unwrap();
    assert_same_tree(&m, 0, &back, 0);
}

#[test]
fn xmind_round_trip() {
    let m = sample();
    let s = codecs::to_xmind(&m).unwrap();
    let back = codecs::from_xmind(&s).unwrap();
    assert_same_tree(&m, 0, &back, 0);
}

#[test]
fn mmap_round_trip() {
    let m = sample();
    let s = codecs::to_mmap(&m).unwrap();
    let back = codecs::from_mmap(&s).unwrap();
    assert_same_tree(&m, 0, &back, 0);
}

#[test]
fn mindnode_round_trip() {
    let m = sample();
    let s = codecs::to_mindnode(&m).unwrap();
    let back = codecs::from_mindnode(&s).unwrap();
    assert_same_tree(&m, 0, &back, 0);
}

#[test]
fn smmx_round_trip() {
    let m = sample();
    let s = codecs::to_smmx(&m).unwrap();
    let back = codecs::from_smmx(&s).unwrap();
    assert_same_tree(&m, 0, &back, 0);
}

#[test]
fn opml_round_trip_drops_icons_deterministically() {
    let m = sample();
    let s = codecs::to_opml(&m).unwrap();
    let back = codecs::from_opml(&s).unwrap();
    // Texts and shape survive; every icon is gone.
    assert_eq!(back.node_text(0).unwrap().as_str(), "Root <&> \"q\"");
    assert_eq!(back.node_children(0).unwrap().len(), 2);
    assert_eq!(icon_count(&back, 0), 0);
    assert!(icon_count(&m, 0) > 0);
    // Without icons the round trip is exact.
    let mut plain = MindMap::new();
    plain.change_node(0, "only text".to_string()).unwrap();
    let _ = plain.add_child(0, "child".to_string()).unwrap();
    let s2 = codecs::to_opml(&plain).unwrap();
    let back2 = codecs::from_opml(&s2).unwrap();
    assert_same_tree(&plain, 0, &back2, 0);
}

#[test]
fn escaping_survives_hostile_text() {
    let mut m = MindMap::new();
    m.change_node(0, "&amp; <node TEXT=\"x\"> \\ &quot; > <".to_string()).unwrap();
    let a = m.add_child(0, "\"/><icon BUILTIN=\"evil\"/>".to_string()).unwrap();
    m.add_icon(a, "<>&\"".to_string()).unwrap();
    let s = codecs::to_xml(&m).unwrap();
    let back = codecs::from_xml(&s).unwrap();
    assert_same_tree(&m, 0, &back, 0);
    let j = codecs::to_mindnode(&m).unwrap();
    let back2 = codecs::from_mindnode(&j).unwrap();
    assert_same_tree(&m, 0, &back2, 0);
}

#[test]
fn unicode_text_survives() {
    let mut m = MindMap::new();
    m.change_node(0, "Grüße 漢字 🚀".to_string()).unwrap();
    let s = codecs::to_xml(&m).unwrap();
    let back = codecs::from_xml(&s).unwrap();
    assert_same_tree(&m, 0, &back, 0);
}

#[test]
fn empty_document_round_trips_through_every_format() {
    let m = MindMap::new();
    assert_same_tree(&m, 0, &codecs::from_xml(&codecs::to_xml(&m).unwrap()).unwrap(), 0);
    assert_same_tree(&m, 0, &codecs::from_xmind(&codecs::to_xmind(&m).unwrap()).unwrap(), 0);
    assert_same_tree(&m, 0, &codecs::from_opml(&codecs::to_opml(&m).unwrap()).unwrap(), 0);
    assert_same_tree(&m, 0, &codecs::from_mmap(&codecs::to_mmap(&m).unwrap()).unwrap(), 0);
    assert_same_tree(
        &m,
        0,
        &codecs::from_mindnode(&codecs::to_mindnode(&m).unwrap()).unwrap(),
        0,
    );
    assert_same_tree(&m, 0, &codecs::from_smmx(&codecs::to_smmx(&m).unwrap()).unwrap(), 0);
}

#[test]
fn malformed_input_is_a_decode_error() {
    assert!(matches!(codecs::from_xml(""), Err(MapError::DecodeError(_))));
    assert!(matches!(
        codecs::from_xml("<map version=\"1.0\"><node TEXT=\"unclosed"),
        Err(MapError::DecodeError(_))
    ));
    assert!(matches!(
        codecs::from_xml("<map version=\"1.0\"><node TEXT=\"a\"></node></map>junk"),
        Err(MapError::DecodeError(_))
    ));
    assert!(matches!(
        codecs::from_xml("<map version=\"1.0\"><node TEXT=\"bad &entity;\"></node></map>"),
        Err(MapError::DecodeError(_))
    ));
    assert!(matches!(
        codecs::from_mindnode("{\"format\":\"mindnode\",\"root\":"),
        Err(MapError::DecodeError(_))
    ));
}

#[test]
fn smmx_zip_variant_is_refused() {
    let mut bytes = vec![0x50u8, 0x4b, 0x03, 0x04];
    bytes.extend_from_slice(b"rest of a zip archive");
    assert!(matches!(
        codecs::from_smmx_bytes(&bytes),
        Err(MapError::UnsupportedVariant)
    ));
}

#[test]
fn smmx_plain_bytes_decode() {
    let m = sample();
    let s = codecs::to_smmx(&m).unwrap();
    let back = codecs::from_smmx_bytes(s.as_bytes()).unwrap();
    assert_same_tree(&m, 0, &back, 0);
}

#[test]
fn invalid_utf8_is_a_decode_error() {
    let bytes = vec![b'<', 0xffu8, 0xfe, b'>'];
    assert!(matches!(
        codecs::from_smmx_bytes(&bytes),
        Err(MapError::DecodeError(_))
    ));
}
