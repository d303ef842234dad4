//! The six interchange codecs, one encode/decode pair per format. Each is
//! an instantiation of the shared skeleton with that format's fixed
//! strings, together with its round-trip law.
//!
//! - `to_xml` / `from_xml`: the default tagged-XML outline format (`.mm`).
//! - `to_xmind` / `from_xmind`: an XML mind-map format (`.xmind`).
//! - `to_opml` / `from_opml`: an XML outline-exchange format (`.opml`);
//!   it carries no icons, which are dropped deterministically on encode.
//! - `to_mmap` / `from_mmap`: a namespaced XML tree format (`.mmap`).
//! - `to_mindnode` / `from_mindnode`: a JSON-like node-graph format
//!   (`.mindnode`).
//! - `to_smmx` / `from_smmx`: an XML outline format (`.smmx`) that also
//!   exists as a zip archive; the zip sub-variant is recognized by its
//!   magic bytes and refused as unsupported.

use vstd::prelude::*;

use crate::chars::chars_to_string;
use crate::chars::str_to_chars;
use crate::errors::MapError;
use crate::model::MindMap;
use crate::textcodec::carried;
use crate::textcodec::dv;
use crate::textcodec::enc_doc;
use crate::textcodec::encode_document;
use crate::textcodec::lemma_doc_inv;
use crate::textcodec::parse_document;
use crate::textcodec::sp_doc;
use crate::textcodec::wf_dialect;
use crate::textcodec::Dialect;
use crate::textcodec::DialectV;
use crate::tree::TreeV;

verus! {

// ------------------------------------------------------------------
// Shared pieces.
// ------------------------------------------------------------------

/// Decode a document in dialect `d` from text: parse the tree, then build
/// a fresh laid-out document around it. A malformed input is reported with
/// the offset at which reading stopped; nothing is silently dropped.
fn decode_with(d: &Dialect, s: &str) -> (r: Result<MindMap, MapError>)
    ensures
        match sp_doc(dv(*d), s@) {
            Some(t) => (r matches Ok(m) && m.wf() && m.geom_ok() && m.selected == 0 && m.subtree(0)
                == t),
            None => (r matches Err(e) && e is DecodeError),
        },
{
    let v = str_to_chars(s);
    match parse_document(d, &v) {
        Ok(tn) => Ok(MindMap::from_tree(&tn)),
        Err(e) => Err(MapError::DecodeError(e)),
    }
}

/// Encode a document in dialect `d`: its tree content, written out.
fn encode_with(d: &Dialect, m: &MindMap) -> (r: String)
    requires
        m.wf(),
    ensures
        r@ == enc_doc(dv(*d), m.subtree(0)),
{
    let t = m.to_tree(0);
    let out = encode_document(d, &t);
    chars_to_string(&out)
}

/// Whether a byte sequence starts with the zip local-file-header magic
/// bytes `PK\x03\x04`: the mark of the zip-packaged sub-variant.
pub open spec fn is_zip_magic(b: Seq<u8>) -> bool {
    b.len() >= 4 && b[0] == 0x50u8 && b[1] == 0x4bu8 && b[2] == 0x03u8 && b[3] == 0x04u8
}

/// Sniff raw file bytes for the zip local-file-header magic.
pub fn sniff_zip(data: &[u8]) -> (r: bool)
    ensures
        r == is_zip_magic(data@),
{
    data.len() >= 4 && data[0] == 0x50 && data[1] == 0x4b && data[2] == 0x03 && data[3] == 0x04
}

/// The characters that a byte sequence decodes to under UTF-8, or nothing
/// when it is not valid UTF-8. A function of the bytes alone.
pub uninterp spec fn utf8_chars(b: Seq<u8>) -> Option<Seq<char>>;

/// Relies on `core::str::from_utf8`: whether bytes are valid UTF-8, and
/// which characters they decode to, depend on the bytes alone.
#[verifier::external_body]
pub fn bytes_to_str(b: &[u8]) -> (r: Option<&str>)
    ensures
        r is Some <==> utf8_chars(b@) is Some,
        (r matches Some(s) ==> s@ == utf8_chars(b@)->Some_0),
{
    core::str::from_utf8(b).ok()
}

// ------------------------------------------------------------------
// The default tagged-XML outline format (.mm).
// ------------------------------------------------------------------

/// The fixed strings of the default outline-XML format.
pub open spec fn mm_dialect() -> DialectV {
    DialectV {
        header: "<map version=\"1.0\">"@,
        footer: "</map>"@,
        node_open: "<node TEXT=\""@,
        text_close: "\">"@,
        icon_open: "<icon BUILTIN=\""@,
        icon_close: "\"/>"@,
        icon_next: "<icon BUILTIN=\""@,
        pre_children: ""@,
        node_close: "</node>"@,
        child_next: ""@,
        icons_carried: true,
    }
}

/// The default outline-XML dialect keeps the grammar unambiguous.
pub proof fn lemma_mm_dialect_wf()
    ensures
        wf_dialect(mm_dialect()),
{
    reveal_strlit("<node TEXT=\"");
    reveal_strlit("\">");
    reveal_strlit("<icon BUILTIN=\"");
    reveal_strlit("\"/>");
    reveal_strlit("");
    reveal_strlit("</node>");
    let d = mm_dialect();
    assert(d.pre_children.len() == 0);
    assert(d.child_next.len() == 0);
    assert(crate::textcodec::differs_within(d.icon_open, d.pre_children + d.node_open)) by {
        assert((d.pre_children + d.node_open)[1] == 'n');
        assert(d.icon_open[1] == 'i');
    }
    assert(crate::textcodec::differs_within(d.icon_open, d.pre_children + d.node_close)) by {
        assert((d.pre_children + d.node_close)[1] == '/');
        assert(d.icon_open[1] == 'i');
    }
    assert(crate::textcodec::differs_within(d.icon_next, d.pre_children + d.node_open)) by {
        assert((d.pre_children + d.node_open)[1] == 'n');
        assert(d.icon_next[1] == 'i');
    }
    assert(crate::textcodec::differs_within(d.icon_next, d.pre_children + d.node_close)) by {
        assert((d.pre_children + d.node_close)[1] == '/');
        assert(d.icon_next[1] == 'i');
    }
    assert(crate::textcodec::differs_within(d.node_open, d.node_close)) by {
        assert(d.node_open[1] == 'n');
        assert(d.node_close[1] == '/');
    }
    assert(crate::textcodec::differs_within(d.child_next + d.node_open, d.node_close)) by {
        assert((d.child_next + d.node_open)[1] == 'n');
        assert(d.node_close[1] == '/');
    }
}

/// The run-time strings of the default outline-XML format.
fn mm_dialect_exec() -> (d: Dialect)
    ensures
        dv(d) == mm_dialect(),
        wf_dialect(dv(d)),
{
    let d = Dialect {
        header: "<map version=\"1.0\">",
        footer: "</map>",
        node_open: "<node TEXT=\"",
        text_close: "\">",
        icon_open: "<icon BUILTIN=\"",
        icon_close: "\"/>",
        icon_next: "<icon BUILTIN=\"",
        pre_children: "",
        node_close: "</node>",
        child_next: "",
        icons_carried: true,
    };
    proof {
        assert(dv(d) =~~= mm_dialect());
        lemma_mm_dialect_wf();
    }
    d
}

/// Write a document in the default outline-XML format. Every document can
/// be represented, so this never fails.
pub fn to_xml(m: &MindMap) -> (r: Result<String, MapError>)
    requires
        m.wf(),
    ensures
        r matches Ok(s) && s@ == enc_doc(mm_dialect(), m.subtree(0)),
{
    Ok(encode_with(&mm_dialect_exec(), m))
}

/// Read a document in the default outline-XML format.
pub fn from_xml(s: &str) -> (r: Result<MindMap, MapError>)
    ensures
        match sp_doc(mm_dialect(), s@) {
            Some(t) => (r matches Ok(m) && m.wf() && m.geom_ok() && m.selected == 0 && m.subtree(0)
                == t),
            None => (r matches Err(e) && e is DecodeError),
        },
{
    decode_with(&mm_dialect_exec(), s)
}

/// Decoding inverts encoding in the default outline-XML format: every tree
/// comes back exactly, icons included.
pub proof fn lemma_xml_round_trip(t: TreeV)
    ensures
        sp_doc(mm_dialect(), enc_doc(mm_dialect(), t)) == Some(t),
{
    lemma_mm_dialect_wf();
    lemma_doc_inv(mm_dialect(), t);
}


// ------------------------------------------------------------------
// An XML mind-map format (.xmind).
// ------------------------------------------------------------------

/// The fixed strings of the xmind format.
pub open spec fn xmind_dialect() -> DialectV {
    DialectV {
        header: "<xmap-content version=\"2.0\"><sheet>"@,
        footer: "</sheet></xmap-content>"@,
        node_open: "<topic title=\""@,
        text_close: "\">"@,
        icon_open: "<marker-ref marker-id=\""@,
        icon_close: "\"/>"@,
        icon_next: "<marker-ref marker-id=\""@,
        pre_children: "<children>"@,
        node_close: "</children></topic>"@,
        child_next: ""@,
        icons_carried: true,
    }
}

/// The xmind dialect keeps the grammar unambiguous.
pub proof fn lemma_xmind_dialect_wf()
    ensures
        wf_dialect(xmind_dialect()),
{
    reveal_strlit("");
    reveal_strlit("</children></topic>");
    reveal_strlit("</sheet></xmap-content>");
    reveal_strlit("<children>");
    reveal_strlit("<marker-ref marker-id=\"");
    reveal_strlit("<topic title=\"");
    reveal_strlit("<xmap-content version=\"2.0\"><sheet>");
    reveal_strlit("\"/>");
    reveal_strlit("\">");
    let d = xmind_dialect();
    assert(crate::textcodec::differs_within(d.icon_open, d.pre_children + d.node_open)) by {
        assert((d.pre_children + d.node_open)[1] == 'c');
        assert(d.icon_open[1] == 'm');
    }
    assert(crate::textcodec::differs_within(d.icon_open, d.pre_children + d.node_close)) by {
        assert((d.pre_children + d.node_close)[1] == 'c');
        assert(d.icon_open[1] == 'm');
    }
    assert(crate::textcodec::differs_within(d.icon_next, d.pre_children + d.node_open)) by {
        assert((d.pre_children + d.node_open)[1] == 'c');
        assert(d.icon_next[1] == 'm');
    }
    assert(crate::textcodec::differs_within(d.icon_next, d.pre_children + d.node_close)) by {
        assert((d.pre_children + d.node_close)[1] == 'c');
        assert(d.icon_next[1] == 'm');
    }
    assert(crate::textcodec::differs_within(d.node_open, d.node_close)) by {
        assert(d.node_close[1] == '/');
        assert((d.node_open)[1] == 't');
    }
    assert(crate::textcodec::differs_within(d.child_next + d.node_open, d.node_close)) by {
        assert(d.node_close[1] == '/');
        assert((d.child_next + d.node_open)[1] == 't');
    }
}

/// The run-time strings of the xmind format.
fn xmind_dialect_exec() -> (d: Dialect)
    ensures
        dv(d) == xmind_dialect(),
        wf_dialect(dv(d)),
{
    let d = Dialect {
        header: "<xmap-content version=\"2.0\"><sheet>",
        footer: "</sheet></xmap-content>",
        node_open: "<topic title=\"",
        text_close: "\">",
        icon_open: "<marker-ref marker-id=\"",
        icon_close: "\"/>",
        icon_next: "<marker-ref marker-id=\"",
        pre_children: "<children>",
        node_close: "</children></topic>",
        child_next: "",
        icons_carried: true,
    };
    proof {
        assert(dv(d) =~~= xmind_dialect());
        lemma_xmind_dialect_wf();
    }
    d
}

/// Write a document in the xmind format. Every document can be
/// represented, so this never fails.
pub fn to_xmind(m: &MindMap) -> (r: Result<String, MapError>)
    requires
        m.wf(),
    ensures
        r matches Ok(s) && s@ == enc_doc(xmind_dialect(), m.subtree(0)),
{
    Ok(encode_with(&xmind_dialect_exec(), m))
}

/// Read a document in the xmind format.
pub fn from_xmind(s: &str) -> (r: Result<MindMap, MapError>)
    ensures
        match sp_doc(xmind_dialect(), s@) {
            Some(t) => (r matches Ok(m) && m.wf() && m.geom_ok() && m.selected == 0 && m.subtree(0)
                == t),
            None => (r matches Err(e) && e is DecodeError),
        },
{
    decode_with(&xmind_dialect_exec(), s)
}

/// Decoding inverts encoding in the xmind format: every tree
/// comes back exactly, icons included.
pub proof fn lemma_xmind_round_trip(t: TreeV)
    ensures
        sp_doc(xmind_dialect(), enc_doc(xmind_dialect(), t)) == Some(t),
{
    lemma_xmind_dialect_wf();
    lemma_doc_inv(xmind_dialect(), t);
}

// ------------------------------------------------------------------
// An XML outline-exchange format (.opml): it carries no icons, so icons are dropped deterministically on encode.
// ------------------------------------------------------------------

/// The fixed strings of the opml format.
pub open spec fn opml_dialect() -> DialectV {
    DialectV {
        header: "<opml version=\"2.0\"><head></head><body>"@,
        footer: "</body></opml>"@,
        node_open: "<outline text=\""@,
        text_close: "\">"@,
        icon_open: "<icon t=\""@,
        icon_close: "\"/>"@,
        icon_next: "<icon t=\""@,
        pre_children: ""@,
        node_close: "</outline>"@,
        child_next: ""@,
        icons_carried: false,
    }
}

/// The opml dialect keeps the grammar unambiguous.
pub proof fn lemma_opml_dialect_wf()
    ensures
        wf_dialect(opml_dialect()),
{
    reveal_strlit("");
    reveal_strlit("</body></opml>");
    reveal_strlit("</outline>");
    reveal_strlit("<icon t=\"");
    reveal_strlit("<opml version=\"2.0\"><head></head><body>");
    reveal_strlit("<outline text=\"");
    reveal_strlit("\"/>");
    reveal_strlit("\">");
    let d = opml_dialect();
    assert(crate::textcodec::differs_within(d.icon_open, d.pre_children + d.node_open)) by {
        assert((d.pre_children + d.node_open)[1] == 'o');
        assert(d.icon_open[1] == 'i');
    }
    assert(crate::textcodec::differs_within(d.icon_open, d.pre_children + d.node_close)) by {
        assert((d.pre_children + d.node_close)[1] == '/');
        assert(d.icon_open[1] == 'i');
    }
    assert(crate::textcodec::differs_within(d.icon_next, d.pre_children + d.node_open)) by {
        assert((d.pre_children + d.node_open)[1] == 'o');
        assert(d.icon_next[1] == 'i');
    }
    assert(crate::textcodec::differs_within(d.icon_next, d.pre_children + d.node_close)) by {
        assert((d.pre_children + d.node_close)[1] == '/');
        assert(d.icon_next[1] == 'i');
    }
    assert(crate::textcodec::differs_within(d.node_open, d.node_close)) by {
        assert(d.node_close[1] == '/');
        assert((d.node_open)[1] == 'o');
    }
    assert(crate::textcodec::differs_within(d.child_next + d.node_open, d.node_close)) by {
        assert(d.node_close[1] == '/');
        assert((d.child_next + d.node_open)[1] == 'o');
    }
}

/// The run-time strings of the opml format.
fn opml_dialect_exec() -> (d: Dialect)
    ensures
        dv(d) == opml_dialect(),
        wf_dialect(dv(d)),
{
    let d = Dialect {
        header: "<opml version=\"2.0\"><head></head><body>",
        footer: "</body></opml>",
        node_open: "<outline text=\"",
        text_close: "\">",
        icon_open: "<icon t=\"",
        icon_close: "\"/>",
        icon_next: "<icon t=\"",
        pre_children: "",
        node_close: "</outline>",
        child_next: "",
        icons_carried: false,
    };
    proof {
        assert(dv(d) =~~= opml_dialect());
        lemma_opml_dialect_wf();
    }
    d
}

/// Write a document in the opml format. Every document can be
/// represented, so this never fails.
pub fn to_opml(m: &MindMap) -> (r: Result<String, MapError>)
    requires
        m.wf(),
    ensures
        r matches Ok(s) && s@ == enc_doc(opml_dialect(), m.subtree(0)),
{
    Ok(encode_with(&opml_dialect_exec(), m))
}

/// Read a document in the opml format.
pub fn from_opml(s: &str) -> (r: Result<MindMap, MapError>)
    ensures
        match sp_doc(opml_dialect(), s@) {
            Some(t) => (r matches Ok(m) && m.wf() && m.geom_ok() && m.selected == 0 && m.subtree(0)
                == t),
            None => (r matches Err(e) && e is DecodeError),
        },
{
    decode_with(&opml_dialect_exec(), s)
}

/// Decoding inverts encoding in the opml format: every tree comes
/// back with its icons erased (the format carries none); a tree without
/// icons comes back exactly.
pub proof fn lemma_opml_round_trip(t: TreeV)
    ensures
        sp_doc(opml_dialect(), enc_doc(opml_dialect(), t)) == Some(t.erase_icons()),
{
    lemma_opml_dialect_wf();
    lemma_doc_inv(opml_dialect(), t);
}

/// The lossless special case of the opml round trip: a tree that uses no
/// icons is reconstructed exactly.
pub proof fn lemma_opml_round_trip_lossless(t: TreeV)
    requires
        t.icon_free(),
    ensures
        sp_doc(opml_dialect(), enc_doc(opml_dialect(), t)) == Some(t),
{
    lemma_opml_round_trip(t);
}

// ------------------------------------------------------------------
// A namespaced XML tree format (.mmap).
// ------------------------------------------------------------------

/// The fixed strings of the mmap format.
pub open spec fn mmap_dialect() -> DialectV {
    DialectV {
        header: "<ap:Map version=\"1.0\">"@,
        footer: "</ap:Map>"@,
        node_open: "<ap:Topic ap:Text=\""@,
        text_close: "\">"@,
        icon_open: "<ap:Icon ap:Name=\""@,
        icon_close: "\"/>"@,
        icon_next: "<ap:Icon ap:Name=\""@,
        pre_children: "<ap:SubTopics>"@,
        node_close: "</ap:SubTopics></ap:Topic>"@,
        child_next: ""@,
        icons_carried: true,
    }
}

/// The mmap dialect keeps the grammar unambiguous.
pub proof fn lemma_mmap_dialect_wf()
    ensures
        wf_dialect(mmap_dialect()),
{
    reveal_strlit("");
    reveal_strlit("</ap:Map>");
    reveal_strlit("</ap:SubTopics></ap:Topic>");
    reveal_strlit("<ap:Icon ap:Name=\"");
    reveal_strlit("<ap:Map version=\"1.0\">");
    reveal_strlit("<ap:SubTopics>");
    reveal_strlit("<ap:Topic ap:Text=\"");
    reveal_strlit("\"/>");
    reveal_strlit("\">");
    let d = mmap_dialect();
    assert(crate::textcodec::differs_within(d.icon_open, d.pre_children + d.node_open)) by {
        assert((d.pre_children + d.node_open)[4] == 'S');
        assert(d.icon_open[4] == 'I');
    }
    assert(crate::textcodec::differs_within(d.icon_open, d.pre_children + d.node_close)) by {
        assert((d.pre_children + d.node_close)[4] == 'S');
        assert(d.icon_open[4] == 'I');
    }
    assert(crate::textcodec::differs_within(d.icon_next, d.pre_children + d.node_open)) by {
        assert((d.pre_children + d.node_open)[4] == 'S');
        assert(d.icon_next[4] == 'I');
    }
    assert(crate::textcodec::differs_within(d.icon_next, d.pre_children + d.node_close)) by {
        assert((d.pre_children + d.node_close)[4] == 'S');
        assert(d.icon_next[4] == 'I');
    }
    assert(crate::textcodec::differs_within(d.node_open, d.node_close)) by {
        assert(d.node_close[1] == '/');
        assert((d.node_open)[1] == 'a');
    }
    assert(crate::textcodec::differs_within(d.child_next + d.node_open, d.node_close)) by {
        assert(d.node_close[1] == '/');
        assert((d.child_next + d.node_open)[1] == 'a');
    }
}

/// The run-time strings of the mmap format.
fn mmap_dialect_exec() -> (d: Dialect)
    ensures
        dv(d) == mmap_dialect(),
        wf_dialect(dv(d)),
{
    let d = Dialect {
        header: "<ap:Map version=\"1.0\">",
        footer: "</ap:Map>",
        node_open: "<ap:Topic ap:Text=\"",
        text_close: "\">",
        icon_open: "<ap:Icon ap:Name=\"",
        icon_close: "\"/>",
        icon_next: "<ap:Icon ap:Name=\"",
        pre_children: "<ap:SubTopics>",
        node_close: "</ap:SubTopics></ap:Topic>",
        child_next: "",
        icons_carried: true,
    };
    proof {
        assert(dv(d) =~~= mmap_dialect());
        lemma_mmap_dialect_wf();
    }
    d
}

/// Write a document in the mmap format. Every document can be
/// represented, so this never fails.
pub fn to_mmap(m: &MindMap) -> (r: Result<String, MapError>)
    requires
        m.wf(),
    ensures
        r matches Ok(s) && s@ == enc_doc(mmap_dialect(), m.subtree(0)),
{
    Ok(encode_with(&mmap_dialect_exec(), m))
}

/// Read a document in the mmap format.
pub fn from_mmap(s: &str) -> (r: Result<MindMap, MapError>)
    ensures
        match sp_doc(mmap_dialect(), s@) {
            Some(t) => (r matches Ok(m) && m.wf() && m.geom_ok() && m.selected == 0 && m.subtree(0)
                == t),
            None => (r matches Err(e) && e is DecodeError),
        },
{
    decode_with(&mmap_dialect_exec(), s)
}

/// Decoding inverts encoding in the mmap format: every tree
/// comes back exactly, icons included.
pub proof fn lemma_mmap_round_trip(t: TreeV)
    ensures
        sp_doc(mmap_dialect(), enc_doc(mmap_dialect(), t)) == Some(t),
{
    lemma_mmap_dialect_wf();
    lemma_doc_inv(mmap_dialect(), t);
}

// ------------------------------------------------------------------
// A JSON-like node-graph format (.mindnode).
// ------------------------------------------------------------------

/// The fixed strings of the mindnode format.
pub open spec fn mindnode_dialect() -> DialectV {
    DialectV {
        header: "{\"format\":\"mindnode\",\"root\":"@,
        footer: "}"@,
        node_open: "{\"title\":\""@,
        text_close: "\",\"icons\":["@,
        icon_open: "\""@,
        icon_close: "\""@,
        icon_next: ",\""@,
        pre_children: "],\"children\":["@,
        node_close: "]}"@,
        child_next: ","@,
        icons_carried: true,
    }
}

/// The mindnode dialect keeps the grammar unambiguous.
pub proof fn lemma_mindnode_dialect_wf()
    ensures
        wf_dialect(mindnode_dialect()),
{
    reveal_strlit(",");
    reveal_strlit(",\"");
    reveal_strlit("\"");
    reveal_strlit("\",\"icons\":[");
    reveal_strlit("],\"children\":[");
    reveal_strlit("]}");
    reveal_strlit("{\"format\":\"mindnode\",\"root\":");
    reveal_strlit("{\"title\":\"");
    reveal_strlit("}");
    let d = mindnode_dialect();
    assert(crate::textcodec::differs_within(d.icon_open, d.pre_children + d.node_open)) by {
        assert((d.pre_children + d.node_open)[0] == ']');
        assert(d.icon_open[0] == '\"');
    }
    assert(crate::textcodec::differs_within(d.icon_open, d.pre_children + d.node_close)) by {
        assert((d.pre_children + d.node_close)[0] == ']');
        assert(d.icon_open[0] == '\"');
    }
    assert(crate::textcodec::differs_within(d.icon_next, d.pre_children + d.node_open)) by {
        assert((d.pre_children + d.node_open)[0] == ']');
        assert(d.icon_next[0] == ',');
    }
    assert(crate::textcodec::differs_within(d.icon_next, d.pre_children + d.node_close)) by {
        assert((d.pre_children + d.node_close)[0] == ']');
        assert(d.icon_next[0] == ',');
    }
    assert(crate::textcodec::differs_within(d.node_open, d.node_close)) by {
        assert(d.node_close[0] == ']');
        assert((d.node_open)[0] == '{');
    }
    assert(crate::textcodec::differs_within(d.child_next + d.node_open, d.node_close)) by {
        assert(d.node_close[0] == ']');
        assert((d.child_next + d.node_open)[0] == ',');
    }
}

/// The run-time strings of the mindnode format.
fn mindnode_dialect_exec() -> (d: Dialect)
    ensures
        dv(d) == mindnode_dialect(),
        wf_dialect(dv(d)),
{
    let d = Dialect {
        header: "{\"format\":\"mindnode\",\"root\":",
        footer: "}",
        node_open: "{\"title\":\"",
        text_close: "\",\"icons\":[",
        icon_open: "\"",
        icon_close: "\"",
        icon_next: ",\"",
        pre_children: "],\"children\":[",
        node_close: "]}",
        child_next: ",",
        icons_carried: true,
    };
    proof {
        assert(dv(d) =~~= mindnode_dialect());
        lemma_mindnode_dialect_wf();
    }
    d
}

/// Write a document in the mindnode format. Every document can be
/// represented, so this never fails.
pub fn to_mindnode(m: &MindMap) -> (r: Result<String, MapError>)
    requires
        m.wf(),
    ensures
        r matches Ok(s) && s@ == enc_doc(mindnode_dialect(), m.subtree(0)),
{
    Ok(encode_with(&mindnode_dialect_exec(), m))
}

/// Read a document in the mindnode format.
pub fn from_mindnode(s: &str) -> (r: Result<MindMap, MapError>)
    ensures
        match sp_doc(mindnode_dialect(), s@) {
            Some(t) => (r matches Ok(m) && m.wf() && m.geom_ok() && m.selected == 0 && m.subtree(0)
                == t),
            None => (r matches Err(e) && e is DecodeError),
        },
{
    decode_with(&mindnode_dialect_exec(), s)
}

/// Decoding inverts encoding in the mindnode format: every tree
/// comes back exactly, icons included.
pub proof fn lemma_mindnode_round_trip(t: TreeV)
    ensures
        sp_doc(mindnode_dialect(), enc_doc(mindnode_dialect(), t)) == Some(t),
{
    lemma_mindnode_dialect_wf();
    lemma_doc_inv(mindnode_dialect(), t);
}

// ------------------------------------------------------------------
// An XML outline format (.smmx) whose zip-packaged sub-variant is refused.
// ------------------------------------------------------------------

/// The fixed strings of the smmx format.
pub open spec fn smmx_dialect() -> DialectV {
    DialectV {
        header: "<simplemind-mindmaps doc-version=\"2\"><mindmap><topics>"@,
        footer: "</topics></mindmap></simplemind-mindmaps>"@,
        node_open: "<topic text=\""@,
        text_close: "\">"@,
        icon_open: "<icon name=\""@,
        icon_close: "\"/>"@,
        icon_next: "<icon name=\""@,
        pre_children: ""@,
        node_close: "</topic>"@,
        child_next: ""@,
        icons_carried: true,
    }
}

/// The smmx dialect keeps the grammar unambiguous.
pub proof fn lemma_smmx_dialect_wf()
    ensures
        wf_dialect(smmx_dialect()),
{
    reveal_strlit("");
    reveal_strlit("</topic>");
    reveal_strlit("</topics></mindmap></simplemind-mindmaps>");
    reveal_strlit("<icon name=\"");
    reveal_strlit("<simplemind-mindmaps doc-version=\"2\"><mindmap><topics>");
    reveal_strlit("<topic text=\"");
    reveal_strlit("\"/>");
    reveal_strlit("\">");
    let d = smmx_dialect();
    assert(crate::textcodec::differs_within(d.icon_open, d.pre_children + d.node_open)) by {
        assert((d.pre_children + d.node_open)[1] == 't');
        assert(d.icon_open[1] == 'i');
    }
    assert(crate::textcodec::differs_within(d.icon_open, d.pre_children + d.node_close)) by {
        assert((d.pre_children + d.node_close)[1] == '/');
        assert(d.icon_open[1] == 'i');
    }
    assert(crate::textcodec::differs_within(d.icon_next, d.pre_children + d.node_open)) by {
        assert((d.pre_children + d.node_open)[1] == 't');
        assert(d.icon_next[1] == 'i');
    }
    assert(crate::textcodec::differs_within(d.icon_next, d.pre_children + d.node_close)) by {
        assert((d.pre_children + d.node_close)[1] == '/');
        assert(d.icon_next[1] == 'i');
    }
    assert(crate::textcodec::differs_within(d.node_open, d.node_close)) by {
        assert(d.node_close[1] == '/');
        assert((d.node_open)[1] == 't');
    }
    assert(crate::textcodec::differs_within(d.child_next + d.node_open, d.node_close)) by {
        assert(d.node_close[1] == '/');
        assert((d.child_next + d.node_open)[1] == 't');
    }
}

/// The run-time strings of the smmx format.
fn smmx_dialect_exec() -> (d: Dialect)
    ensures
        dv(d) == smmx_dialect(),
        wf_dialect(dv(d)),
{
    let d = Dialect {
        header: "<simplemind-mindmaps doc-version=\"2\"><mindmap><topics>",
        footer: "</topics></mindmap></simplemind-mindmaps>",
        node_open: "<topic text=\"",
        text_close: "\">",
        icon_open: "<icon name=\"",
        icon_close: "\"/>",
        icon_next: "<icon name=\"",
        pre_children: "",
        node_close: "</topic>",
        child_next: "",
        icons_carried: true,
    };
    proof {
        assert(dv(d) =~~= smmx_dialect());
        lemma_smmx_dialect_wf();
    }
    d
}

/// Write a document in the smmx format. Every document can be
/// represented, so this never fails.
pub fn to_smmx(m: &MindMap) -> (r: Result<String, MapError>)
    requires
        m.wf(),
    ensures
        r matches Ok(s) && s@ == enc_doc(smmx_dialect(), m.subtree(0)),
{
    Ok(encode_with(&smmx_dialect_exec(), m))
}

/// Read a document in the smmx format.
pub fn from_smmx(s: &str) -> (r: Result<MindMap, MapError>)
    ensures
        match sp_doc(smmx_dialect(), s@) {
            Some(t) => (r matches Ok(m) && m.wf() && m.geom_ok() && m.selected == 0 && m.subtree(0)
                == t),
            None => (r matches Err(e) && e is DecodeError),
        },
{
    decode_with(&smmx_dialect_exec(), s)
}

/// Decoding inverts encoding in the smmx format: every tree
/// comes back exactly, icons included.
pub proof fn lemma_smmx_round_trip(t: TreeV)
    ensures
        sp_doc(smmx_dialect(), enc_doc(smmx_dialect(), t)) == Some(t),
{
    lemma_smmx_dialect_wf();
    lemma_doc_inv(smmx_dialect(), t);
}


/// Read a document from the raw bytes of an `.smmx` file: the zip-packaged
/// physical sub-variant, recognized by its magic bytes, is refused as
/// `UnsupportedVariant` before any textual decode is attempted; plain text
/// goes through the textual smmx reader.
pub fn from_smmx_bytes(data: &[u8]) -> (r: Result<MindMap, MapError>)
    ensures
        is_zip_magic(data@) ==> r == Result::<MindMap, MapError>::Err(
            MapError::UnsupportedVariant,
        ),
        !is_zip_magic(data@) ==> (match utf8_chars(data@) {
            None => (r matches Err(e) && e is DecodeError),
            Some(s) => (match sp_doc(smmx_dialect(), s) {
                Some(t) => (r matches Ok(m) && m.wf() && m.geom_ok() && m.selected == 0
                    && m.subtree(0) == t),
                None => (r matches Err(e) && e is DecodeError),
            }),
        }),
{
    if sniff_zip(data) {
        return Err(MapError::UnsupportedVariant);
    }
    match bytes_to_str(data) {
        Some(s) => from_smmx(s),
        None => Err(MapError::DecodeError(0)),
    }
}


/// The round-trip property at the document level: for a well-formed
/// document, decoding the default outline-XML encoding of its tree content
/// reconstructs exactly that tree content. Identifier assignment, layout
/// geometry and the selection are rebuilt by the decoder rather than
/// carried through the bytes, which is why the statement (like the per-
/// format laws above) speaks of the tree content and not of the arena.
pub proof fn lemma_xml_document_round_trip(m: MindMap)
    requires
        m.wf(),
    ensures
        sp_doc(mm_dialect(), enc_doc(mm_dialect(), m.subtree(0))) == Some(m.subtree(0)),
{
    lemma_xml_round_trip(m.subtree(0));
}

} // verus!
