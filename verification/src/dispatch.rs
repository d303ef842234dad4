//! The format dispatcher: a pure classification of file paths into the six
//! formats, and the routing of encode/decode requests to the matching
//! codec. Classification looks only at the file extension — the part of
//! the file name after its last dot, compared letter by letter ignoring
//! ASCII case. An unrecognized or missing extension deliberately falls
//! back to the default outline-XML format; it is never an error.

use vstd::prelude::*;
use vstd::string::StrSliceExecFns;

use crate::chars::str_to_chars;
use crate::codecs;
use crate::errors::MapError;
use crate::model::MindMap;
use crate::textcodec::enc_doc;
use crate::textcodec::sp_doc;
use crate::textcodec::DialectV;

verus! {

/// The six supported formats; `FreeMind` is the permissive default.
#[derive(Clone, Copy, Debug, PartialEq, Eq, Structural)]
pub enum MapFormat {
    FreeMind,
    XMind,
    Opml,
    Mmap,
    MindNode,
    Smmx,
}

/// The file-name part of a path: the characters after the last `/` or `\`.
pub open spec fn file_name_of(s: Seq<char>) -> Seq<char>
    decreases s.len(),
{
    if s.len() == 0 {
        Seq::empty()
    } else if s[s.len() - 1] == '/' || s[s.len() - 1] == '\\' {
        Seq::empty()
    } else {
        file_name_of(s.drop_last()).push(s[s.len() - 1])
    }
}

/// The extension of a file name: the characters after its last dot, or
/// nothing when the name has no dot.
pub open spec fn ext_of_name(s: Seq<char>) -> Option<Seq<char>>
    decreases s.len(),
{
    if s.len() == 0 {
        None
    } else if s[s.len() - 1] == '.' {
        Some(Seq::empty())
    } else {
        match ext_of_name(s.drop_last()) {
            Some(e) => Some(e.push(s[s.len() - 1])),
            None => None,
        }
    }
}

/// Whether extension `e` spells the word with lowercase letters `lo` and
/// uppercase letters `up`, each position in either case.
pub open spec fn ext_is(e: Option<Seq<char>>, lo: Seq<char>, up: Seq<char>) -> bool {
    &&& e matches Some(x)
    &&& e->Some_0.len() == lo.len()
    &&& forall|k: int|
        0 <= k < lo.len() ==> (#[trigger] e->Some_0[k] == lo[k] || e->Some_0[k] == up[k])
}

/// The format a path is routed to, from its lowercased extension alone.
pub open spec fn format_of(path: Seq<char>) -> MapFormat {
    let e = ext_of_name(file_name_of(path));
    if ext_is(e, "xmind"@, "XMIND"@) {
        MapFormat::XMind
    } else if ext_is(e, "opml"@, "OPML"@) {
        MapFormat::Opml
    } else if ext_is(e, "mmap"@, "MMAP"@) {
        MapFormat::Mmap
    } else if ext_is(e, "mindnode"@, "MINDNODE"@) {
        MapFormat::MindNode
    } else if ext_is(e, "smmx"@, "SMMX"@) {
        MapFormat::Smmx
    } else {
        MapFormat::FreeMind
    }
}

/// The dialect each format writes and reads.
pub open spec fn dialect_of(f: MapFormat) -> DialectV {
    match f {
        MapFormat::FreeMind => codecs::mm_dialect(),
        MapFormat::XMind => codecs::xmind_dialect(),
        MapFormat::Opml => codecs::opml_dialect(),
        MapFormat::Mmap => codecs::mmap_dialect(),
        MapFormat::MindNode => codecs::mindnode_dialect(),
        MapFormat::Smmx => codecs::smmx_dialect(),
    }
}

/// Whether `x` matches `lo`/`up` at each position, by a scan.
fn region_matches_ci(v: &Vec<char>, from: usize, lo: &str, up: &str) -> (r: bool)
    requires
        from <= v@.len(),
        lo@.len() == up@.len(),
    ensures
        r == ext_is(Some(v@.subrange(from as int, v@.len() as int)), lo@, up@),
{
    let n = lo.unicode_len();
    let vlen = v.len();
    if vlen - from != n {
        return false;
    }
    let mut k: usize = 0;
    while k < n
        invariant
            k <= n,
            n == lo@.len(),
            n == up@.len(),
            from + n == v@.len(),
            v@.len() <= usize::MAX,
            forall|j: int| 0 <= j < k ==> (v@[from + j] == lo@[j] || v@[from + j] == up@[j]),
        decreases n - k,
    {
        let c = v[from + k];
        if c != lo.get_char(k) && c != up.get_char(k) {
            proof {
                assert(v@.subrange(from as int, v@.len() as int)[k as int] == v@[from + k]);
            }
            return false;
        }
        k = k + 1;
    }
    proof {
        assert forall|j: int| 0 <= j < n implies (v@.subrange(from as int, v@.len() as int)[j]
            == lo@[j] || v@.subrange(from as int, v@.len() as int)[j] == up@[j]) by {
            assert(v@.subrange(from as int, v@.len() as int)[j] == v@[from + j]);
        }
    }
    true
}

/// The index at which the file name of `v` starts: just after the last
/// path separator.
pub(crate) fn file_name_start(v: &Vec<char>) -> (i: usize)
    ensures
        i <= v@.len(),
        file_name_of(v@) == v@.subrange(i as int, v@.len() as int),
{
    let n = v.len();
    let mut i: usize = n;
    proof {
        assert(v@.subrange(0, n as int) =~= v@);
        assert(v@.subrange(n as int, n as int) =~= Seq::<char>::empty());
        assert(file_name_of(v@) + Seq::<char>::empty() =~= file_name_of(v@));
    }
    while i > 0 && v[i - 1] != '/' && v[i - 1] != '\\'
        invariant
            i <= n,
            n == v@.len(),
            file_name_of(v@) == file_name_of(v@.subrange(0, i as int)) + v@.subrange(
                i as int,
                n as int,
            ),
        decreases i,
    {
        proof {
            let pre = v@.subrange(0, i as int);
            assert(pre.drop_last() =~= v@.subrange(0, i - 1));
            assert(file_name_of(pre) == file_name_of(v@.subrange(0, i - 1)).push(v@[i - 1]));
            assert(file_name_of(v@.subrange(0, i - 1)).push(v@[i - 1]) + v@.subrange(
                i as int,
                n as int,
            ) =~= file_name_of(v@.subrange(0, i - 1)) + v@.subrange(i - 1, n as int));
        }
        i = i - 1;
    }
    proof {
        if i > 0 {
            assert(file_name_of(v@.subrange(0, i as int)) =~= Seq::<char>::empty());
        } else {
            assert(v@.subrange(0, 0) =~= Seq::<char>::empty());
            assert(file_name_of(v@.subrange(0, 0)) =~= Seq::<char>::empty());
        }
        assert(file_name_of(v@) =~= v@.subrange(i as int, n as int));
    }
    i
}

/// Classify a path: find the file name, then its extension, then compare
/// against the five recognized extensions; anything else is the default.
pub fn format_for_path(path: &str) -> (f: MapFormat)
    ensures
        f == format_of(path@),
{
    let v = str_to_chars(path);
    let n = v.len();
    let i = file_name_start(&v);
    // The extension starts after the last dot of the file name.
    let ghost name = v@.subrange(i as int, n as int);
    let mut j: usize = n;
    let mut dotted = false;
    proof {
        assert(v@.subrange(n as int, n as int) =~= Seq::<char>::empty());
        if ext_of_name(name) is Some {
            assert(ext_of_name(name)->Some_0 + Seq::<char>::empty() =~= ext_of_name(
                name,
            )->Some_0);
        }
    }
    while j > i && v[j - 1] != '.'
        invariant
            i <= j <= n,
            n == v@.len(),
            v@ == path@,
            !dotted,
            name == v@.subrange(i as int, n as int),
            (match ext_of_name(v@.subrange(i as int, j as int)) {
                Some(e) => ext_of_name(name) == Some(e + v@.subrange(j as int, n as int)),
                None => ext_of_name(name) is None,
            }),
        decreases j,
    {
        proof {
            let pre = v@.subrange(i as int, j as int);
            assert(pre.drop_last() =~= v@.subrange(i as int, j - 1));
            if ext_of_name(v@.subrange(i as int, j - 1)) is Some {
                let e2 = ext_of_name(v@.subrange(i as int, j - 1))->Some_0;
                assert(ext_of_name(pre) == Some(e2.push(v@[j - 1])));
                assert(e2.push(v@[j - 1]) + v@.subrange(j as int, n as int) =~= e2 + v@.subrange(
                    j - 1,
                    n as int,
                ));
            }
        }
        j = j - 1;
    }
    if j > i {
        dotted = true;
    }
    proof {
        if j > i {
            assert(v@[j - 1] == '.');
            assert(ext_of_name(v@.subrange(i as int, j as int)) == Some(Seq::<char>::empty()));
            assert(Seq::<char>::empty() + v@.subrange(j as int, n as int) =~= v@.subrange(
                j as int,
                n as int,
            ));
            assert(ext_of_name(name) == Some(v@.subrange(j as int, n as int)));
        } else {
            assert(v@.subrange(i as int, i as int) =~= Seq::<char>::empty());
            assert(ext_of_name(v@.subrange(i as int, i as int)) is None);
            assert(ext_of_name(name) is None);
        }
    }
    if !dotted {
        return MapFormat::FreeMind;
    }
    proof {
        reveal_strlit("xmind");
        reveal_strlit("XMIND");
        reveal_strlit("opml");
        reveal_strlit("OPML");
        reveal_strlit("mmap");
        reveal_strlit("MMAP");
        reveal_strlit("mindnode");
        reveal_strlit("MINDNODE");
        reveal_strlit("smmx");
        reveal_strlit("SMMX");
    }
    if region_matches_ci(&v, j, "xmind", "XMIND") {
        MapFormat::XMind
    } else if region_matches_ci(&v, j, "opml", "OPML") {
        MapFormat::Opml
    } else if region_matches_ci(&v, j, "mmap", "MMAP") {
        MapFormat::Mmap
    } else if region_matches_ci(&v, j, "mindnode", "MINDNODE") {
        MapFormat::MindNode
    } else if region_matches_ci(&v, j, "smmx", "SMMX") {
        MapFormat::Smmx
    } else {
        MapFormat::FreeMind
    }
}

/// Write `m` in the format `path`'s extension selects. Never fails: every
/// document is representable in every format (at worst with icons
/// dropped), and an unknown extension falls back to the default format.
pub fn encode_for_path(path: &str, m: &MindMap) -> (r: Result<String, MapError>)
    requires
        m.wf(),
    ensures
        r matches Ok(s) && s@ == enc_doc(dialect_of(format_of(path@)), m.subtree(0)),
{
    match format_for_path(path) {
        MapFormat::FreeMind => codecs::to_xml(m),
        MapFormat::XMind => codecs::to_xmind(m),
        MapFormat::Opml => codecs::to_opml(m),
        MapFormat::Mmap => codecs::to_mmap(m),
        MapFormat::MindNode => codecs::to_mindnode(m),
        MapFormat::Smmx => codecs::to_smmx(m),
    }
}

/// Read a document from the raw bytes of a file at `path`, in the format
/// the extension selects. For the one format with a zip-packaged physical
/// sub-variant, the zip magic bytes are sniffed first and that sub-variant
/// is refused as `UnsupportedVariant` rather than decoded as text. Bytes
/// that are not valid UTF-8, or text the selected codec cannot read, fail
/// with `DecodeError`.
pub fn decode_for_path(path: &str, data: &[u8]) -> (r: Result<MindMap, MapError>)
    ensures
        format_of(path@) == MapFormat::Smmx && codecs::is_zip_magic(data@) ==> r == Result::<
            MindMap,
            MapError,
        >::Err(MapError::UnsupportedVariant),
        !(format_of(path@) == MapFormat::Smmx && codecs::is_zip_magic(data@)) ==> (match codecs::utf8_chars(
            data@,
        ) {
            None => (r matches Err(e) && e is DecodeError),
            Some(s) => (match sp_doc(dialect_of(format_of(path@)), s) {
                Some(t) => (r matches Ok(m) && m.wf() && m.geom_ok() && m.selected == 0
                    && m.subtree(0) == t),
                None => (r matches Err(e) && e is DecodeError),
            }),
        }),
{
    let fmt = format_for_path(path);
    if fmt == MapFormat::Smmx && codecs::sniff_zip(data) {
        return Err(MapError::UnsupportedVariant);
    }
    let s = match codecs::bytes_to_str(data) {
        Some(s) => s,
        None => {
            return Err(MapError::DecodeError(0));
        },
    };
    match fmt {
        MapFormat::FreeMind => codecs::from_xml(s),
        MapFormat::XMind => codecs::from_xmind(s),
        MapFormat::Opml => codecs::from_opml(s),
        MapFormat::Mmap => codecs::from_mmap(s),
        MapFormat::MindNode => codecs::from_mindnode(s),
        MapFormat::Smmx => codecs::from_smmx(s),
    }
}

// ------------------------------------------------------------------
// Dispatch laws.
// ------------------------------------------------------------------

/// Appending separator-free characters to a path appends them to its file
/// name.
proof fn lemma_fno_append(p: Seq<char>, w: Seq<char>)
    requires
        forall|k: int| 0 <= k < w.len() ==> w[k] != '/' && #[trigger] w[k] != '\\',
    ensures
        file_name_of(p + w) == file_name_of(p) + w,
    decreases w.len(),
{
    if w.len() == 0 {
        assert(p + w =~= p);
        assert(file_name_of(p) + w =~= file_name_of(p));
    } else {
        let w2 = w.drop_last();
        lemma_fno_append(p, w2);
        assert((p + w).drop_last() =~= p + w2);
        assert((p + w)[(p + w).len() - 1] == w[w.len() - 1]);
        assert(file_name_of(p + w) == file_name_of(p + w2).push(w[w.len() - 1]));
        assert((file_name_of(p) + w2).push(w[w.len() - 1]) =~= file_name_of(p) + w);
    }
}

/// Appending dot-free characters to a name appends them to its extension,
/// if it has one.
proof fn lemma_ext_append(p: Seq<char>, w: Seq<char>)
    requires
        forall|k: int| 0 <= k < w.len() ==> #[trigger] w[k] != '.',
    ensures
        ext_of_name(p + w) == (match ext_of_name(p) {
            Some(e) => Some(e + w),
            None => None::<Seq<char>>,
        }),
    decreases w.len(),
{
    if w.len() == 0 {
        assert(p + w =~= p);
        if ext_of_name(p) is Some {
            assert(ext_of_name(p)->Some_0 + w =~= ext_of_name(p)->Some_0);
        }
    } else {
        let w2 = w.drop_last();
        lemma_ext_append(p, w2);
        assert((p + w).drop_last() =~= p + w2);
        assert((p + w)[(p + w).len() - 1] == w[w.len() - 1]);
        if ext_of_name(p) is Some {
            let e = ext_of_name(p)->Some_0;
            assert(ext_of_name(p + w) == Some((e + w2).push(w[w.len() - 1])));
            assert((e + w2).push(w[w.len() - 1]) =~= e + w);
        }
    }
}

/// A path that ends in a dot followed by `w` (with no further dot or
/// separator in `w`) has exactly `w` as its extension.
pub proof fn lemma_suffix_ext(prefix: Seq<char>, w: Seq<char>)
    requires
        forall|k: int|
            0 <= k < w.len() ==> #[trigger] w[k] != '.' && w[k] != '/' && w[k] != '\\',
    ensures
        ext_of_name(file_name_of(prefix + seq!['.'] + w)) == Some(w),
{
    let pd = prefix + seq!['.'];
    assert(prefix + seq!['.'] + w =~= pd + w);
    lemma_fno_append(pd, w);
    let base = file_name_of(pd);
    assert(pd[pd.len() - 1] == '.');
    assert(base == file_name_of(prefix).push('.')) by {
        assert(pd.drop_last() =~= prefix);
    }
    assert(base[base.len() - 1] == '.');
    assert(ext_of_name(base) == Some(Seq::<char>::empty()));
    lemma_ext_append(base, w);
    assert(Seq::<char>::empty() + w =~= w);
}

/// A path ending in `.xmind` always routes to the XMind codec.
pub proof fn lemma_dispatch_xmind(prefix: Seq<char>)
    ensures
        format_of(prefix + seq!['.'] + seq!['x', 'm', 'i', 'n', 'd']) == MapFormat::XMind,
{
    let w = seq!['x', 'm', 'i', 'n', 'd'];
    lemma_suffix_ext(prefix, w);
    reveal_strlit("xmind");
    reveal_strlit("XMIND");
    assert(ext_is(Some(w), "xmind"@, "XMIND"@));
}

/// A path ending in `.unknownext` always routes to the default
/// outline-XML codec: an unrecognized extension is never rejected.
pub proof fn lemma_dispatch_unknown_suffix(prefix: Seq<char>)
    ensures
        format_of(
            prefix + seq!['.'] + seq!['u', 'n', 'k', 'n', 'o', 'w', 'n', 'e', 'x', 't'],
        ) == MapFormat::FreeMind,
{
    let w = seq!['u', 'n', 'k', 'n', 'o', 'w', 'n', 'e', 'x', 't'];
    lemma_suffix_ext(prefix, w);
    reveal_strlit("xmind");
    reveal_strlit("opml");
    reveal_strlit("mmap");
    reveal_strlit("mindnode");
    reveal_strlit("smmx");
    assert(w.len() != "xmind"@.len());
    assert(w.len() != "opml"@.len());
    assert(w.len() != "mmap"@.len());
    assert(w.len() != "mindnode"@.len());
    assert(w.len() != "smmx"@.len());
}

/// A path whose extension is missing or matches none of the five
/// recognized words always routes to the default outline-XML codec: the
/// fallback is permissive, never an error.
pub proof fn lemma_dispatch_default(path: Seq<char>)
    requires
        !ext_is(ext_of_name(file_name_of(path)), "xmind"@, "XMIND"@),
        !ext_is(ext_of_name(file_name_of(path)), "opml"@, "OPML"@),
        !ext_is(ext_of_name(file_name_of(path)), "mmap"@, "MMAP"@),
        !ext_is(ext_of_name(file_name_of(path)), "mindnode"@, "MINDNODE"@),
        !ext_is(ext_of_name(file_name_of(path)), "smmx"@, "SMMX"@),
    ensures
        format_of(path) == MapFormat::FreeMind,
{
}

} // verus!
