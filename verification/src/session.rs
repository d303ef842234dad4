//! The session: the single live document, the file path it was last loaded
//! from or saved to, and the bounded most-recently-used history of paths.
//! Load and save requests are split at the I/O edge: this module computes
//! what to write and applies what was read; the caller performs the file
//! access between the two.

use vstd::prelude::*;
use vstd::string::StringExecFns;

use crate::chars::chars_to_string;
use crate::chars::str_eq;
use crate::chars::str_to_chars;
use crate::codecs;
use crate::dispatch;
use crate::errors::MapError;
use crate::model::MindMap;
use crate::textcodec::enc_doc;
use crate::textcodec::sp_doc;

verus! {

/// The most recent paths kept in the history.
pub const MAX_RECENT_FILES: usize = 10;

/// The character sequences of a list of strings.
pub open spec fn views_of(v: Seq<String>) -> Seq<Seq<char>> {
    v.map_values(|s: String| s@)
}

/// The history without any occurrence of `p`, order kept.
pub open spec fn drop_path(r: Seq<Seq<char>>, p: Seq<char>) -> Seq<Seq<char>>
    decreases r.len(),
{
    if r.len() == 0 {
        Seq::empty()
    } else if r.last() == p {
        drop_path(r.drop_last(), p)
    } else {
        drop_path(r.drop_last(), p).push(r.last())
    }
}

/// The history after recording `p`: any earlier occurrence of `p` is
/// removed, `p` moves to the front, and the list is cut to the most recent
/// ten entries — most-recently-used with deduplication, not a plain stack.
pub open spec fn lru_insert(r: Seq<Seq<char>>, p: Seq<char>) -> Seq<Seq<char>> {
    let kept = drop_path(r, p);
    seq![p] + kept.take(if kept.len() <= 9 {
        kept.len() as int
    } else {
        9
    })
}

/// Dropping a path from one more entry keeps the entry exactly when it is
/// another path.
proof fn lemma_drop_path_push(s: Seq<Seq<char>>, p: Seq<char>, x: Seq<char>)
    ensures
        drop_path(s.push(x), p) == (if x != p {
            drop_path(s, p).push(x)
        } else {
            drop_path(s, p)
        }),
{
    assert(s.push(x).drop_last() =~= s);
    assert(s.push(x).last() == x);
}

/// No entry of the dropped history is the dropped path.
proof fn lemma_drop_path_pred(s: Seq<Seq<char>>, p: Seq<char>, k: int)
    requires
        0 <= k < drop_path(s, p).len(),
    ensures
        drop_path(s, p)[k] != p,
    decreases s.len(),
{
    if s.len() > 0 {
        let rest = drop_path(s.drop_last(), p);
        if k < rest.len() {
            lemma_drop_path_pred(s.drop_last(), p, k);
        }
    }
}

/// Dropping a path that never occurs changes nothing.
proof fn lemma_drop_path_absent(s: Seq<Seq<char>>, p: Seq<char>)
    requires
        forall|k: int| 0 <= k < s.len() ==> #[trigger] s[k] != p,
    ensures
        drop_path(s, p) == s,
    decreases s.len(),
{
    if s.len() > 0 {
        lemma_drop_path_absent(s.drop_last(), p);
        assert(drop_path(s.drop_last(), p).push(s.last()) =~= s);
    }
}

/// Recording a path never grows the history past ten entries, puts the
/// path in front, and leaves no second occurrence of it behind.
pub proof fn lemma_recent_no_duplicate(r: Seq<Seq<char>>, p: Seq<char>)
    ensures
        lru_insert(r, p).len() <= 10,
        lru_insert(r, p)[0] == p,
        forall|k: int| 1 <= k < lru_insert(r, p).len() ==> lru_insert(r, p)[k] != p,
{
    let kept = drop_path(r, p);
    let t = kept.take(
        if kept.len() <= 9 {
            kept.len() as int
        } else {
            9
        },
    );
    assert forall|k: int| 1 <= k < lru_insert(r, p).len() implies lru_insert(r, p)[k] != p by {
        assert(lru_insert(r, p)[k] == t[k - 1]);
        assert(t[k - 1] == kept[k - 1]);
        lemma_drop_path_pred(r, p, k - 1);
    }
}

/// Recording an eleventh distinct path keeps the newest ten: the path goes
/// in front and the least-recently-used entry falls off the end.
pub proof fn lemma_recent_eviction(r: Seq<Seq<char>>, p: Seq<char>)
    requires
        r.len() == 10,
        forall|k: int| 0 <= k < r.len() ==> #[trigger] r[k] != p,
    ensures
        lru_insert(r, p) == seq![p] + r.take(9),
{
    lemma_drop_path_absent(r, p);
    assert(lru_insert(r, p) =~= seq![p] + r.take(9));
}

/// Record `path` as most recently used: remove any earlier occurrence,
/// put it in front, and cut the history to the cap. Even an overlong
/// history (say, read from a damaged configuration file) comes out
/// within the cap.
pub fn push_recent(recent: &mut Vec<String>, path: &str)
    ensures
        final(recent)@.len() <= 10,
        views_of(final(recent)@) == lru_insert(views_of(old(recent)@), path@),
{
    let ghost oldviews = views_of(recent@);
    let mut out: Vec<String> = Vec::new();
    out.push(String::from_str(path));
    let n = recent.len();
    let mut i: usize = 0;
    proof {
        assert(oldviews.take(0) =~= Seq::<Seq<char>>::empty());
        assert(drop_path(oldviews.take(0), path@) =~= Seq::<Seq<char>>::empty());
        assert(views_of(out@) =~= seq![path@]);
    }
    while i < n
        invariant
            i <= n,
            n == recent@.len(),
            oldviews == views_of(recent@),
            1 <= out@.len() <= 10,
            out@[0]@ == path@,
            views_of(out@) == seq![path@] + drop_path(oldviews.take(i as int), path@).take(
                out@.len() - 1,
            ),
            out@.len() - 1 == (if drop_path(oldviews.take(i as int), path@).len() <= 9 {
                drop_path(oldviews.take(i as int), path@).len() as int
            } else {
                9
            }),
        decreases n - i,
    {
        let ghost fi = drop_path(oldviews.take(i as int), path@);
        let ghost itemv = recent@[i as int]@;
        proof {
            assert(oldviews.take(i + 1) =~= oldviews.take(i as int).push(itemv));
            lemma_drop_path_push(oldviews.take(i as int), path@, itemv);
        }
        let item = &recent[i];
        if !str_eq(item.as_str(), path) {
            if out.len() < MAX_RECENT_FILES {
                let ghost preout = out@;
                out.push(item.clone());
                proof {
                    assert(views_of(out@) =~= views_of(preout).push(
                        recent@[i as int]@,
                    ));
                    assert(drop_path(oldviews.take(i + 1), path@) == fi.push(itemv));
                    assert(fi.take(out@.len() - 2) =~= fi);
                    assert(fi.push(recent@[i as int]@).take(out@.len() - 1)
                        =~= fi.take(out@.len() - 2).push(recent@[i as int]@));
                    assert(views_of(out@) =~= seq![path@] + drop_path(
                        oldviews.take(i + 1),
                        path@,
                    ).take(out@.len() - 1));
                }
            } else {
                proof {
                    assert(drop_path(oldviews.take(i + 1), path@) == fi.push(itemv));
                    assert(fi.push(itemv).take(9) =~= fi.take(9));
                }
            }
        } else {
            proof {
                assert(itemv == path@);
                assert(drop_path(oldviews.take(i + 1), path@) == fi);
            }
        }
        i = i + 1;
    }
    *recent = out;
    proof {
        assert(oldviews.take(n as int) =~= oldviews);
        let kept = drop_path(oldviews, path@);
        assert(kept.take(recent@.len() - 1) =~= kept.take(
            if kept.len() <= 9 {
                kept.len() as int
            } else {
                9
            },
        ));
    }
}

/// The session state proper: the live document and the file path it was
/// most recently loaded from or saved to (absent for a never-saved
/// document). The two live behind one exclusive-access guard, since a
/// save atomically relates them; the recent-files history is a
/// conceptually independent shared resource, kept outside this struct
/// behind a guard of its own.
pub struct Session {
    pub map: MindMap,
    pub file_path: Option<String>,
}

impl Session {
    /// Session well-formedness: the document is well formed and laid out.
    pub open spec fn wf(self) -> bool {
        &&& self.map.wf()
        &&& self.map.geom_ok()
    }

    /// A fresh session: an empty document and no active path.
    pub fn new() -> (s: Session)
        ensures
            s.wf(),
            s.map.sview() == MindMap::initial_view(),
            s.map.selected == 0,
            s.file_path is None,
    {
        Session { map: MindMap::new(), file_path: None }
    }

    /// Replace the document with a fresh empty one and clear the active
    /// path, as an explicit "new" request does.
    pub fn new_map(&mut self)
        requires
            old(self).wf(),
        ensures
            final(self).wf(),
            final(self).map.sview() == MindMap::initial_view(),
            final(self).map.selected == 0,
            final(self).file_path is None,
    {
        self.map = MindMap::new();
        self.file_path = None;
    }

    /// The live document.
    pub fn get_map(&self) -> (r: &MindMap)
        ensures
            r == &self.map,
    {
        &self.map
    }

    /// The path of the last successful load or save, if any.
    pub fn get_file_path(&self) -> (r: &Option<String>)
        ensures
            r == &self.file_path,
    {
        &self.file_path
    }

    /// Decide where a save goes and what bytes it writes, touching
    /// nothing: with an explicit path that path is the target; without
    /// one the previously recorded active path is reused, and a session
    /// that never had one fails with `NoActivePath`. The returned pair is
    /// the target path and the encoded document (in the format the
    /// target's extension selects). The caller writes the file and, only
    /// if the write succeeded, commits the target with `commit_save` and
    /// records it in the history with `push_recent` — so a save that
    /// fails at any step leaves the whole session exactly as it was.
    pub fn prepare_save(&self, path: Option<String>) -> (r: Result<(String, String), MapError>)
        requires
            self.wf(),
        ensures
            path is None && self.file_path is None ==> r == Result::<
                (String, String),
                MapError,
            >::Err(MapError::NoActivePath),
            path matches Some(p) ==> (r matches Ok(o) && o.0 == p && o.1@ == enc_doc(
                dispatch::dialect_of(dispatch::format_of(p@)),
                self.map.subtree(0),
            )),
            (path is None && self.file_path is Some) ==> (r matches Ok(o) && o.0
                == self.file_path->Some_0 && o.1@ == enc_doc(
                dispatch::dialect_of(dispatch::format_of(self.file_path->Some_0@)),
                self.map.subtree(0),
            )),
    {
        let target: String = match path {
            Some(p) => p,
            None => {
                match &self.file_path {
                    Some(p) => p.clone(),
                    None => {
                        return Err(MapError::NoActivePath);
                    },
                }
            },
        };
        let content = match dispatch::encode_for_path(target.as_str(), &self.map) {
            Ok(c) => c,
            Err(_) => {
                proof {
                    assert(false);
                }
                String::new()
            },
        };
        Ok((target, content))
    }

    /// Commit a completed save: set the active path, as a save to an
    /// explicit path does once its write has succeeded. The caller invokes
    /// this only after the bytes from `prepare_save` reached the file, so
    /// a failed save never leaves a new path behind.
    pub fn commit_save(&mut self, path: &str)
        requires
            old(self).wf(),
        ensures
            final(self).wf(),
            final(self).map == old(self).map,
            (final(self).file_path matches Some(p) && p@ == path@),
    {
        self.file_path = Some(String::from_str(path));
    }

    /// Apply a load: decode the raw bytes read from `path` in the format
    /// its extension selects, replace the document wholesale, and set the
    /// active path; the caller then records the path in the history with
    /// `push_recent`. The load succeeds exactly when the selected codec
    /// decodes the bytes; on any failure — the unsupported zip
    /// sub-variant, bytes that are not UTF-8, or malformed content — the
    /// session is left entirely unchanged.
    pub fn load_map(&mut self, path: &str, data: &[u8]) -> (r: Result<(), MapError>)
        requires
            old(self).wf(),
        ensures
            final(self).wf(),
            r is Err ==> *final(self) == *old(self),
            dispatch::format_of(path@) == dispatch::MapFormat::Smmx && codecs::is_zip_magic(data@)
                ==> r == Result::<(), MapError>::Err(MapError::UnsupportedVariant),
            !(dispatch::format_of(path@) == dispatch::MapFormat::Smmx && codecs::is_zip_magic(
                data@,
            )) ==> (match codecs::utf8_chars(data@) {
                Some(s) => (match sp_doc(dispatch::dialect_of(dispatch::format_of(path@)), s) {
                    Some(t) => r is Ok,
                    None => (r matches Err(e) && e is DecodeError),
                }),
                None => (r matches Err(e) && e is DecodeError),
            }),
            r is Ok ==> {
                &&& (match codecs::utf8_chars(data@) {
                    Some(s) => sp_doc(dispatch::dialect_of(dispatch::format_of(path@)), s) == Some(
                        final(self).map.subtree(0),
                    ),
                    None => false,
                })
                &&& final(self).map.selected == 0
                &&& (final(self).file_path matches Some(p) && p@ == path@)
            },
    {
        match dispatch::decode_for_path(path, data) {
            Ok(m) => {
                self.map = m;
                self.file_path = Some(String::from_str(path));
                Ok(())
            },
            Err(e) => Err(e),
        }
    }
}

/// The serialized form of a list of path strings: the flat list-of-strings
/// document kept at the per-user configuration location. A function of the
/// paths alone.
pub uninterp spec fn json_of_paths(v: Seq<Seq<char>>) -> Seq<char>;

/// What parsing a stored history text yields: the list of paths it holds,
/// or nothing when the text is not a serialized list of strings. A
/// function of the text alone.
pub uninterp spec fn paths_of_json(s: Seq<char>) -> Option<Seq<Seq<char>>>;

/// Relies on `serde_json::to_string`: serializing a vector of strings
/// yields a JSON array of those strings, a function of the strings alone.
/// It cannot fail there — the serializer writes into a growable buffer
/// and string serialization itself never errors — so a result is always
/// produced.
#[verifier::external_body]
fn paths_to_json(v: &Vec<String>) -> (r: Option<String>)
    ensures
        r is Some,
        (r matches Some(s) ==> s@ == json_of_paths(views_of(v@))),
{
    serde_json::to_string(v).ok()
}

/// Relies on `serde_json::from_str`: whether a text parses as a JSON
/// array of strings, and which strings it holds, depend on the text
/// alone; and parsing inverts `serde_json::to_string` on vectors of
/// strings, so on any serialized list it yields exactly the serialized
/// paths.
#[verifier::external_body]
fn paths_from_json(s: &str) -> (r: Option<Vec<String>>)
    ensures
        r is Some <==> paths_of_json(s@) is Some,
        (r matches Some(o) ==> views_of(o@) == paths_of_json(s@)->Some_0),
        (r is None ==> (forall|v: Seq<Seq<char>>| s@ != #[trigger] json_of_paths(v))),
        (r matches Some(o) ==> (forall|v: Seq<Seq<char>>|
            s@ == #[trigger] json_of_paths(v) ==> views_of(o@) == v)),
{
    serde_json::from_str::<Vec<String>>(s).ok()
}

/// Serialize the recent-files history for the per-user configuration
/// file. Every list of strings is representable, so this always
/// succeeds.
pub fn recent_files_to_json(recent: &Vec<String>) -> (r: Result<String, MapError>)
    ensures
        r matches Ok(s) && s@ == json_of_paths(views_of(recent@)),
{
    match paths_to_json(recent) {
        Some(s) => Ok(s),
        None => {
            proof {
                assert(false);
            }
            Err(MapError::EncodeError)
        },
    }
}

/// Read the recent-files history back from the configuration file's text.
/// Whatever `recent_files_to_json` wrote comes back exactly; text that is
/// not a serialized list yields an empty history rather than an error, as
/// a missing or damaged configuration file must not block startup.
pub fn recent_files_from_json(s: &str) -> (r: Vec<String>)
    ensures
        paths_of_json(s@) is Some ==> views_of(r@) == paths_of_json(s@)->Some_0,
        paths_of_json(s@) is None ==> r@ == Seq::<String>::empty(),
        forall|v: Seq<Seq<char>>|
            s@ == #[trigger] json_of_paths(v) ==> views_of(r@) == v,
{
    match paths_from_json(s) {
        Some(v) => v,
        None => Vec::new(),
    }
}

/// The menu label of a recently used path: its file name, a dash, and the
/// full path; a path without a file name (one ending in a separator) shows
/// the full path twice.
pub open spec fn label_of(path: Seq<char>) -> Seq<char> {
    let name = dispatch::file_name_of(path);
    (if name.len() == 0 {
        path
    } else {
        name
    }) + seq![' ', '-', ' '] + path
}

/// Render the menu label of a recently used path.
pub fn format_recent_label(path: &str) -> (r: String)
    ensures
        r@ == label_of(path@),
{
    let v = str_to_chars(path);
    let n = v.len();
    let i = dispatch::file_name_start(&v);
    let mut out: Vec<char> = Vec::new();
    let start: usize = if i == n {
        0
    } else {
        i
    };
    let mut k = start;
    while k < n
        invariant
            start <= k <= n,
            n == v@.len(),
            v@ == path@,
            out@ == v@.subrange(start as int, k as int),
        decreases n - k,
    {
        out.push(v[k]);
        proof {
            assert(out@ =~= v@.subrange(start as int, k + 1));
        }
        k = k + 1;
    }
    out.push(' ');
    out.push('-');
    out.push(' ');
    let mut k: usize = 0;
    let ghost mid = out@;
    while k < n
        invariant
            k <= n,
            n == v@.len(),
            v@ == path@,
            out@ == mid + v@.subrange(0, k as int),
        decreases n - k,
    {
        out.push(v[k]);
        proof {
            assert(out@ =~= mid + v@.subrange(0, k + 1));
        }
        k = k + 1;
    }
    proof {
        assert(v@.subrange(0, n as int) =~= v@);
        assert(out@ =~= label_of(path@));
    }
    chars_to_string(&out)
}

} // verus!
