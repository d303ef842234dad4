//! The shared skeleton of the interchange formats. Every format writes a
//! document as
//!
//! ```text
//! header node footer
//! node  := OPEN esc(text) TCLOSE icons PRE children CLOSE
//! icons := "" | IOPEN esc(icon) ICLOSE (INEXT esc(icon) ICLOSE)*
//! children := "" | node (SEP node)*
//! ```
//!
//! where the upper-case pieces are fixed strings of the format (its
//! dialect). Encoding is a function of the tree alone; the parser is a
//! recursive-descent reading of the same grammar; and for every dialect
//! whose fixed strings keep the grammar unambiguous (`wf_dialect`), parsing
//! inverts encoding exactly — the round-trip theorem the codecs rely on.

use vstd::prelude::*;
use vstd::string::StrSliceExecFns;

use crate::chars::chars_to_string;
use crate::chars::push_chars;
use crate::escape::esc;
use crate::escape::esc_char;
use crate::escape::lemma_esc_no_quote;
use crate::escape::lemma_esc_snoc;
use crate::escape::lemma_unesc_esc;
use crate::escape::sp_unesc;
use crate::tree::tree_view;
use crate::tree::TreeNode;
use crate::tree::TreeV;

verus! {

broadcast use vstd::seq::axiom_seq_index_decreases, vstd::std_specs::vec::axiom_vec_index_decreases;

/// The fixed strings of one format, as mathematical character sequences.
#[verifier::ext_equal]
pub ghost struct DialectV {
    pub header: Seq<char>,
    pub footer: Seq<char>,
    pub node_open: Seq<char>,
    pub text_close: Seq<char>,
    pub icon_open: Seq<char>,
    pub icon_close: Seq<char>,
    pub icon_next: Seq<char>,
    pub pre_children: Seq<char>,
    pub node_close: Seq<char>,
    pub child_next: Seq<char>,
    pub icons_carried: bool,
}

/// The fixed strings of one format, as the codecs carry them at run time.
pub struct Dialect {
    pub header: &'static str,
    pub footer: &'static str,
    pub node_open: &'static str,
    pub text_close: &'static str,
    pub icon_open: &'static str,
    pub icon_close: &'static str,
    pub icon_next: &'static str,
    pub pre_children: &'static str,
    pub node_close: &'static str,
    pub child_next: &'static str,
    pub icons_carried: bool,
}

/// The mathematical dialect a run-time dialect denotes.
pub open spec fn dv(d: Dialect) -> DialectV {
    DialectV {
        header: d.header@,
        footer: d.footer@,
        node_open: d.node_open@,
        text_close: d.text_close@,
        icon_open: d.icon_open@,
        icon_close: d.icon_close@,
        icon_next: d.icon_next@,
        pre_children: d.pre_children@,
        node_close: d.node_close@,
        child_next: d.child_next@,
        icons_carried: d.icons_carried,
    }
}

/// Two fixed strings disagree at some position within both: text beginning
/// with one can never begin with the other.
pub open spec fn differs_within(a: Seq<char>, b: Seq<char>) -> bool {
    exists|j: int| 0 <= j < a.len() && j < b.len() && a[j] != b[j]
}

/// The unambiguity conditions under which the parser inverts the encoder:
/// a node opener is nonempty, quoted values are closed by a quote, an icon
/// opener can never be confused with the start or end of the child list,
/// and a node opener (with or without separator) can never be confused with
/// the node closer.
pub open spec fn wf_dialect(d: DialectV) -> bool {
    &&& d.node_open.len() >= 1
    &&& d.text_close.len() >= 1 && d.text_close[0] == '"'
    &&& d.icon_close.len() >= 1 && d.icon_close[0] == '"'
    &&& differs_within(d.icon_open, d.pre_children + d.node_open)
    &&& differs_within(d.icon_open, d.pre_children + d.node_close)
    &&& differs_within(d.icon_next, d.pre_children + d.node_open)
    &&& differs_within(d.icon_next, d.pre_children + d.node_close)
    &&& differs_within(d.node_open, d.node_close)
    &&& differs_within(d.child_next + d.node_open, d.node_close)
}

/// The tree a parser of dialect `d` can reconstruct from an encoding of
/// `t`: `t` itself, or `t` stripped of icons where the format carries none
/// (the documented lossy mapping).
pub open spec fn carried(d: DialectV, t: TreeV) -> TreeV {
    if d.icons_carried {
        t
    } else {
        t.erase_icons()
    }
}

/// `lit` stands verbatim in `s` at position `pos`.
pub open spec fn lit_at(s: Seq<char>, pos: int, lit: Seq<char>) -> bool {
    0 <= pos && pos + lit.len() <= s.len() && s.subrange(pos, pos + lit.len()) == lit
}

/// A verbatim occurrence of a concatenation is one of each part in turn.
pub proof fn lemma_lit_split(s: Seq<char>, pos: int, a: Seq<char>, b: Seq<char>)
    requires
        lit_at(s, pos, a + b),
    ensures
        lit_at(s, pos, a),
        lit_at(s, pos + a.len(), b),
{
    assert forall|j: int| 0 <= j < a.len() implies s.subrange(pos, pos + a.len())[j] == a[j] by {
        assert(s.subrange(pos, pos + (a + b).len())[j] == (a + b)[j]);
    }
    assert(s.subrange(pos, pos + a.len()) =~= a);
    assert forall|j: int|
        0 <= j < b.len() implies s.subrange(pos + a.len(), pos + a.len() + b.len())[j] == b[j] by {
        assert(s.subrange(pos, pos + (a + b).len())[a.len() + j] == (a + b)[a.len() + j]);
    }
    assert(s.subrange(pos + a.len(), pos + a.len() + b.len()) =~= b);
}

/// Verbatim occurrences of two adjacent parts make one of the whole.
pub proof fn lemma_lit_join(s: Seq<char>, pos: int, a: Seq<char>, b: Seq<char>)
    requires
        lit_at(s, pos, a),
        lit_at(s, pos + a.len(), b),
    ensures
        lit_at(s, pos, a + b),
{
    assert forall|j: int|
        0 <= j < a.len() + b.len() implies s.subrange(pos, pos + a.len() + b.len())[j] == (a
        + b)[j] by {
        if j < a.len() {
            assert(s.subrange(pos, pos + a.len())[j] == a[j]);
        } else {
            assert(s.subrange(pos + a.len(), pos + a.len() + b.len())[j - a.len()] == b[j
                - a.len()]);
        }
    }
    assert(s.subrange(pos, pos + a.len() + b.len()) =~= a + b);
}

/// Where one fixed string stands, a string differing within both cannot.
pub proof fn lemma_not_lit(s: Seq<char>, pos: int, a: Seq<char>, b: Seq<char>)
    requires
        lit_at(s, pos, b),
        differs_within(a, b),
    ensures
        !lit_at(s, pos, a),
{
    let j = choose|j: int| 0 <= j < a.len() && j < b.len() && a[j] != b[j];
    if lit_at(s, pos, a) {
        assert(s.subrange(pos, pos + a.len())[j] == a[j]);
        assert(s.subrange(pos, pos + b.len())[j] == b[j]);
        assert(s[pos + j] == a[j] && s[pos + j] == b[j]);
    }
}

// ------------------------------------------------------------------
// The encoder, as a function of the tree.
// ------------------------------------------------------------------

/// The encoding of the icon list from index `k` on.
pub open spec fn enc_icons(d: DialectV, icons: Seq<Seq<char>>, k: int) -> Seq<char>
    decreases icons.len() - k,
{
    if k < 0 || k >= icons.len() {
        Seq::empty()
    } else {
        (if k == 0 {
            d.icon_open
        } else {
            d.icon_next
        }) + esc(icons[k]) + d.icon_close + enc_icons(d, icons, k + 1)
    }
}

/// The encoding of one node with its whole subtree.
pub open spec fn enc_node(d: DialectV, t: TreeV) -> Seq<char>
    decreases t, 0int,
{
    d.node_open + esc(t.text) + d.text_close + (if d.icons_carried {
        enc_icons(d, t.icons, 0)
    } else {
        Seq::empty()
    }) + d.pre_children + enc_children(d, t.children, 0) + d.node_close
}

/// The encoding of the child list from index `k` on.
pub open spec fn enc_children(d: DialectV, ch: Seq<TreeV>, k: int) -> Seq<char>
    decreases ch, ch.len() - k,
{
    if k < 0 || k >= ch.len() {
        Seq::empty()
    } else {
        (if k == 0 {
            Seq::empty()
        } else {
            d.child_next
        }) + enc_node(d, ch[k]) + enc_children(d, ch, k + 1)
    }
}

/// The encoding of a whole document.
pub open spec fn enc_doc(d: DialectV, t: TreeV) -> Seq<char> {
    d.header + enc_node(d, t) + d.footer
}

// ------------------------------------------------------------------
// The parser, as a function of the input.
// ------------------------------------------------------------------

/// The position of the first quote at or after `pos`.
pub open spec fn sp_scan_quote(s: Seq<char>, pos: int) -> Option<int>
    decreases s.len() - pos,
{
    if pos < 0 || pos >= s.len() {
        None
    } else if s[pos] == '"' {
        Some(pos)
    } else {
        sp_scan_quote(s, pos + 1)
    }
}

/// Read a quoted value beginning at `pos`: everything up to the next quote,
/// unescaped. Yields the value and the position of the closing quote.
pub open spec fn sp_value(s: Seq<char>, pos: int) -> Option<(Seq<char>, int)> {
    match sp_scan_quote(s, pos) {
        Some(q) => if 0 <= pos <= q {
            match sp_unesc(s.subrange(pos, q)) {
                Some(v) => Some((v, q)),
                None => None,
            }
        } else {
            None
        },
        None => None,
    }
}

/// Read the icon list beginning at `pos`; `first` tells which opener the
/// next icon would use. Stops before the first position that carries no
/// opener.
pub open spec fn sp_icons(d: DialectV, s: Seq<char>, pos: int, first: bool) -> Option<
    (Seq<Seq<char>>, int),
>
    decreases s.len() - pos,
{
    if !(0 <= pos <= s.len()) {
        None
    } else {
        let opener = if first {
            d.icon_open
        } else {
            d.icon_next
        };
        if !lit_at(s, pos, opener) {
            Some((Seq::empty(), pos))
        } else {
            match sp_value(s, pos + opener.len()) {
                None => None,
                Some((icon, q)) => if !lit_at(s, q, d.icon_close) {
                    None
                } else {
                    let p2 = q + d.icon_close.len();
                    if !(pos < p2 <= s.len()) {
                        None
                    } else {
                        match sp_icons(d, s, p2, false) {
                            None => None,
                            Some((rest, p3)) => Some((seq![icon] + rest, p3)),
                        }
                    }
                },
            }
        }
    }
}

/// Read one node beginning at `pos`.
pub open spec fn sp_node(d: DialectV, s: Seq<char>, pos: int) -> Option<(TreeV, int)>
    decreases s.len() - pos, 1int,
{
    if !(0 <= pos <= s.len()) || !lit_at(s, pos, d.node_open) {
        None
    } else {
        match sp_value(s, pos + d.node_open.len()) {
            None => None,
            Some((text, q)) => if !lit_at(s, q, d.text_close) {
                None
            } else {
                let p2 = q + d.text_close.len();
                if !(pos < p2 <= s.len()) {
                    None
                } else {
                    let ir = if d.icons_carried {
                        sp_icons(d, s, p2, true)
                    } else {
                        Some((Seq::<Seq<char>>::empty(), p2))
                    };
                    match ir {
                        None => None,
                        Some((icons, p3)) => if !(pos < p3 <= s.len()) || !lit_at(
                            s,
                            p3,
                            d.pre_children,
                        ) {
                            None
                        } else {
                            let p4 = p3 + d.pre_children.len();
                            if !(pos < p4 <= s.len()) {
                                None
                            } else {
                                match sp_children(d, s, p4, true) {
                                    None => None,
                                    Some((kids, p5)) => if !lit_at(s, p5, d.node_close) {
                                        None
                                    } else {
                                        Some(
                                            (
                                                TreeV { text: text, icons: icons, children: kids },
                                                p5 + d.node_close.len(),
                                            ),
                                        )
                                    },
                                }
                            }
                        },
                    }
                }
            },
        }
    }
}

/// Read the child list beginning at `pos`; `first` tells whether a
/// separator must precede the next child. Stops before the first position
/// that carries no (separator and) opener.
pub open spec fn sp_children(d: DialectV, s: Seq<char>, pos: int, first: bool) -> Option<
    (Seq<TreeV>, int),
>
    decreases s.len() - pos, 2int,
{
    if !(0 <= pos <= s.len()) {
        None
    } else {
        let sep = if first {
            Seq::<char>::empty()
        } else {
            d.child_next
        };
        if !lit_at(s, pos, sep + d.node_open) {
            Some((Seq::empty(), pos))
        } else {
            match sp_node(d, s, pos + sep.len()) {
                None => None,
                Some((t, p2)) => if !(pos < p2 <= s.len()) {
                    None
                } else {
                    match sp_children(d, s, p2, false) {
                        None => None,
                        Some((rest, p3)) => Some((seq![t] + rest, p3)),
                    }
                },
            }
        }
    }
}

/// Read a whole document: header, one node, footer, nothing else.
pub open spec fn sp_doc(d: DialectV, s: Seq<char>) -> Option<TreeV> {
    if !lit_at(s, 0, d.header) {
        None
    } else {
        match sp_node(d, s, d.header.len() as int) {
            None => None,
            Some((t, p)) => if lit_at(s, p, d.footer) && p + d.footer.len() == s.len() {
                Some(t)
            } else {
                None
            },
        }
    }
}

// ------------------------------------------------------------------
// Parsing inverts encoding.
// ------------------------------------------------------------------

/// Scanning from the start of an escaped text finds exactly the quote that
/// follows it: escaped text contains none of its own.
pub proof fn lemma_scan_over(s: Seq<char>, pos: int, e: Seq<char>)
    requires
        lit_at(s, pos, e),
        forall|j: int| 0 <= j < e.len() ==> e[j] != '"',
        pos + e.len() < s.len(),
        s[pos + e.len()] == '"',
    ensures
        sp_scan_quote(s, pos) == Some(pos + e.len()),
    decreases e.len(),
{
    if e.len() == 0 {
        assert(s[pos] == '"');
    } else {
        assert(s[pos] == e[0]) by {
            assert(s.subrange(pos, pos + e.len())[0] == e[0]);
        }
        let e2 = e.subrange(1, e.len() as int);
        assert(lit_at(s, pos + 1, e2)) by {
            assert forall|j: int| 0 <= j < e2.len() implies s.subrange(
                pos + 1,
                pos + 1 + e2.len(),
            )[j] == e2[j] by {
                assert(s.subrange(pos, pos + e.len())[j + 1] == e[j + 1]);
            }
            assert(s.subrange(pos + 1, pos + 1 + e2.len()) =~= e2);
        }
        lemma_scan_over(s, pos + 1, e2);
    }
}

/// Reading a quoted value off an escaped text followed by a quote yields
/// the original text and stops at that quote.
pub proof fn lemma_value_of_esc(s: Seq<char>, pos: int, text: Seq<char>)
    requires
        lit_at(s, pos, esc(text)),
        pos + esc(text).len() < s.len(),
        s[pos + esc(text).len()] == '"',
    ensures
        sp_value(s, pos) == Some((text, pos + esc(text).len())),
{
    lemma_esc_no_quote(text);
    lemma_scan_over(s, pos, esc(text));
    lemma_unesc_esc(text);
}

/// Reading the icon list off its encoding yields the remaining icons and
/// stops exactly where the child section begins.
pub proof fn lemma_icons_inv(d: DialectV, s: Seq<char>, icons: Seq<Seq<char>>, k: int, pos: int)
    requires
        wf_dialect(d),
        0 <= k <= icons.len(),
        lit_at(s, pos, enc_icons(d, icons, k)),
        lit_at(s, pos + enc_icons(d, icons, k).len(), d.pre_children + d.node_open) || lit_at(
            s,
            pos + enc_icons(d, icons, k).len(),
            d.pre_children + d.node_close,
        ),
    ensures
        sp_icons(d, s, pos, k == 0) == Some(
            (icons.subrange(k, icons.len() as int), pos + enc_icons(d, icons, k).len()),
        ),
    decreases icons.len() - k,
{
    let e = pos + enc_icons(d, icons, k).len();
    let opener = if k == 0 {
        d.icon_open
    } else {
        d.icon_next
    };
    if k == icons.len() {
        assert(enc_icons(d, icons, k) =~= Seq::<char>::empty());
        assert(e == pos);
        if lit_at(s, pos, d.pre_children + d.node_open) {
            lemma_not_lit(s, pos, opener, d.pre_children + d.node_open);
        } else {
            lemma_not_lit(s, pos, opener, d.pre_children + d.node_close);
        }
        assert(icons.subrange(k, icons.len() as int) =~= Seq::<Seq<char>>::empty());
    } else {
        let ei = esc(icons[k]);
        lemma_lit_split(s, pos, opener + ei + d.icon_close, enc_icons(d, icons, k + 1));
        lemma_lit_split(s, pos, opener + ei, d.icon_close);
        lemma_lit_split(s, pos, opener, ei);
        let p1 = pos + opener.len();
        let q = p1 + ei.len();
        let p2 = q + d.icon_close.len();
        assert(s[q] == '"') by {
            assert(s.subrange(q, q + d.icon_close.len())[0] == d.icon_close[0]);
        }
        lemma_value_of_esc(s, p1, icons[k]);
        lemma_icons_inv(d, s, icons, k + 1, p2);
        assert(sp_icons(d, s, pos, k == 0) == Some(
            (seq![icons[k]] + icons.subrange(k + 1, icons.len() as int), e),
        ));
        assert(seq![icons[k]] + icons.subrange(k + 1, icons.len() as int) =~= icons.subrange(
            k,
            icons.len() as int,
        ));
    }
}

/// Reading one node off its encoding yields the carried tree and stops
/// exactly after the node closer.
#[verifier::rlimit(100)]
pub proof fn lemma_node_inv(d: DialectV, s: Seq<char>, t: TreeV, pos: int)
    requires
        wf_dialect(d),
        lit_at(s, pos, enc_node(d, t)),
    ensures
        sp_node(d, s, pos) == Some((carried(d, t), pos + enc_node(d, t).len())),
    decreases t, 0int,
{
    let et = esc(t.text);
    let iseg = if d.icons_carried {
        enc_icons(d, t.icons, 0)
    } else {
        Seq::<char>::empty()
    };
    let ec = enc_children(d, t.children, 0);
    let whole = enc_node(d, t);
    assert(whole == d.node_open + et + d.text_close + iseg + d.pre_children + ec + d.node_close);
    lemma_lit_split(
        s,
        pos,
        d.node_open + et + d.text_close + iseg + d.pre_children + ec,
        d.node_close,
    );
    lemma_lit_split(s, pos, d.node_open + et + d.text_close + iseg + d.pre_children, ec);
    lemma_lit_split(s, pos, d.node_open + et + d.text_close + iseg, d.pre_children);
    lemma_lit_split(s, pos, d.node_open + et + d.text_close, iseg);
    lemma_lit_split(s, pos, d.node_open + et, d.text_close);
    lemma_lit_split(s, pos, d.node_open, et);
    let p1 = pos + d.node_open.len();
    let q = p1 + et.len();
    let p2 = q + d.text_close.len();
    let p3 = p2 + iseg.len();
    let p4 = p3 + d.pre_children.len();
    let p5 = p4 + ec.len();
    let e = p5 + d.node_close.len();
    assert(e == pos + whole.len());
    assert(s[q] == '"') by {
        assert(s.subrange(q, q + d.text_close.len())[0] == d.text_close[0]);
    }
    lemma_value_of_esc(s, p1, t.text);
    // The icon section: either parsed off its encoding, or skipped.
    if d.icons_carried {
        assert(lit_at(s, p3, d.pre_children + d.node_open) || lit_at(
            s,
            p3,
            d.pre_children + d.node_close,
        )) by {
            if t.children.len() > 0 {
                assert(ec == enc_node(d, t.children[0]) + enc_children(d, t.children, 1));
                lemma_lit_split(s, p4, enc_node(d, t.children[0]), enc_children(d, t.children, 1));
                assert(enc_node(d, t.children[0]) == d.node_open + (esc(t.children[0].text)
                    + d.text_close + (if d.icons_carried {
                    enc_icons(d, t.children[0].icons, 0)
                } else {
                    Seq::<char>::empty()
                }) + d.pre_children + enc_children(d, t.children[0].children, 0)
                    + d.node_close)) by {
                    assert(enc_node(d, t.children[0]) =~= d.node_open + (esc(t.children[0].text)
                        + d.text_close + (if d.icons_carried {
                        enc_icons(d, t.children[0].icons, 0)
                    } else {
                        Seq::<char>::empty()
                    }) + d.pre_children + enc_children(d, t.children[0].children, 0)
                        + d.node_close));
                }
                lemma_lit_split(
                    s,
                    p4,
                    d.node_open,
                    esc(t.children[0].text) + d.text_close + (if d.icons_carried {
                        enc_icons(d, t.children[0].icons, 0)
                    } else {
                        Seq::<char>::empty()
                    }) + d.pre_children + enc_children(d, t.children[0].children, 0)
                        + d.node_close,
                );
                lemma_lit_join(s, p3, d.pre_children, d.node_open);
            } else {
                assert(ec =~= Seq::<char>::empty());
                assert(p5 == p4);
                lemma_lit_join(s, p3, d.pre_children, d.node_close);
            }
        }
        lemma_icons_inv(d, s, t.icons, 0, p2);
    }
    // The child section.
    lemma_children_inv(d, s, t.children, 0, p4);
    // Assemble the parsed tree.
    let parsed_icons: Seq<Seq<char>> = if d.icons_carried {
        t.icons
    } else {
        Seq::empty()
    };
    let parsed_kids = t.children.subrange(0, t.children.len() as int).map_values(
        |c: TreeV| carried(d, c),
    );
    assert(sp_node(d, s, pos) == Some(
        (TreeV { text: t.text, icons: parsed_icons, children: parsed_kids }, e),
    ));
    assert(TreeV { text: t.text, icons: parsed_icons, children: parsed_kids } == carried(d, t)) by {
        assert(t.children.subrange(0, t.children.len() as int) =~= t.children);
        if d.icons_carried {
            assert forall|j: int| 0 <= j < t.children.len() implies parsed_kids[j]
                == t.children[j] by {}
            assert(parsed_kids =~= t.children);
            assert(TreeV { text: t.text, icons: parsed_icons, children: parsed_kids } =~~= t);
        } else {
            assert forall|j: int| 0 <= j < t.children.len() implies parsed_kids[j]
                == t.erase_icons().children[j] by {}
            assert(parsed_kids =~= t.erase_icons().children);
            assert(TreeV { text: t.text, icons: parsed_icons, children: parsed_kids } =~~= t.erase_icons());
        }
    }
}

/// Reading the child list off its encoding yields the remaining carried
/// children and stops exactly before the node closer.
#[verifier::rlimit(100)]
#[verifier::spinoff_prover]
pub proof fn lemma_children_inv(d: DialectV, s: Seq<char>, ch: Seq<TreeV>, k: int, pos: int)
    requires
        wf_dialect(d),
        0 <= k <= ch.len(),
        lit_at(s, pos, enc_children(d, ch, k)),
        lit_at(s, pos + enc_children(d, ch, k).len(), d.node_close),
    ensures
        sp_children(d, s, pos, k == 0) == Some(
            (
                ch.subrange(k, ch.len() as int).map_values(|c: TreeV| carried(d, c)),
                pos + enc_children(d, ch, k).len(),
            ),
        ),
    decreases ch, ch.len() - k,
{
    let e = pos + enc_children(d, ch, k).len();
    let sep = if k == 0 {
        Seq::<char>::empty()
    } else {
        d.child_next
    };
    if k == ch.len() {
        assert(enc_children(d, ch, k) =~= Seq::<char>::empty());
        assert(e == pos);
        if k == 0 {
            assert(sep + d.node_open =~= d.node_open);
            lemma_not_lit(s, pos, d.node_open, d.node_close);
            assert(!lit_at(s, pos, sep + d.node_open));
        } else {
            lemma_not_lit(s, pos, d.child_next + d.node_open, d.node_close);
        }
        assert(ch.subrange(k, ch.len() as int).map_values(|c: TreeV| carried(d, c)) =~= Seq::<
            TreeV,
        >::empty());
    } else {
        let en = enc_node(d, ch[k]);
        lemma_lit_split(s, pos, sep + en, enc_children(d, ch, k + 1));
        lemma_lit_split(s, pos, sep, en);
        let p1 = pos + sep.len();
        let p2 = p1 + en.len();
        // The parser sees the separator and an opener.
        assert(en == d.node_open + (esc(ch[k].text) + d.text_close + (if d.icons_carried {
            enc_icons(d, ch[k].icons, 0)
        } else {
            Seq::<char>::empty()
        }) + d.pre_children + enc_children(d, ch[k].children, 0) + d.node_close)) by {
            assert(en =~= d.node_open + (esc(ch[k].text) + d.text_close + (if d.icons_carried {
                enc_icons(d, ch[k].icons, 0)
            } else {
                Seq::<char>::empty()
            }) + d.pre_children + enc_children(d, ch[k].children, 0) + d.node_close));
        }
        lemma_lit_split(
            s,
            p1,
            d.node_open,
            esc(ch[k].text) + d.text_close + (if d.icons_carried {
                enc_icons(d, ch[k].icons, 0)
            } else {
                Seq::<char>::empty()
            }) + d.pre_children + enc_children(d, ch[k].children, 0) + d.node_close,
        );
        lemma_lit_join(s, pos, sep, d.node_open);
        lemma_node_inv(d, s, ch[k], p1);
        lemma_children_inv(d, s, ch, k + 1, p2);
        assert(sp_children(d, s, pos, k == 0) == Some(
            (
                seq![carried(d, ch[k])] + ch.subrange(k + 1, ch.len() as int).map_values(
                    |c: TreeV| carried(d, c),
                ),
                e,
            ),
        ));
        assert(seq![carried(d, ch[k])] + ch.subrange(k + 1, ch.len() as int).map_values(
            |c: TreeV| carried(d, c),
        ) =~= ch.subrange(k, ch.len() as int).map_values(|c: TreeV| carried(d, c)));
    }
}

// ------------------------------------------------------------------
// The executable encoder.
// ------------------------------------------------------------------

/// Append the escaped form of `s` to `out`.
pub fn push_esc(out: &mut Vec<char>, s: &str)
    ensures
        final(out)@ == old(out)@ + esc(s@),
{
    let n = s.unicode_len();
    let mut i: usize = 0;
    proof {
        assert(esc(s@.subrange(0, 0)) =~= Seq::<char>::empty());
        assert(out@ =~= out@ + esc(s@.subrange(0, 0)));
    }
    while i < n
        invariant
            i <= n,
            n == s@.len(),
            out@ == old(out)@ + esc(s@.subrange(0, i as int)),
        decreases n - i,
    {
        let c = s.get_char(i);
        let ghost pre = out@;
        if c == '&' {
            push_chars(out, "&amp;");
            proof {
                reveal_strlit("&amp;");
                assert("&amp;"@ =~= crate::escape::ent_amp());
            }
        } else if c == '<' {
            push_chars(out, "&lt;");
            proof {
                reveal_strlit("&lt;");
                assert("&lt;"@ =~= crate::escape::ent_lt());
            }
        } else if c == '>' {
            push_chars(out, "&gt;");
            proof {
                reveal_strlit("&gt;");
                assert("&gt;"@ =~= crate::escape::ent_gt());
            }
        } else if c == '"' {
            push_chars(out, "&quot;");
            proof {
                reveal_strlit("&quot;");
                assert("&quot;"@ =~= crate::escape::ent_quot());
            }
        } else {
            out.push(c);
            proof {
                assert(out@ =~= pre + seq![c]);
            }
        }
        proof {
            assert(out@ == pre + esc_char(s@[i as int]));
            lemma_esc_snoc(s@.subrange(0, i as int), s@[i as int]);
            assert(s@.subrange(0, i + 1) =~= s@.subrange(0, i as int).push(s@[i as int]));
            assert(out@ =~= old(out)@ + esc(s@.subrange(0, i + 1)));
        }
        i = i + 1;
    }
    proof {
        assert(s@.subrange(0, n as int) =~= s@);
    }
}

/// Append the encoding of node `t` (with its subtree) to `out`.
pub fn encode_node(d: &Dialect, t: &TreeNode, out: &mut Vec<char>)
    ensures
        final(out)@ == old(out)@ + enc_node(dv(*d), t@),
    decreases *t,
{
    let ghost dd = dv(*d);
    push_chars(out, d.node_open);
    push_esc(out, t.text.as_str());
    push_chars(out, d.text_close);
    let ghost after_b = out@;
    if d.icons_carried {
        let n = t.icons.len();
        let mut k: usize = 0;
        while k < n
            invariant
                k <= n,
                n == t.icons@.len(),
                dd == dv(*d),
                out@ + enc_icons(dd, t@.icons, k as int) == after_b + enc_icons(dd, t@.icons, 0),
            decreases n - k,
        {
            let ghost pre = out@;
            if k == 0 {
                push_chars(out, d.icon_open);
            } else {
                push_chars(out, d.icon_next);
            }
            push_esc(out, t.icons[k].as_str());
            push_chars(out, d.icon_close);
            proof {
                assert(t@.icons[k as int] == t.icons@[k as int]@);
                assert(out@ =~= pre + ((if k == 0 {
                    dd.icon_open
                } else {
                    dd.icon_next
                }) + esc(t@.icons[k as int]) + dd.icon_close));
                assert(enc_icons(dd, t@.icons, k as int) == (if k == 0 {
                    dd.icon_open
                } else {
                    dd.icon_next
                }) + esc(t@.icons[k as int]) + dd.icon_close + enc_icons(dd, t@.icons, k + 1));
                assert(out@ + enc_icons(dd, t@.icons, k + 1) =~= pre + enc_icons(
                    dd,
                    t@.icons,
                    k as int,
                ));
            }
            k = k + 1;
        }
        proof {
            assert(enc_icons(dd, t@.icons, n as int) =~= Seq::<char>::empty());
            assert(out@ =~= out@ + enc_icons(dd, t@.icons, n as int));
            assert(out@ == after_b + enc_icons(dd, t@.icons, 0));
        }
    }
    let ghost after_icons = out@;
    push_chars(out, d.pre_children);
    let ghost after_c = out@;
    let cn = t.children.len();
    let mut k: usize = 0;
    while k < cn
        invariant
            k <= cn,
            cn == t.children@.len(),
            dd == dv(*d),
            out@ + enc_children(dd, t@.children, k as int) == after_c + enc_children(
                dd,
                t@.children,
                0,
            ),
        decreases cn - k,
    {
        let ghost pre = out@;
        if k > 0 {
            push_chars(out, d.child_next);
        }
        encode_node(d, &t.children[k], out);
        proof {
            assert(t@.children[k as int] == tree_view(t.children@[k as int]));
            assert(out@ =~= pre + ((if k == 0 {
                Seq::<char>::empty()
            } else {
                dd.child_next
            }) + enc_node(dd, t@.children[k as int])));
            assert(enc_children(dd, t@.children, k as int) == (if k == 0 {
                Seq::<char>::empty()
            } else {
                dd.child_next
            }) + enc_node(dd, t@.children[k as int]) + enc_children(dd, t@.children, k + 1));
            assert(out@ + enc_children(dd, t@.children, k + 1) =~= pre + enc_children(
                dd,
                t@.children,
                k as int,
            ));
        }
        k = k + 1;
    }
    proof {
        assert(enc_children(dd, t@.children, cn as int) =~= Seq::<char>::empty());
        assert(out@ =~= out@ + enc_children(dd, t@.children, cn as int));
        assert(out@ == after_c + enc_children(dd, t@.children, 0));
    }
    push_chars(out, d.node_close);
    proof {
        assert(t@.text == t.text@);
        assert(out@ =~= old(out)@ + enc_node(dd, t@));
    }
}

/// Encode a whole document.
pub fn encode_document(d: &Dialect, t: &TreeNode) -> (out: Vec<char>)
    ensures
        out@ == enc_doc(dv(*d), t@),
{
    let mut out: Vec<char> = Vec::new();
    push_chars(&mut out, d.header);
    encode_node(d, t, &mut out);
    push_chars(&mut out, d.footer);
    proof {
        assert(out@ =~= enc_doc(dv(*d), t@));
    }
    out
}

// ------------------------------------------------------------------
// The executable parser.
// ------------------------------------------------------------------

/// Whether `lit` stands verbatim at `pos`.
pub fn match_lit(v: &Vec<char>, pos: usize, lit: &str) -> (r: bool)
    ensures
        r == lit_at(v@, pos as int, lit@),
        r ==> pos + lit@.len() <= v@.len(),
{
    let n = lit.unicode_len();
    if pos > v.len() || n > v.len() - pos {
        return false;
    }
    let mut j: usize = 0;
    while j < n
        invariant
            j <= n,
            n == lit@.len(),
            pos + n <= v@.len(),
            v@.len() <= usize::MAX,
            forall|jj: int| 0 <= jj < j ==> v@[pos + jj] == lit@[jj],
        decreases n - j,
    {
        if v[pos + j] != lit.get_char(j) {
            proof {
                assert(v@.subrange(pos as int, pos + n) != lit@) by {
                    assert(v@.subrange(pos as int, pos + n)[j as int] == v@[pos + j]);
                }
            }
            return false;
        }
        j = j + 1;
    }
    proof {
        assert(v@.subrange(pos as int, pos + n) =~= lit@);
    }
    true
}

/// The position of the first quote at or after `pos`, if any.
fn scan_quote(v: &Vec<char>, pos: usize) -> (r: Option<usize>)
    requires
        pos <= v@.len(),
    ensures
        match r {
            Some(q) => sp_scan_quote(v@, pos as int) == Some(q as int) && pos <= q < v@.len(),
            None => sp_scan_quote(v@, pos as int) is None,
        },
{
    let mut i = pos;
    while i < v.len()
        invariant
            pos <= i <= v@.len(),
            sp_scan_quote(v@, pos as int) == sp_scan_quote(v@, i as int),
        decreases v@.len() - i,
    {
        if v[i] == '"' {
            return Some(i);
        }
        i = i + 1;
    }
    None
}

/// Unescape the characters of `v` between `from` and `to`.
fn unesc_range(v: &Vec<char>, from: usize, to: usize) -> (r: Option<Vec<char>>)
    requires
        from <= to <= v@.len(),
    ensures
        match sp_unesc(v@.subrange(from as int, to as int)) {
            Some(x) => r matches Some(o) && o@ == x,
            None => r is None,
        },
{
    let mut out: Vec<char> = Vec::new();
    let mut i = from;
    while i < to
        invariant
            from <= i <= to <= v@.len(),
            sp_unesc(v@.subrange(from as int, to as int)) == (match sp_unesc(
                v@.subrange(i as int, to as int),
            ) {
                Some(x) => Some(out@ + x),
                None => None::<Seq<char>>,
            }),
        decreases to - i,
    {
        let ghost seg = v@.subrange(i as int, to as int);
        proof {
            assert(seg.len() == to - i);
            assert forall|j: int| 0 <= j < seg.len() implies seg[j] == v@[i + j] by {}
        }
        let c = v[i];
        let ghost pre = out@;
        if c == '&' {
            if to - i >= 5 && v[i + 1] == 'a' && v[i + 2] == 'm' && v[i + 3] == 'p' && v[i + 4]
                == ';' {
                out.push('&');
                proof {
                    assert(seg.subrange(0, 5) =~= crate::escape::ent_amp());
                    assert(crate::escape::starts_with(seg, crate::escape::ent_amp()));
                    assert(seg.subrange(5, seg.len() as int) =~= v@.subrange(i + 5, to as int));
                    assert(out@ =~= pre + seq!['&']);
                }
                i = i + 5;
            } else if to - i >= 4 && v[i + 1] == 'l' && v[i + 2] == 't' && v[i + 3] == ';' {
                out.push('<');
                proof {
                    assert(!crate::escape::starts_with(seg, crate::escape::ent_amp())) by {
                        if crate::escape::starts_with(seg, crate::escape::ent_amp()) {
                            assert(seg.subrange(0, 5)[1] == 'a');
                        }
                    }
                    assert(seg.subrange(0, 4) =~= crate::escape::ent_lt());
                    assert(seg.subrange(4, seg.len() as int) =~= v@.subrange(i + 4, to as int));
                    assert(out@ =~= pre + seq!['<']);
                }
                i = i + 4;
            } else if to - i >= 4 && v[i + 1] == 'g' && v[i + 2] == 't' && v[i + 3] == ';' {
                out.push('>');
                proof {
                    assert(!crate::escape::starts_with(seg, crate::escape::ent_amp())) by {
                        if crate::escape::starts_with(seg, crate::escape::ent_amp()) {
                            assert(seg.subrange(0, 5)[1] == 'a');
                        }
                    }
                    assert(!crate::escape::starts_with(seg, crate::escape::ent_lt())) by {
                        if crate::escape::starts_with(seg, crate::escape::ent_lt()) {
                            assert(seg.subrange(0, 4)[1] == 'l');
                        }
                    }
                    assert(seg.subrange(0, 4) =~= crate::escape::ent_gt());
                    assert(seg.subrange(4, seg.len() as int) =~= v@.subrange(i + 4, to as int));
                    assert(out@ =~= pre + seq!['>']);
                }
                i = i + 4;
            } else if to - i >= 6 && v[i + 1] == 'q' && v[i + 2] == 'u' && v[i + 3] == 'o' && v[i
                + 4] == 't' && v[i + 5] == ';' {
                out.push('"');
                proof {
                    assert(!crate::escape::starts_with(seg, crate::escape::ent_amp())) by {
                        if crate::escape::starts_with(seg, crate::escape::ent_amp()) {
                            assert(seg.subrange(0, 5)[1] == 'a');
                        }
                    }
                    assert(!crate::escape::starts_with(seg, crate::escape::ent_lt())) by {
                        if crate::escape::starts_with(seg, crate::escape::ent_lt()) {
                            assert(seg.subrange(0, 4)[1] == 'l');
                        }
                    }
                    assert(!crate::escape::starts_with(seg, crate::escape::ent_gt())) by {
                        if crate::escape::starts_with(seg, crate::escape::ent_gt()) {
                            assert(seg.subrange(0, 4)[1] == 'g');
                        }
                    }
                    assert(seg.subrange(0, 6) =~= crate::escape::ent_quot());
                    assert(seg.subrange(6, seg.len() as int) =~= v@.subrange(i + 6, to as int));
                    assert(out@ =~= pre + seq!['"']);
                }
                i = i + 6;
            } else {
                proof {
                    assert(!crate::escape::starts_with(seg, crate::escape::ent_amp())) by {
                        if crate::escape::starts_with(seg, crate::escape::ent_amp()) {
                            assert(seg.subrange(0, 5)[1] == 'a');
                            assert(seg.subrange(0, 5)[2] == 'm');
                            assert(seg.subrange(0, 5)[3] == 'p');
                            assert(seg.subrange(0, 5)[4] == ';');
                        }
                    }
                    assert(!crate::escape::starts_with(seg, crate::escape::ent_lt())) by {
                        if crate::escape::starts_with(seg, crate::escape::ent_lt()) {
                            assert(seg.subrange(0, 4)[1] == 'l');
                            assert(seg.subrange(0, 4)[2] == 't');
                            assert(seg.subrange(0, 4)[3] == ';');
                        }
                    }
                    assert(!crate::escape::starts_with(seg, crate::escape::ent_gt())) by {
                        if crate::escape::starts_with(seg, crate::escape::ent_gt()) {
                            assert(seg.subrange(0, 4)[1] == 'g');
                            assert(seg.subrange(0, 4)[2] == 't');
                            assert(seg.subrange(0, 4)[3] == ';');
                        }
                    }
                    assert(!crate::escape::starts_with(seg, crate::escape::ent_quot())) by {
                        if crate::escape::starts_with(seg, crate::escape::ent_quot()) {
                            assert(seg.subrange(0, 6)[1] == 'q');
                            assert(seg.subrange(0, 6)[2] == 'u');
                            assert(seg.subrange(0, 6)[3] == 'o');
                            assert(seg.subrange(0, 6)[4] == 't');
                            assert(seg.subrange(0, 6)[5] == ';');
                        }
                    }
                    assert(sp_unesc(seg) is None);
                }
                return None;
            }
        } else if c == '<' || c == '"' {
            return None;
        } else {
            out.push(c);
            proof {
                assert(seg.subrange(1, seg.len() as int) =~= v@.subrange(i + 1, to as int));
                assert(out@ =~= pre + seq![c]);
            }
            i = i + 1;
        }
    }
    proof {
        assert(v@.subrange(i as int, to as int) =~= Seq::<char>::empty());
        assert(sp_unesc(v@.subrange(i as int, to as int)) == Some(Seq::<char>::empty()));
        assert(out@ + Seq::<char>::empty() =~= out@);
    }
    Some(out)
}

/// Read a quoted value beginning at `pos`: the unescaped text and the
/// position of the closing quote.
fn parse_value(v: &Vec<char>, pos: usize) -> (r: Result<(Vec<char>, usize), usize>)
    requires
        pos <= v@.len(),
    ensures
        match sp_value(v@, pos as int) {
            Some(x) => r matches Ok(o) && o.0@ == x.0 && o.1 == x.1 && pos <= o.1 < v@.len(),
            None => r is Err,
        },
{
    match scan_quote(v, pos) {
        Some(q) => match unesc_range(v, pos, q) {
            Some(o) => Ok((o, q)),
            None => Err(pos),
        },
        None => Err(pos),
    }
}

/// Read the icon list beginning at `pos`, mirroring `sp_icons`.
fn parse_icons(d: &Dialect, v: &Vec<char>, pos: usize, first: bool) -> (r: Result<
    (Vec<String>, usize),
    usize,
>)
    requires
        pos <= v@.len(),
    ensures
        match sp_icons(dv(*d), v@, pos as int, first) {
            Some(x) => r matches Ok(o) && o.0@.map_values(|s: String| s@) == x.0 && o.1 == x.1
                && pos <= o.1 <= v@.len(),
            None => r is Err,
        },
    decreases v@.len() - pos, 0int,
{
    let vlen = v.len();
    let opener = if first {
        d.icon_open
    } else {
        d.icon_next
    };
    if !match_lit(v, pos, opener) {
        let empty: Vec<String> = Vec::new();
        proof {
            assert(empty@.map_values(|s: String| s@) =~= Seq::<Seq<char>>::empty());
        }
        return Ok((empty, pos));
    }
    let p1 = pos + opener.unicode_len();
    let (ic, q) = match parse_value(v, p1) {
        Ok(x) => x,
        Err(e) => {
            return Err(e);
        },
    };
    if !match_lit(v, q, d.icon_close) {
        return Err(q);
    }
    let p2 = q + d.icon_close.unicode_len();
    if !(pos < p2 && p2 <= v.len()) {
        return Err(p2);
    }
    let (mut rest, e) = match parse_icons(d, v, p2, false) {
        Ok(x) => x,
        Err(er) => {
            return Err(er);
        },
    };
    let mut out: Vec<String> = Vec::new();
    let head = chars_to_string(&ic);
    let ghost restv = rest@;
    out.push(head);
    out.append(&mut rest);
    proof {
        let dd = dv(*d);
        let spec_icons = sp_icons(dd, v@, pos as int, first)->Some_0.0;
        assert(out@ == seq![out@[0]] + restv);
        assert forall|j: int| 0 <= j < out@.len() implies out@.map_values(|s: String| s@)[j]
            == spec_icons[j] by {
            if j > 0 {
                assert(out@[j] == restv[j - 1]);
                assert(restv.map_values(|s: String| s@)[j - 1] == restv[j - 1]@);
            }
        }
        assert(out@.map_values(|s: String| s@) =~= spec_icons);
    }
    Ok((out, e))
}

/// Read one node beginning at `pos`, mirroring `sp_node`.
pub fn parse_node(d: &Dialect, v: &Vec<char>, pos: usize) -> (r: Result<(TreeNode, usize), usize>)
    requires
        pos <= v@.len(),
    ensures
        match sp_node(dv(*d), v@, pos as int) {
            Some(x) => r matches Ok(o) && o.0@ == x.0 && o.1 == x.1 && pos <= o.1 <= v@.len(),
            None => r is Err,
        },
    decreases v@.len() - pos, 1int,
{
    let vlen = v.len();
    let ghost dd = dv(*d);
    if !match_lit(v, pos, d.node_open) {
        return Err(pos);
    }
    let p1 = pos + d.node_open.unicode_len();
    let (text_chars, q) = match parse_value(v, p1) {
        Ok(x) => x,
        Err(e) => {
            return Err(e);
        },
    };
    if !match_lit(v, q, d.text_close) {
        return Err(q);
    }
    let p2 = q + d.text_close.unicode_len();
    if !(pos < p2 && p2 <= v.len()) {
        return Err(p2);
    }
    let (icon_vec, p3) = if d.icons_carried {
        match parse_icons(d, v, p2, true) {
            Ok(x) => x,
            Err(e) => {
                return Err(e);
            },
        }
    } else {
        (Vec::new(), p2)
    };
    if !(pos < p3 && p3 <= v.len()) {
        return Err(p3);
    }
    if !match_lit(v, p3, d.pre_children) {
        return Err(p3);
    }
    let p4 = p3 + d.pre_children.unicode_len();
    if !(pos < p4 && p4 <= v.len()) {
        return Err(p4);
    }
    let (kids, p5) = match parse_children(d, v, p4, true) {
        Ok(x) => x,
        Err(e) => {
            return Err(e);
        },
    };
    if !match_lit(v, p5, d.node_close) {
        return Err(p5);
    }
    let pe = p5 + d.node_close.unicode_len();
    let tn = TreeNode { text: chars_to_string(&text_chars), icons: icon_vec, children: kids };
    proof {
        let x = sp_node(dd, v@, pos as int)->Some_0;
        assert(tn@.icons =~= x.0.icons);
        assert forall|j: int| 0 <= j < tn.children@.len() implies tn@.children[j]
            == x.0.children[j] by {
            assert(tree_view(tn.children@[j]) == x.0.children[j]);
        }
        assert(tn@.children =~= x.0.children);
        assert(tn@ =~~= x.0);
    }
    Ok((tn, pe))
}

/// Read the child list beginning at `pos`, mirroring `sp_children`.
fn parse_children(d: &Dialect, v: &Vec<char>, pos: usize, first: bool) -> (r: Result<
    (Vec<TreeNode>, usize),
    usize,
>)
    requires
        pos <= v@.len(),
    ensures
        match sp_children(dv(*d), v@, pos as int, first) {
            Some(x) => r matches Ok(o) && o.0@.len() == x.0.len() && (forall|j: int|
                0 <= j < x.0.len() ==> tree_view(o.0@[j]) == x.0[j]) && o.1 == x.1 && pos <= o.1
                <= v@.len(),
            None => r is Err,
        },
    decreases v@.len() - pos, 2int,
{
    let vlen = v.len();
    let ghost dd = dv(*d);
    let sep = if first {
        ""
    } else {
        d.child_next
    };
    proof {
        reveal_strlit("");
        assert(""@ =~= Seq::<char>::empty());
    }
    let ghost sepv = if first {
        Seq::<char>::empty()
    } else {
        dd.child_next
    };
    let sep_ok = match_lit(v, pos, sep);
    let mut open_ok = false;
    let mut p1 = pos;
    if sep_ok {
        p1 = pos + sep.unicode_len();
        open_ok = match_lit(v, p1, d.node_open);
    }
    if !(sep_ok && open_ok) {
        proof {
            if lit_at(v@, pos as int, sepv + dd.node_open) {
                lemma_lit_split(v@, pos as int, sepv, dd.node_open);
            }
            assert(!lit_at(v@, pos as int, sepv + dd.node_open));
        }
        return Ok((Vec::new(), pos));
    }
    proof {
        lemma_lit_join(v@, pos as int, sepv, dd.node_open);
    }
    let (tn, p2) = match parse_node(d, v, p1) {
        Ok(x) => x,
        Err(e) => {
            return Err(e);
        },
    };
    if !(pos < p2 && p2 <= v.len()) {
        return Err(p2);
    }
    let (mut rest, e) = match parse_children(d, v, p2, false) {
        Ok(x) => x,
        Err(er) => {
            return Err(er);
        },
    };
    let mut out: Vec<TreeNode> = Vec::new();
    let ghost restv = rest@;
    out.push(tn);
    out.append(&mut rest);
    proof {
        let x = sp_children(dd, v@, pos as int, first)->Some_0;
        assert(out@.len() == x.0.len());
        assert forall|j: int| 0 <= j < x.0.len() implies tree_view(out@[j]) == x.0[j] by {
            if j > 0 {
                assert(out@[j] == restv[j - 1]);
            }
        }
    }
    Ok((out, e))
}

/// Read a whole document, mirroring `sp_doc`. An error carries the
/// character offset at which reading stopped.
pub fn parse_document(d: &Dialect, v: &Vec<char>) -> (r: Result<TreeNode, usize>)
    ensures
        match sp_doc(dv(*d), v@) {
            Some(t) => r matches Ok(tn) && tn@ == t,
            None => r is Err,
        },
{
    let vlen = v.len();
    if !match_lit(v, 0, d.header) {
        return Err(0);
    }
    let (tn, p) = match parse_node(d, v, d.header.unicode_len()) {
        Ok(x) => x,
        Err(e) => {
            return Err(e);
        },
    };
    if !match_lit(v, p, d.footer) {
        return Err(p);
    }
    let pe = p + d.footer.unicode_len();
    if pe != v.len() {
        return Err(p);
    }
    Ok(tn)
}

/// The round-trip theorem of the shared skeleton: for every unambiguous
/// dialect and every tree, parsing the encoding yields exactly the carried
/// tree — the tree itself where the dialect carries icons, the tree with
/// icons erased where it does not.
#[verifier::rlimit(100)]
#[verifier::spinoff_prover]
pub proof fn lemma_doc_inv(d: DialectV, t: TreeV)
    requires
        wf_dialect(d),
    ensures
        sp_doc(d, enc_doc(d, t)) == Some(carried(d, t)),
{
    let s = enc_doc(d, t);
    assert(s == d.header + enc_node(d, t) + d.footer);
    assert(lit_at(s, 0, s)) by {
        assert(s.subrange(0, s.len() as int) =~= s);
    }
    lemma_lit_split(s, 0, d.header + enc_node(d, t), d.footer);
    lemma_lit_split(s, 0, d.header, enc_node(d, t));
    lemma_node_inv(d, s, t, d.header.len() as int);
}

} // verus!
