//! Escaping of text that is stored inside quoted values of the interchange
//! formats: the four characters that could be mistaken for markup become
//! named entities, everything else stays itself, and unescaping inverts the
//! mapping exactly.

use vstd::prelude::*;

verus! {

/// The entity spelling of `&`.
pub open spec fn ent_amp() -> Seq<char> {
    seq!['&', 'a', 'm', 'p', ';']
}

/// The entity spelling of `<`.
pub open spec fn ent_lt() -> Seq<char> {
    seq!['&', 'l', 't', ';']
}

/// The entity spelling of `>`.
pub open spec fn ent_gt() -> Seq<char> {
    seq!['&', 'g', 't', ';']
}

/// The entity spelling of `"`.
pub open spec fn ent_quot() -> Seq<char> {
    seq!['&', 'q', 'u', 'o', 't', ';']
}

/// How one character is written inside a quoted value.
pub open spec fn esc_char(c: char) -> Seq<char> {
    if c == '&' {
        ent_amp()
    } else if c == '<' {
        ent_lt()
    } else if c == '>' {
        ent_gt()
    } else if c == '"' {
        ent_quot()
    } else {
        seq![c]
    }
}

/// How a whole text is written inside a quoted value.
pub open spec fn esc(s: Seq<char>) -> Seq<char>
    decreases s.len(),
{
    if s.len() == 0 {
        Seq::empty()
    } else {
        esc_char(s[0]) + esc(s.subrange(1, s.len() as int))
    }
}

/// Whether `seg` starts with `pre`.
pub open spec fn starts_with(seg: Seq<char>, pre: Seq<char>) -> bool {
    pre.len() <= seg.len() && seg.subrange(0, pre.len() as int) == pre
}

/// The inverse reading of an escaped segment: entities become their
/// characters, a stray `<` or `"` or an unknown entity is malformed.
pub open spec fn sp_unesc(seg: Seq<char>) -> Option<Seq<char>>
    decreases seg.len(),
{
    if seg.len() == 0 {
        Some(Seq::empty())
    } else if seg[0] == '&' {
        if starts_with(seg, ent_amp()) {
            match sp_unesc(seg.subrange(5, seg.len() as int)) {
                Some(r) => Some(seq!['&'] + r),
                None => None,
            }
        } else if starts_with(seg, ent_lt()) {
            match sp_unesc(seg.subrange(4, seg.len() as int)) {
                Some(r) => Some(seq!['<'] + r),
                None => None,
            }
        } else if starts_with(seg, ent_gt()) {
            match sp_unesc(seg.subrange(4, seg.len() as int)) {
                Some(r) => Some(seq!['>'] + r),
                None => None,
            }
        } else if starts_with(seg, ent_quot()) {
            match sp_unesc(seg.subrange(6, seg.len() as int)) {
                Some(r) => Some(seq!['"'] + r),
                None => None,
            }
        } else {
            None
        }
    } else if seg[0] == '<' || seg[0] == '"' {
        None
    } else {
        match sp_unesc(seg.subrange(1, seg.len() as int)) {
            Some(r) => Some(seq![seg[0]] + r),
            None => None,
        }
    }
}

/// Escaped text never contains a quote character, so the closing quote of a
/// value is always the first quote after it.
pub proof fn lemma_esc_no_quote(s: Seq<char>)
    ensures
        forall|j: int| 0 <= j < esc(s).len() ==> esc(s)[j] != '"',
    decreases s.len(),
{
    if s.len() > 0 {
        lemma_esc_no_quote(s.subrange(1, s.len() as int));
        assert forall|j: int| 0 <= j < esc(s).len() implies esc(s)[j] != '"' by {
            let e0 = esc_char(s[0]);
            if j < e0.len() {
                assert(esc(s)[j] == e0[j]);
            } else {
                assert(esc(s)[j] == esc(s.subrange(1, s.len() as int))[j - e0.len()]);
            }
        }
    }
}

/// Appending one more character to the text appends its escape to the
/// escaped form.
pub proof fn lemma_esc_snoc(s: Seq<char>, c: char)
    ensures
        esc(s.push(c)) == esc(s) + esc_char(c),
    decreases s.len(),
{
    if s.len() == 0 {
        let t = s.push(c);
        assert(t.len() == 1 && t[0] == c);
        assert(t.subrange(1, 1) =~= Seq::<char>::empty());
        assert(esc(t) == esc_char(c) + esc(t.subrange(1, 1)));
        assert(esc(t.subrange(1, 1)) =~= Seq::<char>::empty());
        assert(esc(s) =~= Seq::<char>::empty());
        assert(esc(t) =~= esc(s) + esc_char(c));
    } else {
        let t = s.push(c);
        assert(t[0] == s[0]);
        assert(t.subrange(1, t.len() as int) =~= s.subrange(1, s.len() as int).push(c));
        lemma_esc_snoc(s.subrange(1, s.len() as int), c);
        assert(esc(t) == esc_char(s[0]) + (esc(s.subrange(1, s.len() as int)) + esc_char(c)));
        assert(esc_char(s[0]) + (esc(s.subrange(1, s.len() as int)) + esc_char(c)) =~= (esc_char(
            s[0],
        ) + esc(s.subrange(1, s.len() as int))) + esc_char(c));
    }
}

/// Unescaping inverts escaping exactly.
pub proof fn lemma_unesc_esc(s: Seq<char>)
    ensures
        sp_unesc(esc(s)) == Some(s),
    decreases s.len(),
{
    if s.len() == 0 {
    } else {
        let rest = s.subrange(1, s.len() as int);
        let e0 = esc_char(s[0]);
        let e = esc(s);
        lemma_unesc_esc(rest);
        assert(e == e0 + esc(rest));
        assert(e.len() >= e0.len());
        assert forall|j: int| 0 <= j < e0.len() implies e[j] == e0[j] by {}
        assert(e.subrange(e0.len() as int, e.len() as int) =~= esc(rest));
        if s[0] == '&' {
            assert(starts_with(e, ent_amp())) by {
                assert(e.subrange(0, 5) =~= e0);
            }
            assert(sp_unesc(e) == Some(seq!['&'] + rest));
            assert(seq!['&'] + rest =~= s);
        } else if s[0] == '<' {
            assert(e[0] == '&' && e[1] == 'l');
            assert(!starts_with(e, ent_amp())) by {
                if starts_with(e, ent_amp()) {
                    assert(e.subrange(0, 5)[1] == 'a');
                }
            }
            assert(starts_with(e, ent_lt())) by {
                assert(e.subrange(0, 4) =~= e0);
            }
            assert(sp_unesc(e) == Some(seq!['<'] + rest));
            assert(seq!['<'] + rest =~= s);
        } else if s[0] == '>' {
            assert(e[0] == '&' && e[1] == 'g');
            assert(!starts_with(e, ent_amp())) by {
                if starts_with(e, ent_amp()) {
                    assert(e.subrange(0, 5)[1] == 'a');
                }
            }
            assert(!starts_with(e, ent_lt())) by {
                if starts_with(e, ent_lt()) {
                    assert(e.subrange(0, 4)[1] == 'l');
                }
            }
            assert(starts_with(e, ent_gt())) by {
                assert(e.subrange(0, 4) =~= e0);
            }
            assert(sp_unesc(e) == Some(seq!['>'] + rest));
            assert(seq!['>'] + rest =~= s);
        } else if s[0] == '"' {
            assert(e[0] == '&' && e[1] == 'q');
            assert(!starts_with(e, ent_amp())) by {
                if starts_with(e, ent_amp()) {
                    assert(e.subrange(0, 5)[1] == 'a');
                }
            }
            assert(!starts_with(e, ent_lt())) by {
                if starts_with(e, ent_lt()) {
                    assert(e.subrange(0, 4)[1] == 'l');
                }
            }
            assert(!starts_with(e, ent_gt())) by {
                if starts_with(e, ent_gt()) {
                    assert(e.subrange(0, 4)[1] == 'g');
                }
            }
            assert(starts_with(e, ent_quot())) by {
                assert(e.subrange(0, 6) =~= e0);
            }
            assert(sp_unesc(e) == Some(seq!['"'] + rest));
            assert(seq!['"'] + rest =~= s);
        } else {
            assert(e[0] == s[0]);
            assert(e.subrange(1, e.len() as int) =~= esc(rest));
            assert(sp_unesc(e) == Some(seq![s[0]] + rest));
            assert(seq![s[0]] + rest =~= s);
        }
    }
}

} // verus!
