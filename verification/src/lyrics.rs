//! Splitting raw lyric text into stanzas.
//!
//! A song's slides are derived from its lyric text by cutting the text at
//! every blank line (two consecutive newlines), trimming the surrounding
//! white space from each piece, and discarding the pieces that end up
//! empty.  The surviving stanzas are the slide bodies, in text order.

use vstd::prelude::*;

verus! {

/// The Unicode white-space characters, the ones removed when a stanza is
/// trimmed.
pub open spec fn is_space_char(c: char) -> bool {
    let u = c as u32;
    ||| u == 0x20
    ||| (0x09 <= u && u <= 0x0D)
    ||| u == 0x85
    ||| u == 0xA0
    ||| u == 0x1680
    ||| (0x2000 <= u && u <= 0x200A)
    ||| u == 0x2028
    ||| u == 0x2029
    ||| u == 0x202F
    ||| u == 0x205F
    ||| u == 0x3000
}

/// Runtime test for [`is_space_char`].
pub fn is_space(c: char) -> (r: bool)
    ensures
        r == is_space_char(c),
{
    let u = c as u32;
    u == 0x20 || (0x09 <= u && u <= 0x0D) || u == 0x85 || u == 0xA0 || u == 0x1680 || (0x2000 <= u
        && u <= 0x200A) || u == 0x2028 || u == 0x2029 || u == 0x202F || u == 0x205F || u == 0x3000
}

/// The text with its leading white space removed.
pub open spec fn trim_front(s: Seq<char>) -> Seq<char>
    decreases s.len(),
{
    if s.len() > 0 && is_space_char(s[0]) {
        trim_front(s.drop_first())
    } else {
        s
    }
}

/// The text with its trailing white space removed.
pub open spec fn trim_back(s: Seq<char>) -> Seq<char>
    decreases s.len(),
{
    if s.len() > 0 && is_space_char(s.last()) {
        trim_back(s.drop_last())
    } else {
        s
    }
}

/// The text with white space removed from both ends.
pub open spec fn trimmed(s: Seq<char>) -> Seq<char> {
    trim_back(trim_front(s))
}

/// Removes the white space surrounding `s`.
pub fn trim_text(s: &str) -> (r: String)
    ensures
        r@ == trimmed(s@),
{
    let n = s.unicode_len();
    let mut i: usize = 0;
    proof {
        assert(s@.skip(0) =~= s@);
    }
    while i < n && is_space(s.get_char(i))
        invariant
            n == s@.len(),
            i <= n,
            trim_front(s@) == trim_front(s@.skip(i as int)),
        decreases n - i,
    {
        proof {
            let rest = s@.skip(i as int);
            assert(rest.len() > 0);
            assert(rest[0] == s@[i as int]);
            assert(rest.drop_first() =~= s@.skip(i as int + 1));
        }
        i += 1;
    }
    proof {
        if i == n {
            assert(s@.skip(i as int).len() == 0);
        }
        assert(trim_front(s@) == s@.skip(i as int));
        assert(s@.subrange(i as int, n as int) =~= s@.skip(i as int));
    }
    let mut j: usize = n;
    while j > i && is_space(s.get_char(j - 1))
        invariant
            n == s@.len(),
            i <= j <= n,
            trim_front(s@) == s@.skip(i as int),
            trim_back(s@.skip(i as int)) == trim_back(s@.subrange(i as int, j as int)),
        decreases j,
    {
        proof {
            let sub = s@.subrange(i as int, j as int);
            assert(sub.len() > 0);
            assert(sub.last() == s@[j as int - 1]);
            assert(sub.drop_last() =~= s@.subrange(i as int, j as int - 1));
        }
        j -= 1;
    }
    proof {
        let sub = s@.subrange(i as int, j as int);
        if j == i {
            assert(sub.len() == 0);
        } else {
            assert(sub.last() == s@[j as int - 1]);
        }
        assert(trim_back(sub) == sub);
    }
    let piece = s.substring_char(i, j);
    piece.to_owned()
}

/// Whether a stanza separator (two consecutive newlines) starts at index `i`.
pub open spec fn sep_at(s: Seq<char>, i: int) -> bool {
    &&& 0 <= i
    &&& i + 1 < s.len()
    &&& s[i] == '\n'
    &&& s[i + 1] == '\n'
}

/// The index of the leftmost stanza separator at or after `from`, or -1 if
/// there is none.
pub open spec fn first_sep_from(s: Seq<char>, from: int) -> int
    decreases s.len() - from,
{
    if from < 0 {
        -1
    } else if from + 1 >= s.len() {
        -1
    } else if s[from] == '\n' && s[from + 1] == '\n' {
        from
    } else {
        first_sep_from(s, from + 1)
    }
}

/// `first_sep_from` finds exactly the leftmost separator at or after `from`.
pub proof fn lemma_first_sep_from(s: Seq<char>, from: int)
    requires
        0 <= from,
    ensures
        ({
            let i = first_sep_from(s, from);
            &&& (i == -1 ==> forall|k: int| from <= k ==> !sep_at(s, k))
            &&& (i >= 0 ==> from <= i && sep_at(s, i) && (forall|k: int|
                from <= k < i ==> !sep_at(s, k)))
        }),
    decreases s.len() - from,
{
    if from + 1 >= s.len() {
        assert(forall|k: int| from <= k ==> !sep_at(s, k));
    } else if s[from] == '\n' && s[from + 1] == '\n' {
    } else {
        lemma_first_sep_from(s, from + 1);
        assert(!sep_at(s, from));
    }
}

/// The pieces of `s` from index `from` on, cut at every separator.  The
/// separators themselves are dropped; empty pieces are kept.
pub open spec fn raw_pieces(s: Seq<char>, from: int) -> Seq<Seq<char>>
    recommends
        0 <= from <= s.len(),
    decreases s.len() - from,
        via raw_pieces_decreases
{
    let i = first_sep_from(s, from);
    if i < 0 {
        seq![s.subrange(from, s.len() as int)]
    } else {
        seq![s.subrange(from, i)] + raw_pieces(s, i + 2)
    }
}

#[via_fn]
proof fn raw_pieces_decreases(s: Seq<char>, from: int) {
    if 0 <= from {
        lemma_first_sep_from(s, from);
    }
}

/// The pieces, each trimmed, with the empty ones dropped.
pub open spec fn clean_pieces(ps: Seq<Seq<char>>) -> Seq<Seq<char>>
    decreases ps.len(),
{
    if ps.len() == 0 {
        Seq::empty()
    } else {
        let t = trimmed(ps[0]);
        let rest = clean_pieces(ps.drop_first());
        if t.len() == 0 {
            rest
        } else {
            seq![t] + rest
        }
    }
}

/// The stanzas of a lyric text: the blank-line-separated pieces, trimmed,
/// without the empty ones.
pub open spec fn stanza_seq(s: Seq<char>) -> Seq<Seq<char>> {
    clean_pieces(raw_pieces(s, 0))
}

/// Law: every stanza of a lyric text is non-empty — the empty pieces are
/// discarded by the split, so every slide body has text.
pub proof fn lemma_stanzas_nonempty(s: Seq<char>)
    ensures
        forall|k: int| 0 <= k < stanza_seq(s).len() ==> (#[trigger] stanza_seq(s)[k]).len() > 0,
{
    lemma_clean_nonempty(raw_pieces(s, 0));
}

proof fn lemma_clean_nonempty(ps: Seq<Seq<char>>)
    ensures
        forall|k: int| 0 <= k < clean_pieces(ps).len() ==> (#[trigger] clean_pieces(ps)[k]).len()
            > 0,
    decreases ps.len(),
{
    if ps.len() > 0 {
        lemma_clean_nonempty(ps.drop_first());
        let t = trimmed(ps[0]);
        let rest = clean_pieces(ps.drop_first());
        if t.len() > 0 {
            assert forall|k: int| 0 <= k < clean_pieces(ps).len() implies (
            #[trigger] clean_pieces(ps)[k]).len() > 0 by {
                if k > 0 {
                    assert(clean_pieces(ps)[k] == rest[k - 1]);
                }
            }
        }
    }
}

proof fn lemma_clean_cons(p: Seq<char>, rest: Seq<Seq<char>>)
    ensures
        clean_pieces(seq![p] + rest) == (if trimmed(p).len() == 0 {
            clean_pieces(rest)
        } else {
            seq![trimmed(p)] + clean_pieces(rest)
        }),
{
    let ps = seq![p] + rest;
    assert(ps.len() == 1 + rest.len());
    assert(ps[0] == p);
    assert(ps.drop_first() =~= rest);
}

/// Splits a lyric text into its stanzas.
pub fn split_stanzas(text: &str) -> (r: Vec<String>)
    ensures
        r.deep_view() == stanza_seq(text@),
{
    let n = text.unicode_len();
    let mut out: Vec<String> = Vec::new();
    let mut start: usize = 0;
    loop
        invariant
            n == text@.len(),
            start <= n,
            stanza_seq(text@) == out.deep_view() + clean_pieces(raw_pieces(text@, start as int)),
        decreases n - start,
    {
        let ghost prev_out = out.deep_view();
        let mut k: usize = start;
        while k < n && k + 1 < n && !(text.get_char(k) == '\n' && text.get_char(k + 1) == '\n')
            invariant
                n == text@.len(),
                start <= k <= n,
                first_sep_from(text@, start as int) == first_sep_from(text@, k as int),
            decreases n - k,
        {
            k += 1;
        }
        if k < n && k + 1 < n {
            // a separator starts at k
            proof {
                assert(first_sep_from(text@, k as int) == k as int);
                assert(raw_pieces(text@, start as int) == seq![
                    text@.subrange(start as int, k as int),
                ] + raw_pieces(text@, k as int + 2));
                lemma_clean_cons(
                    text@.subrange(start as int, k as int),
                    raw_pieces(text@, k as int + 2),
                );
            }
            let piece = text.substring_char(start, k);
            let t = trim_text(piece);
            if !t.as_str().is_empty() {
                out.push(t);
                proof {
                    assert(out.deep_view() =~= prev_out + seq![
                        trimmed(text@.subrange(start as int, k as int)),
                    ]);
                    assert(prev_out + seq![trimmed(text@.subrange(start as int, k as int))]
                        + clean_pieces(raw_pieces(text@, k as int + 2)) =~= prev_out + (seq![
                        trimmed(text@.subrange(start as int, k as int)),
                    ] + clean_pieces(raw_pieces(text@, k as int + 2))));
                }
            }
            start = k + 2;
        } else {
            // no separator remains: the final piece runs to the end
            proof {
                assert(first_sep_from(text@, k as int) == -1);
                assert(raw_pieces(text@, start as int) == seq![
                    text@.subrange(start as int, n as int),
                ]);
                lemma_clean_cons(text@.subrange(start as int, n as int), Seq::empty());
                assert(seq![text@.subrange(start as int, n as int)] + Seq::<Seq<char>>::empty()
                    =~= seq![text@.subrange(start as int, n as int)]);
                assert(clean_pieces(Seq::<Seq<char>>::empty()) == Seq::<Seq<char>>::empty());
            }
            let piece = text.substring_char(start, n);
            let t = trim_text(piece);
            if !t.as_str().is_empty() {
                out.push(t);
                proof {
                    assert(out.deep_view() =~= prev_out + seq![
                        trimmed(text@.subrange(start as int, n as int)),
                    ]);
                }
            } else {
                proof {
                    assert(out.deep_view() =~= prev_out + Seq::<Seq<char>>::empty());
                }
            }
            return out;
        }
    }
}

} // verus!
