use vstd::prelude::*;

use crate::shader_objects::StructObjectView;
use crate::substitution::apply_fragment;
use crate::substitution::contains_seq;
use crate::substitution::directive_of;
use crate::substitution::expand_spec;
use crate::substitution::is_match_at;
use crate::substitution::lemma_match_concat_left;
use crate::substitution::lemma_match_concat_right;
use crate::substitution::lemma_match_skip;
use crate::substitution::replace_all_spec;

verus! {

/// Law: replacing a pattern that stands nowhere in the text gives the text
/// back unchanged.
pub proof fn lemma_replace_absent(text: Seq<char>, pat: Seq<char>, rep: Seq<char>)
    requires
        pat.len() >= 1,
        !contains_seq(text, pat),
    ensures
        replace_all_spec(text, pat, rep) == text,
    decreases text.len(),
{
    if pat.len() > text.len() {
    } else if text.subrange(0, pat.len() as int) == pat {
        assert(is_match_at(text, pat, 0));
        assert(false);
    } else {
        assert forall|i: int| !is_match_at(text.skip(1), pat, i) by {
            if 0 <= i {
                lemma_match_skip(text, pat, 1, i);
            }
        }
        lemma_replace_absent(text.skip(1), pat, rep);
        assert(text.take(1) + text.skip(1) =~= text);
    }
}

/// Law: a body where no fragment's directive stands is given back unchanged
/// by the substitutor.
pub proof fn lemma_expand_absent(body: Seq<char>, frags: Seq<StructObjectView>)
    requires
        forall|i: int|
            0 <= i < frags.len() ==> !contains_seq(body, directive_of(#[trigger] frags[i].token)),
    ensures
        expand_spec(body, frags) == body,
    decreases frags.len(),
{
    if frags.len() > 0 {
        assert(!contains_seq(body, directive_of(frags[0].token)));
        assert(apply_fragment(body, frags[0]) == body);
        assert forall|i: int|
            0 <= i < frags.skip(1).len() implies !contains_seq(
            body,
            directive_of(#[trigger] frags.skip(1)[i].token),
        ) by {
            assert(frags.skip(1)[i] == frags[i + 1]);
        }
        lemma_expand_absent(body, frags.skip(1));
    }
}

/// When a proper tail of the pattern opens the replaced text, it already
/// opened the text itself: the replacement cannot forge such a tail, because
/// no character of the pattern past its head equals the head of `rep`.
proof fn lemma_tail_stays_prefix(text: Seq<char>, pat: Seq<char>, rep: Seq<char>, k: int)
    requires
        pat.len() >= 1,
        rep.len() >= 1,
        forall|k2: int| 1 <= k2 < pat.len() ==> pat[k2] != rep[0],
        1 <= k < pat.len(),
        pat.skip(k).is_prefix_of(replace_all_spec(text, pat, rep)),
    ensures
        pat.skip(k).is_prefix_of(text),
    decreases text.len(),
{
    let s = pat.skip(k);
    let r = replace_all_spec(text, pat, rep);
    assert(s.len() == pat.len() - k);
    assert(s[0] == pat[k]);
    assert(r.subrange(0, s.len() as int) == s);
    if pat.len() > text.len() {
    } else if text.subrange(0, pat.len() as int) == pat {
        let rr = replace_all_spec(text.skip(pat.len() as int), pat, rep);
        assert(r == rep + rr);
        assert(r[0] == rep[0]);
        assert(r.subrange(0, s.len() as int)[0] == r[0]);
        assert(false);
    } else {
        let rr = replace_all_spec(text.skip(1), pat, rep);
        assert(r == text.take(1) + rr);
        assert(text.len() >= 1);
        assert(r.subrange(0, s.len() as int)[0] == r[0]);
        assert(r[0] == text[0]);
        assert(s[0] == text[0]);
        if s.len() == 1 {
            assert(text.subrange(0, 1) =~= s);
        } else {
            assert(pat.skip(k + 1).len() == s.len() - 1);
            assert forall|j: int| 0 <= j < s.len() - 1 implies rr[j] == pat.skip(k + 1)[j] by {
                assert(r.subrange(0, s.len() as int)[j + 1] == r[j + 1]);
                assert(r[j + 1] == rr[j]);
                assert(s[j + 1] == pat[k + 1 + j]);
            }
            assert(pat.skip(k + 1) =~= rr.subrange(0, (s.len() - 1) as int));
            assert(pat.skip(k + 1).is_prefix_of(rr));
            lemma_tail_stays_prefix(text.skip(1), pat, rep, k + 1);
            assert forall|j: int| 0 <= j < s.len() implies text.subrange(0, s.len() as int)[j]
                == s[j] by {
                if j >= 1 {
                    assert(pat.skip(k + 1).subrange(0, pat.skip(k + 1).len() as int)
                        == pat.skip(k + 1));
                    assert(text.skip(1).subrange(0, pat.skip(k + 1).len() as int)[j - 1]
                        == pat.skip(k + 1)[j - 1]);
                }
            }
            assert(text.subrange(0, s.len() as int) =~= s);
        }
    }
}

/// Law: after replacement, the pattern stands nowhere in the result, as long
/// as no new occurrence can arise at a seam. The side conditions say that the
/// pattern does not stand in the replacement, that the replacement is not how
/// the pattern opens, that no character of the replacement past its head
/// equals the pattern's head, and the other way round.
pub proof fn lemma_no_occurrence_left(text: Seq<char>, pat: Seq<char>, rep: Seq<char>)
    requires
        pat.len() >= 1,
        rep.len() >= 1,
        !contains_seq(rep, pat),
        forall|j: int| 1 <= j < rep.len() ==> rep[j] != pat[0],
        forall|k: int| 1 <= k < pat.len() ==> pat[k] != rep[0],
        rep.len() < pat.len() ==> rep != pat.take(rep.len() as int),
    ensures
        !contains_seq(replace_all_spec(text, pat, rep), pat),
    decreases text.len(),
{
    let r = replace_all_spec(text, pat, rep);
    if pat.len() > text.len() {
        assert forall|i: int| !is_match_at(r, pat, i) by {}
    } else if text.subrange(0, pat.len() as int) == pat {
        let rr = replace_all_spec(text.skip(pat.len() as int), pat, rep);
        assert(r == rep + rr);
        lemma_no_occurrence_left(text.skip(pat.len() as int), pat, rep);
        assert forall|p: int| !is_match_at(r, pat, p) by {
            if is_match_at(r, pat, p) {
                if p + pat.len() <= rep.len() {
                    lemma_match_concat_left(rep, rr, pat, p);
                } else if p >= rep.len() {
                    lemma_match_concat_right(rep, rr, pat, p);
                } else if p == 0 {
                    assert(rep.len() < pat.len());
                    assert forall|q: int| 0 <= q < rep.len() implies pat.take(
                        rep.len() as int,
                    )[q] == rep[q] by {
                        assert(r.subrange(p, p + pat.len() as int)[q] == r[q]);
                        assert(r[q] == rep[q]);
                        assert(r.subrange(p, p + pat.len() as int)[q] == pat[q]);
                    }
                    assert(pat.take(rep.len() as int) =~= rep);
                } else {
                    assert(r.subrange(p, p + pat.len() as int)[0] == r[p]);
                    assert(r[p] == rep[p]);
                    assert(pat[0] == rep[p]);
                    assert(rep[p] != pat[0]);
                }
            }
        }
    } else {
        let rr = replace_all_spec(text.skip(1), pat, rep);
        assert(r == text.take(1) + rr);
        assert(text.len() >= 1);
        lemma_no_occurrence_left(text.skip(1), pat, rep);
        assert forall|p: int| !is_match_at(r, pat, p) by {
            if is_match_at(r, pat, p) {
                if p >= 1 {
                    lemma_match_concat_right(text.take(1), rr, pat, p);
                } else {
                    assert(p == 0);
                    assert(r.subrange(0, pat.len() as int)[0] == r[0]);
                    assert(pat[0] == text[0]);
                    if pat.len() == 1 {
                        assert(text.subrange(0, 1) =~= pat);
                        assert(false);
                    } else {
                        assert forall|j: int| 0 <= j < pat.len() - 1 implies rr[j] == pat.skip(
                            1,
                        )[j] by {
                            assert(r.subrange(0, pat.len() as int)[j + 1] == r[j + 1]);
                            assert(r[j + 1] == rr[j]);
                        }
                        assert(pat.skip(1) =~= rr.subrange(0, (pat.len() - 1) as int));
                        assert(pat.skip(1).is_prefix_of(rr));
                        lemma_tail_stays_prefix(text.skip(1), pat, rep, 1);
                        assert forall|j: int| 0 <= j < pat.len() implies text.subrange(
                            0,
                            pat.len() as int,
                        )[j] == pat[j] by {
                            if j >= 1 {
                                assert(pat.skip(1).subrange(0, pat.skip(1).len() as int)
                                    == pat.skip(1));
                                assert(text.skip(1).subrange(0, pat.skip(1).len() as int)[j - 1]
                                    == pat.skip(1)[j - 1]);
                            }
                        }
                        assert(text.subrange(0, pat.len() as int) =~= pat);
                        assert(false);
                    }
                }
            }
        }
    }
}

/// Replacement walks over an opening piece in which no occurrence of the
/// pattern begins, and leaves it as it stands.
proof fn lemma_replace_through(u: Seq<char>, w: Seq<char>, pat: Seq<char>, rep: Seq<char>)
    requires
        pat.len() >= 1,
        forall|i: int| 0 <= i < u.len() ==> !is_match_at(u + w, pat, i),
    ensures
        replace_all_spec(u + w, pat, rep) == u + replace_all_spec(w, pat, rep),
    decreases u.len(),
{
    let t = u + w;
    if u.len() == 0 {
        assert(t =~= w);
        assert(u + replace_all_spec(w, pat, rep) =~= replace_all_spec(w, pat, rep));
    } else if pat.len() > t.len() {
        assert(pat.len() > w.len());
        assert(replace_all_spec(w, pat, rep) == w);
    } else {
        assert(!is_match_at(t, pat, 0));
        assert(t.subrange(0, pat.len() as int) != pat);
        assert(t.skip(1) =~= u.skip(1) + w);
        assert forall|i: int| 0 <= i < u.skip(1).len() implies !is_match_at(
            u.skip(1) + w,
            pat,
            i,
        ) by {
            lemma_match_skip(t, pat, 1, i);
        }
        lemma_replace_through(u.skip(1), w, pat, rep);
        assert(t.take(1) + (u.skip(1) + replace_all_spec(w, pat, rep))
            =~= u + replace_all_spec(w, pat, rep));
    }
}

/// Law: a body that carries the directive at two places has both replaced.
/// The side conditions pin the two occurrences down: no occurrence of the
/// pattern begins inside `x` or inside `y`, and none stands in `z`.
pub proof fn lemma_replace_both(
    x: Seq<char>,
    y: Seq<char>,
    z: Seq<char>,
    pat: Seq<char>,
    rep: Seq<char>,
)
    requires
        pat.len() >= 1,
        forall|i: int| 0 <= i < x.len() ==> !is_match_at(x + pat + y + pat + z, pat, i),
        forall|i: int| 0 <= i < y.len() ==> !is_match_at(y + pat + z, pat, i),
        !contains_seq(z, pat),
    ensures
        replace_all_spec(x + pat + y + pat + z, pat, rep) == x + rep + y + rep + z,
{
    let t = x + pat + y + pat + z;
    let w1 = pat + y + pat + z;
    let w2 = y + pat + z;
    let w3 = pat + z;
    assert(t =~= x + w1);
    assert forall|i: int| 0 <= i < x.len() implies !is_match_at(x + w1, pat, i) by {}
    lemma_replace_through(x, w1, pat, rep);
    assert(w1.subrange(0, pat.len() as int) =~= pat);
    assert(w1.skip(pat.len() as int) =~= w2);
    assert(replace_all_spec(w1, pat, rep) == rep + replace_all_spec(w2, pat, rep));
    assert(w2 =~= y + w3);
    lemma_replace_through(y, w3, pat, rep);
    assert(w3.subrange(0, pat.len() as int) =~= pat);
    assert(w3.skip(pat.len() as int) =~= z);
    assert(replace_all_spec(w3, pat, rep) == rep + replace_all_spec(z, pat, rep));
    lemma_replace_absent(z, pat, rep);
    assert(x + (rep + (y + (rep + z))) =~= x + rep + y + rep + z);
}

/// Law: a directive whose token names no fragment is kept in the output
/// verbatim, as long as no fragment's own directive stands in the body.
pub proof fn lemma_unknown_directive_kept(
    body: Seq<char>,
    frags: Seq<StructObjectView>,
    token: Seq<char>,
)
    requires
        forall|i: int|
            0 <= i < frags.len() ==> !contains_seq(body, directive_of(#[trigger] frags[i].token)),
        contains_seq(body, directive_of(token)),
    ensures
        expand_spec(body, frags) == body,
        contains_seq(expand_spec(body, frags), directive_of(token)),
{
    lemma_expand_absent(body, frags);
}

/// An occurrence within the right part of a concatenation stands within the
/// whole.
proof fn lemma_contains_concat_right(a: Seq<char>, b: Seq<char>, o: Seq<char>)
    requires
        contains_seq(b, o),
    ensures
        contains_seq(a + b, o),
{
    let i = choose|i: int| is_match_at(b, o, i);
    assert((a + b).subrange(a.len() + i, a.len() + i + o.len() as int)
        =~= b.subrange(i, i + o.len() as int));
    assert(is_match_at(a + b, o, a.len() + i));
}

/// When a piece opens the text and no occurrence of `pat` begins inside it,
/// replacement keeps it opening the result.
proof fn lemma_prefix_preserved(text: Seq<char>, pat: Seq<char>, rep: Seq<char>, o: Seq<char>)
    requires
        pat.len() >= 1,
        o.is_prefix_of(text),
        forall|i: int| 0 <= i < o.len() ==> !is_match_at(text, pat, i),
    ensures
        o.is_prefix_of(replace_all_spec(text, pat, rep)),
    decreases text.len(),
{
    let r = replace_all_spec(text, pat, rep);
    if o.len() == 0 {
        assert(o =~= r.subrange(0, 0));
    } else if pat.len() > text.len() {
    } else {
        assert(!is_match_at(text, pat, 0));
        assert(text.subrange(0, pat.len() as int) != pat);
        let rr = replace_all_spec(text.skip(1), pat, rep);
        assert(r == text.take(1) + rr);
        assert(o.skip(1).is_prefix_of(text.skip(1))) by {
            assert forall|j: int| 0 <= j < o.len() - 1 implies text.skip(1).subrange(
                0,
                (o.len() - 1) as int,
            )[j] == o.skip(1)[j] by {
                assert(text.subrange(0, o.len() as int)[j + 1] == text[j + 1]);
            }
            assert(o.skip(1) =~= text.skip(1).subrange(0, (o.len() - 1) as int));
        }
        assert forall|i: int| 0 <= i < o.skip(1).len() implies !is_match_at(
            text.skip(1),
            pat,
            i,
        ) by {
            lemma_match_skip(text, pat, 1, i);
        }
        lemma_prefix_preserved(text.skip(1), pat, rep, o.skip(1));
        assert forall|j: int| 0 <= j < o.len() implies r.subrange(0, o.len() as int)[j]
            == o[j] by {
            if j == 0 {
                assert(text.subrange(0, o.len() as int)[0] == text[0]);
                assert(r[0] == text[0]);
            } else {
                assert(r[j] == rr[j - 1]);
                assert(rr.subrange(0, (o.len() - 1) as int)[j - 1] == rr[j - 1]);
                assert(rr.subrange(0, (o.len() - 1) as int) == o.skip(1));
            }
        }
        assert(o =~= r.subrange(0, o.len() as int));
    }
}

/// Law: an occurrence of another string `o` that no occurrence of the
/// pattern touches survives replacement.
pub proof fn lemma_untouched_occurrence_kept(
    text: Seq<char>,
    pat: Seq<char>,
    rep: Seq<char>,
    o: Seq<char>,
    q: int,
)
    requires
        pat.len() >= 1,
        is_match_at(text, o, q),
        forall|i: int| is_match_at(text, pat, i) ==> i + pat.len() <= q || i >= q + o.len(),
    ensures
        contains_seq(replace_all_spec(text, pat, rep), o),
    decreases text.len(),
{
    let r = replace_all_spec(text, pat, rep);
    let m = pat.len() as int;
    if pat.len() > text.len() {
        assert(is_match_at(r, o, q));
    } else if text.subrange(0, m) == pat {
        assert(is_match_at(text, pat, 0));
        let rr = replace_all_spec(text.skip(m), pat, rep);
        assert(r == rep + rr);
        if q + o.len() <= 0 {
            assert(o.len() == 0);
            assert(r.subrange(0, 0) =~= o);
            assert(is_match_at(r, o, 0));
        } else {
            assert(m <= q);
            lemma_match_skip(text, o, m, q - m);
            assert forall|i: int| is_match_at(text.skip(m), pat, i) implies i + pat.len() <= q
                - m || i >= q - m + o.len() by {
                lemma_match_skip(text, pat, m, i);
            }
            lemma_untouched_occurrence_kept(text.skip(m), pat, rep, o, q - m);
            lemma_contains_concat_right(rep, rr, o);
        }
    } else {
        let rr = replace_all_spec(text.skip(1), pat, rep);
        assert(r == text.take(1) + rr);
        if q >= 1 {
            lemma_match_skip(text, o, 1, q - 1);
            assert forall|i: int| is_match_at(text.skip(1), pat, i) implies i + pat.len() <= q
                - 1 || i >= q - 1 + o.len() by {
                lemma_match_skip(text, pat, 1, i);
            }
            lemma_untouched_occurrence_kept(text.skip(1), pat, rep, o, q - 1);
            lemma_contains_concat_right(text.take(1), rr, o);
        } else {
            assert(o.is_prefix_of(text));
            assert forall|i: int| 0 <= i < o.len() implies !is_match_at(text, pat, i) by {}
            lemma_prefix_preserved(text, pat, rep, o);
            assert(is_match_at(r, o, 0));
        }
    }
}

/// Law: a directive that no occurrence of the fragment's own directive
/// touches is kept by that fragment's pass.
pub proof fn lemma_disjoint_directive_kept(
    body: Seq<char>,
    frag: StructObjectView,
    token: Seq<char>,
    q: int,
)
    requires
        is_match_at(body, directive_of(token), q),
        forall|i: int|
            is_match_at(body, directive_of(frag.token), i) ==> i + directive_of(
                frag.token,
            ).len() <= q || i >= q + directive_of(token).len(),
    ensures
        contains_seq(apply_fragment(body, frag), directive_of(token)),
{
    if contains_seq(body, directive_of(frag.token)) {
        assert(directive_of(frag.token).len() >= 1);
        lemma_untouched_occurrence_kept(
            body,
            directive_of(frag.token),
            frag.data,
            directive_of(token),
            q,
        );
    } else {
        assert(is_match_at(apply_fragment(body, frag), directive_of(token), q));
    }
}

/// Law: one pass for a fragment leaves no occurrence of its own directive
/// behind, under the seam conditions of `lemma_no_occurrence_left` on the
/// fragment's text against its directive.
pub proof fn lemma_fragment_leaves_no_directive(body: Seq<char>, frag: StructObjectView)
    requires
        frag.data.len() >= 1,
        !contains_seq(frag.data, directive_of(frag.token)),
        forall|j: int| 1 <= j < frag.data.len() ==> frag.data[j] != '#',
        forall|k: int|
            1 <= k < directive_of(frag.token).len() ==> directive_of(frag.token)[k]
                != frag.data[0],
        frag.data.len() < directive_of(frag.token).len() ==> frag.data != directive_of(
            frag.token,
        ).take(frag.data.len() as int),
    ensures
        !contains_seq(apply_fragment(body, frag), directive_of(frag.token)),
{
    let d = directive_of(frag.token);
    assert(d.len() >= 1);
    assert(d[0] == '#');
    if contains_seq(body, d) {
        lemma_no_occurrence_left(body, d, frag.data);
    }
}

/// Law: of two fragments with one token, the one that stands first in the
/// store decides every occurrence; the second pass finds nothing left, under
/// the seam conditions of `lemma_no_occurrence_left` on the first fragment's
/// text against the shared directive.
pub proof fn lemma_first_fragment_wins(
    body: Seq<char>,
    f1: StructObjectView,
    f2: StructObjectView,
)
    requires
        f1.token == f2.token,
        f1.data.len() >= 1,
        !contains_seq(f1.data, directive_of(f1.token)),
        forall|j: int| 1 <= j < f1.data.len() ==> f1.data[j] != '#',
        forall|k: int|
            1 <= k < directive_of(f1.token).len() ==> directive_of(f1.token)[k] != f1.data[0],
        f1.data.len() < directive_of(f1.token).len() ==> f1.data != directive_of(f1.token).take(
            f1.data.len() as int,
        ),
    ensures
        expand_spec(body, seq![f1, f2]) == apply_fragment(body, f1),
{
    let b1 = apply_fragment(body, f1);
    lemma_fragment_leaves_no_directive(body, f1);
    assert(apply_fragment(b1, f2) == b1);
    let frags = seq![f1, f2];
    assert(frags[0] == f1);
    assert(frags.skip(1) =~= seq![f2]);
    assert(seq![f2][0] == f2);
    assert(seq![f2].skip(1) =~= Seq::<StructObjectView>::empty());
    let b2 = apply_fragment(b1, f2);
    assert(expand_spec(b2, Seq::<StructObjectView>::empty()) == b2);
    assert(expand_spec(b1, seq![f2]) == expand_spec(b2, seq![f2].skip(1)));
    assert(expand_spec(b1, seq![f2]) == b2);
}

} // verus!
