use vstd::prelude::*;
use vstd::string::*;

use crate::shader_objects::ShaderCode;
use crate::shader_objects::ShaderStructObject;
use crate::shader_objects::StructObjectView;

verus! {

// ---------------------------------------------------------------------------
// Occurrences of a pattern in a text
// ---------------------------------------------------------------------------

/// True when `pat` stands in `text` beginning at position `i`.
pub open spec fn is_match_at(text: Seq<char>, pat: Seq<char>, i: int) -> bool {
    &&& 0 <= i
    &&& i + pat.len() <= text.len()
    &&& text.subrange(i, i + pat.len()) == pat
}

/// True when `pat` stands somewhere in `text`.
pub open spec fn contains_seq(text: Seq<char>, pat: Seq<char>) -> bool {
    exists|i: int| is_match_at(text, pat, i)
}

/// The result of replacing, left to right, every occurrence of `pat` in
/// `text` by `rep`. The scan resumes after each inserted replacement, so
/// text that `rep` brings in is not scanned again.
pub open spec fn replace_all_spec(text: Seq<char>, pat: Seq<char>, rep: Seq<char>) -> Seq<char>
    decreases text.len(),
{
    if pat.len() == 0 || pat.len() > text.len() {
        text
    } else if text.subrange(0, pat.len() as int) == pat {
        rep + replace_all_spec(text.skip(pat.len() as int), pat, rep)
    } else {
        text.take(1) + replace_all_spec(text.skip(1), pat, rep)
    }
}

// ---------------------------------------------------------------------------
// Lemmas that relate occurrences and sequence operations
// ---------------------------------------------------------------------------

/// An occurrence within a suffix of `text` is an occurrence within `text`,
/// shifted, and the other way round.
pub proof fn lemma_match_skip(text: Seq<char>, pat: Seq<char>, n: int, i: int)
    requires
        0 <= n <= text.len(),
        0 <= i,
    ensures
        is_match_at(text.skip(n), pat, i) == is_match_at(text, pat, n + i),
{
    if i + pat.len() <= text.skip(n).len() {
        assert(text.skip(n).subrange(i, i + pat.len() as int)
            =~= text.subrange(n + i, n + i + pat.len() as int));
    }
}

/// An occurrence that lies wholly within the left part of a concatenation is
/// an occurrence within that part.
pub proof fn lemma_match_concat_left(a: Seq<char>, b: Seq<char>, pat: Seq<char>, i: int)
    requires
        is_match_at(a + b, pat, i),
        i + pat.len() <= a.len(),
    ensures
        is_match_at(a, pat, i),
{
    assert((a + b).subrange(i, i + pat.len() as int) =~= a.subrange(i, i + pat.len() as int));
}

/// An occurrence that begins past the left part of a concatenation is an
/// occurrence within the right part.
pub proof fn lemma_match_concat_right(a: Seq<char>, b: Seq<char>, pat: Seq<char>, i: int)
    requires
        is_match_at(a + b, pat, i),
        i >= a.len(),
    ensures
        is_match_at(b, pat, i - a.len()),
{
    assert((a + b).subrange(i, i + pat.len() as int)
        =~= b.subrange(i - a.len(), i - a.len() + pat.len() as int));
}

// ---------------------------------------------------------------------------
// Executable search
// ---------------------------------------------------------------------------

/// Decides whether `pat` stands in `text` beginning at position `i`.
fn match_at(text: &str, pat: &str, i: usize) -> (r: bool)
    requires
        i + pat@.len() <= text@.len(),
    ensures
        r == is_match_at(text@, pat@, i as int),
{
    let text_len = text.unicode_len();
    let pat_len = pat.unicode_len();
    let mut j: usize = 0;
    while j < pat_len
        invariant
            i + pat@.len() <= text@.len(),
            text_len == text@.len(),
            pat_len == pat@.len(),
            0 <= j <= pat_len,
            forall|k: int| 0 <= k < j ==> text@[i + k] == pat@[k],
        decreases pat_len - j,
    {
        if text.get_char(i + j) != pat.get_char(j) {
            proof {
                assert(text@.subrange(i as int, i + pat@.len()) != pat@) by {
                    if text@.subrange(i as int, i + pat@.len()) == pat@ {
                        assert(text@.subrange(i as int, i + pat@.len())[j as int]
                            == text@[i + j]);
                    }
                }
            }
            return false;
        }
        j += 1;
    }
    proof {
        assert(text@.subrange(i as int, i + pat@.len()) =~= pat@);
    }
    true
}

/// Decides whether `pat` stands somewhere in `text`.
pub fn contains_str(text: &str, pat: &str) -> (r: bool)
    ensures
        r == contains_seq(text@, pat@),
{
    let text_len = text.unicode_len();
    let pat_len = pat.unicode_len();
    if pat_len > text_len {
        proof {
            assert forall|i: int| !is_match_at(text@, pat@, i) by {}
        }
        return false;
    }
    if pat_len == 0 {
        proof {
            assert(text@.subrange(0, 0) =~= pat@);
            assert(is_match_at(text@, pat@, 0));
        }
        return true;
    }
    let mut i: usize = 0;
    while i <= text_len - pat_len
        invariant
            text_len == text@.len(),
            pat_len == pat@.len(),
            1 <= pat_len <= text_len,
            0 <= i <= text_len - pat_len + 1,
            forall|k: int| 0 <= k < i ==> !is_match_at(text@, pat@, k),
        decreases text_len - pat_len + 1 - i,
    {
        if match_at(text, pat, i) {
            proof {
                assert(is_match_at(text@, pat@, i as int));
            }
            return true;
        }
        i += 1;
    }
    proof {
        assert forall|k: int| !is_match_at(text@, pat@, k) by {
            if k + pat@.len() <= text@.len() && 0 <= k {
                assert(k < i);
            }
        }
    }
    false
}

// ---------------------------------------------------------------------------
// Executable replacement
// ---------------------------------------------------------------------------

/// Unfolds `replace_all_spec` at an occurrence of the pattern.
proof fn lemma_unfold_at_match(text: Seq<char>, pat: Seq<char>, rep: Seq<char>, i: int)
    requires
        pat.len() >= 1,
        is_match_at(text, pat, i),
    ensures
        replace_all_spec(text.skip(i), pat, rep)
            == rep + replace_all_spec(text.skip(i + pat.len()), pat, rep),
{
    let s = text.skip(i);
    assert(s.subrange(0, pat.len() as int) =~= text.subrange(i, i + pat.len() as int));
    assert(s.skip(pat.len() as int) =~= text.skip(i + pat.len() as int));
}

/// Unfolds `replace_all_spec` at a position where the pattern does not stand.
proof fn lemma_unfold_at_char(text: Seq<char>, pat: Seq<char>, rep: Seq<char>, i: int)
    requires
        pat.len() >= 1,
        0 <= i < text.len(),
        !is_match_at(text, pat, i),
    ensures
        replace_all_spec(text.skip(i), pat, rep)
            == text.subrange(i, i + 1) + replace_all_spec(text.skip(i + 1), pat, rep),
{
    let s = text.skip(i);
    assert(s.len() == text.len() - i);
    if pat.len() > s.len() {
        assert(replace_all_spec(s, pat, rep) == s);
        assert(pat.len() > text.skip(i + 1).len());
        assert(replace_all_spec(text.skip(i + 1), pat, rep) == text.skip(i + 1));
        assert(s =~= text.subrange(i, i + 1) + text.skip(i + 1));
    } else {
        assert(s.subrange(0, pat.len() as int) =~= text.subrange(i, i + pat.len() as int));
        assert(s.subrange(0, pat.len() as int) != pat);
        assert(s.take(1) =~= text.subrange(i, i + 1));
        assert(s.skip(1) =~= text.skip(i + 1));
    }
}

/// Replaces, left to right, every occurrence of `pat` in `text` by `rep`.
/// The scan resumes after each inserted replacement, so text that `rep`
/// brings in is not scanned again. An empty pattern matches nothing and
/// leaves the text as it stands.
pub fn replace_all(text: &str, pat: &str, rep: &str) -> (r: String)
    ensures
        r@ == replace_all_spec(text@, pat@, rep@),
{
    let text_len = text.unicode_len();
    let pat_len = pat.unicode_len();
    if pat_len == 0 {
        return String::from_str(text);
    }
    let mut r = String::new();
    let mut i: usize = 0;
    proof {
        assert(text@.skip(0) =~= text@);
        assert(Seq::<char>::empty() + replace_all_spec(text@, pat@, rep@)
            =~= replace_all_spec(text@, pat@, rep@));
    }
    while i < text_len
        invariant
            text_len == text@.len(),
            pat_len == pat@.len(),
            pat_len >= 1,
            0 <= i <= text_len,
            replace_all_spec(text@, pat@, rep@)
                == r@ + replace_all_spec(text@.skip(i as int), pat@, rep@),
        decreases text_len - i,
    {
        let ghost r_old = r@;
        if pat_len <= text_len - i && match_at(text, pat, i) {
            r.append(rep);
            proof {
                lemma_unfold_at_match(text@, pat@, rep@, i as int);
                assert((r_old + rep@) + replace_all_spec(text@.skip(i + pat@.len()), pat@, rep@)
                    =~= r_old + (rep@ + replace_all_spec(text@.skip(i + pat@.len()), pat@, rep@)));
            }
            i += pat_len;
        } else {
            let c = text.substring_char(i, i + 1);
            r.append(c);
            proof {
                assert(!is_match_at(text@, pat@, i as int));
                lemma_unfold_at_char(text@, pat@, rep@, i as int);
                assert((r_old + c@) + replace_all_spec(text@.skip(i + 1), pat@, rep@)
                    =~= r_old + (c@ + replace_all_spec(text@.skip(i + 1), pat@, rep@)));
            }
            i += 1;
        }
    }
    proof {
        assert(text@.skip(text_len as int) =~= Seq::<char>::empty());
        assert(replace_all_spec(Seq::<char>::empty(), pat@, rep@) == Seq::<char>::empty());
        assert(r@ + Seq::<char>::empty() =~= r@);
    }
    r
}

// ---------------------------------------------------------------------------
// Directives and the substitutor
// ---------------------------------------------------------------------------

/// The marker that opens a directive in shader text: a number sign, a fixed
/// keyword, and one space.
pub open spec fn directive_marker() -> Seq<char> {
    seq!['#', 'i', 'n', 'c', 'l', 'u', 'd', 'e', ' ']
}

/// The directive that asks for the fragment named `token`: the marker
/// followed immediately by the bare token.
pub open spec fn directive_of(token: Seq<char>) -> Seq<char> {
    directive_marker() + token
}

/// Builds the directive string for `token`.
pub fn directive_for(token: &str) -> (r: String)
    ensures
        r@ == directive_of(token@),
{
    let mut r = String::from_str("#inc");
    r.append("lude ");
    r.append(token);
    proof {
        reveal_strlit("#inc");
        reveal_strlit("lude ");
        assert(("#inc"@ + "lude "@) =~= directive_marker());
        assert(r@ =~= directive_of(token@));
    }
    r
}

/// One pass of the substitutor for a single fragment: when the fragment's
/// directive stands in `body`, every occurrence of it is replaced by the
/// fragment's text; otherwise `body` is untouched.
pub open spec fn apply_fragment(body: Seq<char>, frag: StructObjectView) -> Seq<char> {
    if contains_seq(body, directive_of(frag.token)) {
        replace_all_spec(body, directive_of(frag.token), frag.data)
    } else {
        body
    }
}

/// The substitutor over a whole store: fragments are applied in store order,
/// each to the body the earlier ones produced.
pub open spec fn expand_spec(body: Seq<char>, frags: Seq<StructObjectView>) -> Seq<char>
    decreases frags.len(),
{
    if frags.len() == 0 {
        body
    } else {
        expand_spec(apply_fragment(body, frags[0]), frags.skip(1))
    }
}

/// The views of a store of fragments, in store order.
pub open spec fn views_of(frags: Seq<ShaderStructObject>) -> Seq<StructObjectView> {
    frags.map_values(|f: ShaderStructObject| f@)
}

/// Unfolds `expand_spec` one fragment at a time, from position `k`.
proof fn lemma_expand_step(body: Seq<char>, frags: Seq<StructObjectView>, k: int)
    requires
        0 <= k < frags.len(),
    ensures
        expand_spec(body, frags.skip(k))
            == expand_spec(apply_fragment(body, frags[k]), frags.skip(k + 1)),
{
    assert(frags.skip(k)[0] == frags[k]);
    assert(frags.skip(k).skip(1) =~= frags.skip(k + 1));
}

/// Resolves every fragment directive in the shader's text, fragment by
/// fragment in store order; the name fields are untouched.
pub fn edit_shader_code(shader_code: &mut ShaderCode, shader_structs: &Vec<ShaderStructObject>)
    ensures
        final(shader_code)@.data
            == expand_spec(old(shader_code)@.data, views_of(shader_structs@)),
        final(shader_code)@.file_name == old(shader_code)@.file_name,
        final(shader_code)@.file_name_ext == old(shader_code)@.file_name_ext,
{
    let ghost frags = views_of(shader_structs@);
    let mut modified_data = shader_code.data.clone();
    let n = shader_structs.len();
    let mut k: usize = 0;
    proof {
        assert(frags.skip(0) =~= frags);
    }
    while k < n
        invariant
            n == shader_structs@.len(),
            frags == views_of(shader_structs@),
            0 <= k <= n,
            expand_spec(old(shader_code)@.data, frags)
                == expand_spec(modified_data@, frags.skip(k as int)),
        decreases n - k,
    {
        let frag = &shader_structs[k];
        let dir = directive_for(frag.token.as_str());
        proof {
            assert(frags[k as int] == frag@);
            lemma_expand_step(modified_data@, frags, k as int);
        }
        if contains_str(modified_data.as_str(), dir.as_str()) {
            modified_data = replace_all(modified_data.as_str(), dir.as_str(), frag.data.as_str());
        }
        k += 1;
    }
    proof {
        assert(frags.skip(n as int) =~= Seq::<StructObjectView>::empty());
    }
    shader_code.data = modified_data;
}

} // verus!
