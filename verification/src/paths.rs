use vstd::prelude::*;
use vstd::string::*;

verus! {

// ---------------------------------------------------------------------------
// File names as character sequences
// ---------------------------------------------------------------------------

/// True when the path `p` holds a separator anywhere.
pub open spec fn has_separator(p: Seq<char>) -> bool {
    exists|i: int| 0 <= i < p.len() && p[i] == '/'
}

/// The final component of the path `p`: what follows the last separator, or
/// all of `p` when it has none.
pub open spec fn base_name_spec(p: Seq<char>) -> Seq<char>
    decreases p.len(),
{
    if p.len() > 0 && has_separator(p) {
        base_name_spec(p.skip(1))
    } else {
        p
    }
}

/// The position of the last '.' in `name` that does not stand first, or -1
/// when there is none. Only such a dot separates a stem from its ending, so
/// a name that opens with its only dot keeps it.
pub open spec fn last_dot_index(name: Seq<char>) -> int
    decreases name.len(),
{
    if name.len() <= 1 {
        -1
    } else if name[name.len() - 1] == '.' {
        name.len() - 1
    } else {
        last_dot_index(name.drop_last())
    }
}

/// `name` cut before the last '.' that does not stand first, or all of
/// `name` when it has no such dot.
pub open spec fn stem_spec(name: Seq<char>) -> Seq<char> {
    if last_dot_index(name) >= 1 {
        name.take(last_dot_index(name))
    } else {
        name
    }
}

// ---------------------------------------------------------------------------
// Lemmas
// ---------------------------------------------------------------------------

/// The final component begins right after the last separator.
proof fn lemma_base_name(p: Seq<char>, start: int)
    requires
        0 <= start <= p.len(),
        forall|k: int| start <= k < p.len() ==> p[k] != '/',
        start == 0 || p[start - 1] == '/',
    ensures
        base_name_spec(p) == p.skip(start),
    decreases p.len(),
{
    if start == 0 {
        assert(!has_separator(p));
        assert(p.skip(0) =~= p);
    } else {
        assert(p[start - 1] == '/');
        assert(has_separator(p));
        assert(forall|k: int| start - 1 <= k < p.skip(1).len() ==> p.skip(1)[k] != '/');
        lemma_base_name(p.skip(1), start - 1);
        assert(p.skip(1).skip(start - 1) =~= p.skip(start));
    }
}

/// A name without a dot past its first position has no stem cut.
proof fn lemma_no_dot(name: Seq<char>)
    requires
        forall|k: int| 1 <= k < name.len() ==> name[k] != '.',
    ensures
        last_dot_index(name) == -1,
    decreases name.len(),
{
    if name.len() > 1 {
        assert(name[name.len() - 1] != '.');
        assert(forall|k: int| 1 <= k < name.drop_last().len() ==> name.drop_last()[k] != '.');
        lemma_no_dot(name.drop_last());
    }
}

/// The last dot past the first position is found where no later dot stands.
proof fn lemma_dot_at(name: Seq<char>, d: int)
    requires
        1 <= d < name.len(),
        name[d] == '.',
        forall|k: int| d < k < name.len() ==> name[k] != '.',
    ensures
        last_dot_index(name) == d,
    decreases name.len(),
{
    if d == name.len() - 1 {
    } else {
        assert(name[name.len() - 1] != '.');
        assert(name.drop_last()[d] == '.');
        assert(forall|k: int| d < k < name.drop_last().len() ==> name.drop_last()[k] != '.');
        lemma_dot_at(name.drop_last(), d);
    }
}

// ---------------------------------------------------------------------------
// Executable functions
// ---------------------------------------------------------------------------

/// The file's name with its ending kept: the final component of `path`.
pub fn get_file_name_ext(path: &str) -> (r: String)
    ensures
        r@ == base_name_spec(path@),
{
    let len = path.unicode_len();
    let mut start: usize = 0;
    let mut i: usize = 0;
    while i < len
        invariant
            len == path@.len(),
            0 <= start <= i <= len,
            start == 0 || path@[start - 1] == '/',
            forall|k: int| start <= k < i ==> path@[k] != '/',
        decreases len - i,
    {
        if path.get_char(i) == '/' {
            start = i + 1;
        }
        i += 1;
    }
    let r = path.substring_char(start, len);
    proof {
        lemma_base_name(path@, start as int);
        assert(path@.subrange(start as int, len as int) =~= path@.skip(start as int));
    }
    String::from_str(r)
}

/// The file's name without its ending: the final component of `path`, cut
/// before the last '.' that does not open it.
pub fn get_file_name(path: &str) -> (r: String)
    ensures
        r@ == stem_spec(base_name_spec(path@)),
{
    let base = get_file_name_ext(path);
    let blen = base.as_str().unicode_len();
    let mut dot: usize = 0;
    let mut j: usize = 0;
    while j < blen
        invariant
            blen == base@.len(),
            0 <= j <= blen,
            dot == 0 || (1 <= dot < j && base@[dot as int] == '.'),
            forall|k: int| 1 <= k < j && dot < k ==> base@[k] != '.',
        decreases blen - j,
    {
        if j >= 1 && base.as_str().get_char(j) == '.' {
            dot = j;
        }
        j += 1;
    }
    if dot >= 1 {
        proof {
            lemma_dot_at(base@, dot as int);
        }
        let r = base.as_str().substring_char(0, dot);
        proof {
            assert(base@.subrange(0, dot as int) =~= base@.take(dot as int));
        }
        String::from_str(r)
    } else {
        proof {
            lemma_no_dot(base@);
        }
        base
    }
}

} // verus!
