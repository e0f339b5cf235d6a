//! Character-level text helpers: hidden-name detection, substring
//! containment, and case folding for the case-insensitive search.
use vstd::prelude::*;

verus! {

/// A name is hidden when it starts with a dot and is neither the current
/// nor the parent directory's conventional name.
pub open spec fn is_hidden_spec(name: Seq<char>) -> bool {
    &&& name.len() > 0
    &&& name[0] == '.'
    &&& name != seq!['.']
    &&& name != seq!['.', '.']
}

/// Decides whether a base name counts as hidden.
pub fn is_hidden(name: &Vec<char>) -> (r: bool)
    ensures
        r == is_hidden_spec(name@),
{
    if name.len() == 0 {
        return false;
    }
    if name[0] != '.' {
        return false;
    }
    if name.len() == 1 {
        proof {
            assert(name@ =~= seq!['.']);
        }
        return false;
    }
    if name.len() == 2 && name[1] == '.' {
        proof {
            assert(name@ =~= seq!['.', '.']);
        }
        return false;
    }
    proof {
        assert(name@ != seq!['.']) by {
            assert(name@.len() != seq!['.'].len());
        }
        assert(name@ != seq!['.', '.']) by {
            if name@.len() == 2 {
                assert(name@[1] != '.');
            } else {
                assert(name@.len() != seq!['.', '.'].len());
            }
        }
    }
    true
}

/// The pattern occurs in the text starting at position `i`.
pub open spec fn matches_at(t: Seq<char>, p: Seq<char>, i: int) -> bool {
    &&& 0 <= i
    &&& i + p.len() <= t.len()
    &&& t.subrange(i, i + p.len() as int) == p
}

/// The pattern occurs somewhere in the text; an empty pattern always does.
pub open spec fn contains_text(t: Seq<char>, p: Seq<char>) -> bool {
    exists|i: int| matches_at(t, p, i)
}

/// Substring containment on character vectors.
pub fn text_contains(t: &Vec<char>, p: &Vec<char>) -> (r: bool)
    ensures
        r == contains_text(t@, p@),
{
    if p.len() > t.len() {
        proof {
            assert(forall|i: int| !matches_at(t@, p@, i));
        }
        return false;
    }
    let mut i: usize = 0;
    while i <= t.len() - p.len()
        invariant
            p.len() <= t.len(),
            i <= t.len() - p.len() + 1,
            forall|k: int| 0 <= k < i ==> !matches_at(t@, p@, k),
        decreases t.len() - p.len() - i + 1,
    {
        let mut j: usize = 0;
        while j < p.len() && t[i + j] == p[j]
            invariant
                p.len() <= t.len(),
                i <= t.len() - p.len(),
                j <= p.len(),
                forall|k: int| 0 <= k < j ==> t@[i + k] == p@[k],
            decreases p.len() - j,
        {
            j += 1;
        }
        if j == p.len() {
            proof {
                assert(t@.subrange(i as int, i + p@.len() as int) =~= p@);
                assert(matches_at(t@, p@, i as int));
            }
            return true;
        }
        proof {
            assert(!matches_at(t@, p@, i as int)) by {
                if matches_at(t@, p@, i as int) {
                    assert(t@.subrange(i as int, i + p@.len() as int)[j as int] == p@[j as int]);
                }
            }
        }
        i += 1;
    }
    proof {
        assert(forall|k: int| !matches_at(t@, p@, k)) by {
            assert(forall|k: int| k > t@.len() - p@.len() ==> !matches_at(t@, p@, k));
        }
    }
    false
}

/// What `str::to_lowercase` turns a text into: a function of the
/// characters alone.
pub uninterp spec fn lower_of(s: Seq<char>) -> Seq<char>;

/// Relies on `str::to_lowercase`: the lowercased text depends on the
/// input characters alone.
#[verifier::external_body]
pub(crate) fn fold_case(s: &Vec<char>) -> (r: Vec<char>)
    ensures
        r@ == lower_of(s@),
{
    let owned: String = s.iter().collect();
    owned.to_lowercase().chars().collect()
}

/// The case-insensitive match: the already-folded pattern occurs in the
/// folded name.
pub open spec fn name_matches_spec(name: Seq<char>, folded_pattern: Seq<char>) -> bool {
    contains_text(lower_of(name), folded_pattern)
}

/// Decides whether a base name matches the search pattern, comparing
/// case-folded text. The pattern must already be folded.
pub fn name_matches(name: &Vec<char>, folded_pattern: &Vec<char>) -> (r: bool)
    ensures
        r == name_matches_spec(name@, folded_pattern@),
{
    let lowered = fold_case(name);
    text_contains(&lowered, folded_pattern)
}

/// Element-wise equality of two texts.
pub fn text_eq(a: &Vec<char>, b: &Vec<char>) -> (r: bool)
    ensures
        r == (a@ == b@),
{
    if a.len() != b.len() {
        return false;
    }
    let mut i: usize = 0;
    while i < a.len()
        invariant
            a.len() == b.len(),
            i <= a.len(),
            forall|k: int| 0 <= k < i ==> a@[k] == b@[k],
        decreases a.len() - i,
    {
        if a[i] != b[i] {
            return false;
        }
        i += 1;
    }
    proof {
        assert(a@ =~= b@);
    }
    true
}

/// A fresh copy of a text.
pub fn copy_text(src: &Vec<char>) -> (r: Vec<char>)
    ensures
        r@ == src@,
{
    let mut r: Vec<char> = Vec::new();
    extend_text(&mut r, src);
    proof {
        assert(r@ =~= src@);
    }
    r
}

/// Appends a copy of `src` to `dst`.
pub fn extend_text(dst: &mut Vec<char>, src: &Vec<char>)
    ensures
        final(dst)@ == old(dst)@ + src@,
{
    let mut i: usize = 0;
    while i < src.len()
        invariant
            i <= src.len(),
            dst@ == old(dst)@ + src@.take(i as int),
        decreases src.len() - i,
    {
        dst.push(src[i]);
        proof {
            assert(old(dst)@ + src@.take(i as int) + seq![src@[i as int]] =~= old(dst)@ + src@.take(
                i + 1,
            ));
        }
        i += 1;
    }
    proof {
        assert(src@.take(src@.len() as int) =~= src@);
    }
}

} // verus!
