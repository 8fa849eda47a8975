//! The library's model of paths: plain strings with `/` as the separator.
//! Offers relativization against a base directory, splitting into
//! components, and the parent-directory walk that the ignore-rule engine
//! uses to find rule files between a target directory and a boundary.

use vstd::prelude::*;
use crate::text::{spec_find, lemma_spec_find_some, str_eq, find_str};

verus! {

/// `path` lies strictly under the directory `base`: `base` is nonempty, is a
/// proper prefix of `path`, and the next character is the separator.
pub open spec fn is_under(base: Seq<char>, path: Seq<char>) -> bool {
    base.len() > 0 && path.len() > base.len() && path.take(base.len() as int) == base
        && path[base.len() as int] == '/'
}

/// `path` expressed relative to `base` when it lies under `base`, and
/// unchanged otherwise.
pub open spec fn rel_of(base: Seq<char>, path: Seq<char>) -> Seq<char> {
    if is_under(base, path) {
        path.skip(base.len() as int + 1)
    } else {
        path
    }
}

/// Computes `rel_of`: the path relative to the base directory, or the path
/// itself when it does not lie under the base.
pub fn relative_to(base: &str, path: &str) -> (r: String)
    ensures
        r@ == rel_of(base@, path@),
{
    let base_len: usize = base.unicode_len();
    let path_len: usize = path.unicode_len();
    if base_len == 0 || path_len <= base_len {
        proof {
            assert(!is_under(base@, path@));
        }
        return path.to_owned();
    }
    let mut i: usize = 0;
    while i < base_len
        invariant
            0 <= i <= base_len,
            base_len == base@.len(),
            path_len == path@.len(),
            path_len > base_len,
            forall|j: int| 0 <= j < i ==> path@[j] == base@[j],
        decreases base_len - i,
    {
        if path.get_char(i) != base.get_char(i) {
            proof {
                assert(path@.take(base@.len() as int)[i as int] != base@[i as int]);
            }
            return path.to_owned();
        }
        i = i + 1;
    }
    if path.get_char(base_len) != '/' {
        proof {
            assert(!is_under(base@, path@));
        }
        return path.to_owned();
    }
    proof {
        assert(path@.take(base@.len() as int) =~= base@);
        assert(is_under(base@, path@));
    }
    let r = String::from_str(path.substring_char(base_len + 1, path_len));
    proof {
        assert(path@.subrange(base_len + 1, path_len as int) =~= path@.skip(base@.len() as int + 1));
    }
    r
}

/// The components of a path: the maximal nonempty segments between
/// separators.
pub open spec fn components_of(s: Seq<char>) -> Seq<Seq<char>>
    decreases s.len(),
{
    match spec_find(s, seq!['/'], 0) {
        None => if s.len() == 0 {
            Seq::empty()
        } else {
            seq![s]
        },
        Some(i) => {
            proof {
                lemma_spec_find_some(s, seq!['/'], 0, i);
            }
            let head = s.take(i);
            let rest = components_of(s.skip(i + 1));
            if head.len() == 0 {
                rest
            } else {
                seq![head] + rest
            }
        },
    }
}

/// Splits a path into its components, as `components_of` describes.
pub fn split_components(s: &str) -> (r: Vec<String>)
    ensures
        r@.map_values(|c: String| c@) == components_of(s@),
{
    let pat = "/";
    proof {
        reveal_strlit("/");
        assert(pat@ =~= seq!['/']);
    }
    let mut out: Vec<String> = Vec::new();
    let mut rest = s.to_owned();
    loop
        invariant
            pat@ == seq!['/'],
            components_of(s@) == out@.map_values(|c: String| c@) + components_of(rest@),
        decreases rest@.len(),
    {
        match find_str(rest.as_str(), pat) {
            None => {
                if rest.as_str().unicode_len() > 0 {
                    let ghost old_out = out@;
                    out.push(rest);
                    proof {
                        assert(out@.map_values(|c: String| c@)
                            =~= old_out.map_values(|c: String| c@) + seq![rest@]);
                    }
                }
                proof {
                    assert(out@.map_values(|c: String| c@) =~= components_of(s@));
                }
                return out;
            },
            Some(i) => {
                proof {
                    lemma_spec_find_some(rest@, pat@, 0, i as int);
                }
                let rest_len: usize = rest.unicode_len();
                let next = String::from_str(rest.as_str().substring_char(i + 1, rest_len));
                proof {
                    assert(next@ =~= rest@.skip(i + 1));
                }
                if i > 0 {
                    let head = String::from_str(rest.as_str().substring_char(0, i));
                    proof {
                        assert(head@ =~= rest@.take(i as int));
                    }
                    let ghost old_out = out@;
                    out.push(head);
                    proof {
                        assert(out@.map_values(|c: String| c@)
                            =~= old_out.map_values(|c: String| c@) + seq![rest@.take(i as int)]);
                        assert(out@.map_values(|c: String| c@) + components_of(next@)
                            =~= components_of(s@));
                    }
                } else {
                    proof {
                        assert(rest@.take(i as int).len() == 0);
                    }
                }
                rest = next;
            },
        }
    }
}


/// Index of the last separator in a path, if any.
pub open spec fn last_slash(s: Seq<char>) -> Option<int>
    decreases s.len(),
{
    if s.len() == 0 {
        None
    } else if s[s.len() - 1] == '/' {
        Some(s.len() - 1)
    } else {
        last_slash(s.take(s.len() - 1))
    }
}

/// A found separator index lies inside the path.
pub proof fn lemma_last_slash_bounds(s: Seq<char>)
    ensures
        last_slash(s) matches Some(i) ==> 0 <= i < s.len(),
    decreases s.len(),
{
    if s.len() != 0 && s[s.len() - 1] != '/' {
        lemma_last_slash_bounds(s.take(s.len() - 1));
    }
}

/// The parent directory of a path: the text before the last separator, with
/// the degenerate cases of the filesystem root (no parent) and of a bare
/// name (whose parent is the empty path).
pub open spec fn parent_of(s: Seq<char>) -> Option<Seq<char>> {
    if s.len() == 0 {
        None
    } else {
        match last_slash(s) {
            None => Some(Seq::empty()),
            Some(i) => if i == 0 {
                if s.len() == 1 {
                    None
                } else {
                    Some(seq!['/'])
                }
            } else {
                Some(s.take(i))
            },
        }
    }
}

/// A parent is strictly shorter than its child, so the parent walk ends.
pub proof fn lemma_parent_shorter(s: Seq<char>)
    ensures
        parent_of(s) matches Some(p) ==> p.len() < s.len(),
{
    lemma_last_slash_bounds(s);
}

/// Computes `parent_of`: the parent directory of a path, if it has one.
pub fn parent_of_str(s: &str) -> (r: Option<String>)
    ensures
        match r {
            Some(p) => parent_of(s@) == Some(p@),
            None => parent_of(s@) is None,
        },
{
    let len: usize = s.unicode_len();
    if len == 0 {
        return None;
    }
    let mut i: usize = len;
    proof {
        assert(s@.take(len as int) =~= s@);
    }
    while i > 0
        invariant
            0 <= i <= len,
            len == s@.len(),
            last_slash(s@) == last_slash(s@.take(i as int)),
        decreases i,
    {
        if s.get_char(i - 1) == '/' {
            proof {
                assert(s@.take(i as int)[i - 1] == s@[i - 1]);
                assert(last_slash(s@) == Some(i - 1));
            }
            if i == 1 {
                if len == 1 {
                    return None;
                }
                let slash = String::from_str("/");
                proof {
                    reveal_strlit("/");
                    assert(slash@ =~= seq!['/']);
                }
                return Some(slash);
            }
            let p = String::from_str(s.substring_char(0, i - 1));
            proof {
                assert(p@ =~= s@.take(i - 1));
            }
            return Some(p);
        }
        proof {
            assert(s@.take(i as int)[i - 1] == s@[i - 1]);
            assert(s@.take(i as int).take(i - 1) =~= s@.take(i - 1));
        }
        i = i - 1;
    }
    proof {
        assert(s@.take(0).len() == 0);
    }
    Some(String::new())
}

/// The directories whose rule files govern a listing of `dir`: `dir` itself,
/// then each parent in turn, stopping at the boundary `root` or at a
/// directory without a parent, inclusive.
pub open spec fn chain_of(dir: Seq<char>, root: Seq<char>) -> Seq<Seq<char>>
    decreases dir.len(),
{
    if dir == root {
        seq![dir]
    } else {
        match parent_of(dir) {
            None => seq![dir],
            Some(p) => {
                proof {
                    lemma_parent_shorter(dir);
                }
                seq![dir] + chain_of(p, root)
            },
        }
    }
}

/// Computes `chain_of`: the walk from a target directory up to the boundary.
pub fn ancestor_chain(dir: &str, root: &str) -> (r: Vec<String>)
    ensures
        r@.map_values(|d: String| d@) == chain_of(dir@, root@),
    decreases dir@.len(),
{
    let mut out: Vec<String> = Vec::new();
    out.push(dir.to_owned());
    proof {
        assert(out@.map_values(|d: String| d@) =~= seq![dir@]);
    }
    if str_eq(dir, root) {
        return out;
    }
    match parent_of_str(dir) {
        None => out,
        Some(p) => {
            proof {
                lemma_parent_shorter(dir@);
            }
            let rest = ancestor_chain(p.as_str(), root);
            let mut k: usize = 0;
            while k < rest.len()
                invariant
                    0 <= k <= rest@.len(),
                    rest@.map_values(|d: String| d@) == chain_of(p@, root@),
                    out@.map_values(|d: String| d@)
                        =~= seq![dir@] + rest@.map_values(|d: String| d@).take(k as int),
                decreases rest@.len() - k,
            {
                let ghost old_out = out@;
                out.push(rest[k].clone());
                proof {
                    assert(out@.map_values(|d: String| d@)
                        =~= old_out.map_values(|d: String| d@) + seq![rest@[k as int]@]);
                    assert(rest@.map_values(|d: String| d@).take(k + 1)
                        =~= rest@.map_values(|d: String| d@).take(k as int) + seq![rest@[k as int]@]);
                }
                k = k + 1;
            }
            proof {
                assert(rest@.map_values(|d: String| d@).take(rest@.len() as int)
                    =~= rest@.map_values(|d: String| d@));
                assert(out@.map_values(|d: String| d@) =~= chain_of(dir@, root@));
            }
            out
        },
    }
}

/// Tests whether `path` lies strictly under the directory `base`.
pub fn is_under_str(base: &str, path: &str) -> (r: bool)
    ensures
        r == is_under(base@, path@),
{
    let base_len: usize = base.unicode_len();
    let path_len: usize = path.unicode_len();
    if base_len == 0 || path_len <= base_len {
        return false;
    }
    let mut i: usize = 0;
    while i < base_len
        invariant
            0 <= i <= base_len,
            base_len == base@.len(),
            path_len == path@.len(),
            path_len > base_len,
            forall|j: int| 0 <= j < i ==> path@[j] == base@[j],
        decreases base_len - i,
    {
        if path.get_char(i) != base.get_char(i) {
            proof {
                assert(path@.take(base@.len() as int)[i as int] != base@[i as int]);
            }
            return false;
        }
        i = i + 1;
    }
    proof {
        assert(path@.take(base@.len() as int) =~= base@);
    }
    path.get_char(base_len) == '/'
}

} // verus!
