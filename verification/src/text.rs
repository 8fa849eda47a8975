//! Character-sequence primitives shared by the listing, template and tree
//! modules: lexicographic ordering, substring search, first-occurrence and
//! global replacement, line splitting, and the case-folding used for
//! case-insensitive name comparison.

use vstd::prelude::*;

verus! {

/// Code-point lexicographic order on character sequences. For strings this
/// agrees with the byte order of their UTF-8 encodings, and therefore with
/// `str`'s own `Ord`.
pub open spec fn lex_le(a: Seq<char>, b: Seq<char>) -> bool
    decreases a.len(),
{
    if a.len() == 0 {
        true
    } else if b.len() == 0 {
        false
    } else if a[0] != b[0] {
        (a[0] as int) < (b[0] as int)
    } else {
        lex_le(a.skip(1), b.skip(1))
    }
}

/// `lex_le` is total: any two sequences are comparable.
pub proof fn lemma_lex_le_total(a: Seq<char>, b: Seq<char>)
    ensures
        lex_le(a, b) || lex_le(b, a),
    decreases a.len(),
{
    if a.len() != 0 && b.len() != 0 && a[0] == b[0] {
        lemma_lex_le_total(a.skip(1), b.skip(1));
    }
}

/// `lex_le` is transitive.
pub proof fn lemma_lex_le_trans(a: Seq<char>, b: Seq<char>, c: Seq<char>)
    requires
        lex_le(a, b),
        lex_le(b, c),
    ensures
        lex_le(a, c),
    decreases a.len(),
{
    if a.len() != 0 && b.len() != 0 && c.len() != 0 && a[0] == b[0] && b[0] == c[0] {
        lemma_lex_le_trans(a.skip(1), b.skip(1), c.skip(1));
    }
}

/// Compares two strings in code-point lexicographic order.
pub fn lex_le_str(a: &str, b: &str) -> (r: bool)
    ensures
        r == lex_le(a@, b@),
{
    let a_len: usize = a.unicode_len();
    let b_len: usize = b.unicode_len();
    let mut i: usize = 0;
    proof {
        assert(a@.skip(0) =~= a@);
        assert(b@.skip(0) =~= b@);
    }
    loop
        invariant
            i <= a_len,
            i <= b_len,
            a_len == a@.len(),
            b_len == b@.len(),
            forall|j: int| 0 <= j < i ==> a@[j] == b@[j],
            lex_le(a@, b@) == lex_le(a@.skip(i as int), b@.skip(i as int)),
        decreases a_len - i,
    {
        if i == a_len {
            proof {
                assert(a@.skip(i as int).len() == 0);
            }
            return true;
        }
        if i == b_len {
            proof {
                assert(b@.skip(i as int).len() == 0);
                assert(a@.skip(i as int).len() != 0);
            }
            return false;
        }
        let ca = a.get_char(i);
        let cb = b.get_char(i);
        if ca != cb {
            proof {
                assert(a@.skip(i as int)[0] == a@[i as int]);
                assert(b@.skip(i as int)[0] == b@[i as int]);
            }
            return (ca as u32) < (cb as u32);
        }
        proof {
            assert(a@.skip(i as int)[0] == a@[i as int]);
            assert(b@.skip(i as int)[0] == b@[i as int]);
            assert(a@.skip(i as int).skip(1) =~= a@.skip(i + 1));
            assert(b@.skip(i as int).skip(1) =~= b@.skip(i + 1));
        }
        i = i + 1;
    }
}

/// The pattern `pat` occurs in `s` at position `i`.
pub open spec fn occurs_at(s: Seq<char>, pat: Seq<char>, i: int) -> bool {
    0 <= i && i + pat.len() <= s.len() && s.subrange(i, i + pat.len()) == pat
}

/// Position of the leftmost occurrence of `pat` in `s` at or after `from`,
/// if any.
pub open spec fn spec_find(s: Seq<char>, pat: Seq<char>, from: int) -> Option<int>
    decreases s.len() - from + 1,
{
    if from + pat.len() > s.len() {
        None
    } else if s.subrange(from, from + pat.len()) == pat {
        Some(from)
    } else {
        spec_find(s, pat, from + 1)
    }
}

/// A successful find returns the leftmost occurrence at or after `from`.
pub proof fn lemma_spec_find_some(s: Seq<char>, pat: Seq<char>, from: int, i: int)
    requires
        0 <= from,
        spec_find(s, pat, from) == Some(i),
    ensures
        occurs_at(s, pat, i),
        from <= i,
        forall|j: int| from <= j < i ==> !occurs_at(s, pat, j),
    decreases s.len() - from + 1,
{
    if from + pat.len() > s.len() {
    } else if s.subrange(from, from + pat.len()) == pat {
    } else {
        lemma_spec_find_some(s, pat, from + 1, i);
    }
}

/// A failed find means no occurrence at or after `from`.
pub proof fn lemma_spec_find_none(s: Seq<char>, pat: Seq<char>, from: int)
    requires
        0 <= from,
        spec_find(s, pat, from) is None,
    ensures
        forall|j: int| from <= j ==> !occurs_at(s, pat, j),
    decreases s.len() - from + 1,
{
    if from + pat.len() > s.len() {
    } else {
        lemma_spec_find_none(s, pat, from + 1);
    }
}

/// Wherever the pattern occurs, the find succeeds, and at a position no
/// later than that occurrence.
pub proof fn lemma_find_finds(s: Seq<char>, pat: Seq<char>, j: int)
    requires
        occurs_at(s, pat, j),
    ensures
        spec_find(s, pat, 0) matches Some(i) && 0 <= i <= j,
{
    if spec_find(s, pat, 0) is None {
        lemma_spec_find_none(s, pat, 0);
        assert(false);
    } else {
        lemma_spec_find_some(s, pat, 0, spec_find(s, pat, 0)->0);
    }
}

/// `s` with the leftmost occurrence of `pat` (if any) replaced by `val`;
/// any further occurrence stays as it is.
pub open spec fn replace_first(s: Seq<char>, pat: Seq<char>, val: Seq<char>) -> Seq<char> {
    match spec_find(s, pat, 0) {
        None => s,
        Some(i) => s.take(i) + val + s.skip(i + pat.len()),
    }
}

/// `s` with every occurrence of `pat` replaced by `val`, scanning left to
/// right; replaced text is not scanned again.
pub open spec fn replace_all(s: Seq<char>, pat: Seq<char>, val: Seq<char>) -> Seq<char>
    decreases s.len(),
    when pat.len() > 0
{
    match spec_find(s, pat, 0) {
        None => s,
        Some(i) => {
            proof {
                lemma_spec_find_some(s, pat, 0, i);
            }
            s.take(i) + val + replace_all(s.skip(i + pat.len()), pat, val)
        },
    }
}

/// Finds the leftmost occurrence of `pat` in `s`, as a character index.
pub fn find_str(s: &str, pat: &str) -> (r: Option<usize>)
    ensures
        match r {
            Some(i) => spec_find(s@, pat@, 0) == Some(i as int),
            None => spec_find(s@, pat@, 0) is None,
        },
{
    let s_len: usize = s.unicode_len();
    let pat_len: usize = pat.unicode_len();
    let mut from: usize = 0;
    loop
        invariant
            0 <= from <= s_len,
            s_len == s@.len(),
            pat_len == pat@.len(),
            spec_find(s@, pat@, 0) == spec_find(s@, pat@, from as int),
        decreases s_len - from,
    {
        if pat_len > s_len - from {
            return None;
        }
        let mut k: usize = 0;
        let mut matched = true;
        while k < pat_len
            invariant
                0 <= k <= pat_len,
                from + pat_len <= s_len,
                s_len == s@.len(),
                pat_len == pat@.len(),
                matched == (forall|j: int| 0 <= j < k ==> s@[from + j] == pat@[j]),
                !matched ==> k == pat_len,
            decreases pat_len - k,
        {
            if s.get_char(from + k) != pat.get_char(k) {
                matched = false;
                k = pat_len;
            } else {
                proof {
                    assert(s@[from + k] == pat@[k as int]);
                }
                k = k + 1;
            }
        }
        if matched {
            proof {
                assert(s@.subrange(from as int, from + pat_len) =~= pat@);
            }
            return Some(from);
        }
        proof {
            assert(s@.subrange(from as int, from + pat_len) != pat@) by {
                let w = choose|w: int|
                    0 <= w < pat_len && s@[from + w] != pat@[w];
                assert(s@.subrange(from as int, from + pat_len)[w] == s@[from + w]);
            }
        }
        from = from + 1;
    }
}

/// Replaces the leftmost occurrence of `pat` in `s` by `val`, leaving any
/// further occurrence untouched; `s` is returned unchanged when `pat` does
/// not occur.
pub fn replace_first_str(s: &str, pat: &str, val: &str) -> (r: String)
    ensures
        r@ == replace_first(s@, pat@, val@),
{
    match find_str(s, pat) {
        None => s.to_owned(),
        Some(i) => {
            proof {
                lemma_spec_find_some(s@, pat@, 0, i as int);
            }
            let s_len: usize = s.unicode_len();
            let pat_len: usize = pat.unicode_len();
            let mut out = String::from_str(s.substring_char(0, i));
            out.append(val);
            out.append(s.substring_char(i + pat_len, s_len));
            proof {
                assert(s@.subrange(0, i as int) =~= s@.take(i as int));
                assert(s@.subrange(i + pat_len, s_len as int) =~= s@.skip(i + pat@.len()));
            }
            out
        },
    }
}

/// Replaces every occurrence of `pat` in `s` by `val`, scanning left to
/// right; replaced text is not scanned again.
pub fn replace_all_str(s: &str, pat: &str, val: &str) -> (r: String)
    requires
        pat@.len() > 0,
    ensures
        r@ == replace_all(s@, pat@, val@),
{
    let mut out = String::new();
    let mut rest = s.to_owned();
    loop
        invariant
            pat@.len() > 0,
            replace_all(s@, pat@, val@) == out@ + replace_all(rest@, pat@, val@),
        decreases rest@.len(),
    {
        match find_str(rest.as_str(), pat) {
            None => {
                out.append(rest.as_str());
                proof {
                    assert(out@ == replace_all(s@, pat@, val@));
                }
                return out;
            },
            Some(i) => {
                proof {
                    lemma_spec_find_some(rest@, pat@, 0, i as int);
                }
                let rest_len: usize = rest.unicode_len();
                let pat_len: usize = pat.unicode_len();
                out.append(rest.as_str().substring_char(0, i));
                out.append(val);
                let next = String::from_str(
                    rest.as_str().substring_char(i + pat_len, rest_len),
                );
                proof {
                    assert(rest@.subrange(0, i as int) =~= rest@.take(i as int));
                    assert(rest@.subrange(i + pat_len, rest_len as int)
                        =~= rest@.skip(i + pat@.len()));
                    assert(out@ + replace_all(next@, pat@, val@)
                        =~= replace_all(s@, pat@, val@));
                }
                rest = next;
            },
        }
    }
}


/// Describes the shape of a first-occurrence replacement: the text before the
/// occurrence and the text after it are kept as they are, the value is
/// inserted verbatim between them, and every later occurrence of the pattern
/// survives at a shifted position.
pub proof fn lemma_replace_first_structure(s: Seq<char>, pat: Seq<char>, val: Seq<char>, i: int)
    requires
        spec_find(s, pat, 0) == Some(i),
    ensures
        replace_first(s, pat, val) == s.take(i) + val + s.skip(i + pat.len()),
        replace_first(s, pat, val).len() == s.len() - pat.len() + val.len(),
        replace_first(s, pat, val).take(i) == s.take(i),
        replace_first(s, pat, val).subrange(i, i + val.len()) == val,
        replace_first(s, pat, val).skip(i + val.len()) == s.skip(i + pat.len()),
        forall|j: int|
            occurs_at(s, pat, j) && j >= i + pat.len()
                ==> occurs_at(replace_first(s, pat, val), pat, j + val.len() - pat.len()),
{
    lemma_spec_find_some(s, pat, 0, i);
    let r = replace_first(s, pat, val);
    assert(r.take(i) =~= s.take(i));
    assert(r.subrange(i, i + val.len()) =~= val);
    assert(r.skip(i + val.len()) =~= s.skip(i + pat.len()));
    assert forall|j: int|
        occurs_at(s, pat, j) && j >= i + pat.len()
            implies occurs_at(r, pat, j + val.len() - pat.len()) by {
        let j2 = j + val.len() - pat.len();
        assert forall|t: int| 0 <= t < pat.len() implies r[j2 + t] == pat[t] by {
            assert(r[j2 + t] == r.skip(i + val.len())[j2 + t - i - val.len()]);
            assert(s.skip(i + pat.len())[j2 + t - i - val.len()] == s[j + t]);
            assert(s.subrange(j, j + pat.len())[t] == s[j + t]);
        }
        assert(r.subrange(j2, j2 + pat.len()) =~= pat);
    }
}

/// Strips one trailing carriage return, as the line terminator `\r\n` leaves
/// one on the segment before the newline.
pub open spec fn strip_cr(l: Seq<char>) -> Seq<char> {
    if l.len() > 0 && l[l.len() - 1] == '\r' {
        l.take(l.len() - 1)
    } else {
        l
    }
}

/// The lines of a text: segments split at each newline, a carriage return
/// directly before a newline stripped, and a final segment without a
/// terminator counted only when it is not empty. This matches what
/// `str::lines` yields.
pub open spec fn lines_of(s: Seq<char>) -> Seq<Seq<char>>
    decreases s.len(),
{
    if s.len() == 0 {
        Seq::empty()
    } else {
        match spec_find(s, seq!['\n'], 0) {
            None => seq![s],
            Some(i) => {
                proof {
                    lemma_spec_find_some(s, seq!['\n'], 0, i);
                }
                seq![strip_cr(s.take(i))] + lines_of(s.skip(i + 1))
            },
        }
    }
}

/// Splits a text into its lines, as `lines_of` describes.
pub fn split_lines(s: &str) -> (r: Vec<String>)
    ensures
        r@.map_values(|l: String| l@) == lines_of(s@),
{
    let pat = "\n";
    proof {
        reveal_strlit("\n");
        assert(pat@ =~= seq!['\n']);
    }
    let mut out: Vec<String> = Vec::new();
    let mut rest = s.to_owned();
    loop
        invariant
            pat@ == seq!['\n'],
            lines_of(s@) == out@.map_values(|l: String| l@) + lines_of(rest@),
        decreases rest@.len(),
    {
        match find_str(rest.as_str(), pat) {
            None => {
                if rest.as_str().unicode_len() > 0 {
                    let ghost old_out = out@;
                    out.push(rest);
                    proof {
                        assert(out@.map_values(|l: String| l@)
                            =~= old_out.map_values(|l: String| l@) + lines_of(rest@));
                    }
                }
                proof {
                    assert(out@.map_values(|l: String| l@) =~= lines_of(s@));
                }
                return out;
            },
            Some(i) => {
                proof {
                    lemma_spec_find_some(rest@, pat@, 0, i as int);
                }
                let rest_len: usize = rest.unicode_len();
                let line = if i > 0 && rest.as_str().get_char(i - 1) == '\r' {
                    String::from_str(rest.as_str().substring_char(0, i - 1))
                } else {
                    String::from_str(rest.as_str().substring_char(0, i))
                };
                let next = String::from_str(rest.as_str().substring_char(i + 1, rest_len));
                proof {
                    assert(rest@.subrange(0, i as int) =~= rest@.take(i as int));
                    if i > 0 && rest@[i - 1] == '\r' {
                        assert(rest@.subrange(0, i - 1) =~= rest@.take(i as int).take(i - 1));
                    }
                    assert(line@ == strip_cr(rest@.take(i as int)));
                    assert(next@ =~= rest@.skip(i + 1));
                    assert(rest@.len() > 0);
                }
                let ghost old_out = out@;
                out.push(line);
                proof {
                    assert(out@.map_values(|l: String| l@)
                        =~= old_out.map_values(|l: String| l@) + seq![strip_cr(rest@.take(i as int))]);
                    assert(out@.map_values(|l: String| l@) + lines_of(next@)
                        =~= lines_of(s@));
                }
                rest = next;
            },
        }
    }
}

/// Counts the lines of a text, as `str::lines` would yield them.
pub fn count_lines(s: &str) -> (r: usize)
    ensures
        r == lines_of(s@).len(),
{
    let parts = split_lines(s);
    proof {
        assert(parts@.map_values(|l: String| l@).len() == parts@.len());
    }
    parts.len()
}

/// The Unicode lowercase mapping of a character sequence.
pub uninterp spec fn lowercase_of(s: Seq<char>) -> Seq<char>;

/// Relies on `str::to_lowercase`: the lowercase mapping of a string depends
/// on its characters alone.
#[verifier::external_body]
pub(crate) fn to_lowercase_str(s: &str) -> (r: String)
    ensures
        r@ == lowercase_of(s@),
{
    s.to_lowercase()
}


/// Compares two strings for character-for-character equality.
pub fn str_eq(a: &str, b: &str) -> (r: bool)
    ensures
        r == (a@ == b@),
{
    let a_len: usize = a.unicode_len();
    let b_len: usize = b.unicode_len();
    if a_len != b_len {
        return false;
    }
    let mut i: usize = 0;
    while i < a_len
        invariant
            0 <= i <= a_len,
            a_len == a@.len(),
            a_len == b@.len(),
            forall|j: int| 0 <= j < i ==> a@[j] == b@[j],
        decreases a_len - i,
    {
        if a.get_char(i) != b.get_char(i) {
            return false;
        }
        i = i + 1;
    }
    proof {
        assert(a@ =~= b@);
    }
    true
}

/// Code-point lexicographic strict order.
pub open spec fn lex_lt(a: Seq<char>, b: Seq<char>) -> bool {
    lex_le(a, b) && a != b
}

/// Compares two strings in strict code-point lexicographic order.
pub fn lex_lt_str(a: &str, b: &str) -> (r: bool)
    ensures
        r == lex_lt(a@, b@),
{
    lex_le_str(a, b) && !str_eq(a, b)
}

} // verus!
