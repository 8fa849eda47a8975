//! Placeholder substitution. A template is an ordinary string; each
//! recognized placeholder token is replaced at its first occurrence, and the
//! fixed substitution order — name, then relative path, then content — keeps
//! placeholder-like text inside inserted file content from being treated as
//! a token.

use vstd::prelude::*;
use crate::text::{
    replace_first, replace_first_str, spec_find, occurs_at,
    lemma_replace_first_structure,
};

verus! {

/// The placeholder for a file's name.
pub open spec fn name_token() -> Seq<char> {
    seq!['{', '{', 'f', 'i', 'l', 'e', '_', 'n', 'a', 'm', 'e', '}', '}']
}

/// The placeholder for a file's path relative to the base directory.
pub open spec fn path_token() -> Seq<char> {
    seq!['{', '{', 'f', 'i', 'l', 'e', '_', 'p', 'a', 't', 'h', '}', '}']
}

/// The placeholder for a file's content.
pub open spec fn content_token() -> Seq<char> {
    seq!['{', '{', 'f', 'i', 'l', 'e', '_', 'c', 'o', 'n', 't', 'e', 'n', 't', '}', '}']
}

/// The placeholder for the rendered tree in a prompt template.
pub open spec fn filetree_token() -> Seq<char> {
    seq!['{', '{', 'f', 'i', 'l', 'e', 't', 'r', 'e', 'e', '}', '}']
}

/// The placeholder for the aggregated file blocks in a prompt template.
pub open spec fn files_token() -> Seq<char> {
    seq!['{', '{', 'f', 'i', 'l', 'e', 's', '}', '}']
}

/// The template after each replacement pair has been applied in order, each
/// at the first occurrence of its placeholder only.
pub open spec fn apply_all(s: Seq<char>, reps: Seq<(Seq<char>, Seq<char>)>) -> Seq<char>
    decreases reps.len(),
{
    if reps.len() == 0 {
        s
    } else {
        apply_all(replace_first(s, reps[0].0, reps[0].1), reps.skip(1))
    }
}

/// Applies each replacement pair in order, each at the first occurrence of
/// its placeholder only; a placeholder that does not occur is skipped, and
/// text that a replacement inserted is treated like any other text by the
/// later replacements.
pub fn apply_template(template: &str, replacements: &[(&str, &str)]) -> (r: String)
    ensures
        r@ == apply_all(
            template@,
            replacements@.map_values(|p: (&str, &str)| (p.0@, p.1@)),
        ),
{
    let ghost reps = replacements@.map_values(|p: (&str, &str)| (p.0@, p.1@));
    let mut result = template.to_owned();
    proof {
        assert(reps.skip(0) =~= reps);
    }
    let mut k: usize = 0;
    while k < replacements.len()
        invariant
            0 <= k <= replacements@.len(),
            reps == replacements@.map_values(|p: (&str, &str)| (p.0@, p.1@)),
            apply_all(template@, reps) == apply_all(result@, reps.skip(k as int)),
        decreases replacements@.len() - k,
    {
        let (pat, val) = replacements[k];
        let next = replace_first_str(result.as_str(), pat, val);
        proof {
            assert(reps.skip(k as int)[0] == (pat@, val@));
            assert(reps.skip(k as int).skip(1) =~= reps.skip(k + 1));
        }
        result = next;
        k = k + 1;
    }
    proof {
        assert(reps.skip(k as int).len() == 0);
    }
    result
}

/// The expansion of a per-file template: the file's name, then its relative
/// path, then — last — its content, each substituted at the first occurrence
/// of its placeholder.
pub open spec fn file_block_of(
    template: Seq<char>,
    name: Seq<char>,
    rel: Seq<char>,
    content: Seq<char>,
) -> Seq<char> {
    replace_first(
        replace_first(replace_first(template, name_token(), name), path_token(), rel),
        content_token(),
        content,
    )
}

/// Expands a per-file template for one file, substituting the name, the
/// relative path, and last the content.
pub fn render_file_block(template: &str, name: &str, rel_path: &str, content: &str) -> (r:
    String)
    ensures
        r@ == file_block_of(template@, name@, rel_path@, content@),
{
    let name_pat = "{{file_name}}";
    let path_pat = "{{file_path}}";
    let content_pat = "{{file_content}}";
    proof {
        reveal_strlit("{{file_name}}");
        reveal_strlit("{{file_path}}");
        reveal_strlit("{{file_content}}");
        assert(name_pat@ =~= name_token());
        assert(path_pat@ =~= path_token());
        assert(content_pat@ =~= content_token());
    }
    let step1 = replace_first_str(template, name_pat, name);
    let step2 = replace_first_str(step1.as_str(), path_pat, rel_path);
    replace_first_str(step2.as_str(), content_pat, content)
}

/// Because the content is substituted last, it enters the output as one
/// verbatim block: when its placeholder occurs at position `i` of the
/// template as it stands after the name and path substitutions, any text
/// occurring inside the content — the name placeholder itself included —
/// still occurs in the expansion, shifted to the content block's position.
pub proof fn lemma_content_inserted_verbatim(
    template: Seq<char>,
    name: Seq<char>,
    rel: Seq<char>,
    content: Seq<char>,
    q: Seq<char>,
    i: int,
    j: int,
)
    requires
        spec_find(
            replace_first(replace_first(template, name_token(), name), path_token(), rel),
            content_token(),
            0,
        ) == Some(i),
        occurs_at(content, q, j),
    ensures
        occurs_at(file_block_of(template, name, rel, content), q, i + j),
{
    let t2 = replace_first(replace_first(template, name_token(), name), path_token(), rel);
    crate::text::lemma_spec_find_some(t2, content_token(), 0, i);
    lemma_replace_first_structure(t2, content_token(), content, i);
    let r = file_block_of(template, name, rel, content);
    assert(r == t2.take(i) + content + t2.skip(i + content_token().len()));
    assert forall|u: int| 0 <= u < q.len() implies r[i + j + u] == q[u] by {
        assert(t2.take(i).len() == i);
        assert(0 <= j + u < content.len());
        assert((t2.take(i) + content)[i + j + u] == content[j + u]);
        assert(r[i + j + u] == (t2.take(i) + content)[i + j + u]);
        assert(content.subrange(j, j + q.len())[u] == content[j + u]);
    }
    assert(r.subrange(i + j, i + j + q.len()) =~= q);
}

} // verus!
