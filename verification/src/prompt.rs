//! Prompt assembly: expands the per-file template for each readable
//! selected file, renders the selection as a tree, and substitutes both
//! into the prompt template — the tree first, then the aggregated blocks,
//! each at its placeholder's first occurrence only. Also prepares the
//! instruction text for the enhance and convert requests and picks the
//! completion out of their answers; sending and receiving stays with the
//! caller.

use vstd::prelude::*;
use crate::FileNodeInput;
use crate::paths::{rel_of, relative_to};
use crate::template::{
    file_block_of, filetree_token, files_token, render_file_block,
};
use crate::text::{
    replace_first, replace_all, replace_first_str, replace_all_str, spec_find, occurs_at,
    lemma_replace_first_structure, lemma_spec_find_some, lemma_find_finds,
};
use crate::tree::{build_filetree, tree_of, spec_render};

verus! {

/// The per-file block contributed by selection `k`: the expanded file
/// template when the file's content could be read, and nothing when it
/// could not.
pub open spec fn block_at(
    file_template: Seq<char>,
    folder: Seq<char>,
    files: Seq<FileNodeInput>,
    contents: Seq<Option<String>>,
    k: int,
) -> Seq<char> {
    match contents[k] {
        Some(c) => file_block_of(
            file_template,
            files[k].name@,
            rel_of(folder, files[k].path@),
            c@,
        ),
        None => Seq::empty(),
    }
}

/// The concatenation of the per-file blocks of the first `n` selections.
pub open spec fn blocks_upto(
    file_template: Seq<char>,
    folder: Seq<char>,
    files: Seq<FileNodeInput>,
    contents: Seq<Option<String>>,
    n: int,
) -> Seq<char>
    decreases n,
{
    if n <= 0 {
        Seq::empty()
    } else {
        blocks_upto(file_template, folder, files, contents, n - 1)
            + block_at(file_template, folder, files, contents, n - 1)
    }
}

/// The aggregated per-file blocks of all selections, in selection order.
pub open spec fn blocks_of(
    file_template: Seq<char>,
    folder: Seq<char>,
    files: Seq<FileNodeInput>,
    contents: Seq<Option<String>>,
) -> Seq<char> {
    blocks_upto(file_template, folder, files, contents, files.len() as int)
}

/// The assembled prompt: the tree text substituted at the first occurrence
/// of its placeholder, then the aggregated blocks at the first occurrence
/// of theirs.
pub open spec fn prompt_of(
    prompt_template: Seq<char>,
    tree_text: Seq<char>,
    blocks: Seq<char>,
) -> Seq<char> {
    replace_first(
        replace_first(prompt_template, filetree_token(), tree_text),
        files_token(),
        blocks,
    )
}

/// Assembles the prompt for a selection. `contents[k]` holds the text of
/// `files[k]`, or nothing where the file could not be read as text: such a
/// file contributes no block, but still appears in the tree.
pub fn generate_prompt_string(
    folder_path: &str,
    files: &Vec<FileNodeInput>,
    contents: &Vec<Option<String>>,
    file_template: &str,
    prompt_template: &str,
) -> (r: String)
    requires
        contents@.len() == files@.len(),
    ensures
        r@ == prompt_of(
            prompt_template@,
            spec_render(
                tree_of(folder_path@, files@.map_values(|f: FileNodeInput| f.path@)),
                Seq::empty(),
            ),
            blocks_of(file_template@, folder_path@, files@, contents@),
        ),
{
    let mut aggregated = String::new();
    let mut k: usize = 0;
    while k < files.len()
        invariant
            0 <= k <= files@.len(),
            contents@.len() == files@.len(),
            aggregated@ == blocks_upto(
                file_template@, folder_path@, files@, contents@, k as int),
        decreases files@.len() - k,
    {
        match &contents[k] {
            Some(c) => {
                let rel = relative_to(folder_path, files[k].path.as_str());
                let block = render_file_block(
                    file_template,
                    files[k].name.as_str(),
                    rel.as_str(),
                    c.as_str(),
                );
                aggregated.append(block.as_str());
            },
            None => {
                proof {
                    assert(aggregated@ + Seq::<char>::empty() =~= aggregated@);
                }
            },
        }
        k = k + 1;
    }
    let tree_text = build_filetree(folder_path, files);
    let filetree_pat = "{{filetree}}";
    let files_pat = "{{files}}";
    proof {
        reveal_strlit("{{filetree}}");
        reveal_strlit("{{files}}");
        assert(filetree_pat@ =~= filetree_token());
        assert(files_pat@ =~= files_token());
    }
    let step1 = replace_first_str(prompt_template, filetree_pat, tree_text.as_str());
    replace_first_str(step1.as_str(), files_pat, aggregated.as_str())
}

/// Expands the per-file template for one selected file, when its content
/// could be read; reports nothing when it could not, so the caller can fail
/// the way a missing file is reported.
pub fn render_selected_file(
    file_template: &str,
    name: &str,
    folder_path: &str,
    path: &str,
    content: Option<String>,
) -> (r: Option<String>)
    ensures
        match r {
            Some(s) => content matches Some(c) && s@ == file_block_of(
                file_template@,
                name@,
                rel_of(folder_path@, path@),
                c@,
            ),
            None => content is None,
        },
{
    match content {
        Some(c) => {
            let rel = relative_to(folder_path, path);
            Some(render_file_block(file_template, name, rel.as_str(), c.as_str()))
        },
        None => None,
    }
}

/// The marker the instruction templates hold where the user's prompt
/// belongs.
pub open spec fn prompt_marker() -> Seq<char> {
    seq!['%', '%', 'p', 'r', 'o', 'm', 'p', 't', '%', '%']
}

/// The marker the conversion instruction template holds where the target
/// format's name belongs.
pub open spec fn format_marker() -> Seq<char> {
    seq!['%', '%', 'f', 'o', 'r', 'm', 'a', 't', '%', '%']
}

/// Builds the text sent to the completion service for an enhancement: the
/// instruction template with every prompt marker replaced by the user's
/// prompt.
pub fn prepare_enhance_request(instruction_template: &str, prompt: &str) -> (r: String)
    ensures
        r@ == replace_all(instruction_template@, prompt_marker(), prompt@),
{
    let pat = "%%prompt%%";
    proof {
        reveal_strlit("%%prompt%%");
        assert(pat@ =~= prompt_marker());
    }
    replace_all_str(instruction_template, pat, prompt)
}

/// Builds the text sent to the completion service for a conversion: the
/// instruction template with every format marker replaced by the target
/// format's name, then every prompt marker replaced by the user's prompt.
pub fn prepare_convert_request(
    instruction_template: &str,
    format_name: &str,
    prompt: &str,
) -> (r: String)
    ensures
        r@ == replace_all(
            replace_all(instruction_template@, format_marker(), format_name@),
            prompt_marker(),
            prompt@,
        ),
{
    let format_pat = "%%format%%";
    let prompt_pat = "%%prompt%%";
    proof {
        reveal_strlit("%%format%%");
        reveal_strlit("%%prompt%%");
        assert(format_pat@ =~= format_marker());
        assert(prompt_pat@ =~= prompt_marker());
    }
    let step1 = replace_all_str(instruction_template, format_pat, format_name);
    replace_all_str(step1.as_str(), prompt_pat, prompt)
}

/// Picks the completion out of the texts a completion service answered
/// with: the first one; an answer without any is an error.
pub fn extract_completion(choices: Vec<String>) -> (r: Result<String, String>)
    ensures
        match r {
            Ok(s) => choices@.len() > 0 && s@ == choices@[0]@,
            Err(_) => choices@.len() == 0,
        },
{
    if choices.len() == 0 {
        Err(String::from_str("Invalid response format: no choices found"))
    } else {
        let mut choices = choices;
        Ok(choices.remove(0))
    }
}

/// With first-occurrence substitution, only the first files placeholder of
/// the prompt template is replaced: when the template as it stands after
/// the tree substitution holds the placeholder at `i` (its first
/// occurrence) and again at some later `j`, the later occurrence stays in
/// the assembled prompt, shifted by the substituted blocks' length.
pub proof fn lemma_files_token_substituted_once(
    prompt_template: Seq<char>,
    tree_text: Seq<char>,
    blocks: Seq<char>,
    i: int,
    j: int,
)
    requires
        spec_find(
            replace_first(prompt_template, filetree_token(), tree_text),
            files_token(),
            0,
        ) == Some(i),
        occurs_at(replace_first(prompt_template, filetree_token(), tree_text), files_token(), j),
        j >= i + files_token().len(),
    ensures
        occurs_at(
            prompt_of(prompt_template, tree_text, blocks),
            files_token(),
            j + blocks.len() - files_token().len(),
        ),
{
    lemma_replace_first_structure(
        replace_first(prompt_template, filetree_token(), tree_text),
        files_token(),
        blocks,
        i,
    );
}

/// The tree and files placeholders never overlap in a text: wherever both
/// occur, one ends before the other starts.
pub proof fn lemma_prompt_tokens_disjoint(s: Seq<char>, i0: int, j: int)
    requires
        occurs_at(s, filetree_token(), i0),
        occurs_at(s, files_token(), j),
    ensures
        j + files_token().len() <= i0 || j >= i0 + filetree_token().len(),
{
    if !(j + files_token().len() <= i0) && !(j >= i0 + filetree_token().len()) {
        assert forall|k: int| 0 <= k < files_token().len()
            implies s[j + k] == files_token()[k] by {
            assert(s.subrange(j, j + files_token().len())[k] == s[j + k]);
        }
        assert forall|k: int| 0 <= k < filetree_token().len()
            implies s[i0 + k] == filetree_token()[k] by {
            assert(s.subrange(i0, i0 + filetree_token().len())[k] == s[i0 + k]);
        }
        if j >= i0 {
            let d = j - i0;
            assert(0 <= d < filetree_token().len());
            assert(filetree_token()[d] == files_token()[0]);
            assert(files_token()[0] == '{');
            if d == 0 {
                assert(files_token()[6] == 's');
                assert(filetree_token()[6] == 't');
                assert(s[j + 6] == files_token()[6]);
                assert(s[i0 + 6] == filetree_token()[6]);
                assert(false);
            } else if d == 1 {
                assert(files_token()[1] == '{');
                assert(filetree_token()[2] == 'f');
                assert(s[j + 1] == files_token()[1]);
                assert(s[i0 + 2] == filetree_token()[2]);
                assert(false);
            } else {
                assert(filetree_token()[d] != '{') by {
                    if d == 2 {
                        assert(filetree_token()[2] == 'f');
                    } else if d == 3 {
                        assert(filetree_token()[3] == 'i');
                    } else if d == 4 {
                        assert(filetree_token()[4] == 'l');
                    } else if d == 5 {
                        assert(filetree_token()[5] == 'e');
                    } else if d == 6 {
                        assert(filetree_token()[6] == 't');
                    } else if d == 7 {
                        assert(filetree_token()[7] == 'r');
                    } else if d == 8 {
                        assert(filetree_token()[8] == 'e');
                    } else if d == 9 {
                        assert(filetree_token()[9] == 'e');
                    } else if d == 10 {
                        assert(filetree_token()[10] == '}');
                    } else {
                        assert(filetree_token()[11] == '}');
                    }
                }
                assert(false);
            }
        } else {
            let d = i0 - j;
            assert(1 <= d < files_token().len());
            assert(files_token()[d] == filetree_token()[0]);
            assert(filetree_token()[0] == '{');
            if d == 1 {
                assert(files_token()[2] == 'f');
                assert(filetree_token()[1] == '{');
                assert(s[j + 2] == files_token()[2]);
                assert(s[i0 + 1] == filetree_token()[1]);
                assert(false);
            } else {
                assert(files_token()[d] != '{') by {
                    if d == 2 {
                        assert(files_token()[2] == 'f');
                    } else if d == 3 {
                        assert(files_token()[3] == 'i');
                    } else if d == 4 {
                        assert(files_token()[4] == 'l');
                    } else if d == 5 {
                        assert(files_token()[5] == 'e');
                    } else if d == 6 {
                        assert(files_token()[6] == 's');
                    } else if d == 7 {
                        assert(files_token()[7] == '}');
                    } else {
                        assert(files_token()[8] == '}');
                    }
                }
                assert(false);
            }
        }
    }
}

/// Substituting the tree text destroys no files placeholder: an occurrence
/// before the tree placeholder keeps its position, an occurrence after it
/// shifts by the substituted text's length, and — the placeholders never
/// overlapping — there is no third case.
pub proof fn lemma_files_survive_tree_substitution(pt: Seq<char>, tree: Seq<char>, j: int)
    requires
        occurs_at(pt, files_token(), j),
    ensures
        match spec_find(pt, filetree_token(), 0) {
            None => occurs_at(replace_first(pt, filetree_token(), tree), files_token(), j),
            Some(i0) => if j + files_token().len() <= i0 {
                occurs_at(replace_first(pt, filetree_token(), tree), files_token(), j)
            } else {
                occurs_at(
                    replace_first(pt, filetree_token(), tree),
                    files_token(),
                    j + tree.len() - filetree_token().len(),
                )
            },
        },
{
    let t1 = replace_first(pt, filetree_token(), tree);
    match spec_find(pt, filetree_token(), 0) {
        None => {
            assert(t1 == pt);
        },
        Some(i0) => {
            lemma_spec_find_some(pt, filetree_token(), 0, i0);
            lemma_replace_first_structure(pt, filetree_token(), tree, i0);
            lemma_prompt_tokens_disjoint(pt, i0, j);
            assert forall|k: int| 0 <= k < files_token().len()
                implies pt[j + k] == files_token()[k] by {
                assert(pt.subrange(j, j + files_token().len())[k] == pt[j + k]);
            }
            if j + files_token().len() <= i0 {
                assert forall|k: int| 0 <= k < files_token().len()
                    implies t1[j + k] == files_token()[k] by {
                    assert(t1.take(i0)[j + k] == t1[j + k]);
                    assert(pt.take(i0)[j + k] == pt[j + k]);
                }
                assert(t1.subrange(j, j + files_token().len()) =~= files_token());
            } else {
                let j2 = j + tree.len() - filetree_token().len();
                assert(j >= i0 + filetree_token().len());
                assert forall|k: int| 0 <= k < files_token().len()
                    implies t1[j2 + k] == files_token()[k] by {
                    let off = j2 + k - (i0 + tree.len());
                    assert(t1.skip(i0 + tree.len())[off] == t1[j2 + k]);
                    assert(pt.skip(i0 + filetree_token().len())[off] == pt[j + k]);
                }
                assert(t1.subrange(j2, j2 + files_token().len()) =~= files_token());
            }
        },
    }
}

/// A prompt template that holds the files placeholder twice has the later
/// occurrence still standing, literally, in the assembled prompt —
/// wherever the substituted tree text lands and whatever it contains.
pub proof fn lemma_prompt_files_twice(
    prompt_template: Seq<char>,
    tree_text: Seq<char>,
    blocks: Seq<char>,
    j1: int,
    j2: int,
)
    requires
        occurs_at(prompt_template, files_token(), j1),
        occurs_at(prompt_template, files_token(), j2),
        j1 + files_token().len() <= j2,
    ensures
        exists|m: int| occurs_at(
            prompt_of(prompt_template, tree_text, blocks),
            files_token(),
            m,
        ),
{
    let t1 = replace_first(prompt_template, filetree_token(), tree_text);
    lemma_files_survive_tree_substitution(prompt_template, tree_text, j1);
    lemma_files_survive_tree_substitution(prompt_template, tree_text, j2);
    let shift = tree_text.len() - filetree_token().len();
    let j1s: int = match spec_find(prompt_template, filetree_token(), 0) {
        None => j1,
        Some(i0) => if j1 + files_token().len() <= i0 {
            j1
        } else {
            j1 + shift
        },
    };
    let j2s: int = match spec_find(prompt_template, filetree_token(), 0) {
        None => j2,
        Some(i0) => if j2 + files_token().len() <= i0 {
            j2
        } else {
            j2 + shift
        },
    };
    assert(occurs_at(t1, files_token(), j1s));
    assert(occurs_at(t1, files_token(), j2s));
    match spec_find(prompt_template, filetree_token(), 0) {
        Some(i0) => {
            lemma_spec_find_some(prompt_template, filetree_token(), 0, i0);
            lemma_prompt_tokens_disjoint(prompt_template, i0, j1);
            lemma_prompt_tokens_disjoint(prompt_template, i0, j2);
        },
        None => {},
    }
    assert(j1s + files_token().len() <= j2s);
    lemma_find_finds(t1, files_token(), j1s);
    let i = spec_find(t1, files_token(), 0)->0;
    lemma_spec_find_some(t1, files_token(), 0, i);
    lemma_replace_first_structure(t1, files_token(), blocks, i);
    assert(occurs_at(
        prompt_of(prompt_template, tree_text, blocks),
        files_token(),
        j2s + blocks.len() - files_token().len(),
    ));
}

} // verus!
