//! Per-file metrics: byte size, line count and token count. The caller
//! reads sizes and file texts (a file that cannot be read as text is
//! handed in without a text) and may measure the files in any order or
//! concurrently; each record here is computed from one file's values
//! alone. Token counting comes from the tiktoken ranks behind the trusted
//! item below.

use vstd::prelude::*;
use crate::text::{lines_of, count_lines};

verus! {

/// What was measured of one file. When the validity flag is cleared the
/// counts are zero by construction, so a caller tells an empty valid file
/// from an unreadable one only by the flag.
pub struct FileMetrics {
    pub size: u64,
    pub line_count: usize,
    pub token_count: usize,
    pub file_path: String,
    pub is_valid: bool,
}

/// The number of tokens the o200k byte-pair encoding yields on a text.
pub uninterp spec fn o200k_token_count(s: Seq<char>) -> nat;

/// Whether the o200k tokenizer measures a text. Building the encoder
/// parses fixed embedded data and the one failure left is the splitting
/// engine's deterministic limit, so success is a function of the text
/// alone.
pub uninterp spec fn o200k_measurable(s: Seq<char>) -> bool;

/// Relies on tiktoken_rs's `o200k_base` and `CoreBPE::encode`: the token
/// count of a text under the o200k encoding, a function of the text alone
/// (the ranks are fixed embedded data and every special token is allowed),
/// measured exactly when `o200k_measurable` says so.
#[verifier::external_body]
fn count_o200k_tokens(content: &str) -> (r: Option<usize>)
    ensures
        r is Some == o200k_measurable(content@),
        r matches Some(n) ==> n as nat == o200k_token_count(content@),
{
    match tiktoken_rs::o200k_base() {
        Ok(bpe) => {
            let specials = bpe.special_tokens();
            match bpe.encode(content, &specials) {
                Ok((tokens, _)) => Some(tokens.len()),
                Err(_) => None,
            }
        },
        Err(_) => None,
    }
}

/// A metrics record agrees with the file it was measured from: the path
/// and size are carried over; a file with a text is valid with its line
/// and token counts, a file without one is invalid with zero counts.
pub open spec fn metrics_match(m: FileMetrics, path: Seq<char>, size: u64, content: Option<
    Seq<char>>) -> bool {
    &&& m.file_path@ == path
    &&& m.size == size
    &&& match content {
        Some(c) => m.is_valid && m.line_count == lines_of(c).len() && m.token_count
            as nat == o200k_token_count(c),
        None => !m.is_valid && m.line_count == 0 && m.token_count == 0,
    }
}

/// Builds the metrics record for one file from its size and its text. A
/// file whose text could not be read still yields a record — counts zero,
/// validity cleared — and never fails. The one failure is the tokenizer
/// itself: exactly a text the tokenizer cannot measure is reported as an
/// error rather than given a made-up count.
pub fn compute_file_metrics(path: String, size: u64, content: Option<&str>) -> (r: Result<
    FileMetrics,
    String,
>)
    ensures
        r matches Ok(m) ==> metrics_match(
            m,
            path@,
            size,
            match content {
                Some(c) => Some(c@),
                None => None,
            },
        ),
        r is Err <==> (content matches Some(c) && !o200k_measurable(c@)),
{
    match content {
        Some(c) => {
            let line_count = count_lines(c);
            match count_o200k_tokens(c) {
                Some(token_count) => Ok(
                    FileMetrics {
                        size,
                        line_count,
                        token_count,
                        file_path: path,
                        is_valid: true,
                    },
                ),
                None => Err(String::from_str("failed to tokenize file content")),
            }
        },
        None => Ok(
            FileMetrics {
                size,
                line_count: 0,
                token_count: 0,
                file_path: path,
                is_valid: false,
            },
        ),
    }
}

/// The metrics of a batch: one record per input, in input order, each
/// computed from its own file's values alone. The batch succeeds exactly
/// when the tokenizer measures every text handed in — in particular a
/// batch whose files all lack a text cannot fail — and the first failure
/// fails it.
pub fn collect_file_metrics(inputs: Vec<(String, u64, Option<String>)>) -> (r: Result<
    Vec<FileMetrics>,
    String,
>)
    ensures
        match r {
            Ok(ms) => {
                &&& ms@.len() == inputs@.len()
                &&& forall|i: int| 0 <= i < inputs@.len() ==> metrics_match(
                    #[trigger] ms@[i],
                    inputs@[i].0@,
                    inputs@[i].1,
                    match inputs@[i].2 {
                        Some(c) => Some(c@),
                        None => None,
                    },
                )
            },
            Err(_) => exists|i: int| 0 <= i < inputs@.len()
                && ((#[trigger] inputs@[i].2) matches Some(c) && !o200k_measurable(c@)),
        },
        r is Ok <==> (forall|i: int| 0 <= i < inputs@.len()
            ==> ((#[trigger] inputs@[i].2) matches Some(c) ==> o200k_measurable(c@))),
{
    let mut out: Vec<FileMetrics> = Vec::new();
    let mut k: usize = 0;
    while k < inputs.len()
        invariant
            0 <= k <= inputs@.len(),
            out@.len() == k,
            forall|i: int| 0 <= i < k ==> metrics_match(
                #[trigger] out@[i],
                inputs@[i].0@,
                inputs@[i].1,
                match inputs@[i].2 {
                    Some(c) => Some(c@),
                    None => None,
                },
            ),
            forall|i: int| 0 <= i < k
                ==> ((#[trigger] inputs@[i].2) matches Some(c) ==> o200k_measurable(c@)),
        decreases inputs@.len() - k,
    {
        let entry = &inputs[k];
        let record = match &entry.2 {
            Some(c) => compute_file_metrics(entry.0.clone(), entry.1, Some(c.as_str())),
            None => compute_file_metrics(entry.0.clone(), entry.1, None),
        };
        match record {
            Ok(m) => {
                out.push(m);
            },
            Err(e) => {
                proof {
                    assert(inputs@[k as int].2 matches Some(c) && !o200k_measurable(c@));
                }
                return Err(e);
            },
        }
        k = k + 1;
    }
    Ok(out)
}

} // verus!
