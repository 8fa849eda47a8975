//! Deterministic directory listings: raw entries handed in by the caller
//! are filtered through the rule set and ordered — every directory before
//! every file, and within a kind by case-insensitive name.

use vstd::prelude::*;
use vstd::multiset::Multiset;
use crate::rules::RuleSet;
use crate::rules::is_excluded;
use crate::text::{lex_le, lowercase_of, to_lowercase_str, lex_le_str};
use crate::text::{lemma_lex_le_total, lemma_lex_le_trans};

verus! {

broadcast use {
    vstd::seq_lib::to_multiset_build,
    vstd::seq_lib::to_multiset_insert,
    vstd::seq_lib::to_multiset_contains,
};

/// What a listed entry is: a directory or a file.
#[derive(Clone, Copy, Debug, PartialEq, Eq, Structural)]
pub enum EntryKind {
    Directory,
    File,
}

/// A child of a directory as the filesystem reports it: its final name
/// component, its path, and whether it is a directory.
pub struct RawEntry {
    pub name: String,
    pub path: String,
    pub is_dir: bool,
}

/// A listed entry: its kind, its final name component, and its path.
pub struct PathEntry {
    pub kind: EntryKind,
    pub name: String,
    pub path: String,
}

/// The kind a raw entry is classified as.
pub open spec fn kind_of(is_dir: bool) -> EntryKind {
    if is_dir {
        EntryKind::Directory
    } else {
        EntryKind::File
    }
}

/// The listed entry a raw entry becomes.
pub open spec fn entry_of(e: RawEntry) -> PathEntry {
    PathEntry { kind: kind_of(e.is_dir), name: e.name, path: e.path }
}

/// Where a kind sorts: directories first.
pub open spec fn kind_rank(k: EntryKind) -> int {
    match k {
        EntryKind::Directory => 0,
        EntryKind::File => 1,
    }
}

/// The listing order: directories before files, and within a kind by
/// case-insensitive name, nondecreasing.
pub open spec fn entry_le(a: PathEntry, b: PathEntry) -> bool {
    ||| kind_rank(a.kind) < kind_rank(b.kind)
    ||| (kind_rank(a.kind) == kind_rank(b.kind) && lex_le(
        lowercase_of(a.name@),
        lowercase_of(b.name@),
    ))
}

/// A sequence is sorted in the listing order.
pub open spec fn sorted_entries(s: Seq<PathEntry>) -> bool {
    forall|p: int, q: int| 0 <= p < q < s.len() ==> entry_le(#[trigger] s[p], #[trigger] s[q])
}

/// The listing order is total.
pub proof fn lemma_entry_le_total(a: PathEntry, b: PathEntry)
    ensures
        entry_le(a, b) || entry_le(b, a),
{
    lemma_lex_le_total(lowercase_of(a.name@), lowercase_of(b.name@));
}

/// The listing order is transitive.
pub proof fn lemma_entry_le_trans(a: PathEntry, b: PathEntry, c: PathEntry)
    requires
        entry_le(a, b),
        entry_le(b, c),
    ensures
        entry_le(a, c),
{
    if kind_rank(a.kind) == kind_rank(b.kind) && kind_rank(b.kind) == kind_rank(c.kind) {
        lemma_lex_le_trans(
            lowercase_of(a.name@),
            lowercase_of(b.name@),
            lowercase_of(c.name@),
        );
    }
}

/// Decides the listing order between two entries.
fn entry_le_exec(a: &PathEntry, b: &PathEntry) -> (r: bool)
    ensures
        r == entry_le(*a, *b),
{
    let ra: u8 = match a.kind {
        EntryKind::Directory => 0,
        EntryKind::File => 1,
    };
    let rb: u8 = match b.kind {
        EntryKind::Directory => 0,
        EntryKind::File => 1,
    };
    if ra != rb {
        ra < rb
    } else {
        let la = to_lowercase_str(a.name.as_str());
        let lb = to_lowercase_str(b.name.as_str());
        lex_le_str(la.as_str(), lb.as_str())
    }
}

/// Where stable insertion puts a new entry: after every entry that sorts
/// no later than it, before the first that sorts strictly later.
pub open spec fn sorted_insert(s: Seq<PathEntry>, e: PathEntry) -> Seq<PathEntry>
    decreases s.len(),
{
    if s.len() == 0 {
        seq![e]
    } else if entry_le(s[0], e) {
        seq![s[0]] + sorted_insert(s.skip(1), e)
    } else {
        seq![e] + s
    }
}

/// The listing's sort: stable insertion, processing the input left to
/// right, so entries that tie — same kind, equal case-folded names — keep
/// their input order.
pub open spec fn sort_spec(s: Seq<PathEntry>) -> Seq<PathEntry>
    decreases s.len(),
{
    if s.len() == 0 {
        Seq::empty()
    } else {
        sorted_insert(sort_spec(s.drop_last()), s.last())
    }
}

/// Characterizes stable insertion by its position: walking past exactly
/// the entries that sort no later than the new one lands where
/// `sorted_insert` puts it.
pub proof fn lemma_sorted_insert_at(s: Seq<PathEntry>, e: PathEntry, p: int)
    requires
        0 <= p <= s.len(),
        forall|j: int| 0 <= j < p ==> entry_le(#[trigger] s[j], e),
        p < s.len() ==> !entry_le(s[p], e),
    ensures
        sorted_insert(s, e) == s.insert(p, e),
    decreases s.len(),
{
    if s.len() == 0 {
        assert(sorted_insert(s, e) =~= s.insert(0, e));
    } else if entry_le(s[0], e) {
        assert(p >= 1);
        assert(forall|j: int| 0 <= j < p - 1 ==> #[trigger] s.skip(1)[j] == s[j + 1]);
        if p - 1 < s.skip(1).len() {
            assert(s.skip(1)[p - 1] == s[p as int]);
        }
        lemma_sorted_insert_at(s.skip(1), e, p - 1);
        assert(seq![s[0]] + s.skip(1).insert(p - 1, e) =~= s.insert(p, e));
    } else {
        assert(p == 0);
        assert(seq![e] + s =~= s.insert(0, e));
    }
}

/// Sorts entries in the listing order, keeping exactly the same entries;
/// the result is precisely the stable insertion sort of the input, so the
/// order among entries that tie is the input's own.
fn sort_entries(entries: Vec<PathEntry>) -> (r: Vec<PathEntry>)
    ensures
        sorted_entries(r@),
        r@.to_multiset() == entries@.to_multiset(),
        r@ == sort_spec(entries@),
{
    let ghost orig = entries@;
    let mut rest = entries;
    let mut out: Vec<PathEntry> = Vec::new();
    proof {
        assert(out@.to_multiset().add(rest@.to_multiset())
            =~= entries@.to_multiset());
        assert(orig.skip(0) =~= orig);
        assert(out@ =~= sort_spec(orig.take(0)));
    }
    while rest.len() > 0
        invariant
            sorted_entries(out@),
            out@.to_multiset().add(rest@.to_multiset()) == entries@.to_multiset(),
            orig == entries@,
            out@.len() + rest@.len() == orig.len(),
            rest@ == orig.skip(out@.len() as int),
            out@ == sort_spec(orig.take(out@.len() as int)),
        decreases rest@.len(),
    {
        let ghost rest0 = rest@;
        let ghost n = out@.len() as int;
        let e = rest.remove(0);
        proof {
            assert(e == orig[n]);
            assert(rest0 =~= rest@.insert(0, e));
            assert(rest0.to_multiset() == rest@.to_multiset().insert(e));
            assert(rest@ =~= orig.skip(n + 1));
        }
        let mut p: usize = 0;
        while p < out.len() && entry_le_exec(&out[p], &e)
            invariant
                0 <= p <= out@.len(),
                forall|j: int| 0 <= j < p ==> entry_le(#[trigger] out@[j], e),
            decreases out@.len() - p,
        {
            p = p + 1;
        }
        proof {
            if p < out@.len() {
                lemma_entry_le_total(out@[p as int], e);
            }
            assert(p < out@.len() ==> entry_le(e, out@[p as int]));
        }
        let ghost out0 = out@;
        out.insert(p, e);
        proof {
            assert(out@ =~= out0.insert(p as int, e));
            assert forall|u: int, v: int| 0 <= u < v < out@.len()
                implies entry_le(#[trigger] out@[u], #[trigger] out@[v]) by {
                if u < p && v == p {
                } else if u == p && v > p {
                    assert(out@[v] == out0[v - 1]);
                    assert(entry_le(e, out0[p as int]));
                    if v - 1 > p {
                        assert(entry_le(out0[p as int], out0[v - 1]));
                        lemma_entry_le_trans(e, out0[p as int], out0[v - 1]);
                    }
                } else if u < p && v > p {
                    assert(out@[u] == out0[u]);
                    assert(out@[v] == out0[v - 1]);
                } else if u > p && v > p {
                    assert(out@[u] == out0[u - 1]);
                    assert(out@[v] == out0[v - 1]);
                }
            }
            assert(out@.to_multiset() == out0.to_multiset().insert(e));
            assert(out@.to_multiset().add(rest@.to_multiset())
                =~= entries@.to_multiset());
            lemma_sorted_insert_at(out0, e, p as int);
            assert(orig.take(n + 1).drop_last() =~= orig.take(n));
            assert(orig.take(n + 1).last() == e);
            assert(out@ == sort_spec(orig.take(n + 1)));
        }
    }
    proof {
        assert(rest@.to_multiset() =~= Multiset::<PathEntry>::empty());
        assert(out@.to_multiset().add(Multiset::<PathEntry>::empty())
            =~= out@.to_multiset());
        assert(orig.take(out@.len() as int) =~= orig);
    }
    out
}

/// The entries a listing keeps, in raw order: each raw entry the rule set
/// does not exclude, classified by its directory flag.
pub open spec fn kept_of(entries: Seq<RawEntry>, rules: RuleSet) -> Seq<PathEntry>
    decreases entries.len(),
{
    if entries.len() == 0 {
        Seq::empty()
    } else {
        kept_of(entries.drop_last(), rules) + (if rules.excludes(
            entries.last().path@,
            entries.last().is_dir,
        ) {
            Seq::<PathEntry>::empty()
        } else {
            seq![entry_of(entries.last())]
        })
    }
}

/// Produces the listing of a directory from its raw children: every entry
/// some rule level excludes is left out, and the rest are ordered with
/// every directory before every file and, within a kind, by
/// case-insensitive name; entries that tie keep their input order, so the
/// listing is exactly the stable sort of the kept entries.
pub fn fetch_directory_children(entries: Vec<RawEntry>, rules: &RuleSet) -> (r: Vec<
    PathEntry>)
    ensures
        sorted_entries(r@),
        r@.to_multiset() == kept_of(entries@, *rules).to_multiset(),
        r@ == sort_spec(kept_of(entries@, *rules)),
{
    let ghost orig = entries@;
    let mut rest = entries;
    let mut out: Vec<PathEntry> = Vec::new();
    let ghost done: Seq<RawEntry> = Seq::empty();
    proof {
        assert(done + rest@ =~= orig);
        assert(out@ =~= kept_of(done, *rules));
    }
    let mut done_spec = Ghost(done);
    while rest.len() > 0
        invariant
            done_spec@ + rest@ == orig,
            out@ == kept_of(done_spec@, *rules),
        decreases rest@.len(),
    {
        let e = rest.remove(0);
        let ghost done1 = done_spec@.push(e);
        proof {
            assert(done1.drop_last() =~= done_spec@);
            assert(done1.last() == e);
        }
        if !is_excluded(rules, e.path.as_str(), e.is_dir) {
            let kind = if e.is_dir {
                EntryKind::Directory
            } else {
                EntryKind::File
            };
            out.push(PathEntry { kind, name: e.name, path: e.path });
            proof {
                assert(out@ =~= kept_of(done1, *rules));
            }
        } else {
            proof {
                assert(out@ + Seq::<PathEntry>::empty() =~= out@);
                assert(out@ =~= kept_of(done1, *rules));
            }
        }
        proof {
            assert(done1 + rest@ =~= orig);
        }
        done_spec = Ghost(done1);
    }
    proof {
        assert(done_spec@ =~= orig);
    }
    sort_entries(out)
}

/// What the listing order says entry by entry: no file ever precedes a
/// directory, and two entries of one kind stand in nondecreasing
/// case-insensitive name order.
pub proof fn lemma_listing_order(s: Seq<PathEntry>, p: int, q: int)
    requires
        sorted_entries(s),
        0 <= p < q < s.len(),
    ensures
        s[q].kind == EntryKind::Directory ==> s[p].kind == EntryKind::Directory,
        s[p].kind == s[q].kind ==> lex_le(
            lowercase_of(s[p].name@),
            lowercase_of(s[q].name@),
        ),
{
    assert(entry_le(s[p], s[q]));
}

/// Every kept entry stems from a raw entry that no rule level excludes.
pub proof fn lemma_kept_of_sources(entries: Seq<RawEntry>, rules: RuleSet)
    ensures
        forall|j: int| 0 <= j < kept_of(entries, rules).len()
            ==> exists|i: int| 0 <= i < entries.len()
                && #[trigger] kept_of(entries, rules)[j] == entry_of(entries[i])
                && !rules.excludes(entries[i].path@, entries[i].is_dir),
    decreases entries.len(),
{
    if entries.len() > 0 {
        lemma_kept_of_sources(entries.drop_last(), rules);
        let prefix = kept_of(entries.drop_last(), rules);
        assert forall|j: int| 0 <= j < kept_of(entries, rules).len()
            implies exists|i: int| 0 <= i < entries.len()
                && #[trigger] kept_of(entries, rules)[j] == entry_of(entries[i])
                && !rules.excludes(entries[i].path@, entries[i].is_dir) by {
            if j < prefix.len() {
                assert(kept_of(entries, rules)[j] == prefix[j]);
                let i = choose|i: int| 0 <= i < entries.drop_last().len()
                    && prefix[j] == entry_of(entries.drop_last()[i])
                    && !rules.excludes(
                        entries.drop_last()[i].path@,
                        entries.drop_last()[i].is_dir,
                    );
                assert(entries.drop_last()[i] == entries[i]);
                assert(0 <= i < entries.len()
                    && kept_of(entries, rules)[j] == entry_of(entries[i])
                    && !rules.excludes(entries[i].path@, entries[i].is_dir));
            } else {
                let i = entries.len() - 1;
                assert(entries.last() == entries[i]);
                assert(!rules.excludes(entries[i].path@, entries[i].is_dir));
                assert(kept_of(entries, rules)[j] == entry_of(entries[i]));
            }
        }
    }
}

/// A rule match at any one level is final for the listing: an entry some
/// level matches appears in no listing built over those rules, whatever
/// unrelated rule files the other levels hold.
pub proof fn lemma_matched_entry_left_out(
    entries: Seq<RawEntry>,
    rules: RuleSet,
    out: Seq<PathEntry>,
    k: int,
    target: RawEntry,
)
    requires
        out.to_multiset() == kept_of(entries, rules).to_multiset(),
        0 <= k < rules.levels@.len(),
        rules.levels@[k].blocks(target.path@, target.is_dir),
    ensures
        forall|j: int| 0 <= j < out.len()
            ==> !((#[trigger] out[j]).path@ == target.path@
                && out[j].kind == kind_of(target.is_dir)),
{
    lemma_kept_of_sources(entries, rules);
    let kept = kept_of(entries, rules);
    assert forall|j: int| 0 <= j < out.len()
        implies !((#[trigger] out[j]).path@ == target.path@
            && out[j].kind == kind_of(target.is_dir)) by {
        if out[j].path@ == target.path@ && out[j].kind == kind_of(target.is_dir) {
            assert(out.contains(out[j]));
            assert(out.to_multiset().contains(out[j]));
            assert(kept.to_multiset().contains(out[j]));
            assert(kept.contains(out[j]));
            let jj = choose|jj: int| 0 <= jj < kept.len() && kept[jj] == out[j];
            let i = choose|i: int| 0 <= i < entries.len()
                && kept[jj] == entry_of(entries[i])
                && !rules.excludes(entries[i].path@, entries[i].is_dir);
            assert(kind_of(entries[i].is_dir) == kind_of(target.is_dir));
            assert(entries[i].is_dir == target.is_dir);
            assert(entries[i].path@ == target.path@);
            assert(rules.levels@[k].blocks(entries[i].path@, entries[i].is_dir));
            assert(rules.excludes(entries[i].path@, entries[i].is_dir));
            assert(false);
        }
    }
}

/// `x` is a subsequence of `y`: `x`'s entries appear in `y`, in order.
pub open spec fn subsequence_of(x: Seq<PathEntry>, y: Seq<PathEntry>) -> bool
    decreases y.len(),
{
    if x.len() == 0 {
        true
    } else if y.len() == 0 {
        false
    } else {
        (x[0] == y[0] && subsequence_of(x.skip(1), y.skip(1)))
            || subsequence_of(x, y.skip(1))
    }
}

/// Inserting an entry anywhere into the longer side keeps a subsequence.
pub proof fn lemma_subsequence_insert_right(x: Seq<PathEntry>, y: Seq<PathEntry>, p: int, e: PathEntry)
    requires
        subsequence_of(x, y),
        0 <= p <= y.len(),
    ensures
        subsequence_of(x, y.insert(p, e)),
    decreases y.len(),
{
    let y2 = y.insert(p, e);
    if x.len() == 0 {
    } else if p == 0 {
        assert(y2.skip(1) =~= y);
        assert(subsequence_of(x, y2.skip(1)));
    } else {
        assert(y.len() > 0);
        assert(y2[0] == y[0]);
        assert(y2.skip(1) =~= y.skip(1).insert(p - 1, e));
        if x[0] == y[0] && subsequence_of(x.skip(1), y.skip(1)) {
            lemma_subsequence_insert_right(x.skip(1), y.skip(1), p - 1, e);
        } else {
            lemma_subsequence_insert_right(x, y.skip(1), p - 1, e);
        }
    }
}

/// A single entry is a subsequence of any sequence it was inserted into.
pub proof fn lemma_subsequence_singleton(y: Seq<PathEntry>, p: int, e: PathEntry)
    requires
        0 <= p <= y.len(),
    ensures
        subsequence_of(seq![e], y.insert(p, e)),
    decreases y.len(),
{
    let y2 = y.insert(p, e);
    assert(seq![e].len() == 1);
    assert(seq![e][0] == e);
    if p == 0 {
        assert(y2[0] == e);
        assert(seq![e].skip(1).len() == 0);
        assert(subsequence_of(seq![e].skip(1), y2.skip(1)));
        assert(subsequence_of(seq![e], y2));
    } else {
        assert(y2.len() > 0);
        assert(y2.skip(1) =~= y.skip(1).insert(p - 1, e));
        lemma_subsequence_singleton(y.skip(1), p - 1, e);
        assert(subsequence_of(seq![e], y2.skip(1)));
        assert(subsequence_of(seq![e], y2));
    }
}

/// Appending the same entry to both sides keeps a subsequence.
pub proof fn lemma_subsequence_push_both(x: Seq<PathEntry>, y: Seq<PathEntry>, e: PathEntry)
    requires
        subsequence_of(x, y),
    ensures
        subsequence_of(x.push(e), y.push(e)),
    decreases y.len(),
{
    if x.len() == 0 {
        assert(y.push(e) =~= y.insert(y.len() as int, e));
        lemma_subsequence_singleton(y, y.len() as int, e);
        assert(x.push(e) =~= seq![e]);
    } else {
        assert(y.len() > 0);
        assert(x.push(e)[0] == x[0]);
        assert(y.push(e)[0] == y[0]);
        assert(x.push(e).skip(1) =~= x.skip(1).push(e));
        assert(y.push(e).skip(1) =~= y.skip(1).push(e));
        if x[0] == y[0] && subsequence_of(x.skip(1), y.skip(1)) {
            lemma_subsequence_push_both(x.skip(1), y.skip(1), e);
        } else {
            lemma_subsequence_push_both(x, y.skip(1), e);
        }
    }
}

/// The head of a subsequence occurs in the longer side.
pub proof fn lemma_subsequence_head_member(x: Seq<PathEntry>, y: Seq<PathEntry>)
    requires
        subsequence_of(x, y),
        x.len() > 0,
    ensures
        exists|k: int| 0 <= k < y.len() && y[k] == x[0],
    decreases y.len(),
{
    if x[0] == y[0] && subsequence_of(x.skip(1), y.skip(1)) {
        assert(y[0] == x[0]);
    } else {
        lemma_subsequence_head_member(x, y.skip(1));
        let k = choose|k: int| 0 <= k < y.skip(1).len() && y.skip(1)[k] == x[0];
        assert(y[k + 1] == x[0]);
    }
}

/// Reading a subsequence off the back: the longer side's last entry is
/// either unused, or it is the shorter side's last entry too.
pub proof fn lemma_subsequence_unsnoc(x: Seq<PathEntry>, y: Seq<PathEntry>)
    requires
        subsequence_of(x, y),
        y.len() > 0,
    ensures
        subsequence_of(x, y.drop_last()) || (x.len() > 0 && x.last() == y.last()
            && subsequence_of(x.drop_last(), y.drop_last())),
    decreases y.len(),
{
    if x.len() == 0 {
    } else if y.len() == 1 {
        if x[0] == y[0] && subsequence_of(x.skip(1), y.skip(1)) {
            assert(x.skip(1).len() == 0);
            assert(x.len() == 1);
            assert(x.last() == y.last());
        } else {
            assert(subsequence_of(x, y.skip(1)));
            assert(y.skip(1).len() == 0);
            assert(false);
        }
    } else {
        assert(y.skip(1).drop_last() =~= y.drop_last().skip(1));
        if x[0] == y[0] && subsequence_of(x.skip(1), y.skip(1)) {
            lemma_subsequence_unsnoc(x.skip(1), y.skip(1));
            if subsequence_of(x.skip(1), y.skip(1).drop_last()) {
                assert(y.drop_last()[0] == y[0]);
                assert(subsequence_of(x, y.drop_last()));
            } else {
                assert(x.skip(1).len() > 0);
                assert(x.last() == x.skip(1).last());
                assert(y.last() == y.skip(1).last());
                assert(x.drop_last().len() > 0);
                assert(x.drop_last()[0] == x[0]);
                assert(x.drop_last().skip(1) =~= x.skip(1).drop_last());
                assert(subsequence_of(x.drop_last(), y.drop_last()));
            }
        } else {
            lemma_subsequence_unsnoc(x, y.skip(1));
            if subsequence_of(x, y.skip(1).drop_last()) {
                assert(subsequence_of(x, y.drop_last()));
            } else {
                assert(x.last() == y.skip(1).last());
                assert(y.last() == y.skip(1).last());
                assert(subsequence_of(x.drop_last(), y.skip(1).drop_last()));
                assert(subsequence_of(x.drop_last(), y.drop_last()));
            }
        }
    }
}

/// Where stable insertion lands: the count of leading entries that sort no
/// later than the new one.
pub open spec fn stable_pos(t: Seq<PathEntry>, e: PathEntry) -> int
    decreases t.len(),
{
    if t.len() == 0 {
        0
    } else if entry_le(t[0], e) {
        1 + stable_pos(t.skip(1), e)
    } else {
        0
    }
}

/// Everything `stable_pos` guarantees of itself, and that `sorted_insert`
/// is an insertion at that position.
pub proof fn lemma_stable_pos_props(t: Seq<PathEntry>, e: PathEntry)
    ensures
        0 <= stable_pos(t, e) <= t.len(),
        forall|j: int| 0 <= j < stable_pos(t, e) ==> entry_le(#[trigger] t[j], e),
        stable_pos(t, e) < t.len() ==> !entry_le(t[stable_pos(t, e)], e),
        sorted_insert(t, e) == t.insert(stable_pos(t, e), e),
    decreases t.len(),
{
    if t.len() != 0 && entry_le(t[0], e) {
        lemma_stable_pos_props(t.skip(1), e);
        let p = stable_pos(t, e);
        assert forall|j: int| 0 <= j < p implies entry_le(#[trigger] t[j], e) by {
            if j > 0 {
                assert(t.skip(1)[j - 1] == t[j]);
            }
        }
        if p < t.len() {
            assert(t.skip(1)[p - 1] == t[p]);
        }
        lemma_sorted_insert_at(t, e, p);
    } else {
        lemma_sorted_insert_at(t, e, stable_pos(t, e));
    }
}

/// Stable insertion into a sorted sequence stays sorted.
pub proof fn lemma_sorted_insert_sorted(t: Seq<PathEntry>, e: PathEntry)
    requires
        sorted_entries(t),
    ensures
        sorted_entries(sorted_insert(t, e)),
{
    lemma_stable_pos_props(t, e);
    let p = stable_pos(t, e);
    let t2 = sorted_insert(t, e);
    assert(t2 =~= t.insert(p, e));
    assert forall|u: int, v: int| 0 <= u < v < t2.len()
        implies entry_le(#[trigger] t2[u], #[trigger] t2[v]) by {
        if u < p && v == p {
            assert(t2[u] == t[u]);
        } else if u == p && v > p {
            assert(t2[v] == t[v - 1]);
            if p < t.len() {
                lemma_entry_le_total(t[p], e);
                if v - 1 > p {
                    lemma_entry_le_trans(e, t[p], t[v - 1]);
                }
            } else {
                assert(false);
            }
        } else if u < p && v > p {
            assert(t2[u] == t[u]);
            assert(t2[v] == t[v - 1]);
        } else if u > p && v > p {
            assert(t2[u] == t[u - 1]);
            assert(t2[v] == t[v - 1]);
        }
    }
}

/// The stable sort yields a sorted sequence.
pub proof fn lemma_sort_spec_sorted(s: Seq<PathEntry>)
    ensures
        sorted_entries(sort_spec(s)),
    decreases s.len(),
{
    if s.len() > 0 {
        lemma_sort_spec_sorted(s.drop_last());
        lemma_sorted_insert_sorted(sort_spec(s.drop_last()), s.last());
    }
}

/// A sorted sequence whose head already sorts strictly after `e` holds no
/// entry that sorts no later than `e`.
proof fn lemma_sorted_all_after(t: Seq<PathEntry>, e: PathEntry)
    requires
        sorted_entries(t),
        t.len() > 0,
        !entry_le(t[0], e),
    ensures
        forall|k: int| 0 <= k < t.len() ==> !entry_le(#[trigger] t[k], e),
{
    assert forall|k: int| 0 <= k < t.len() implies !entry_le(#[trigger] t[k], e) by {
        if k > 0 && entry_le(t[k], e) {
            assert(entry_le(t[0], t[k]));
            lemma_entry_le_trans(t[0], t[k], e);
        }
    }
}

/// Stable insertion of one entry into both sides of a subsequence keeps
/// the subsequence, when the longer side is sorted.
pub proof fn lemma_sorted_insert_monotone(s: Seq<PathEntry>, t: Seq<PathEntry>, e: PathEntry)
    requires
        subsequence_of(s, t),
        sorted_entries(t),
    ensures
        subsequence_of(sorted_insert(s, e), sorted_insert(t, e)),
    decreases t.len(),
{
    if s.len() == 0 {
        lemma_stable_pos_props(t, e);
        lemma_subsequence_singleton(t, stable_pos(t, e), e);
        assert(sorted_insert(s, e) =~= seq![e]);
    } else {
        assert(t.len() > 0);
        assert(sorted_entries(t.skip(1))) by {
            assert(forall|u: int, v: int| 0 <= u < v < t.skip(1).len()
                ==> #[trigger] t.skip(1)[u] == t[u + 1] && #[trigger] t.skip(1)[v] == t[v + 1]);
        }
        if s[0] == t[0] && subsequence_of(s.skip(1), t.skip(1)) {
            if entry_le(t[0], e) {
                lemma_sorted_insert_monotone(s.skip(1), t.skip(1), e);
                assert(sorted_insert(s, e) =~= seq![s[0]] + sorted_insert(s.skip(1), e));
                assert(sorted_insert(t, e) =~= seq![t[0]] + sorted_insert(t.skip(1), e));
                assert(sorted_insert(s, e)[0] == sorted_insert(t, e)[0]);
                assert(sorted_insert(s, e).skip(1) =~= sorted_insert(s.skip(1), e));
                assert(sorted_insert(t, e).skip(1) =~= sorted_insert(t.skip(1), e));
            } else {
                assert(sorted_insert(s, e) =~= seq![e] + s);
                assert(sorted_insert(t, e) =~= seq![e] + t);
                assert(sorted_insert(s, e)[0] == sorted_insert(t, e)[0]);
                assert(sorted_insert(s, e).skip(1) =~= s);
                assert(sorted_insert(t, e).skip(1) =~= t);
            }
        } else {
            assert(subsequence_of(s, t.skip(1)));
            if entry_le(t[0], e) {
                lemma_sorted_insert_monotone(s, t.skip(1), e);
                assert(sorted_insert(t, e) =~= seq![t[0]] + sorted_insert(t.skip(1), e));
                assert(sorted_insert(t, e).skip(1) =~= sorted_insert(t.skip(1), e));
            } else {
                lemma_sorted_all_after(t, e);
                lemma_subsequence_head_member(s, t);
                let k = choose|k: int| 0 <= k < t.len() && t[k] == s[0];
                assert(!entry_le(s[0], e));
                assert(sorted_insert(s, e) =~= seq![e] + s);
                assert(sorted_insert(t, e) =~= seq![e] + t);
                assert(sorted_insert(s, e)[0] == sorted_insert(t, e)[0]);
                assert(sorted_insert(s, e).skip(1) =~= s);
                assert(sorted_insert(t, e).skip(1) =~= t);
            }
        }
    }
}

/// The stable sort carries subsequences over: what was a subsequence of
/// the input is, sorted, a subsequence of the sorted input.
pub proof fn lemma_sort_spec_monotone(x: Seq<PathEntry>, y: Seq<PathEntry>)
    requires
        subsequence_of(x, y),
    ensures
        subsequence_of(sort_spec(x), sort_spec(y)),
    decreases y.len(),
{
    if y.len() == 0 {
        assert(x.len() == 0);
    } else {
        lemma_subsequence_unsnoc(x, y);
        lemma_sort_spec_sorted(y.drop_last());
        if x.len() > 0 && x.last() == y.last() && subsequence_of(x.drop_last(), y.drop_last()) {
            lemma_sort_spec_monotone(x.drop_last(), y.drop_last());
            lemma_sorted_insert_monotone(
                sort_spec(x.drop_last()),
                sort_spec(y.drop_last()),
                y.last(),
            );
        } else {
            assert(subsequence_of(x, y.drop_last()));
            lemma_sort_spec_monotone(x, y.drop_last());
            lemma_stable_pos_props(sort_spec(y.drop_last()), y.last());
            lemma_subsequence_insert_right(
                sort_spec(x),
                sort_spec(y.drop_last()),
                stable_pos(sort_spec(y.drop_last()), y.last()),
                y.last(),
            );
        }
    }
}

/// Keeping fewer entries keeps a subsequence: under rules that exclude at
/// least as much, the kept entries are a subsequence of the kept entries
/// under the weaker rules.
pub proof fn lemma_kept_of_monotone(entries: Seq<RawEntry>, weak: RuleSet, strong: RuleSet)
    requires
        forall|p: Seq<char>, d: bool| weak.excludes(p, d) ==> strong.excludes(p, d),
    ensures
        subsequence_of(kept_of(entries, strong), kept_of(entries, weak)),
    decreases entries.len(),
{
    if entries.len() > 0 {
        lemma_kept_of_monotone(entries.drop_last(), weak, strong);
        let e = entries.last();
        let ks = kept_of(entries.drop_last(), strong);
        let kw = kept_of(entries.drop_last(), weak);
        if strong.excludes(e.path@, e.is_dir) {
            if weak.excludes(e.path@, e.is_dir) {
                assert(kept_of(entries, strong) =~= ks);
                assert(kept_of(entries, weak) =~= kw);
            } else {
                assert(kept_of(entries, strong) =~= ks);
                assert(kept_of(entries, weak) =~= kw.insert(kw.len() as int, entry_of(e)));
                lemma_subsequence_insert_right(ks, kw, kw.len() as int, entry_of(e));
            }
        } else {
            assert(!weak.excludes(e.path@, e.is_dir));
            assert(kept_of(entries, strong) =~= ks.push(entry_of(e)));
            assert(kept_of(entries, weak) =~= kw.push(entry_of(e)));
            lemma_subsequence_push_both(ks, kw, entry_of(e));
        }
    }
}

/// Strengthening the rules can only thin the listing, and in place: under
/// rule levels that match a superset of what weaker levels match, the
/// listing is a subsequence of the listing under the weaker rules — a
/// match at any level is final and nothing re-includes an entry.
pub proof fn lemma_stronger_rules_thin_listing(
    entries: Seq<RawEntry>,
    weak: RuleSet,
    strong: RuleSet,
)
    requires
        forall|p: Seq<char>, d: bool| weak.excludes(p, d) ==> strong.excludes(p, d),
    ensures
        subsequence_of(
            sort_spec(kept_of(entries, strong)),
            sort_spec(kept_of(entries, weak)),
        ),
{
    lemma_kept_of_monotone(entries, weak, strong);
    lemma_sort_spec_monotone(kept_of(entries, strong), kept_of(entries, weak));
}

} // verus!
