use vstd::prelude::*;
use crate::expand::{get_all_repeated_sentences, group_records, repeated_inv};
use crate::mining::{get_repeated_min_words, group_phrases, group_view, occurrences, string_views, Value};

verus! {

/// A report row as mathematics sees it: the phrase and its encounter ids.
pub type Row = (Seq<char>, Seq<Seq<char>>);

pub open spec fn row_view(e: (String, Vec<String>)) -> Row {
    (e.0@, string_views(e.1@))
}

pub open spec fn rows_view(v: Seq<(String, Vec<String>)>) -> Seq<Row> {
    v.map_values(|e: (String, Vec<String>)| row_view(e))
}

/// `p` occurs in `q` as a contiguous run.
pub open spec fn is_substring(p: Seq<char>, q: Seq<char>) -> bool {
    exists|k: int| 0 <= k && k + p.len() <= q.len() && #[trigger] q.subrange(k, k + p.len()) == p
}

/// Row `q` makes row `p` redundant: another phrase that holds `p`'s phrase
/// and was recorded at least as often.
pub open spec fn subsumes(q: Row, p: Row) -> bool {
    &&& q.0 != p.0
    &&& q.1.len() >= p.1.len()
    &&& is_substring(p.0, q.0)
}

/// Some row of `rows` makes `p` redundant.
pub open spec fn subsumed(rows: Seq<Row>, p: Row) -> bool {
    exists|j: int| 0 <= j < rows.len() && subsumes(#[trigger] rows[j], p)
}

/// The rows of `rows` that no row of `rows` makes redundant, in order.
pub open spec fn maximal_rows(rows: Seq<Row>) -> Seq<Row> {
    rows.filter(kept_by(rows))
}

/// Whether a row was recorded at least twice.
pub open spec fn has_repeats() -> spec_fn(Row) -> bool {
    |p: Row| p.1.len() >= 2
}

/// What the reducer keeps of `rows`: the rows recorded at least twice that no
/// other such row makes redundant, in order.
pub open spec fn reduced_rows(rows: Seq<Row>) -> Seq<Row> {
    maximal_rows(rows.filter(has_repeats()))
}

/// No two rows share a phrase.
pub open spec fn distinct_phrases(rows: Seq<Row>) -> bool {
    forall|a: int, b: int| 0 <= a < b < rows.len() ==> rows[a].0 != rows[b].0
}

/// Whether a row stays beside the rows `rows`.
pub open spec fn kept_by(rows: Seq<Row>) -> spec_fn(Row) -> bool {
    |p: Row| !subsumed(rows, p)
}

/// Relies on `str::contains` with a `&str` pattern: true exactly when
/// `needle` occurs in `hay` as a contiguous run of characters.
#[verifier::external_body]
fn str_contains(hay: &str, needle: &str) -> (r: bool)
    ensures
        r == is_substring(needle@, hay@),
{
    hay.contains(needle)
}

/// Remove the subset sentence with no more frequency: rows with fewer than
/// two encounter ids go first; then a row goes when another remaining row
/// holds its phrase as a substring and has at least as many encounter ids.
/// The rows that stay keep their order.
pub fn remove_subset(input: Vec<(String, Vec<String>)>) -> (r: Vec<(String, Vec<String>)>)
    requires
        distinct_phrases(rows_view(input@)),
    ensures
        rows_view(r@) == reduced_rows(rows_view(input@)),
        distinct_phrases(rows_view(r@)),
{
    let ghost rows = rows_view(input@);
    let kept = keep_with_repeats(input);
    proof {
        lemma_filter_distinct(rows, has_repeats());
        lemma_filter_distinct(rows.filter(has_repeats()), kept_by(rows.filter(has_repeats())));
    }
    drop_subsumed(kept)
}

/// Keeps the rows with at least two encounter ids, in order.
fn keep_with_repeats(input: Vec<(String, Vec<String>)>) -> (r: Vec<(String, Vec<String>)>)
    ensures
        rows_view(r@) == rows_view(input@).filter(has_repeats()),
{
    let ghost rows = rows_view(input@);
    let ghost orig = input@;
    let mut input = input;
    let mut result: Vec<(String, Vec<String>)> = Vec::new();
    let mut i: usize = 0;
    while i < input.len()
        invariant
            i <= input@.len(),
            input@.len() == orig.len(),
            rows == rows_view(orig),
            forall|k: int| i <= k < orig.len() ==> input@[k] == orig[k],
            rows_view(result@) == rows.subrange(0, i as int).filter(has_repeats()),
        decreases input@.len() - i,
    {
        let ghost before = result@;
        let mut entry: (String, Vec<String>) = (String::new(), Vec::new());
        input.set_and_swap(i, &mut entry);
        assert(rows.subrange(0, i + 1).drop_last() =~= rows.subrange(0, i as int));
        assert(rows[i as int] == row_view(entry));
        assert(rows.subrange(0, i + 1).last() == rows[i as int]);
        proof {
            reveal(Seq::filter);
        }
        if entry.1.len() >= 2 {
            result.push(entry);
            assert(rows_view(result@) =~= rows_view(before).push(rows[i as int]));
        } else {
            assert(rows_view(result@) =~= rows_view(before));
        }
        i += 1;
    }
    assert(rows.subrange(0, i as int) =~= rows);
    result
}

/// Drops every row that another row makes redundant; the rest keep their order.
fn drop_subsumed(input: Vec<(String, Vec<String>)>) -> (r: Vec<(String, Vec<String>)>)
    ensures
        rows_view(r@) == maximal_rows(rows_view(input@)),
{
    let ghost rows = rows_view(input@);
    let mut is_subset: Vec<bool> = Vec::new();
    let mut i: usize = 0;
    while i < input.len()
        invariant
            i <= input@.len(),
            rows == rows_view(input@),
            is_subset@.len() == i,
            forall|k: int| 0 <= k < i ==> #[trigger] is_subset@[k] == subsumed(rows, rows[k]),
        decreases input@.len() - i,
    {
        let sentence = &input[i];
        let mut found = false;
        let mut j: usize = 0;
        while j < input.len()
            invariant
                i < input@.len(),
                j <= input@.len(),
                rows == rows_view(input@),
                *sentence == input@[i as int],
                found == exists|k: int| 0 <= k < j && subsumes(#[trigger] rows[k], rows[i as int]),
            decreases input@.len() - j,
        {
            let longer = &input[j];
            assert(rows[j as int] == row_view(input@[j as int]));
            assert(rows[i as int] == row_view(input@[i as int]));
            if longer.1.len() >= sentence.1.len() && longer.0 != sentence.0 && str_contains(
                longer.0.as_str(),
                sentence.0.as_str(),
            ) {
                found = true;
            }
            j += 1;
        }
        is_subset.push(found);
        i += 1;
    }
    let ghost orig = input@;
    let mut input = input;
    let mut result: Vec<(String, Vec<String>)> = Vec::new();
    let mut i: usize = 0;
    while i < input.len()
        invariant
            i <= input@.len(),
            input@.len() == orig.len(),
            rows == rows_view(orig),
            is_subset@.len() == orig.len(),
            forall|k: int| 0 <= k < orig.len() ==> #[trigger] is_subset@[k] == subsumed(rows, rows[k]),
            forall|k: int| i <= k < orig.len() ==> input@[k] == orig[k],
            rows_view(result@) == rows.subrange(0, i as int).filter(kept_by(rows)),
        decreases input@.len() - i,
    {
        let ghost before = result@;
        let mut entry: (String, Vec<String>) = (String::new(), Vec::new());
        input.set_and_swap(i, &mut entry);
        assert(rows.subrange(0, i + 1).drop_last() =~= rows.subrange(0, i as int));
        assert(rows[i as int] == row_view(entry));
        assert(rows.subrange(0, i + 1).last() == rows[i as int]);
        proof {
            reveal(Seq::filter);
        }
        if !is_subset[i] {
            result.push(entry);
            assert(rows_view(result@) =~= rows_view(before).push(rows[i as int]));
        } else {
            assert(rows_view(result@) =~= rows_view(before));
        }
        i += 1;
    }
    assert(rows.subrange(0, i as int) =~= rows);
    proof {
        reveal(Seq::filter);
    }
    result
}

proof fn lemma_filter_keeps_all(t: Seq<Row>, pred: spec_fn(Row) -> bool)
    requires
        forall|i: int| 0 <= i < t.len() ==> pred(#[trigger] t[i]),
    ensures
        t.filter(pred) == t,
    decreases t.len(),
{
    reveal(Seq::filter);
    if t.len() > 0 {
        lemma_filter_keeps_all(t.drop_last(), pred);
        assert(t.drop_last().push(t.last()) =~= t);
    }
}

proof fn lemma_filter_distinct(rows: Seq<Row>, pred: spec_fn(Row) -> bool)
    requires
        distinct_phrases(rows),
    ensures
        distinct_phrases(rows.filter(pred)),
    decreases rows.len(),
{
    reveal(Seq::filter);
    if rows.len() > 0 {
        let p = rows.drop_last();
        lemma_filter_distinct(p, pred);
        let f = p.filter(pred);
        if pred(rows.last()) {
            let g = f.push(rows.last());
            assert forall|a: int, b: int| 0 <= a < b < g.len() implies g[a].0 != g[b].0 by {
                if b == f.len() {
                    assert(f.contains(f[a]));
                    p.lemma_filter_contains_rev(pred, f[a]);
                    let k = choose|k: int| 0 <= k < p.len() && p[k] == f[a];
                    assert(rows[k] == p[k]);
                } else {
                    assert(g[a] == f[a] && g[b] == f[b]);
                }
            }
        }
    }
}

proof fn lemma_maximal_rows_idempotent(rows: Seq<Row>)
    ensures
        forall|i: int|
            0 <= i < maximal_rows(rows).len() ==> !subsumed(
                maximal_rows(rows),
                #[trigger] maximal_rows(rows)[i],
            ),
        maximal_rows(maximal_rows(rows)) == maximal_rows(rows),
{
    let m = maximal_rows(rows);
    assert forall|i: int| 0 <= i < m.len() implies !subsumed(m, #[trigger] m[i]) by {
        rows.lemma_filter_pred(kept_by(rows), i);
        if subsumed(m, m[i]) {
            let j = choose|j: int| 0 <= j < m.len() && subsumes(#[trigger] m[j], m[i]);
            assert(m.contains(m[j]));
            rows.lemma_filter_contains_rev(kept_by(rows), m[j]);
            let k = choose|k: int| 0 <= k < rows.len() && rows[k] == m[j];
            assert(subsumes(rows[k], m[i]));
        }
    }
    lemma_filter_keeps_all(m, kept_by(m));
}

/// Reducing what the reducer kept changes nothing: every kept row has at
/// least two ids, and no kept row is a substring of another kept row with at
/// least as many ids. Given rows with distinct phrases, the kept rows have
/// distinct phrases too.
pub proof fn lemma_remove_subset_idempotent(rows: Seq<Row>)
    ensures
        reduced_rows(reduced_rows(rows)) == reduced_rows(rows),
        forall|i: int|
            0 <= i < reduced_rows(rows).len() ==> (#[trigger] reduced_rows(rows)[i]).1.len() >= 2,
        forall|a: int, b: int|
            0 <= a < reduced_rows(rows).len() && 0 <= b < reduced_rows(rows).len() && a != b
                ==> !subsumes(reduced_rows(rows)[b], reduced_rows(rows)[a]),
        distinct_phrases(rows) ==> distinct_phrases(reduced_rows(rows)),
{
    let f = rows.filter(has_repeats());
    let m = maximal_rows(f);
    lemma_maximal_rows_idempotent(f);
    assert forall|i: int| 0 <= i < m.len() implies (#[trigger] m[i]).1.len() >= 2 by {
        assert(m.contains(m[i]));
        f.lemma_filter_contains_rev(kept_by(f), m[i]);
        let k = choose|k: int| 0 <= k < f.len() && f[k] == m[i];
        rows.lemma_filter_pred(has_repeats(), k);
    }
    lemma_filter_keeps_all(m, has_repeats());
    assert forall|a: int, b: int| 0 <= a < m.len() && 0 <= b < m.len() && a != b implies !subsumes(
        m[b],
        m[a],
    ) by {
        assert(!subsumed(m, m[a]));
        assert(!subsumes(m[b], m[a]));
    }
    if distinct_phrases(rows) {
        lemma_filter_distinct(rows, has_repeats());
        lemma_filter_distinct(f, kept_by(f));
    }
}

/// Finds the repeated sentences of one group: the repeated windows of
/// `min_words_num` words, grown to every repeated phrase, with the redundant
/// ones removed.
pub fn find_repeated_sentences(values: &[Value], min_words_num: usize) -> (r: Vec<
    (String, Vec<String>),
>)
    requires
        1 <= min_words_num <= usize::MAX / 2,
    ensures
        exists|freq: Seq<Seq<char>>, cands: Seq<(String, Vec<String>)>|
            {
                &&& forall|p: Seq<char>|
                    #[trigger] freq.contains(p) <==> occurrences(
                        group_phrases(group_view(values@), min_words_num as nat),
                        p,
                    ) >= 2
                &&& repeated_inv(cands, group_records(values@, min_words_num as nat, freq))
                &&& rows_view(r@) == reduced_rows(rows_view(cands))
            },
{
    let repeated_min_words = get_repeated_min_words(values, min_words_num);
    let all_repeated_sentences = get_all_repeated_sentences(&repeated_min_words, values, min_words_num);
    let ghost cands = all_repeated_sentences@;
    assert(distinct_phrases(rows_view(cands))) by {
        assert forall|a: int, b: int| 0 <= a < b < rows_view(cands).len() implies rows_view(cands)[a].0
            != rows_view(cands)[b].0 by {
            assert(cands[a].0@ != cands[b].0@);
        }
    }
    let r = remove_subset(all_repeated_sentences);
    assert(repeated_inv(
        cands,
        group_records(values@, min_words_num as nat, string_views(repeated_min_words@)),
    ));
    r
}

} // verus!
