use vstd::prelude::*;
use crate::mining::{section_view, token_entry, soap_view, string_views, Value, WORD};
use crate::ring::SentenceRingBuffer;
use crate::window::{concat_texts, window_output, window_run, Entry};

verus! {

/// The phrase a fresh window shows on taking token `j`, having started at
/// token `i`.
pub open spec fn shown_at(ts: Seq<Entry>, i: int, j: int, n: nat) -> Option<Seq<char>> {
    window_output(window_run(ts.subrange(i, j + 1), n), n, ts[j].1)
}

/// Some end position in `i..e` showed a phrase that is not in `freq`.
pub open spec fn pruned(ts: Seq<Entry>, i: int, e: int, n: nat, freq: Seq<Seq<char>>) -> bool {
    exists|j: int|
        i <= j < e && (#[trigger] shown_at(ts, i, j, n)) is Some && !freq.contains(
            shown_at(ts, i, j, n)->0,
        )
}

/// The candidate phrases recorded from start `i`, over the end positions
/// `i..e`: the text from `i` through each end position where the window shows
/// a phrase of `freq`, up to the first one where it shows another phrase.
pub open spec fn expansions(ts: Seq<Entry>, i: int, e: int, n: nat, freq: Seq<Seq<char>>) -> Seq<
    Seq<char>,
>
    decreases e - i,
{
    if e <= i {
        Seq::empty()
    } else {
        let prev = expansions(ts, i, e - 1, n, freq);
        if pruned(ts, i, e - 1, n, freq) {
            prev
        } else {
            match shown_at(ts, i, e - 1, n) {
                Some(p) => if freq.contains(p) {
                    prev.push(concat_texts(ts.subrange(i, e)))
                } else {
                    prev
                },
                None => prev,
            }
        }
    }
}

/// Each phrase paired with the encounter identifier `id`.
pub open spec fn tag(ps: Seq<Seq<char>>, id: Seq<char>) -> Seq<(Seq<char>, Seq<char>)> {
    ps.map_values(|p: Seq<char>| (p, id))
}

/// What the starts `0..s` of one section record.
pub open spec fn section_records(
    ts: Seq<Entry>,
    id: Seq<char>,
    n: nat,
    freq: Seq<Seq<char>>,
    s: int,
) -> Seq<(Seq<char>, Seq<char>)>
    decreases s,
{
    if s <= 0 {
        Seq::empty()
    } else {
        section_records(ts, id, n, freq, s - 1) + tag(
            expansions(ts, s - 1, ts.len() as int, n, freq),
            id,
        )
    }
}

/// What the sections `secs` of the encounter `id` record.
pub open spec fn soap_records(secs: Seq<Seq<Entry>>, id: Seq<char>, n: nat, freq: Seq<Seq<char>>) -> Seq<
    (Seq<char>, Seq<char>),
>
    decreases secs.len(),
{
    if secs.len() == 0 {
        Seq::empty()
    } else {
        soap_records(secs.drop_last(), id, n, freq) + section_records(
            secs.last(),
            id,
            n,
            freq,
            secs.last().len() as int,
        )
    }
}

/// What all encounters of a group record, in order: (phrase, encounter id).
pub open spec fn group_records(values: Seq<Value>, n: nat, freq: Seq<Seq<char>>) -> Seq<
    (Seq<char>, Seq<char>),
>
    decreases values.len(),
{
    if values.len() == 0 {
        Seq::empty()
    } else {
        group_records(values.drop_last(), n, freq) + soap_records(
            soap_view(values.last()),
            values.last().encounter_id@,
            n,
            freq,
        )
    }
}

/// The encounter identifiers recorded for phrase `p`, in order.
pub open spec fn ids_of(recs: Seq<(Seq<char>, Seq<char>)>, p: Seq<char>) -> Seq<Seq<char>>
    decreases recs.len(),
{
    if recs.len() == 0 {
        Seq::empty()
    } else {
        let prev = ids_of(recs.drop_last(), p);
        if recs.last().0 == p {
            prev.push(recs.last().1)
        } else {
            prev
        }
    }
}

pub proof fn lemma_pruned_grows(ts: Seq<Entry>, i: int, e: int, e2: int, n: nat, freq: Seq<Seq<char>>)
    requires
        pruned(ts, i, e, n, freq),
        e <= e2,
    ensures
        pruned(ts, i, e2, n, freq),
        expansions(ts, i, e2, n, freq) == expansions(ts, i, e, n, freq),
    decreases e2 - e,
{
    if e < e2 {
        lemma_pruned_grows(ts, i, e, e2 - 1, n, freq);
        let j = choose|j: int|
            i <= j < e && (#[trigger] shown_at(ts, i, j, n)) is Some && !freq.contains(
                shown_at(ts, i, j, n)->0,
            );
        assert(i < e2);
    }
}

pub proof fn lemma_ids_of_push(recs: Seq<(Seq<char>, Seq<char>)>, x: (Seq<char>, Seq<char>), p: Seq<char>)
    ensures
        ids_of(recs.push(x), p) == if x.0 == p {
            ids_of(recs, p).push(x.1)
        } else {
            ids_of(recs, p)
        },
{
    assert(recs.push(x).drop_last() =~= recs);
}

/// Every candidate phrase recorded from start `i` is the text from `i`
/// through some end position where the window's trailing phrase of `n` words
/// is one of `freq`.
pub proof fn lemma_expansion_sound(ts: Seq<Entry>, i: int, e: int, n: nat, freq: Seq<Seq<char>>)
    ensures
        forall|k: int|
            0 <= k < expansions(ts, i, e, n, freq).len() ==> exists|end: int|
                i < end <= e && #[trigger] expansions(ts, i, e, n, freq)[k] == concat_texts(
                    ts.subrange(i, end),
                ) && shown_at(ts, i, end - 1, n) is Some && freq.contains(
                    shown_at(ts, i, end - 1, n)->0,
                ),
    decreases e - i,
{
    if e > i {
        lemma_expansion_sound(ts, i, e - 1, n, freq);
        let prev = expansions(ts, i, e - 1, n, freq);
        let cur = expansions(ts, i, e, n, freq);
        assert forall|k: int| 0 <= k < cur.len() implies exists|end: int|
            i < end <= e && #[trigger] cur[k] == concat_texts(ts.subrange(i, end)) && shown_at(
                ts,
                i,
                end - 1,
                n,
            ) is Some && freq.contains(shown_at(ts, i, end - 1, n)->0) by {
            if k < prev.len() {
                assert(cur[k] == prev[k]);
                let end = choose|end: int|
                    i < end <= e - 1 && #[trigger] prev[k] == concat_texts(ts.subrange(i, end))
                        && shown_at(ts, i, end - 1, n) is Some && freq.contains(
                        shown_at(ts, i, end - 1, n)->0,
                    );
                assert(cur[k] == concat_texts(ts.subrange(i, end)));
            } else {
                assert(cur[k] == concat_texts(ts.subrange(i, e)));
            }
        }
    }
}

/// Whether `p` is one of `rep`.
pub fn contains_phrase(rep: &Vec<String>, p: &String) -> (r: bool)
    ensures
        r == string_views(rep@).contains(p@),
{
    let mut k: usize = 0;
    while k < rep.len()
        invariant
            k <= rep@.len(),
            forall|i: int| 0 <= i < k ==> rep@[i]@ != p@,
        decreases rep@.len() - k,
    {
        if rep[k] == *p {
            assert(string_views(rep@)[k as int] == p@);
            return true;
        }
        k += 1;
    }
    assert forall|i: int| 0 <= i < string_views(rep@).len() implies string_views(rep@)[i] != p@ by {
        assert(string_views(rep@)[i] == rep@[i]@);
    }
    false
}

/// Grows a phrase from token `start` of `section`, one token at a time, and
/// collects each grown phrase whose trailing window of `min_words_num` words
/// is repeated; it stops at the first trailing window that is not.
pub fn expand_from(
    section: &Vec<(String, u32)>,
    start: usize,
    repeated_min_words: &Vec<String>,
    min_words_num: usize,
) -> (r: Vec<String>)
    requires
        1 <= min_words_num <= usize::MAX / 2,
        start <= section@.len(),
    ensures
        string_views(r@) == expansions(
            section_view(section@),
            start as int,
            section@.len() as int,
            min_words_num as nat,
            string_views(repeated_min_words@),
        ),
{
    let ghost ts = section_view(section@);
    let ghost n = min_words_num as nat;
    let ghost freq = string_views(repeated_min_words@);
    let ghost i = start as int;
    let mut out: Vec<String> = Vec::new();
    let mut full_sentence = String::new();
    let mut buffer = SentenceRingBuffer::new(min_words_num);
    let mut j: usize = start;
    assert(ts.subrange(i, i) =~= Seq::<Entry>::empty());
    while j < section.len()
        invariant
            start <= j <= section@.len(),
            i == start,
            ts == section_view(section@),
            n == min_words_num,
            n >= 1,
            freq == string_views(repeated_min_words@),
            buffer.wf(),
            buffer.quota() == n,
            buffer@ == window_run(ts.subrange(i, j as int), n),
            full_sentence@ == concat_texts(ts.subrange(i, j as int)),
            !pruned(ts, i, j as int, n, freq),
            string_views(out@) == expansions(ts, i, j as int, n, freq),
        decreases section@.len() - j,
    {
        let ghost cur = ts.subrange(i, j + 1);
        assert(cur.drop_last() =~= ts.subrange(i, j as int));
        assert(cur.last() == ts[j as int]);
        let (word, word_type) = &section[j];
        full_sentence.append(word.as_str());
        let res = buffer.add(word.clone(), *word_type == WORD);
        assert(buffer@ == window_run(cur, n));
        assert(ts[j as int] == token_entry(section@[j as int]));
        if let Some(sentence) = res {
            assert(shown_at(ts, i, j as int, n) == Some(sentence@));
            // There are enough words in the sentence when the buffer returns a sentence.
            if !contains_phrase(repeated_min_words, &sentence) {
                // The trailing window is not repeated, so no longer phrase from this start can be.
                proof {
                    assert(pruned(ts, i, j + 1, n, freq));
                    assert(expansions(ts, i, j + 1, n, freq) == expansions(ts, i, j as int, n, freq));
                    lemma_pruned_grows(ts, i, j + 1, ts.len() as int, n, freq);
                }
                return out;
            }
            let ghost before = out@;
            out.push(full_sentence.clone());
            assert(string_views(out@) =~= string_views(before).push(full_sentence@));
        }
        proof {
            assert(!pruned(ts, i, j + 1, n, freq)) by {
                if pruned(ts, i, j + 1, n, freq) {
                    let w = choose|w: int|
                        i <= w < j + 1 && (#[trigger] shown_at(ts, i, w, n)) is Some && !freq.contains(
                            shown_at(ts, i, w, n)->0,
                        );
                    assert(w == j);
                }
            }
        }
        j += 1;
    }
    out
}

/// The candidates gathered so far from the records `recs`: one entry per
/// distinct phrase, holding its encounter identifiers in order.
pub open spec fn cand_inv(c: Seq<(String, Vec<String>)>, recs: Seq<(Seq<char>, Seq<char>)>) -> bool {
    &&& forall|a: int, b: int| 0 <= a < b < c.len() ==> c[a].0@ != c[b].0@
    &&& forall|k: int|
        0 <= k < c.len() ==> #[trigger] string_views(c[k].1@) == ids_of(recs, c[k].0@) && ids_of(
            recs,
            c[k].0@,
        ).len() >= 1
    &&& forall|p: Seq<char>|
        #[trigger] ids_of(recs, p).len() >= 1 ==> exists|k: int| 0 <= k < c.len() && c[k].0@ == p
}

/// Position of the candidate keyed `p`, if any.
fn find_candidate(c: &Vec<(String, Vec<String>)>, p: &String) -> (r: Option<usize>)
    ensures
        match r {
            Some(k) => k < c@.len() && c@[k as int].0@ == p@,
            None => forall|i: int| 0 <= i < c@.len() ==> c@[i].0@ != p@,
        },
{
    let mut k: usize = 0;
    while k < c.len()
        invariant
            k <= c@.len(),
            forall|i: int| 0 <= i < k ==> c@[i].0@ != p@,
        decreases c@.len() - k,
    {
        if c[k].0 == *p {
            return Some(k);
        }
        k += 1;
    }
    None
}

proof fn lemma_cand_push_new(
    before: Seq<(String, Vec<String>)>,
    recs: Seq<(Seq<char>, Seq<char>)>,
    x: (Seq<char>, Seq<char>),
    ids: Seq<String>,
)
    requires
        cand_inv(before, recs),
        forall|i: int| 0 <= i < before.len() ==> before[i].0@ != x.0,
        string_views(ids) == seq![x.1],
    ensures
        forall|e: (String, Vec<String>)|
            e.0@ == x.0 && e.1@ == ids ==> cand_inv(#[trigger] before.push(e), recs.push(x)),
{
    let r2 = recs.push(x);
    assert forall|q: Seq<char>| #[trigger] ids_of(r2, q) == if q == x.0 {
        ids_of(recs, q).push(x.1)
    } else {
        ids_of(recs, q)
    } by {
        lemma_ids_of_push(recs, x, q);
    }
    assert(ids_of(recs, x.0).len() == 0) by {
        if ids_of(recs, x.0).len() >= 1 {
            let i = choose|i: int| 0 <= i < before.len() && before[i].0@ == x.0;
        }
    }
    assert(ids_of(recs, x.0) =~= Seq::<Seq<char>>::empty());
    assert forall|e: (String, Vec<String>)| e.0@ == x.0 && e.1@ == ids implies cand_inv(
        #[trigger] before.push(e),
        r2,
    ) by {
        let c = before.push(e);
        assert forall|a: int, b: int| 0 <= a < b < c.len() implies c[a].0@ != c[b].0@ by {
            assert(c[a] == before[a]);
            if b < before.len() {
                assert(c[b] == before[b]);
            }
        }
        assert forall|q: Seq<char>| #[trigger] ids_of(r2, q).len() >= 1 implies exists|i: int|
            0 <= i < c.len() && c[i].0@ == q by {
            if q == x.0 {
                assert(c[before.len() as int].0@ == q);
            } else {
                assert(ids_of(recs, q).len() >= 1);
                let i = choose|i: int| 0 <= i < before.len() && before[i].0@ == q;
                assert(c[i].0@ == q);
            }
        }
        assert forall|i: int| 0 <= i < c.len() implies #[trigger] string_views(c[i].1@) == ids_of(
            r2,
            c[i].0@,
        ) && ids_of(r2, c[i].0@).len() >= 1 by {
            if i < before.len() {
                assert(c[i] == before[i]);
            } else {
                assert(ids_of(r2, x.0) =~= string_views(c[i].1@));
            }
        }
    }
}

/// Records one occurrence of `p` in the encounter `id`.
fn record(
    c: &mut Vec<(String, Vec<String>)>,
    p: String,
    id: String,
    Ghost(recs): Ghost<Seq<(Seq<char>, Seq<char>)>>,
)
    requires
        cand_inv(old(c)@, recs),
    ensures
        cand_inv(final(c)@, recs.push((p@, id@))),
{
    let ghost r2 = recs.push((p@, id@));
    let ghost pv = p@;
    let ghost iv = id@;
    proof {
        assert forall|q: Seq<char>| #[trigger] ids_of(r2, q) == if q == pv {
            ids_of(recs, q).push(iv)
        } else {
            ids_of(recs, q)
        } by {
            lemma_ids_of_push(recs, (pv, iv), q);
        }
    }
    let ghost before = c@;
    match find_candidate(c, &p) {
        Some(k) => {
            let mut entry: (String, Vec<String>) = (String::new(), Vec::new());
            c.set_and_swap(k, &mut entry);
            let ghost ids0 = entry.1@;
            entry.1.push(id);
            assert(string_views(entry.1@) =~= string_views(ids0).push(iv));
            c.set(k, entry);
            assert(cand_inv(c@, r2)) by {
                assert forall|q: Seq<char>| #[trigger] ids_of(r2, q).len() >= 1 implies exists|i: int|
                    0 <= i < c@.len() && c@[i].0@ == q by {
                    if q == pv {
                        assert(c@[k as int].0@ == q);
                    } else {
                        assert(ids_of(recs, q).len() >= 1);
                        let i = choose|i: int| 0 <= i < before.len() && before[i].0@ == q;
                        assert(c@[i].0@ == q);
                    }
                }
                assert forall|i: int| 0 <= i < c@.len() implies #[trigger] string_views(c@[i].1@)
                    == ids_of(r2, c@[i].0@) && ids_of(r2, c@[i].0@).len() >= 1 by {
                    if i != k {
                        assert(before[i].0@ != before[k as int].0@);
                        assert(c@[i] == before[i]);
                    }
                }
            }
        },
        None => {
            let mut ids: Vec<String> = Vec::new();
            ids.push(id);
            assert(string_views(ids@) =~= Seq::<Seq<char>>::empty().push(iv));
            let ghost idsv = ids@;
            proof {
                lemma_cand_push_new(before, recs, (pv, iv), idsv);
            }
            c.push((p, ids));
        },
    }
}

/// The candidates of `recs` recorded at least twice: one entry per such
/// phrase, holding its encounter identifiers in order.
pub open spec fn repeated_inv(r: Seq<(String, Vec<String>)>, recs: Seq<(Seq<char>, Seq<char>)>) -> bool {
    &&& forall|a: int, b: int| 0 <= a < b < r.len() ==> r[a].0@ != r[b].0@
    &&& forall|k: int|
        0 <= k < r.len() ==> #[trigger] string_views(r[k].1@) == ids_of(recs, r[k].0@) && r[k].1@.len()
            >= 2
    &&& forall|p: Seq<char>|
        #[trigger] ids_of(recs, p).len() >= 2 ==> exists|k: int| 0 <= k < r.len() && r[k].0@ == p
}

/// Keeps the candidates recorded at least twice.
fn keep_repeated(cands: Vec<(String, Vec<String>)>, Ghost(recs): Ghost<Seq<(Seq<char>, Seq<char>)>>) -> (r: Vec<(String, Vec<String>)>)
    requires
        cand_inv(cands@, recs),
    ensures
        repeated_inv(r@, recs),
{
    let ghost orig = cands@;
    let mut rest = cands;
    let mut out: Vec<(String, Vec<String>)> = Vec::new();
    let ghost mut idx: Seq<int> = Seq::empty();
    let mut k: usize = 0;
    while k < rest.len()
        invariant
            k <= rest@.len(),
            rest@.len() == orig.len(),
            cand_inv(orig, recs),
            forall|i: int| k <= i < orig.len() ==> rest@[i] == orig[i],
            idx.len() == out@.len(),
            forall|a: int, b: int| 0 <= a < b < idx.len() ==> idx[a] < idx[b],
            forall|j: int|
                0 <= j < out@.len() ==> 0 <= #[trigger] idx[j] < k && out@[j] == orig[idx[j]]
                    && orig[idx[j]].1@.len() >= 2,
            forall|i: int|
                0 <= i < k && orig[i].1@.len() >= 2 ==> exists|j: int|
                    0 <= j < out@.len() && out@[j] == #[trigger] orig[i],
        decreases rest@.len() - k,
    {
        let mut entry: (String, Vec<String>) = (String::new(), Vec::new());
        rest.set_and_swap(k, &mut entry);
        assert(entry == orig[k as int]);
        if entry.1.len() > 1 {
            let ghost before = out@;
            let ghost idx0 = idx;
            out.push(entry);
            proof {
                idx = idx.push(k as int);
                assert forall|i: int| 0 <= i < k + 1 && orig[i].1@.len() >= 2 implies exists|j: int|
                    0 <= j < out@.len() && out@[j] == #[trigger] orig[i] by {
                    if i < k {
                        let j = choose|j: int| 0 <= j < before.len() && before[j] == orig[i];
                        assert(out@[j] == before[j]);
                    } else {
                        assert(out@[before.len() as int] == orig[i]);
                    }
                }
                assert forall|j: int| 0 <= j < out@.len() implies 0 <= #[trigger] idx[j] < k + 1
                    && out@[j] == orig[idx[j]] && orig[idx[j]].1@.len() >= 2 by {
                    if j < before.len() {
                        assert(out@[j] == before[j]);
                        assert(idx[j] == idx0[j]);
                    }
                }
            }
        }
        k += 1;
    }
    assert forall|a: int, b: int| 0 <= a < b < out@.len() implies out@[a].0@ != out@[b].0@ by {
        assert(out@[a] == orig[idx[a]]);
        assert(out@[b] == orig[idx[b]]);
    }
    assert forall|j: int| 0 <= j < out@.len() implies #[trigger] string_views(out@[j].1@) == ids_of(
        recs,
        out@[j].0@,
    ) && out@[j].1@.len() >= 2 by {
        assert(out@[j] == orig[idx[j]]);
        assert(string_views(orig[idx[j]].1@) == ids_of(recs, orig[idx[j]].0@));
    }
    assert forall|p: Seq<char>| #[trigger] ids_of(recs, p).len() >= 2 implies exists|j: int|
        0 <= j < out@.len() && out@[j].0@ == p by {
        let i = choose|i: int| 0 <= i < orig.len() && orig[i].0@ == p;
        assert(string_views(orig[i].1@) == ids_of(recs, orig[i].0@));
        assert(orig[i].1@.len() == string_views(orig[i].1@).len());
        let j = choose|j: int| 0 <= j < out@.len() && out@[j] == #[trigger] orig[i];
        assert(out@[j].0@ == p);
    }
    out
}

/// Grows a phrase from every token of every section and returns one row per
/// phrase recorded at least twice, with the encounter id of each recording in
/// order; an encounter that holds a phrase twice is listed twice.
pub fn get_all_repeated_sentences(
    repeated_min_words: &Vec<String>,
    values: &[Value],
    min_words_num: usize,
) -> (r: Vec<(String, Vec<String>)>)
    requires
        1 <= min_words_num <= usize::MAX / 2,
    ensures
        repeated_inv(
            r@,
            group_records(values@, min_words_num as nat, string_views(repeated_min_words@)),
        ),
{
    let ghost n = min_words_num as nat;
    let ghost freq = string_views(repeated_min_words@);
    let mut cands: Vec<(String, Vec<String>)> = Vec::new();
    let ghost mut recs: Seq<(Seq<char>, Seq<char>)> = Seq::empty();
    let mut d: usize = 0;
    while d < values.len()
        invariant
            d <= values@.len(),
            n == min_words_num,
            1 <= min_words_num <= usize::MAX / 2,
            freq == string_views(repeated_min_words@),
            recs == group_records(values@.subrange(0, d as int), n, freq),
            cand_inv(cands@, recs),
        decreases values@.len() - d,
    {
        let value = &values[d];
        let ghost secs = soap_view(*value);
        let ghost id = value.encounter_id@;
        let ghost base_d = recs;
        let mut s: usize = 0;
        while s < value.soap.len()
            invariant
                d < values@.len(),
                *value == values@[d as int],
                secs == soap_view(*value),
                id == value.encounter_id@,
                s <= value.soap@.len(),
                n == min_words_num,
                1 <= min_words_num <= usize::MAX / 2,
                freq == string_views(repeated_min_words@),
                base_d == group_records(values@.subrange(0, d as int), n, freq),
                recs == base_d + soap_records(secs.subrange(0, s as int), id, n, freq),
                cand_inv(cands@, recs),
            decreases value.soap@.len() - s,
        {
            let section = &value.soap[s];
            let ghost ts = section_view(section@);
            assert(ts == secs[s as int]);
            let ghost base_s = recs;
            let mut i: usize = 0;
            while i < section.len()
                invariant
                    i <= section@.len(),
                    ts == section_view(section@),
                    id == value.encounter_id@,
                    n == min_words_num,
                    1 <= min_words_num <= usize::MAX / 2,
                    freq == string_views(repeated_min_words@),
                    recs == base_s + section_records(ts, id, n, freq, i as int),
                    cand_inv(cands@, recs),
                decreases section@.len() - i,
            {
                let ghost base_i = recs;
                let found = expand_from(section, i, repeated_min_words, min_words_num);
                let mut k: usize = 0;
                while k < found.len()
                    invariant
                        k <= found@.len(),
                        id == value.encounter_id@,
                        recs == base_i + tag(string_views(found@).subrange(0, k as int), id),
                        cand_inv(cands@, recs),
                    decreases found@.len() - k,
                {
                    record(&mut cands, found[k].clone(), value.encounter_id.clone(), Ghost(recs));
                    proof {
                        recs = recs.push((found@[k as int]@, id));
                        assert(tag(string_views(found@).subrange(0, k + 1), id) =~= tag(
                            string_views(found@).subrange(0, k as int),
                            id,
                        ).push((found@[k as int]@, id)));
                        assert(recs =~= base_i + tag(string_views(found@).subrange(0, k + 1), id));
                    }
                    k += 1;
                }
                proof {
                    assert(string_views(found@).subrange(0, k as int) =~= string_views(found@));
                    assert(recs =~= base_s + section_records(ts, id, n, freq, i + 1));
                }
                i += 1;
            }
            proof {
                assert(secs.subrange(0, s + 1).drop_last() =~= secs.subrange(0, s as int));
                assert(secs.subrange(0, s + 1).last() == ts);
                assert(recs =~= base_d + soap_records(secs.subrange(0, s + 1), id, n, freq));
            }
            s += 1;
        }
        proof {
            assert(secs.subrange(0, s as int) =~= secs);
            assert(values@.subrange(0, d + 1).drop_last() =~= values@.subrange(0, d as int));
        }
        d += 1;
    }
    assert(values@.subrange(0, d as int) =~= values@);
    let r = keep_repeated(cands, Ghost(recs));
    r
}

} // verus!
