use vstd::prelude::*;
use crate::ring::SentenceRingBuffer;
use crate::window::{window_output, window_run, Entry};

verus! {

/// Token kind code that marks a word; every other code marks filler.
pub const WORD: u32 = 2;

/// One encounter: its identifier and its tokenized sections.
pub struct Value {
    pub encounter_id: String,
    pub soap: Vec<Vec<(String, u32)>>,
}

pub open spec fn token_entry(t: (String, u32)) -> Entry {
    (t.0@, t.1 == WORD)
}

/// A section as a sequence of (text, is word) tokens.
pub open spec fn section_view(sec: Seq<(String, u32)>) -> Seq<Entry> {
    sec.map_values(|t: (String, u32)| token_entry(t))
}

/// The sections of an encounter.
pub open spec fn soap_view(v: Value) -> Seq<Seq<Entry>> {
    v.soap@.map_values(|s: Vec<(String, u32)>| section_view(s@))
}

/// The sections of each encounter of a group.
pub open spec fn group_view(values: Seq<Value>) -> Seq<Seq<Seq<Entry>>> {
    values.map_values(|v: Value| soap_view(v))
}

pub open spec fn string_views(v: Seq<String>) -> Seq<Seq<char>> {
    v.map_values(|s: String| s@)
}

/// The phrases a fresh window shows while it takes the tokens `ts`, in order.
pub open spec fn section_phrases(ts: Seq<Entry>, n: nat) -> Seq<Seq<char>>
    decreases ts.len(),
{
    if ts.len() == 0 {
        Seq::empty()
    } else {
        let prev = section_phrases(ts.drop_last(), n);
        match window_output(window_run(ts, n), n, ts.last().1) {
            Some(p) => prev.push(p),
            None => prev,
        }
    }
}

/// The phrases shown over the sections `secs`, a fresh window for each.
pub open spec fn sections_phrases(secs: Seq<Seq<Entry>>, n: nat) -> Seq<Seq<char>>
    decreases secs.len(),
{
    if secs.len() == 0 {
        Seq::empty()
    } else {
        sections_phrases(secs.drop_last(), n) + section_phrases(secs.last(), n)
    }
}

/// The phrases shown over all sections of all encounters of a group.
pub open spec fn group_phrases(docs: Seq<Seq<Seq<Entry>>>, n: nat) -> Seq<Seq<char>>
    decreases docs.len(),
{
    if docs.len() == 0 {
        Seq::empty()
    } else {
        group_phrases(docs.drop_last(), n) + sections_phrases(docs.last(), n)
    }
}

/// How many times `p` stands in `s`.
pub open spec fn occurrences(s: Seq<Seq<char>>, p: Seq<char>) -> nat
    decreases s.len(),
{
    if s.len() == 0 {
        0
    } else {
        occurrences(s.drop_last(), p) + if s.last() == p {
            1nat
        } else {
            0nat
        }
    }
}

pub proof fn lemma_occurrences_push(s: Seq<Seq<char>>, x: Seq<char>, p: Seq<char>)
    ensures
        occurrences(s.push(x), p) == occurrences(s, p) + if x == p {
            1nat
        } else {
            0nat
        },
{
    assert(s.push(x).drop_last() =~= s);
}

/// Runs a fresh window over one section and collects the phrases it shows.
pub fn section_min_phrases(section: &Vec<(String, u32)>, min_words_num: usize) -> (r: Vec<String>)
    requires
        1 <= min_words_num <= usize::MAX / 2,
    ensures
        string_views(r@) == section_phrases(section_view(section@), min_words_num as nat),
{
    let ghost ts = section_view(section@);
    let ghost n = min_words_num as nat;
    let mut buffer = SentenceRingBuffer::new(min_words_num);
    let mut out: Vec<String> = Vec::new();
    let mut j: usize = 0;
    while j < section.len()
        invariant
            j <= section@.len(),
            ts == section_view(section@),
            n == min_words_num,
            n >= 1,
            buffer.wf(),
            buffer.quota() == n,
            buffer@ == window_run(ts.subrange(0, j as int), n),
            string_views(out@) == section_phrases(ts.subrange(0, j as int), n),
        decreases section@.len() - j,
    {
        let ghost pre = ts.subrange(0, j as int);
        let ghost cur = ts.subrange(0, j + 1);
        assert(cur.drop_last() =~= pre);
        let (word, word_type) = &section[j];
        let res = buffer.add(word.clone(), *word_type == WORD);
        assert(cur.last() == ts[j as int]);
        if let Some(sentence) = res {
            let ghost before = out@;
            out.push(sentence);
            assert(string_views(out@) =~= string_views(before).push(sentence@));
        }
        j += 1;
    }
    assert(ts.subrange(0, j as int) =~= ts);
    out
}

pub open spec fn capped(x: nat) -> nat {
    if x >= 2 {
        2
    } else {
        x
    }
}

/// A tally of the phrases `seen`: one entry per distinct phrase, holding how
/// often it was seen, counted up to two.
pub open spec fn tally_inv(t: Seq<(String, usize)>, seen: Seq<Seq<char>>) -> bool {
    &&& forall|a: int, b: int| 0 <= a < b < t.len() ==> t[a].0@ != t[b].0@
    &&& forall|k: int|
        0 <= k < t.len() ==> #[trigger] t[k].1 == capped(occurrences(seen, t[k].0@))
            && occurrences(seen, t[k].0@) >= 1
    &&& forall|p: Seq<char>|
        #[trigger] occurrences(seen, p) >= 1 ==> exists|k: int| 0 <= k < t.len() && t[k].0@ == p
}

/// Position of the entry keyed `p`, if any.
fn find_key(t: &Vec<(String, usize)>, p: &String) -> (r: Option<usize>)
    ensures
        match r {
            Some(k) => k < t@.len() && t@[k as int].0@ == p@,
            None => forall|i: int| 0 <= i < t@.len() ==> t@[i].0@ != p@,
        },
{
    let mut k: usize = 0;
    while k < t.len()
        invariant
            k <= t@.len(),
            forall|i: int| 0 <= i < k ==> t@[i].0@ != p@,
        decreases t@.len() - k,
    {
        if t[k].0 == *p {
            return Some(k);
        }
        k += 1;
    }
    None
}

fn tally(t: &mut Vec<(String, usize)>, p: String, Ghost(seen): Ghost<Seq<Seq<char>>>)
    requires
        tally_inv(old(t)@, seen),
    ensures
        tally_inv(final(t)@, seen.push(p@)),
{
    let ghost s2 = seen.push(p@);
    let ghost pv = p@;
    proof {
        assert forall|q: Seq<char>| occurrences(s2, q) == occurrences(seen, q) + if q == pv {
            1nat
        } else {
            0nat
        } by {
            lemma_occurrences_push(seen, pv, q);
        }
    }
    match find_key(t, &p) {
        Some(k) => {
            let c = t[k].1;
            let v = if c < 2 { c + 1 } else { c };
            let ghost before = t@;
            t.set(k, (p, v));
            assert(t@[k as int].0@ == before[k as int].0@);
            assert(tally_inv(t@, s2)) by {
                assert forall|q: Seq<char>| #[trigger] occurrences(s2, q) >= 1 implies exists|i: int|
                    0 <= i < t@.len() && t@[i].0@ == q by {
                    if q == pv {
                        assert(t@[k as int].0@ == q);
                    } else {
                        assert(occurrences(seen, q) >= 1);
                        let i = choose|i: int| 0 <= i < before.len() && before[i].0@ == q;
                        assert(t@[i].0@ == q);
                    }
                }
                assert forall|i: int| 0 <= i < t@.len() implies #[trigger] t@[i].1 == capped(
                    occurrences(s2, t@[i].0@)) && occurrences(s2, t@[i].0@) >= 1 by {
                    if i != k {
                        assert(before[i].0@ != before[k as int].0@);
                    }
                }
            }
            return;
        },
        None => {},
    }
    let ghost before = t@;
    t.push((p, 1));
    assert(occurrences(seen, pv) == 0) by {
        if occurrences(seen, pv) >= 1 {
            let i = choose|i: int| 0 <= i < before.len() && before[i].0@ == pv;
        }
    }
    assert(tally_inv(t@, s2)) by {
        assert forall|q: Seq<char>| #[trigger] occurrences(s2, q) >= 1 implies exists|i: int|
            0 <= i < t@.len() && t@[i].0@ == q by {
            if q == pv {
                assert(t@[before.len() as int].0@ == q);
            } else {
                assert(occurrences(seen, q) >= 1);
                let i = choose|i: int| 0 <= i < before.len() && before[i].0@ == q;
                assert(t@[i].0@ == q);
            }
        }
        assert forall|i: int| 0 <= i < t@.len() implies #[trigger] t@[i].1 == capped(
            occurrences(s2, t@[i].0@)) && occurrences(s2, t@[i].0@) >= 1 by {
            if i < before.len() {
                assert(t@[i] == before[i]);
            }
        }
    }
}

/// Get all the minimal number of words sentences that starts with a word and ends with a word,
/// and that are shown more than once over the group.
pub fn get_repeated_min_words(values: &[Value], min_words_num: usize) -> (r: Vec<String>)
    requires
        1 <= min_words_num <= usize::MAX / 2,
    ensures
        string_views(r@).no_duplicates(),
        forall|p: Seq<char>|
            string_views(r@).contains(p) <==> occurrences(
                group_phrases(group_view(values@), min_words_num as nat),
                p,
            ) >= 2,
{
    let ghost n = min_words_num as nat;
    let ghost g = group_view(values@);
    let mut tallies: Vec<(String, usize)> = Vec::new();
    let ghost mut seen: Seq<Seq<char>> = Seq::empty();
    let mut d: usize = 0;
    while d < values.len()
        invariant
            d <= values@.len(),
            g == group_view(values@),
            n == min_words_num,
            1 <= min_words_num <= usize::MAX / 2,
            seen == group_phrases(g.subrange(0, d as int), n),
            tally_inv(tallies@, seen),
        decreases values@.len() - d,
    {
        let soap = &values[d].soap;
        let ghost secs = g[d as int];
        assert(secs == soap_view(values@[d as int]));
        let mut s: usize = 0;
        while s < soap.len()
            invariant
                d < values@.len(),
                s <= soap@.len(),
                g == group_view(values@),
                secs == g[d as int],
                secs == soap_view(values@[d as int]),
                *soap == values@[d as int].soap,
                n == min_words_num,
                1 <= min_words_num <= usize::MAX / 2,
                seen == group_phrases(g.subrange(0, d as int), n) + sections_phrases(
                    secs.subrange(0, s as int),
                    n,
                ),
                tally_inv(tallies@, seen),
            decreases soap@.len() - s,
        {
            let phrases = section_min_phrases(&soap[s], min_words_num);
            let ghost base = seen;
            let mut k: usize = 0;
            while k < phrases.len()
                invariant
                    k <= phrases@.len(),
                    seen == base + string_views(phrases@).subrange(0, k as int),
                    tally_inv(tallies@, seen),
                decreases phrases@.len() - k,
            {
                tally(&mut tallies, phrases[k].clone(), Ghost(seen));
                proof {
                    seen = seen.push(phrases@[k as int]@);
                    assert(seen =~= base + string_views(phrases@).subrange(0, k + 1));
                }
                k += 1;
            }
            proof {
                assert(secs.subrange(0, s + 1).drop_last() =~= secs.subrange(0, s as int));
                assert(secs.subrange(0, s + 1).last() == section_view(soap@[s as int]@));
                assert(string_views(phrases@).subrange(0, k as int) =~= string_views(phrases@));
                assert(seen =~= group_phrases(g.subrange(0, d as int), n) + sections_phrases(
                    secs.subrange(0, s + 1),
                    n,
                ));
            }
            s += 1;
        }
        proof {
            assert(secs.subrange(0, s as int) =~= secs);
            assert(g.subrange(0, d + 1).drop_last() =~= g.subrange(0, d as int));
        }
        d += 1;
    }
    assert(g.subrange(0, d as int) =~= g);
    let mut out: Vec<String> = Vec::new();
    let mut k: usize = 0;
    while k < tallies.len()
        invariant
            k <= tallies@.len(),
            tally_inv(tallies@, seen),
            string_views(out@).no_duplicates(),
            forall|p: Seq<char>|
                string_views(out@).contains(p) <==> exists|i: int|
                    0 <= i < k && tallies@[i].0@ == p && tallies@[i].1 == 2,
        decreases tallies@.len() - k,
    {
        if tallies[k].1 == 2 {
            let ghost before = out@;
            out.push(tallies[k].0.clone());
            assert(string_views(out@) =~= string_views(before).push(tallies@[k as int].0@));
            assert forall|p: Seq<char>| string_views(out@).contains(p) <==> exists|i: int|
                0 <= i < k + 1 && tallies@[i].0@ == p && tallies@[i].1 == 2 by {
                if string_views(out@).contains(p) {
                    let j = choose|j: int| 0 <= j < string_views(out@).len() && string_views(out@)[j] == p;
                    if j < before.len() {
                        assert(string_views(before)[j] == p);
                        assert(string_views(before).contains(p));
                    } else {
                        assert(tallies@[k as int].0@ == p && tallies@[k as int].1 == 2);
                    }
                }
                if exists|i: int| 0 <= i < k + 1 && tallies@[i].0@ == p && tallies@[i].1 == 2 {
                    let i = choose|i: int| 0 <= i < k + 1 && tallies@[i].0@ == p && tallies@[i].1 == 2;
                    if i < k {
                        assert(string_views(before).contains(p));
                        let j = choose|j: int| 0 <= j < string_views(before).len() && string_views(before)[j] == p;
                        assert(string_views(out@)[j] == p);
                    } else {
                        assert(string_views(out@)[before.len() as int] == p);
                    }
                }
            }
            assert(string_views(out@).no_duplicates()) by {
                assert(!string_views(before).contains(tallies@[k as int].0@));
            }
        } else {
            assert forall|p: Seq<char>| string_views(out@).contains(p) <==> exists|i: int|
                0 <= i < k + 1 && tallies@[i].0@ == p && tallies@[i].1 == 2 by {
                if exists|i: int| 0 <= i < k + 1 && tallies@[i].0@ == p && tallies@[i].1 == 2 {
                    let i = choose|i: int| 0 <= i < k + 1 && tallies@[i].0@ == p && tallies@[i].1 == 2;
                    assert(i < k);
                }
            }
        }
        k += 1;
    }
    assert forall|p: Seq<char>| string_views(out@).contains(p) <==> occurrences(seen, p) >= 2 by {
        if occurrences(seen, p) >= 2 {
            let i = choose|i: int| 0 <= i < tallies@.len() && tallies@[i].0@ == p;
            assert(tallies@[i].1 == capped(occurrences(seen, tallies@[i].0@)));
        }
        if string_views(out@).contains(p) {
            let i = choose|i: int| 0 <= i < k && tallies@[i].0@ == p && tallies@[i].1 == 2;
            assert(tallies@[i].1 == capped(occurrences(seen, tallies@[i].0@)));
        }
    }
    out
}

} // verus!
