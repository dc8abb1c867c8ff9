use vstd::prelude::*;

verus! {

/// A window entry as mathematics sees it: its text, and whether it is a word.
pub type Entry = (Seq<char>, bool);

/// Number of word entries in `es`.
pub open spec fn count_words(es: Seq<Entry>) -> nat
    decreases es.len(),
{
    if es.len() == 0 {
        0
    } else {
        count_words(es.drop_last()) + if es.last().1 {
            1nat
        } else {
            0nat
        }
    }
}

/// The texts of `es` joined front to back.
pub open spec fn concat_texts(es: Seq<Entry>) -> Seq<char>
    decreases es.len(),
{
    if es.len() == 0 {
        Seq::empty()
    } else {
        concat_texts(es.drop_last()) + es.last().0
    }
}

/// A window opens with a word and never holds two separators side by side.
pub open spec fn window_shape(es: Seq<Entry>) -> bool {
    &&& (es.len() > 0 ==> es[0].1)
    &&& forall|i: int| 0 <= i < es.len() - 1 ==> (#[trigger] es[i].1 || es[i + 1].1)
}

/// The live entries of a window for quota `n`: well shaped, at most `n` words,
/// and never more than `2 * n` entries.
pub open spec fn well_formed_window(es: Seq<Entry>, n: nat) -> bool {
    &&& window_shape(es)
    &&& count_words(es) <= n
    &&& es.len() <= 2 * n
}

/// Drops the oldest word, and the separator run right behind it.
pub open spec fn evict_oldest(es: Seq<Entry>) -> Seq<Entry> {
    if es.len() >= 2 && !es[1].1 {
        es.subrange(2, es.len() as int)
    } else {
        es.subrange(1, es.len() as int)
    }
}

/// What one token does to the live entries of a window with quota `n`.
pub open spec fn window_step(es: Seq<Entry>, n: nat, text: Seq<char>, is_word: bool) -> Seq<Entry> {
    if is_word {
        let kept = if count_words(es) == n {
            evict_oldest(es)
        } else {
            es
        };
        kept.push((text, true))
    } else if es.len() == 0 {
        es
    } else if es.last().1 {
        es.push((text, false))
    } else {
        es.update(es.len() - 1, (es.last().0 + text, false))
    }
}

/// The phrase a window shows after a step: its joined text once it holds
/// exactly `n` words and has just taken a word, and nothing otherwise.
pub open spec fn window_output(es: Seq<Entry>, n: nat, is_word: bool) -> Option<Seq<char>> {
    if is_word && count_words(es) == n {
        Some(concat_texts(es))
    } else {
        None
    }
}

pub proof fn lemma_count_words_add(a: Seq<Entry>, b: Seq<Entry>)
    ensures
        count_words(a + b) == count_words(a) + count_words(b),
    decreases b.len(),
{
    if b.len() == 0 {
        assert(a + b =~= a);
    } else {
        lemma_count_words_add(a, b.drop_last());
        assert((a + b).drop_last() =~= a + b.drop_last());
    }
}

/// Words and separators alternate, so a window holds at most two entries per
/// word, and one less when it ends with a word.
pub proof fn lemma_window_len(es: Seq<Entry>)
    requires
        window_shape(es),
    ensures
        es.len() <= 2 * count_words(es),
        es.len() > 0 && es.last().1 ==> es.len() + 1 <= 2 * count_words(es),
    decreases es.len(),
{
    if es.len() > 0 {
        let p = es.drop_last();
        assert(window_shape(p)) by {
            assert forall|i: int| 0 <= i < p.len() - 1 implies (#[trigger] p[i].1 || p[i + 1].1) by {
                assert(es[i].1 || es[i + 1].1);
            }
        }
        lemma_window_len(p);
        if !es.last().1 {
            assert(es[es.len() - 2].1);
        }
    }
}

pub proof fn lemma_count_words_front(es: Seq<Entry>, k: int)
    requires
        0 <= k <= es.len(),
    ensures
        count_words(es) == count_words(es.subrange(0, k)) + count_words(es.subrange(k, es.len() as int)),
{
    lemma_count_words_add(es.subrange(0, k), es.subrange(k, es.len() as int));
    assert(es.subrange(0, k) + es.subrange(k, es.len() as int) =~= es);
}

/// One step keeps a window well formed.
pub proof fn lemma_window_step_well_formed(es: Seq<Entry>, n: nat, text: Seq<char>, is_word: bool)
    requires
        n >= 1,
        well_formed_window(es, n),
    ensures
        well_formed_window(window_step(es, n, text, is_word), n),
        count_words(window_step(es, n, text, is_word)) == if is_word {
            if count_words(es) < n { count_words(es) + 1 } else { n }
        } else {
            count_words(es)
        },
{
    let r = window_step(es, n, text, is_word);
    lemma_window_len(es);
    if is_word {
        let kept = if count_words(es) == n {
            evict_oldest(es)
        } else {
            es
        };
        if count_words(es) == n {
            assert(es.len() > 0);
            let k: int = if es.len() >= 2 && !es[1].1 { 2 } else { 1 };
            lemma_count_words_front(es, k);
            let front = es.subrange(0, k);
            assert(front.drop_last().len() == k - 1);
            if k == 2 {
                let f1 = front.drop_last();
                assert(f1.drop_last() =~= Seq::<Entry>::empty());
                assert(count_words(f1.drop_last()) == 0);
                assert(f1.last() == es[0]);
                assert(count_words(f1) == 1);
                assert(front.last() == es[1]);
            } else {
                assert(front.drop_last() =~= Seq::<Entry>::empty());
                assert(count_words(front.drop_last()) == 0);
                assert(front.last() == es[0]);
            }
            assert(count_words(front) == 1);
            assert(kept =~= es.subrange(k, es.len() as int));
            assert(window_shape(kept)) by {
                if kept.len() > 0 {
                    assert(kept[0] == es[k]);
                    if k == 1 {
                        assert(es[0].1);
                        assert(es[1].1);
                    } else {
                        assert(es[1].1 || es[2].1);
                    }
                }
                assert forall|i: int| 0 <= i < kept.len() - 1 implies (#[trigger] kept[i].1
                    || kept[i + 1].1) by {
                    assert(es[i + k].1 || es[i + k + 1].1);
                }
            }
        }
        assert(r.drop_last() =~= kept);
        assert(window_shape(r)) by {
            assert forall|i: int| 0 <= i < r.len() - 1 implies (#[trigger] r[i].1 || r[i + 1].1) by {
                if i + 1 < r.len() - 1 {
                    assert(kept[i].1 || kept[i + 1].1);
                }
            }
        }
    } else if es.len() == 0 {
    } else if es.last().1 {
        assert(r.drop_last() =~= es);
        assert(window_shape(r)) by {
            assert forall|i: int| 0 <= i < r.len() - 1 implies (#[trigger] r[i].1 || r[i + 1].1) by {
                if i + 1 < r.len() - 1 {
                    assert(es[i].1 || es[i + 1].1);
                }
            }
        }
    } else {
        assert(r.drop_last() =~= es.drop_last());
        assert(es.drop_last() =~= es.drop_last());
        assert(window_shape(r)) by {
            assert forall|i: int| 0 <= i < r.len() - 1 implies (#[trigger] r[i].1 || r[i + 1].1) by {
                assert(es[i].1 || es[i + 1].1);
            }
        }
    }
}

/// The live entries of a fresh window with quota `n` after it has taken the
/// tokens `ts` in order.
pub open spec fn window_run(ts: Seq<Entry>, n: nat) -> Seq<Entry>
    decreases ts.len(),
{
    if ts.len() == 0 {
        Seq::empty()
    } else {
        window_step(window_run(ts.drop_last(), n), n, ts.last().0, ts.last().1)
    }
}

/// A window fed the tokens `ts` holds as many words as `ts` does, capped at
/// the quota; so it shows a phrase exactly on a word token that brings the
/// number of words seen to the quota or beyond, and never on a separator.
pub proof fn lemma_window_completeness(ts: Seq<Entry>, n: nat)
    requires
        n >= 1,
    ensures
        well_formed_window(window_run(ts, n), n),
        count_words(window_run(ts, n)) == if count_words(ts) < n {
            count_words(ts)
        } else {
            n
        },
        ts.len() > 0 ==> (window_output(window_run(ts, n), n, ts.last().1) is Some <==> (
        ts.last().1 && count_words(ts) >= n)),
    decreases ts.len(),
{
    if ts.len() > 0 {
        lemma_window_completeness(ts.drop_last(), n);
        lemma_window_step_well_formed(window_run(ts.drop_last(), n), n, ts.last().0, ts.last().1);
    }
}

/// A phrase that a well formed window shows opens with a word entry, ends
/// with the word just taken, holds exactly `n` words, and is the joined text
/// of the live entries.
pub proof fn lemma_phrase_shape(es: Seq<Entry>, n: nat, text: Seq<char>, is_word: bool)
    requires
        n >= 1,
        well_formed_window(es, n),
        window_output(window_step(es, n, text, is_word), n, is_word) is Some,
    ensures
        ({
            let after = window_step(es, n, text, is_word);
            &&& after.len() > 0
            &&& after[0].1
            &&& after.last() == (text, true)
            &&& count_words(after) == n
            &&& window_output(after, n, is_word) == Some(concat_texts(after))
        }),
{
    lemma_window_step_well_formed(es, n, text, is_word);
}

} // verus!
