use vstd::prelude::*;
use crate::window::{
    concat_texts, count_words, evict_oldest, lemma_window_len, lemma_window_step_well_formed,
    well_formed_window, window_output, window_step, Entry,
};

verus! {

/// Index `i` of a ring of `cap` slots, for `0 <= i < 2 * cap`.
pub open spec fn wrap(i: int, cap: int) -> int {
    if i >= cap {
        i - cap
    } else {
        i
    }
}

pub open spec fn entry_view(e: (String, bool)) -> Entry {
    (e.0@, e.1)
}

/// Maintaining the sentence words sequence in a ring buffer with a certain number of words.
/// The sequence starts with a word and ends with word, with non-words (e.g. punctuation or space) in between.
pub struct SentenceRingBuffer {
    /// (word, true - a real word, false - non-word)
    words: Vec<(String, bool)>,
    /// Slot of the oldest live entry.
    head: usize,
    /// Number of live entries.
    len: usize,
    /// Number of words in the ring buffer.
    num_words: usize,
    /// Number of words in a sentence.
    sentence_words_num: usize,
}

impl View for SentenceRingBuffer {
    type V = Seq<Entry>;

    /// The live entries, oldest first.
    closed spec fn view(&self) -> Seq<Entry> {
        Seq::new(self.len as nat, |k: int| entry_view(self.words@[self.slot(k)]))
    }
}

impl SentenceRingBuffer {
    /// Number of words in a sentence.
    pub closed spec fn quota(&self) -> nat {
        self.sentence_words_num as nat
    }

    closed spec fn slot(&self, k: int) -> int {
        wrap(self.head + k, self.words@.len() as int)
    }

    pub closed spec fn wf(&self) -> bool {
        &&& self.sentence_words_num >= 1
        &&& self.sentence_words_num <= usize::MAX / 2
        &&& self.words@.len() == 2 * self.sentence_words_num
        &&& self.head < self.words@.len()
        &&& self.len <= self.words@.len()
        &&& self.num_words == count_words(self@)
        &&& well_formed_window(self@, self.quota())
    }

    pub fn new(sentence_words_num: usize) -> (r: Self)
        requires
            1 <= sentence_words_num <= usize::MAX / 2,
        ensures
            r.wf(),
            r.quota() == sentence_words_num,
            well_formed_window(r@, r.quota()),
            r@ == Seq::<Entry>::empty(),
    {
        let cap: usize = sentence_words_num * 2;
        let mut words: Vec<(String, bool)> = Vec::new();
        let mut i: usize = 0;
        while i < cap
            invariant
                i <= cap,
                words@.len() == i,
            decreases cap - i,
        {
            words.push((String::new(), false));
            i += 1;
        }
        let r = Self { words, head: 0, len: 0, num_words: 0, sentence_words_num };
        assert(r@ =~= Seq::<Entry>::empty());
        r
    }

    fn next_index(&self, index: usize) -> (r: usize)
        requires
            index < self.words@.len(),
        ensures
            r == wrap(index + 1, self.words@.len() as int),
    {
        if index >= self.words.len() - 1 {
            0
        } else {
            index + 1
        }
    }

    /// Slot of the `k`-th live entry.
    fn slot_of(&self, k: usize) -> (r: usize)
        requires
            self.head < self.words@.len(),
            k < self.words@.len(),
        ensures
            r == self.slot(k as int),
            r < self.words@.len(),
    {
        if k >= self.words.len() - self.head {
            k - (self.words.len() - self.head)
        } else {
            self.head + k
        }
    }

    fn create_current_sentence(&self) -> (r: String)
        requires
            self.wf(),
        ensures
            r@ == concat_texts(self@),
    {
        let mut sentence = String::new();
        let mut k: usize = 0;
        let mut scan_index = self.head;
        while k < self.len
            invariant
                self.wf(),
                k <= self.len,
                scan_index == self.slot(k as int),
                sentence@ == concat_texts(self@.subrange(0, k as int)),
            decreases self.len - k,
        {
            assert(self@.subrange(0, k + 1).drop_last() =~= self@.subrange(0, k as int));
            sentence.append(self.words[scan_index].0.as_str());
            scan_index = self.next_index(scan_index);
            k += 1;
        }
        assert(self@.subrange(0, k as int) =~= self@);
        sentence
    }

    /// Removes the oldest live entry.
    fn pop_front(&mut self)
        requires
            old(self).head < old(self).words@.len(),
            old(self).len > 0,
            old(self).len <= old(self).words@.len(),
        ensures
            final(self)@ == old(self)@.subrange(1, old(self)@.len() as int),
            final(self).words == old(self).words,
            final(self).len == old(self).len - 1,
            final(self).head < final(self).words@.len(),
            final(self).num_words == old(self).num_words,
            final(self).sentence_words_num == old(self).sentence_words_num,
    {
        self.head = self.next_index(self.head);
        self.len = self.len - 1;
        assert(self@ =~= old(self)@.subrange(1, old(self)@.len() as int));
    }

    /// Appends an entry after the newest one.
    fn push_back(&mut self, text: String, is_word: bool)
        requires
            old(self).head < old(self).words@.len(),
            old(self).len < old(self).words@.len() <= usize::MAX,
        ensures
            final(self)@ == old(self)@.push((text@, is_word)),
            final(self).words@.len() == old(self).words@.len(),
            final(self).len == old(self).len + 1,
            final(self).head == old(self).head,
            final(self).num_words == old(self).num_words,
            final(self).sentence_words_num == old(self).sentence_words_num,
    {
        let tail = self.slot_of(self.len);
        let ghost t = text@;
        self.words.set(tail, (text, is_word));
        self.len = self.len + 1;
        assert(self@ =~= old(self)@.push((t, is_word)));
    }

    /// Add a word into the ring buffer.
    /// If there are enough words for a sentence in the ring buffer, the sentence is returned.
    pub fn add(&mut self, word: String, is_word: bool) -> (sentence: Option<String>)
        requires
            old(self).wf(),
        ensures
            final(self).wf(),
            final(self).quota() == old(self).quota(),
            well_formed_window(final(self)@, final(self).quota()),
            final(self)@ == window_step(old(self)@, old(self).quota(), word@, is_word),
            window_output(final(self)@, final(self).quota(), is_word) == match sentence {
                Some(s) => Some(s@),
                None => None::<Seq<char>>,
            },
    {
        let ghost es = self@;
        let ghost n = self.quota();
        proof {
            lemma_window_step_well_formed(es, n, word@, is_word);
            lemma_window_len(es);
        }
        let mut sentence: Option<String> = None;
        if is_word {
            // A new word added
            if self.num_words == self.sentence_words_num {
                // There are already enough words in the ring buffer.
                // Pop the oldest word.
                self.pop_front();
                assert(self.len > 0 ==> self@[0] == es[1]);
                // Pop the separator run behind it.
                if self.len > 0 && !self.words[self.head].1 {
                    self.pop_front();
                    assert(self@ =~= es.subrange(2, es.len() as int));
                }
                assert(self@ =~= evict_oldest(es));
            } else {
                // There are not enough words in the ring buffer. Just simply adds the word.
                self.num_words = self.num_words + 1;
            }
            let ghost w = word@;
            self.push_back(word, is_word);
            assert(self@ == window_step(es, n, w, is_word));
            if self.num_words == self.sentence_words_num {
                sentence = Some(self.create_current_sentence());
            }
        } else if self.len > 0 {
            // Only add non-word if there are words in the ring buffer.
            let last = self.slot_of(self.len - 1);
            if self.words[last].1 {
                // Push the non-word if the last is a word.
                self.push_back(word, is_word);
            } else {
                // Concat the non-word if the last is a non-word.
                let mut joined = self.words[last].0.clone();
                joined.append(word.as_str());
                self.words.set(last, (joined, false));
                assert(self@ =~= es.update(es.len() - 1, (es.last().0 + word@, false)));
            }
        }
        sentence
    }
}

} // verus!
