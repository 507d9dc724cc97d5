use vstd::prelude::*;
use crate::state::{State, MAX_ORDER};
use crate::index::{chars_hash, hash_chars, hash_ids, ids_hash, HashIndex};
use crate::text::{chars_of, split_words, words_of};

verus! {

/// Largest magnitude of a stored log-probability or backoff weight.
///
/// Log-probabilities are base-10 logarithms held as integers in millionths
/// (`-0.30103` is `-301030`).
pub const MAX_LOG_MAGNITUDE: i64 = 1_000_000_000_000;

/// Why a model image was refused.
#[derive(Clone, Copy, Debug, PartialEq, Eq)]
pub enum LMError {
    LoadError,
}

impl LMError {
    /// A description of the error for people.
    pub fn message(&self) -> (r: String)
        ensures
            r@ == "Error loading file"@,
    {
        "Error loading file".to_owned()
    }
}

/// One n-gram of a model image: its word ids, oldest first, its
/// log-probability and its backoff weight.
#[derive(Debug)]
pub struct NGram {
    pub ids: Vec<u32>,
    pub prob: i64,
    pub backoff: i64,
}

impl NGram {
    pub open spec fn view(&self) -> (Seq<u32>, int, int) {
        (self.ids@, self.prob as int, self.backoff as int)
    }
}

/// The trailing `k` items of `s`.
pub open spec fn suffix(s: Seq<u32>, k: int) -> Seq<u32> {
    s.subrange(s.len() - k, s.len() as int)
}

pub open spec fn min_nat(a: nat, b: nat) -> nat {
    if a <= b {
        a
    } else {
        b
    }
}

pub open spec fn unk_word() -> Seq<char> {
    seq!['<', 'u', 'n', 'k', '>']
}

pub open spec fn bos_word() -> Seq<char> {
    seq!['<', 's', '>']
}

pub open spec fn eos_word() -> Seq<char> {
    seq!['<', '/', 's', '>']
}

pub open spec fn magnitude_ok(x: int) -> bool {
    -MAX_LOG_MAGNITUDE <= x <= MAX_LOG_MAGNITUDE
}

/// Whether `order`, `vocab` and `grams` form a usable model: the order is
/// between 1 and `MAX_ORDER`; the words are distinct and include the three
/// reserved words; each n-gram has between 1 and `order` known ids, bounded
/// weights and a key of its own; every word has a unigram.
pub open spec fn image_valid(order: nat, vocab: Seq<Seq<char>>, grams: Seq<(Seq<u32>, int, int)>) -> bool {
    &&& 1 <= order <= MAX_ORDER
    &&& vocab.len() <= u32::MAX
    &&& forall|i: int, j: int| 0 <= i < j < vocab.len() ==> vocab[i] != vocab[j]
    &&& vocab.contains(unk_word())
    &&& vocab.contains(bos_word())
    &&& vocab.contains(eos_word())
    &&& forall|i: int| 0 <= i < grams.len() ==> gram_ok(order, vocab.len(), #[trigger] grams[i])
    &&& forall|i: int, j: int| 0 <= i < j < grams.len() ==> grams[i].0 != grams[j].0
    &&& forall|w: u32| w < vocab.len() ==> has_key(grams, #[trigger] seq![w])
}

pub open spec fn gram_ok(order: nat, n_words: nat, g: (Seq<u32>, int, int)) -> bool {
    &&& 1 <= g.0.len() <= order
    &&& forall|j: int| 0 <= j < g.0.len() ==> g.0[j] < n_words
    &&& magnitude_ok(g.1)
    &&& magnitude_ok(g.2)
}

/// The character sequences of the strings `words`.
pub open spec fn words_view(words: Seq<String>) -> Seq<Seq<char>> {
    words.map_values(|w: String| w@)
}

/// The character sequences of `words`.
pub open spec fn chars_view(words: Seq<Vec<char>>) -> Seq<Seq<char>> {
    words.map_values(|w: Vec<char>| w@)
}

/// The (ids, log-probability, backoff) triples of `grams`.
pub open spec fn grams_view(grams: Seq<NGram>) -> Seq<(Seq<u32>, int, int)> {
    grams.map_values(|g: NGram| g@)
}

pub open spec fn has_key(grams: Seq<(Seq<u32>, int, int)>, s: Seq<u32>) -> bool {
    exists|i: int| 0 <= i < grams.len() && grams[i].0 == s
}

/// A statistical n-gram language model: a vocabulary and a table of
/// n-grams with log-probabilities and backoff weights.
pub struct LanguageModel {
    order: usize,
    words: Vec<Vec<char>>,
    unk: u32,
    bos: u32,
    eos: u32,
    grams: Vec<NGram>,
    word_index: HashIndex,
    gram_index: HashIndex,
}

impl LanguageModel {
    /// The model's maximum n-gram order.
    pub closed spec fn order(&self) -> nat {
        self.order as nat
    }

    /// The vocabulary; a word's id is its position.
    pub closed spec fn vocab(&self) -> Seq<Seq<char>> {
        self.words@.map_values(|w: Vec<char>| w@)
    }

    /// The n-gram table.
    pub closed spec fn grams(&self) -> Seq<(Seq<u32>, int, int)> {
        self.grams@.map_values(|g: NGram| g@)
    }

    pub closed spec fn unk_id(&self) -> u32 {
        self.unk
    }

    pub closed spec fn bos_id(&self) -> u32 {
        self.bos
    }

    pub closed spec fn eos_id(&self) -> u32 {
        self.eos
    }

    /// The hash indexes hold every word and every n-gram under its hash.
    pub closed spec fn indexed(&self) -> bool {
        &&& forall|a: int|
            0 <= a < self.words@.len() ==> self.word_index.holds(
                chars_hash(#[trigger] self.words@[a]@),
                a as usize,
            )
        &&& forall|a: int|
            0 <= a < self.grams@.len() ==> self.gram_index.holds(
                ids_hash(#[trigger] self.grams@[a].ids@),
                a as usize,
            )
    }

    pub open spec fn wf(&self) -> bool {
        &&& self.indexed()
        &&& image_valid(self.order(), self.vocab(), self.grams())
        &&& self.vocab()[self.unk_id() as int] == unk_word()
        &&& self.vocab()[self.bos_id() as int] == bos_word()
        &&& self.vocab()[self.eos_id() as int] == eos_word()
        &&& self.unk_id() < self.vocab().len()
        &&& self.bos_id() < self.vocab().len()
        &&& self.eos_id() < self.vocab().len()
    }

    /// Whether the table has an entry for `s`.
    pub open spec fn has(&self, s: Seq<u32>) -> bool {
        has_key(self.grams(), s)
    }

    pub open spec fn entry_of(&self, s: Seq<u32>) -> (Seq<u32>, int, int) {
        self.grams()[choose|i: int| 0 <= i < self.grams().len() && self.grams()[i].0 == s]
    }

    pub open spec fn prob_of(&self, s: Seq<u32>) -> int {
        self.entry_of(s).1
    }

    /// The backoff weight of context `s`; zero where `s` has no entry.
    pub open spec fn backoff_of(&self, s: Seq<u32>) -> int {
        if self.has(s) {
            self.entry_of(s).2
        } else {
            0
        }
    }

    /// The id of `word`, or the unknown id where the vocabulary lacks it.
    pub open spec fn index_of(&self, word: Seq<char>) -> u32 {
        if self.vocab().contains(word) {
            (choose|i: int| 0 <= i < self.vocab().len() && self.vocab()[i] == word) as u32
        } else {
            self.unk_id()
        }
    }

    /// `w` where it is a known id, else the unknown id.
    pub open spec fn effective_id(&self, w: u32) -> u32 {
        if w < self.vocab().len() {
            w
        } else {
            self.unk_id()
        }
    }

    /// Backoff log-probability of the last id of `g`, looking first for the
    /// trailing `k` ids of `g` and then for ever shorter ones.
    pub open spec fn backoff_prob(&self, g: Seq<u32>, k: nat) -> int
        decreases k,
    {
        if k <= 1 {
            self.prob_of(suffix(g, 1))
        } else if self.has(suffix(g, k as int)) {
            self.prob_of(suffix(g, k as int))
        } else {
            self.backoff_of(suffix(g.drop_last(), k - 1)) + self.backoff_prob(g, (k - 1) as nat)
        }
    }

    /// The order at which `backoff_prob(g, k)` found its entry.
    pub open spec fn matched_order(&self, g: Seq<u32>, k: nat) -> nat
        decreases k,
    {
        if k <= 1 {
            1
        } else if self.has(suffix(g, k as int)) {
            k
        } else {
            self.matched_order(g, (k - 1) as nat)
        }
    }

    /// The context followed by the word scored.
    pub open spec fn full_seq(&self, ctx: Seq<u32>, w: u32) -> Seq<u32> {
        ctx.push(self.effective_id(w))
    }

    /// The highest order tried for a word after `ctx`.
    pub open spec fn top_order(&self, ctx: Seq<u32>) -> nat {
        min_nat(self.order(), ctx.len() + 1)
    }

    /// Log-probability of word `w` after context `ctx`.
    pub open spec fn word_prob(&self, ctx: Seq<u32>, w: u32) -> int {
        self.backoff_prob(self.full_seq(ctx, w), self.top_order(ctx))
    }

    /// Total log-probability of scoring `ids` one after another from `ctx`.
    pub open spec fn seq_prob(&self, ctx: Seq<u32>, ids: Seq<u32>) -> int
        decreases ids.len(),
    {
        if ids.len() == 0 {
            0
        } else {
            self.word_prob(ctx, ids[0]) + self.seq_prob(self.next_context(ctx, ids[0]), ids.drop_first())
        }
    }

    /// The context after scoring `ids` one after another from `ctx`.
    pub open spec fn seq_end(&self, ctx: Seq<u32>, ids: Seq<u32>) -> Seq<u32>
        decreases ids.len(),
    {
        if ids.len() == 0 {
            ctx
        } else {
            self.seq_end(self.next_context(ctx, ids[0]), ids.drop_first())
        }
    }

    /// The ids of `ws`, word by word.
    pub open spec fn ids_of(&self, ws: Seq<Seq<char>>) -> Seq<u32> {
        ws.map_values(|w: Seq<char>| self.index_of(w))
    }

    /// The context a sentence starts from.
    pub open spec fn start_context(&self, bos: bool) -> Seq<u32> {
        if bos {
            seq![self.bos_id()]
        } else {
            Seq::empty()
        }
    }

    /// Log-probability of the words `ws`, starting from the sentence start
    /// where `bos` holds, and followed by the end-of-sentence id where `eos`
    /// holds.
    pub open spec fn words_prob(&self, ws: Seq<Seq<char>>, bos: bool, eos: bool) -> int {
        let ids = self.ids_of(ws);
        let c0 = self.start_context(bos);
        self.seq_prob(c0, ids) + if eos {
            self.word_prob(self.seq_end(c0, ids), self.eos_id())
        } else {
            0
        }
    }

    /// Log-probability of the whitespace-delimited words of `s`.
    pub open spec fn sentence_prob(&self, s: Seq<char>, bos: bool, eos: bool) -> int {
        self.words_prob(words_of(s), bos, eos)
    }

    /// The context after scoring `w` after `ctx`: the trailing ids of the
    /// matched n-gram, at most one fewer than the model's order.
    pub open spec fn next_context(&self, ctx: Seq<u32>, w: u32) -> Seq<u32> {
        let full = self.full_seq(ctx, w);
        suffix(full, min_nat((self.order() - 1) as nat, self.matched_order(full, self.top_order(ctx))) as int)
    }
}


fn same_ids(a: &Vec<u32>, b: &Vec<u32>) -> (r: bool)
    ensures
        r == (a@ == b@),
{
    if a.len() != b.len() {
        return false;
    }
    let mut i: usize = 0;
    while i < a.len()
        invariant
            a@.len() == b@.len(),
            i <= a@.len(),
            forall|j: int| 0 <= j < i ==> a@[j] == b@[j],
        decreases a@.len() - i,
    {
        if a[i] != b[i] {
            return false;
        }
        i = i + 1;
    }
    assert(a@ =~= b@);
    true
}

pub(crate) fn same_chars(a: &Vec<char>, b: &Vec<char>) -> (r: bool)
    ensures
        r == (a@ == b@),
{
    if a.len() != b.len() {
        return false;
    }
    let mut i: usize = 0;
    while i < a.len()
        invariant
            a@.len() == b@.len(),
            i <= a@.len(),
            forall|j: int| 0 <= j < i ==> a@[j] == b@[j],
        decreases a@.len() - i,
    {
        if a[i] != b[i] {
            return false;
        }
        i = i + 1;
    }
    assert(a@ =~= b@);
    true
}

/// The position of `w` among the first `limit` words, found through
/// `idx`, which holds each of them under its hash.
pub(crate) fn find_word(words: &Vec<Vec<char>>, idx: &HashIndex, w: &Vec<char>, limit: usize) -> (r:
    Option<usize>)
    requires
        limit <= words@.len(),
        forall|a: int| 0 <= a < limit ==> idx.holds(chars_hash(#[trigger] words@[a]@), a as usize),
    ensures
        r matches Some(i) ==> i < limit && words@[i as int]@ == w@,
        r is None ==> forall|j: int| 0 <= j < limit ==> words@[j]@ != w@,
{
    let h = hash_chars(w);
    match idx.bucket(h) {
        None => {
            proof {
                assert forall|j: int| 0 <= j < limit implies words@[j]@ != w@ by {
                    if words@[j]@ == w@ {
                        assert(idx.holds(chars_hash(words@[j]@), j as usize));
                    }
                }
            }
            None
        },
        Some(b) => {
            let mut t: usize = 0;
            while t < b.len()
                invariant
                    limit <= words@.len(),
                    forall|s: int| 0 <= s < t ==> !(b@[s] < limit && words@[b@[s] as int]@ == w@),
                    t <= b@.len(),
                decreases b@.len() - t,
            {
                let j = b[t];
                if j < limit && same_chars(&words[j], w) {
                    return Some(j);
                }
                t = t + 1;
            }
            proof {
                assert forall|j: int| 0 <= j < limit implies words@[j]@ != w@ by {
                    if words@[j]@ == w@ {
                        assert(idx.holds(chars_hash(words@[j]@), j as usize));
                        assert(b@.contains(j as usize));
                        let s = choose|s: int| 0 <= s < b@.len() && b@[s] == j as usize;
                        assert(!(b@[s] < limit && words@[b@[s] as int]@ == w@));
                    }
                }
            }
            None
        },
    }
}

/// The position of the n-gram with ids `q` among the first `limit`, found
/// through `idx`, which holds each of them under its hash.
fn find_gram(grams: &Vec<NGram>, idx: &HashIndex, q: &Vec<u32>, limit: usize) -> (r: Option<usize>)
    requires
        limit <= grams@.len(),
        forall|a: int| 0 <= a < limit ==> idx.holds(ids_hash(#[trigger] grams@[a].ids@), a as usize),
    ensures
        r matches Some(i) ==> i < limit && grams@[i as int].ids@ == q@,
        r is None ==> forall|j: int| 0 <= j < limit ==> grams@[j].ids@ != q@,
{
    let h = hash_ids(q);
    match idx.bucket(h) {
        None => {
            proof {
                assert forall|j: int| 0 <= j < limit implies grams@[j].ids@ != q@ by {
                    if grams@[j].ids@ == q@ {
                        assert(idx.holds(ids_hash(grams@[j].ids@), j as usize));
                    }
                }
            }
            None
        },
        Some(b) => {
            let mut t: usize = 0;
            while t < b.len()
                invariant
                    limit <= grams@.len(),
                    forall|s: int| 0 <= s < t ==> !(b@[s] < limit && grams@[b@[s] as int].ids@ == q@),
                    t <= b@.len(),
                decreases b@.len() - t,
            {
                let j = b[t];
                if j < limit && same_ids(&grams[j].ids, q) {
                    return Some(j);
                }
                t = t + 1;
            }
            proof {
                assert forall|j: int| 0 <= j < limit implies grams@[j].ids@ != q@ by {
                    if grams@[j].ids@ == q@ {
                        assert(idx.holds(ids_hash(grams@[j].ids@), j as usize));
                        assert(b@.contains(j as usize));
                        let s = choose|s: int| 0 <= s < b@.len() && b@[s] == j as usize;
                        assert(!(b@[s] < limit && grams@[b@[s] as int].ids@ == q@));
                    }
                }
            }
            None
        },
    }
}

/// The trailing `k` ids of `s`.
fn suffix_vec(s: &Vec<u32>, k: usize) -> (r: Vec<u32>)
    requires
        k <= s@.len(),
    ensures
        r@ == suffix(s@, k as int),
{
    let mut r: Vec<u32> = Vec::new();
    let start = s.len() - k;
    let mut i: usize = start;
    while i < s.len()
        invariant
            start == s@.len() - k,
            start <= i <= s@.len(),
            r@ == s@.subrange(start as int, i as int),
        decreases s@.len() - i,
    {
        r.push(s[i]);
        assert(r@ =~= s@.subrange(start as int, i + 1));
        i = i + 1;
    }
    r
}

/// A copy of `s` without its last id.
fn without_last(s: &Vec<u32>) -> (r: Vec<u32>)
    requires
        s@.len() >= 1,
    ensures
        r@ == s@.drop_last(),
{
    let mut r: Vec<u32> = Vec::new();
    let mut i: usize = 0;
    while i < s.len() - 1
        invariant
            s@.len() >= 1,
            i <= s@.len() - 1,
            r@ == s@.subrange(0, i as int),
        decreases s@.len() - i,
    {
        r.push(s[i]);
        assert(r@ =~= s@.subrange(0, i + 1));
        i = i + 1;
    }
    assert(r@ =~= s@.drop_last());
    r
}

impl LanguageModel {
    proof fn lemma_entry(&self, i: int)
        requires
            self.wf(),
            0 <= i < self.grams@.len(),
        ensures
            self.has(self.grams@[i].ids@),
            self.entry_of(self.grams@[i].ids@) == self.grams@[i]@,
            magnitude_ok(self.grams@[i].prob as int),
            magnitude_ok(self.grams@[i].backoff as int),
    {
        let g = self.grams();
        assert(g[i] == self.grams@[i]@);
        assert(g[i].0 == self.grams@[i].ids@);
        assert(gram_ok(self.order(), self.vocab().len(), g[i]));
        let s = self.grams@[i].ids@;
        let j = choose|j: int| 0 <= j < g.len() && g[j].0 == s;
        if j != i {
            if j < i {
                assert(g[j].0 != g[i].0);
            } else {
                assert(g[i].0 != g[j].0);
            }
        }
    }

    /// Index of the entry for `q`, if the table has one.
    fn find(&self, q: &Vec<u32>) -> (r: Option<usize>)
        requires
            self.wf(),
        ensures
            r matches Some(i) ==> i < self.grams@.len() && self.grams@[i as int].ids@ == q@
                && self.has(q@),
            r is None ==> !self.has(q@),
    {
        let r = find_gram(&self.grams, &self.gram_index, q, self.grams.len());
        proof {
            if r is None {
                if self.has(q@) {
                    let i = choose|i: int| 0 <= i < self.grams().len() && self.grams()[i].0 == q@;
                    assert(self.grams()[i] == self.grams@[i]@);
                }
            } else {
                let i = r.unwrap() as int;
                assert(self.grams()[i] == self.grams@[i]@);
            }
        }
        r
    }

    /// The backoff weight of context `q` (zero where it has no entry).
    fn backoff_at(&self, q: &Vec<u32>) -> (r: i64)
        requires
            self.wf(),
        ensures
            r == self.backoff_of(q@),
            magnitude_ok(r as int),
    {
        match self.find(q) {
            Some(i) => {
                proof {
                    self.lemma_entry(i as int);
                }
                self.grams[i].backoff
            },
            None => 0,
        }
    }

    /// Scores word id `w` after context `state`: its log-probability, by
    /// backoff from the longest matching n-gram, and the context to carry
    /// forward. An id outside the vocabulary is scored as the unknown word.
    pub fn score_word(&self, state: &State, w: u32) -> (r: (i64, State))
        requires
            self.wf(),
            state.wf(),
        ensures
            r.0 == self.word_prob(state@, w),
            r.1.wf(),
            r.1@ == self.next_context(state@, w),
            -(MAX_ORDER as int) * MAX_LOG_MAGNITUDE <= r.0 <= (MAX_ORDER as int) * MAX_LOG_MAGNITUDE,
    {
        let wid: u32 = if (w as usize) < self.words.len() {
            w
        } else {
            self.unk
        };
        assert(self.vocab().len() == self.words@.len());
        assert(wid == self.effective_id(w));
        let mut full: Vec<u32> = Vec::new();
        let mut i: usize = 0;
        let n = state.len();
        while i < n
            invariant
                state.wf(),
                n == state@.len(),
                i <= n,
                full@ == state@.subrange(0, i as int),
            decreases n - i,
        {
            full.push(state.get(i));
            assert(full@ =~= state@.subrange(0, i + 1));
            i = i + 1;
        }
        assert(full@ =~= state@);
        full.push(wid);
        let ghost g = full@;
        assert(g == self.full_seq(state@, w));
        let top: usize = if self.order <= full.len() {
            self.order
        } else {
            full.len()
        };
        assert(top == self.top_order(state@));
        let ctx = without_last(&full);
        let mut k: usize = top;
        let mut acc: i64 = 0;
        while k > 1
            invariant
                self.wf(),
                g == full@,
                g == self.full_seq(state@, w),
                top == self.top_order(state@),
                ctx@ == g.drop_last(),
                1 <= k <= top <= MAX_ORDER,
                top <= g.len(),
                acc + self.backoff_prob(g, k as nat) == self.backoff_prob(g, top as nat),
                self.matched_order(g, k as nat) == self.matched_order(g, top as nat),
                -((top - k) as int) * MAX_LOG_MAGNITUDE <= acc <= ((top - k) as int) * MAX_LOG_MAGNITUDE,
            decreases k,
        {
            let q = suffix_vec(&full, k);
            match self.find(&q) {
                Some(j) => {
                    proof {
                        self.lemma_entry(j as int);
                        assert(self.has(suffix(g, k as int)));
                        assert(self.backoff_prob(g, k as nat) == self.prob_of(suffix(g, k as int)));
                        assert(self.matched_order(g, k as nat) == k);
                    }
                    let p = self.grams[j].prob;
                    let keep: usize = if self.order - 1 <= k {
                        self.order - 1
                    } else {
                        k
                    };
                    let kept = suffix_vec(&full, keep);
                    return (acc + p, State::from_ids(&kept));
                },
                None => {},
            }
            let c = suffix_vec(&ctx, k - 1);
            let b = self.backoff_at(&c);
            assert(self.backoff_prob(g, k as nat) == b + self.backoff_prob(g, (k - 1) as nat));
            assert(self.matched_order(g, k as nat) == self.matched_order(g, (k - 1) as nat));
            acc = acc + b;
            k = k - 1;
        }
        let q = suffix_vec(&full, 1);
        assert(q@ =~= seq![wid]);
        let j = match self.find(&q) {
            Some(j) => j,
            None => {
                proof {
                    assert(wid < self.vocab().len());
                    assert(has_key(self.grams(), seq![wid]));
                }
                return (0, State::new());
            },
        };
        proof {
            self.lemma_entry(j as int);
            assert(self.backoff_prob(g, 1) == self.prob_of(suffix(g, 1)));
        }
        let p = self.grams[j].prob;
        let keep: usize = if self.order - 1 <= 1 {
            self.order - 1
        } else {
            1
        };
        let kept = suffix_vec(&full, keep);
        (acc + p, State::from_ids(&kept))
    }
}


fn gram_fits(order: usize, n_words: usize, g: &NGram) -> (r: bool)
    ensures
        r == gram_ok(order as nat, n_words as nat, g@),
{
    if g.ids.len() < 1 || g.ids.len() > order {
        return false;
    }
    if g.prob < -MAX_LOG_MAGNITUDE || g.prob > MAX_LOG_MAGNITUDE || g.backoff < -MAX_LOG_MAGNITUDE
        || g.backoff > MAX_LOG_MAGNITUDE {
        return false;
    }
    let mut j: usize = 0;
    while j < g.ids.len()
        invariant
            j <= g.ids@.len(),
            forall|t: int| 0 <= t < j ==> g.ids@[t] < n_words,
        decreases g.ids@.len() - j,
    {
        if g.ids[j] as usize >= n_words {
            return false;
        }
        j = j + 1;
    }
    true
}

/// Position of reserved word `w` in `words`, all of whose first `n` words
/// are distinct.
fn find_reserved(words: &Vec<Vec<char>>, idx: &HashIndex, w: &str) -> (r: Option<u32>)
    requires
        words@.len() <= u32::MAX,
        forall|a: int| 0 <= a < words@.len() ==> idx.holds(chars_hash(#[trigger] words@[a]@), a as usize),
    ensures
        r matches Some(i) ==> i < words@.len() && words@[i as int]@ == w@,
        r is None ==> !words@.map_values(|v: Vec<char>| v@).contains(w@),
{
    let c = chars_of(w);
    match find_word(words, idx, &c, words.len()) {
        Some(i) => Some(i as u32),
        None => {
            proof {
                let v = words@.map_values(|v: Vec<char>| v@);
                if v.contains(w@) {
                    let j = choose|j: int| 0 <= j < v.len() && v[j] == w@;
                    assert(words@[j]@ == w@);
                }
            }
            None
        },
    }
}

impl LanguageModel {
    /// Builds a model from its image: the maximum order, the vocabulary
    /// (a word's id is its position) and the n-grams. Refuses with
    /// `LoadError` exactly the images that `image_valid` rejects.
    pub fn from_image(order: usize, words: Vec<String>, grams: Vec<NGram>) -> (r: Result<
        LanguageModel,
        LMError,
    >)
        ensures
            r is Ok <==> image_valid(order as nat, words_view(words@), grams_view(grams@)),
            r matches Ok(m) ==> {
                &&& m.wf()
                &&& m.order() == order
                &&& m.vocab() == words_view(words@)
                &&& m.grams() == grams_view(grams@)
            },
            r matches Err(e) ==> e == LMError::LoadError,
    {
        let ghost wv = words_view(words@);
        let mut cw: Vec<Vec<char>> = Vec::new();
        let mut i: usize = 0;
        while i < words.len()
            invariant
                wv == words_view(words@),
                i <= words@.len(),
                cw@.len() == i,
                forall|a: int| 0 <= a < i ==> #[trigger] cw@[a]@ == wv[a],
            decreases words@.len() - i,
        {
            let c = chars_of(words[i].as_str());
            cw.push(c);
            i = i + 1;
        }
        assert(chars_view(cw@) =~= wv);
        LanguageModel::from_char_image(order, cw, grams)
    }

    /// `from_image` for a vocabulary given as character vectors.
    pub fn from_char_image(order: usize, words: Vec<Vec<char>>, grams: Vec<NGram>) -> (r: Result<
        LanguageModel,
        LMError,
    >)
        ensures
            r is Ok <==> image_valid(order as nat, chars_view(words@), grams_view(grams@)),
            r matches Ok(m) ==> {
                &&& m.wf()
                &&& m.order() == order
                &&& m.vocab() == chars_view(words@)
                &&& m.grams() == grams_view(grams@)
            },
            r matches Err(e) ==> e == LMError::LoadError,
    {
        let ghost wv = chars_view(words@);
        let ghost gv = grams_view(grams@);
        if order < 1 || order > MAX_ORDER {
            return Err(LMError::LoadError);
        }
        if words.len() > 4294967295usize {
            return Err(LMError::LoadError);
        }
        let mut wi = HashIndex::new();
        let mut i: usize = 0;
        while i < words.len()
            invariant
                wv == chars_view(words@),
                words@.len() <= u32::MAX,
                i <= words@.len(),
                forall|a: int, b: int| 0 <= a < b < i ==> wv[a] != wv[b],
                forall|a: int| 0 <= a < i ==> wi.holds(chars_hash(#[trigger] words@[a]@), a as usize),
            decreases words@.len() - i,
        {
            assert(wv[i as int] == words@[i as int]@);
            match find_word(&words, &wi, &words[i], i) {
                Some(j) => {
                    assert(wv[j as int] == wv[i as int]);
                    return Err(LMError::LoadError);
                },
                None => {},
            }
            proof {
                assert forall|a: int, b: int| 0 <= a < b < i + 1 implies wv[a] != wv[b] by {
                    if b == i {
                        assert(words@[a]@ == wv[a]);
                    }
                }
            }
            let h = hash_chars(&words[i]);
            wi.add(h, i);
            i = i + 1;
        }
        let cw = words;
        let unk = match find_reserved(&cw, &wi, "<unk>") {
            Some(x) => x,
            None => {
                proof {
                    reveal_strlit("<unk>");
                    assert("<unk>"@ =~= unk_word());
                }
                return Err(LMError::LoadError);
            },
        };
        let bos = match find_reserved(&cw, &wi, "<s>") {
            Some(x) => x,
            None => {
                proof {
                    reveal_strlit("<s>");
                    assert("<s>"@ =~= bos_word());
                }
                return Err(LMError::LoadError);
            },
        };
        let eos = match find_reserved(&cw, &wi, "</s>") {
            Some(x) => x,
            None => {
                proof {
                    reveal_strlit("</s>");
                    assert("</s>"@ =~= eos_word());
                }
                return Err(LMError::LoadError);
            },
        };
        proof {
            reveal_strlit("<unk>");
            reveal_strlit("<s>");
            reveal_strlit("</s>");
            assert("<unk>"@ =~= unk_word());
            assert("<s>"@ =~= bos_word());
            assert("</s>"@ =~= eos_word());
            assert(wv[unk as int] == unk_word());
            assert(wv[bos as int] == bos_word());
            assert(wv[eos as int] == eos_word());
        }
        let n_words = cw.len();
        let mut gi = HashIndex::new();
        let mut i: usize = 0;
        while i < grams.len()
            invariant
                forall|a: int| 0 <= a < cw@.len() ==> wi.holds(chars_hash(#[trigger] cw@[a]@), a as usize),
                forall|a: int| 0 <= a < i ==> gi.holds(ids_hash(#[trigger] grams@[a].ids@), a as usize),
                gv == grams_view(grams@),
                wv == chars_view(words@),
                n_words == wv.len(),
                i <= grams@.len(),
                forall|a: int| 0 <= a < i ==> gram_ok(order as nat, wv.len(), #[trigger] gv[a]),
                forall|a: int, b: int| 0 <= a < b < i ==> gv[a].0 != gv[b].0,
            decreases grams@.len() - i,
        {
            assert(gv[i as int] == grams@[i as int]@);
            if !gram_fits(order, n_words, &grams[i]) {
                assert(!gram_ok(order as nat, wv.len(), gv[i as int]));
                return Err(LMError::LoadError);
            }
            match find_gram(&grams, &gi, &grams[i].ids, i) {
                Some(j) => {
                    assert(gv[j as int] == grams@[j as int]@);
                    return Err(LMError::LoadError);
                },
                None => {},
            }
            proof {
                assert forall|a: int, b: int| 0 <= a < b < i + 1 implies gv[a].0 != gv[b].0 by {
                    assert(gv[a] == grams@[a]@);
                    assert(gv[b] == grams@[b]@);
                }
            }
            let h = hash_ids(&grams[i].ids);
            gi.add(h, i);
            i = i + 1;
        }
        let mut w: usize = 0;
        while w < n_words
            invariant
                forall|a: int| 0 <= a < cw@.len() ==> wi.holds(chars_hash(#[trigger] cw@[a]@), a as usize),
                forall|a: int| 0 <= a < grams@.len() ==> gi.holds(ids_hash(#[trigger] grams@[a].ids@), a as usize),
                gv == grams_view(grams@),
                wv == chars_view(words@),
                n_words == wv.len() <= u32::MAX,
                w <= n_words,
                forall|v: u32| v < w ==> has_key(gv, #[trigger] seq![v]),
            decreases n_words - w,
        {
            let mut q: Vec<u32> = Vec::new();
            q.push(w as u32);
            assert(q@ =~= seq![w as u32]);
            match find_gram(&grams, &gi, &q, grams.len()) {
                Some(j) => {
                    assert(gv[j as int] == grams@[j as int]@);
                },
                None => {
                    proof {
                        if has_key(gv, seq![w as u32]) {
                            let j = choose|j: int| 0 <= j < gv.len() && gv[j].0 == seq![w as u32];
                            assert(gv[j] == grams@[j]@);
                        }
                        assert(!has_key(gv, seq![w as u32]));
                    }
                    return Err(LMError::LoadError);
                },
            }
            w = w + 1;
        }
        let m = LanguageModel { order, words: cw, unk, bos, eos, grams, word_index: wi, gram_index: gi };
        assert(m.vocab() =~= wv);
        assert(m.grams() =~= gv);
        Ok(m)
    }

    /// The id of `word`; the unknown id where the vocabulary lacks it.
    pub fn vocab_index(&self, word: &str) -> (r: u32)
        requires
            self.wf(),
        ensures
            r == self.index_of(word@),
    {
        let c = chars_of(word);
        self.index_chars(&c)
    }

    fn index_chars(&self, c: &Vec<char>) -> (r: u32)
        requires
            self.wf(),
        ensures
            r == self.index_of(c@),
    {
        let ghost word = c@;
        assert(self.vocab().len() == self.words@.len());
        match find_word(&self.words, &self.word_index, c, self.words.len()) {
            Some(i) => {
                proof {
                    assert(self.vocab()[i as int] == word);
                    let j = choose|j: int| 0 <= j < self.vocab().len() && self.vocab()[j] == word;
                    if j != i {
                        if j < i {
                            assert(self.vocab()[j] != self.vocab()[i as int]);
                        } else {
                            assert(self.vocab()[i as int] != self.vocab()[j]);
                        }
                    }
                }
                i as u32
            },
            None => {
                proof {
                    if self.vocab().contains(word) {
                        let j = choose|j: int| 0 <= j < self.vocab().len() && self.vocab()[j] == word;
                        assert(self.words@[j]@ == word);
                    }
                }
                self.unk
            },
        }
    }

    /// The unknown word's id.
    pub fn unknown_id(&self) -> (r: u32)
        ensures
            r == self.unk_id(),
    {
        self.unk
    }

    /// The begin-of-sentence id.
    pub fn begin_sentence_id(&self) -> (r: u32)
        ensures
            r == self.bos_id(),
    {
        self.bos
    }

    /// The end-of-sentence id.
    pub fn end_sentence_id(&self) -> (r: u32)
        ensures
            r == self.eos_id(),
    {
        self.eos
    }

    /// The model's maximum order.
    pub fn max_order(&self) -> (r: usize)
        ensures
            r == self.order(),
    {
        self.order
    }

    /// The context at the start of a sentence: the begin-of-sentence id.
    pub open spec fn begin_context(&self) -> Seq<u32> {
        seq![self.bos_id()]
    }

    /// Sets `state` to the start of a sentence.
    pub fn begin_sentence_write(&self, state: &mut State)
        ensures
            final(state).wf(),
            final(state)@ == self.begin_context(),
    {
        let mut v: Vec<u32> = Vec::new();
        v.push(self.bos);
        assert(v@ =~= seq![self.bos]);
        *state = State::from_ids(&v);
    }

    /// Sets `state` to the empty context: no known history.
    pub fn null_context_write(&self, state: &mut State)
        ensures
            final(state).wf(),
            final(state)@ == Seq::<u32>::empty(),
    {
        *state = State::new();
    }

    /// Scores `word` after `in_state`, writes the context that follows it
    /// to `out_state`, and returns its log-probability.
    pub fn base_score(&self, in_state: &State, word: &str, out_state: &mut State) -> (r: i64)
        requires
            self.wf(),
            in_state.wf(),
        ensures
            r == self.word_prob(in_state@, self.index_of(word@)),
            final(out_state).wf(),
            final(out_state)@ == self.next_context(in_state@, self.index_of(word@)),
    {
        let wid = self.vocab_index(word);
        let (p, st) = self.score_word(in_state, wid);
        *out_state = st;
        p
    }
}


impl LanguageModel {
    fn score_words(&self, words: &Vec<Vec<char>>, bos: bool, eos: bool) -> (r: i128)
        requires
            self.wf(),
        ensures
            r == self.words_prob(words@.map_values(|w: Vec<char>| w@), bos, eos),
            -(words@.len() + 1) * 6_000_000_000_000 <= r <= (words@.len() + 1) * 6_000_000_000_000,
    {
        let ghost ws = words@.map_values(|w: Vec<char>| w@);
        let ghost ids = self.ids_of(ws);
        let ghost c0 = self.start_context(bos);
        let mut st = State::new();
        if bos {
            self.begin_sentence_write(&mut st);
        } else {
            self.null_context_write(&mut st);
        }
        assert(st@ =~= c0);
        let n = words.len();
        assert(ids.subrange(0, n as int) =~= ids);
        let mut total: i128 = 0;
        let mut i: usize = 0;
        while i < n
            invariant
                self.wf(),
                st.wf(),
                n == words@.len() == ids.len(),
                ws == words@.map_values(|w: Vec<char>| w@),
                ids == self.ids_of(ws),
                i <= n,
                total + self.seq_prob(st@, ids.subrange(i as int, n as int)) == self.seq_prob(c0, ids),
                self.seq_end(st@, ids.subrange(i as int, n as int)) == self.seq_end(c0, ids),
                -(i as int) * 6_000_000_000_000 <= total <= (i as int) * 6_000_000_000_000,
            decreases n - i,
        {
            let wid = self.index_chars(&words[i]);
            assert(wid == ids[i as int]);
            let ghost rest = ids.subrange(i as int, n as int);
            assert(rest.drop_first() =~= ids.subrange(i + 1, n as int));
            let (p, next) = self.score_word(&st, wid);
            total = total + p as i128;
            st = next;
            i = i + 1;
        }
        assert(ids.subrange(n as int, n as int) =~= Seq::<u32>::empty());
        if eos {
            let (p, _next) = self.score_word(&st, self.eos);
            total = total + p as i128;
        }
        total
    }

    /// Log-probability of the whitespace-delimited words of `sentence`:
    /// scored from the sentence start where `bos` holds (else from no
    /// history), each word after the context the previous one left, and
    /// followed by the end-of-sentence id where `eos` holds.
    pub fn score(&self, sentence: &str, bos: bool, eos: bool) -> (r: i128)
        requires
            self.wf(),
        ensures
            r == self.sentence_prob(sentence@, bos, eos),
    {
        let words = split_words(sentence);
        assert(words@.map_values(|w: Vec<char>| w@) =~= words_of(sentence@));
        self.score_words(&words, bos, eos)
    }

    /// The parts of the perplexity of `sentence`: the negated total
    /// log-probability with both sentence markers, and the number of words
    /// `n`. The perplexity is `10^(parts.0 / (1_000_000 * (n + 1)))`, the end of
    /// sentence counting as one more word.
    pub fn perplexity_parts(&self, sentence: &str) -> (r: (i128, usize))
        requires
            self.wf(),
        ensures
            r.0 == -self.sentence_prob(sentence@, true, true),
            r.1 == words_of(sentence@).len(),
    {
        let words = split_words(sentence);
        assert(words@.map_values(|w: Vec<char>| w@) =~= words_of(sentence@));
        let n = words.len();
        let total = self.score_words(&words, true, true);
        assert(-((n + 1) as int) * 6_000_000_000_000 <= total <= ((n + 1) as int) * 6_000_000_000_000);
        (-total, n)
    }
}

} // verus!
