use vstd::prelude::*;
use crate::model::LanguageModel;
use crate::state::State;
use crate::arpa::arpa_image;
use crate::text::words_of;

verus! {

/// A sentence's score is fixed by the model and the sentence's words
/// alone: two sentences with the same words score the same, however
/// often and in whatever spacing they are scored.
pub proof fn lemma_score_deterministic(
    m: &LanguageModel,
    s1: Seq<char>,
    s2: Seq<char>,
    bos: bool,
    eos: bool,
)
    requires
        words_of(s1) == words_of(s2),
    ensures
        m.sentence_prob(s1, bos, eos) == m.sentence_prob(s2, bos, eos),
{
}

/// Two states with equal id sequences give the same log-probability and
/// the same next context for every word.
pub proof fn lemma_state_equivalence(m: &LanguageModel, a: State, b: State, w: u32)
    requires
        a@ == b@,
    ensures
        m.word_prob(a@, w) == m.word_prob(b@, w),
        m.next_context(a@, w) == m.next_context(b@, w),
{
}

/// A state carries all that later scoring needs: scoring `x` and then
/// `y` from the state that `x` left gives the score, and the final state,
/// of scoring `x ++ y` in one go. So a copy kept at any point continues
/// exactly as the state it was copied from would, whatever was scored
/// from other copies.
pub proof fn lemma_state_continuation(m: &LanguageModel, ctx: Seq<u32>, x: Seq<u32>, y: Seq<u32>)
    ensures
        m.seq_prob(ctx, x + y) == m.seq_prob(ctx, x) + m.seq_prob(m.seq_end(ctx, x), y),
        m.seq_end(ctx, x + y) == m.seq_end(m.seq_end(ctx, x), y),
    decreases x.len(),
{
    if x.len() == 0 {
        assert(x + y =~= y);
    } else {
        let c1 = m.next_context(ctx, x[0]);
        assert((x + y).drop_first() =~= x.drop_first() + y);
        assert((x + y)[0] == x[0]);
        lemma_state_continuation(m, c1, x.drop_first(), y);
    }
}

/// A word missing from the vocabulary is scored exactly as the unknown
/// word, and with no context to use it gets the unknown word's unigram
/// log-probability.
pub proof fn lemma_unknown_word(m: &LanguageModel, ctx: Seq<u32>, word: Seq<char>)
    requires
        m.wf(),
        !m.vocab().contains(word),
    ensures
        m.index_of(word) == m.unk_id(),
        m.word_prob(ctx, m.index_of(word)) == m.word_prob(ctx, m.unk_id()),
        m.top_order(ctx) == 1 ==> m.word_prob(ctx, m.index_of(word)) == m.prob_of(
            seq![m.unk_id()],
        ),
{
    let g = m.full_seq(ctx, m.unk_id());
    assert(m.effective_id(m.unk_id()) == m.unk_id());
    assert(crate::model::suffix(g, 1) =~= seq![m.unk_id()]);
}

/// Two models read from the same ARPA text are the same model: each is the
/// image that the text declares, so they agree in order, vocabulary and
/// n-grams, and hence in every score.
pub proof fn lemma_load_deterministic(t: Seq<char>, m1: &LanguageModel, m2: &LanguageModel)
    requires
        arpa_image(t) matches Some(img) && m1.order() == img.0 && m1.vocab() == img.1
            && m1.grams() == img.2,
        arpa_image(t) matches Some(img) && m2.order() == img.0 && m2.vocab() == img.1
            && m2.grams() == img.2,
    ensures
        m1.order() == m2.order(),
        m1.vocab() == m2.vocab(),
        m1.grams() == m2.grams(),
{
}

} // verus!
