//! The n-gram language model: configuration, the learned table,
//! prediction, generation, and the persisted form.
use vstd::prelude::*;
use vstd::relations::sorted_by;
use crate::rng::SmRng;
use crate::rng::below;
use crate::rng::spec_below;
use crate::rng::draw;
use crate::rng::next_state;
use crate::rng::output_of;
use crate::rng::state_after;
use crate::table::str_eq_exec;
use crate::sample::MAX_CONTEXT_TOTAL;
use crate::sample::spec_weight;
use crate::sample::spec_window_len;
use crate::sample::spec_pick;
use crate::sample::prefix_sum;
use crate::sample::lemma_prefix_sum_mono;
use crate::sample::weight;
use crate::sample::window_len;
use crate::sample::pick;
use crate::table::Candidate;
use crate::table::CandidateV;
use crate::table::ContextEntry;
use crate::table::ContextEntryV;
use crate::table::acc_wf;
use crate::table::cand_le;
use crate::table::cand_order;
use crate::table::context_cands;
use crate::table::counts_bounded;
use crate::table::find_context;
use crate::table::has_context;
use crate::table::lemma_context_cands_at;
use crate::table::lemma_sum_counts_ge_len;
use crate::table::lemma_sum_counts_take_le;
use crate::table::lemma_sum_counts_take_push;
use crate::table::sum_counts;
use crate::table::bump;
use crate::table::cand_count;
use crate::table::copy_candidates;
use crate::table::distinct_strs;
use crate::table::distinct_tokens;
use crate::table::lemma_cand_count_perm;
use crate::table::lemma_context_cands_absent;
use crate::table::lemma_count_le_sum;
use crate::table::lemma_distinct_strs_perm;
use crate::table::lemma_distinct_tokens_perm;
use crate::table::lemma_sum_counts_perm;
use crate::table::lemma_table_count_mapped;
use crate::table::sort_candidates;
use crate::table::sort_strings;
use crate::table::subvec;
use crate::table::extend_vocab;
use crate::table::find_string;
use crate::table::lemma_lex_lt_span;
use crate::table::lex_order;
use crate::table::table_count;
use crate::text::PreStage;
use crate::text::apply_chain;
use crate::text::lex_le;
use crate::text::end_of_string;
use crate::text::end_token;
use crate::text::good_token;
use crate::text::join;
use crate::text::join_tokens;
use crate::text::lemma_tokens_good;
use crate::text::lemma_tokens_of_join;
use crate::text::preprocess;
use crate::text::tokenize;
use crate::text::tokens_of;

verus! {

/// The smoothing scheme a model is configured with. Only additive
/// (Lidstone) smoothing exists, and the maximum-likelihood counts it
/// labels are used as they stand.
#[derive(Clone, Copy, Debug, PartialEq, Eq, Structural)]
pub enum SmoothingType {
    Lidstone,
}

/// An exact positive fraction, used where the reference configuration
/// held a real number: sampling stays exact integer arithmetic.
#[derive(Clone, Copy, Debug, PartialEq, Eq, Structural)]
pub struct Ratio {
    pub num: u64,
    pub den: u64,
}

/// What `predict_next_token` returns for a context never seen in
/// training: the end sentinel (ending generation), or a uniform draw
/// from the vocabulary.
#[derive(Clone, Copy, Debug, PartialEq, Eq, Structural)]
pub enum UnseenPolicy {
    EndSentinel,
    UniformVocabulary,
}

/// Model configuration.
///
/// `top_k` is the fraction of top candidates kept per draw (1 disables
/// truncation); its denominator may be at most 1,000,000. `temperature`
/// is the probability exponent divisor (1 disables scaling); numerator
/// and denominator may each be 1 to 4, so temperatures from 1/4 to 4 in
/// quarter-like steps are representable exactly.
#[derive(Clone, Copy, Debug, PartialEq, Eq, Structural)]
pub struct LidstoneConfig {
    pub n_size: usize,
    pub top_k: Ratio,
    pub temperature: Ratio,
    pub unseen: UnseenPolicy,
}

impl Default for LidstoneConfig {
    /// A bigram model with truncation and scaling disabled.
    fn default() -> (c: LidstoneConfig)
        ensures
            c.n_size == 2,
            c.top_k == (Ratio { num: 1, den: 1 }),
            c.temperature == (Ratio { num: 1, den: 1 }),
            c.unseen == UnseenPolicy::UniformVocabulary,
    {
        LidstoneConfig {
            n_size: 2,
            top_k: Ratio { num: 1, den: 1 },
            temperature: Ratio { num: 1, den: 1 },
            unseen: UnseenPolicy::UniformVocabulary,
        }
    }
}

/// Why a configuration was rejected.
#[derive(Clone, Copy, Debug, PartialEq, Eq, Structural)]
pub enum ConfigError {
    InvalidNSize,
    InvalidTopK,
    InvalidTemperature,
}

/// Why a build failed: some sentence, at `index` in the corpus, had
/// fewer tokens than the n-gram size after preprocessing.
#[derive(Debug)]
pub enum BuildError {
    SentenceTooShort { index: usize, n_size: usize, sentence: String },
}

/// Why a persisted model was rejected: its structure breaks the
/// documented shape (`Malformed`), or a context has a zero total count
/// (`Corrupt`).
#[derive(Clone, Copy, Debug, PartialEq, Eq, Structural)]
pub enum PersistenceError {
    Malformed,
    Corrupt,
}

/// The top-k fraction is in (0, 1] with a bounded denominator, and the
/// temperature is a positive fraction with numerator and denominator
/// at most 4.
pub open spec fn valid_ratios(top_k: Ratio, temperature: Ratio) -> bool {
    &&& 1 <= top_k.num <= top_k.den <= 1_000_000
    &&& 1 <= temperature.num <= 4
    &&& 1 <= temperature.den <= 4
}

/// A configuration the model accepts.
pub open spec fn valid_config(c: LidstoneConfig) -> bool {
    c.n_size >= 2 && valid_ratios(c.top_k, c.temperature)
}

/// The mathematical value of a [`LidstoneModel`].
pub struct ModelV {
    pub n_size: nat,
    pub top_k: Ratio,
    pub temperature: Ratio,
    pub unseen: UnseenPolicy,
    pub vocabulary: Seq<Seq<char>>,
    pub table: Seq<ContextEntryV>,
    pub start_contexts: Seq<Seq<char>>,
}

/// An n-gram language model: configuration, the learned
/// context-to-candidates table, the vocabulary, and the per-sentence
/// start contexts used to seed generation.
pub struct LidstoneModel {
    n_size: usize,
    top_k: Ratio,
    temperature: Ratio,
    unseen: UnseenPolicy,
    vocabulary: Vec<String>,
    table: Vec<ContextEntry>,
    start_contexts: Vec<String>,
}

impl View for LidstoneModel {
    type V = ModelV;

    closed spec fn view(&self) -> ModelV {
        ModelV {
            n_size: self.n_size as nat,
            top_k: self.top_k,
            temperature: self.temperature,
            unseen: self.unseen,
            vocabulary: self.vocabulary.deep_view(),
            table: self.table.deep_view(),
            start_contexts: self.start_contexts.deep_view(),
        }
    }
}

/// Well-formedness of a model: a valid configuration, and a table whose
/// rows have distinct contexts and nonempty candidate lists with
/// distinct tokens, positive counts, bounded totals, and the canonical
/// order (descending count, ascending token). Start contexts carry
/// exactly `n_size - 1` tokens each. The vocabulary is sorted and
/// deduplicated, and holds every token the table mentions, in candidate
/// lists and in context keys alike.
pub open spec fn wf(m: ModelV) -> bool {
    &&& m.n_size >= 2
    &&& valid_ratios(m.top_k, m.temperature)
    &&& acc_wf(m.table)
    &&& counts_bounded(m.table, MAX_CONTEXT_TOTAL as nat)
    &&& forall|i: int|
        0 <= i < m.table.len() ==> sum_counts((#[trigger] m.table[i]).candidates)
            <= MAX_CONTEXT_TOTAL
    &&& forall|i: int|
        0 <= i < m.table.len() ==> sorted_by((#[trigger] m.table[i]).candidates, cand_order())
    &&& forall|i: int|
        0 <= i < m.start_contexts.len() ==> tokens_of(#[trigger] m.start_contexts[i]).len()
            == m.n_size - 1
    &&& sorted_by(m.vocabulary, lex_order())
    &&& distinct_strs(m.vocabulary)
    &&& forall|i: int, j: int|
        0 <= i < m.table.len() && 0 <= j < m.table[i].candidates.len() ==> m.vocabulary.contains(
            #[trigger] m.table[i].candidates[j].token,
        )
    &&& forall|i: int, t: Seq<char>|
        0 <= i < m.table.len() && #[trigger] tokens_of(m.table[i].context).contains(t)
            ==> m.vocabulary.contains(t)
}

/// What prediction itself needs: a vocabulary to fall back on where the
/// unseen-context policy draws from one.
pub open spec fn can_predict(m: ModelV) -> bool {
    m.unseen == UnseenPolicy::UniformVocabulary ==> m.vocabulary.len() >= 1
}

/// A model that generation can run on: at least one start context, and
/// whatever prediction needs.
pub open spec fn built(m: ModelV) -> bool {
    &&& m.start_contexts.len() >= 1
    &&& can_predict(m)
}

/// The weights of the first `k` candidates, each scaled against the
/// window maximum (the first candidate's count, as the list is sorted).
pub open spec fn spec_weights(cands: Seq<CandidateV>, k: nat, t_num: nat, t_den: nat) -> Seq<u64> {
    Seq::new(
        k,
        |i: int| spec_weight(cands[i].count as nat, cands[0].count as nat, t_num, t_den) as u64,
    )
}

/// The token the sampler chooses for a context and a 64-bit draw `x`.
///
/// For a known context: restrict to the top-k window, weight each
/// candidate (scaled by temperature), and take the first candidate whose
/// cumulative weight exceeds the draw. For an unseen context: the end
/// sentinel, or a uniform vocabulary draw, by the configured policy.
#[verifier::opaque]
pub open spec fn spec_predict(m: ModelV, ctx: Seq<char>, x: u64) -> Seq<char> {
    if !has_context(m.table, ctx) {
        match m.unseen {
            UnseenPolicy::EndSentinel => end_token(),
            UnseenPolicy::UniformVocabulary => m.vocabulary[spec_below(
                x,
                m.vocabulary.len(),
            ) as int],
        }
    } else {
        let cands = context_cands(m.table, ctx);
        let k = spec_window_len(cands.len(), m.top_k.num as nat, m.top_k.den as nat);
        let ws = spec_weights(cands, k, m.temperature.num as nat, m.temperature.den as nat);
        cands[spec_pick(ws, x)].token
    }
}

impl LidstoneModel {
    /// An empty model with the given configuration; training fills it.
    pub fn new(config: LidstoneConfig) -> (m: LidstoneModel)
        requires
            valid_config(config),
        ensures
            wf(m@),
            m@.n_size == config.n_size,
            m@.top_k == config.top_k,
            m@.temperature == config.temperature,
            m@.unseen == config.unseen,
            m@.vocabulary.len() == 0,
            m@.table.len() == 0,
            m@.start_contexts.len() == 0,
    {
        let m = LidstoneModel {
            n_size: config.n_size,
            top_k: config.top_k,
            temperature: config.temperature,
            unseen: config.unseen,
            vocabulary: Vec::new(),
            table: Vec::new(),
            start_contexts: Vec::new(),
        };
        proof {
            assert(m@.table =~= Seq::<ContextEntryV>::empty());
            assert(m@.vocabulary =~= Seq::<Seq<char>>::empty());
            assert(m@.start_contexts =~= Seq::<Seq<char>>::empty());
        }
        m
    }

    /// Validate a configuration, then construct.
    pub fn new_checked(config: LidstoneConfig) -> (r: Result<LidstoneModel, ConfigError>)
        ensures
            match r {
                Ok(m) => valid_config(config) && wf(m@) && m@.n_size == config.n_size && m@.top_k
                    == config.top_k && m@.temperature == config.temperature && m@.unseen
                    == config.unseen && m@.table.len() == 0 && m@.start_contexts.len() == 0
                    && m@.vocabulary.len() == 0,
                Err(ConfigError::InvalidNSize) => config.n_size < 2,
                Err(ConfigError::InvalidTopK) => config.n_size >= 2 && !(1 <= config.top_k.num
                    <= config.top_k.den <= 1_000_000),
                Err(ConfigError::InvalidTemperature) => config.n_size >= 2 && (1 <= config.top_k.num
                    <= config.top_k.den <= 1_000_000) && !(1 <= config.temperature.num <= 4 && 1
                    <= config.temperature.den <= 4),
            },
    {
        if config.n_size < 2 {
            return Err(ConfigError::InvalidNSize);
        }
        if !(1 <= config.top_k.num && config.top_k.num <= config.top_k.den && config.top_k.den
            <= 1_000_000) {
            return Err(ConfigError::InvalidTopK);
        }
        if !(1 <= config.temperature.num && config.temperature.num <= 4 && 1
            <= config.temperature.den && config.temperature.den <= 4) {
            return Err(ConfigError::InvalidTemperature);
        }
        Ok(Self::new(config))
    }

    /// Choose the next token for a context from one 64-bit draw.
    fn choose_next(&self, context: &str, x: u64) -> (t: String)
        requires
            wf(self@),
            can_predict(self@),
        ensures
            t@ == spec_predict(self@, context@, x),
    {
        proof {
            reveal(spec_predict);
        }
        match find_context(&self.table, context) {
            None => {
                proof {
                    assert(!has_context(self@.table, context@)) by {
                        if has_context(self@.table, context@) {
                            let w = choose|w: int|
                                0 <= w < self@.table.len() && self@.table[w].context == context@;
                            assert(self@.table[w].context == context@);
                        }
                    }
                }
                match self.unseen {
                    UnseenPolicy::EndSentinel => String::from_str(end_of_string()),
                    UnseenPolicy::UniformVocabulary => {
                        let i = below(x, self.vocabulary.len());
                        self.vocabulary[i].clone()
                    },
                }
            },
            Some(i) => {
                proof {
                    assert(has_context(self@.table, context@));
                    lemma_context_cands_at(self@.table, i as int);
                }
                let ghost cv = self@.table[i as int].candidates;
                let cands = &self.table[i].candidates;
                proof {
                    assert(cands.deep_view() == cv);
                    assert(cv.len() >= 1);
                    assert(cv[0].count >= 1);
                }
                let k = window_len(cands.len(), self.top_k.num, self.top_k.den);
                let maxc = cands[0].count;
                let t_num = self.temperature.num;
                let t_den = self.temperature.den;
                let ghost sws = spec_weights(cv, k as nat, t_num as nat, t_den as nat);
                let mut ws: Vec<u64> = Vec::new();
                let mut total: u64 = 0;
                let mut j: usize = 0;
                proof {
                    lemma_sum_counts_ge_len(cv);
                    assert(cv.take(0) =~= Seq::<CandidateV>::empty());
                }
                while j < k
                    invariant
                        0 <= j <= k <= cands.len(),
                        wf(self@),
                        cands.deep_view() == cv,
                        cv == context_cands(self@.table, context@),
                        0 <= (i as int) < self@.table.len(),
                        cv == self@.table[i as int].candidates,
                        maxc == cv[0].count,
                        1 <= maxc,
                        t_num == self.temperature.num,
                        t_den == self.temperature.den,
                        sws == spec_weights(cv, k as nat, t_num as nat, t_den as nat),
                        j >= 1 ==> 1 <= sws[0],
                        ws@ =~= sws.take(j as int),
                        total == prefix_sum(sws, j as int),
                        t_num == t_den ==> total == sum_counts(cv.take(j as int)),
                        t_num != t_den ==> total <= 4096 * j,
                    decreases k - j,
                {
                    proof {
                        if j > 0 {
                            assert(sorted_by(cv, cand_order()));
                            assert(cand_order()(cv[0], cv[j as int]));
                            assert(cand_le(cv[0], cv[j as int]));
                        }
                        assert(cv[j as int].count <= maxc);
                        assert(cv[j as int].count >= 1);
                        if t_num == t_den {
                            lemma_sum_counts_take_push(cv, j as int);
                            lemma_sum_counts_take_le(cv, j as int + 1);
                            assert(sum_counts(cv) <= MAX_CONTEXT_TOTAL);
                        } else {
                            assert(4096 * (j + 1) <= 4096 * cands.len());
                            assert(cands.len() <= sum_counts(cv));
                        }
                    }
                    let w = weight(cands[j].count, maxc, t_num, t_den);
                    proof {
                        assert(sws[j as int] == w);
                    }
                    ws.push(w);
                    total = total + w;
                    proof {
                        assert(ws@ =~= sws.take(j as int + 1));
                        if j == 0 {
                            assert(sws[0] == w);
                        }
                    }
                    j = j + 1;
                }
                proof {
                    assert(ws@ =~= sws);
                    assert(total == prefix_sum(sws, sws.len() as int));
                    // the first weight is positive, so the total is too
                    assert(prefix_sum(sws, 1) == sws[0] as nat + prefix_sum(sws, 0));
                    lemma_prefix_sum_mono(sws, 1, sws.len() as int);
                    assert(total >= 1);
                    if t_num == t_den {
                        lemma_sum_counts_take_le(cv, k as int);
                        assert(total <= MAX_CONTEXT_TOTAL);
                    } else {
                        assert(4096 * (k as int) <= 4096 * (sum_counts(cv) as int));
                        assert(total < 0x8000_0000_0000_0000);
                    }
                }
                let pi = pick(&ws, total, x);
                proof {
                    assert(spec_pick(sws, x) == pi);
                }
                self.table[i].candidates[pi].token.clone()
            },
        }
    }

    /// Advance the generator by one step and choose the next token.
    pub fn predict_next_token(&self, context: &str, rng: &mut SmRng) -> (t: String)
        requires
            wf(self@),
            can_predict(self@),
        ensures
            final(rng)@ == next_state(old(rng)@),
            t@ == spec_predict(self@, context@, output_of(next_state(old(rng)@))),
    {
        let x = rng.next_u64();
        self.choose_next(context, x)
    }
}

/// The tokens of one sentence after the preprocessing chain.
pub open spec fn sent_tokens(chain: Seq<PreStage>, s: Seq<char>) -> Seq<Seq<char>> {
    tokens_of(apply_chain(chain, s))
}

/// An acceptable sentence: empty (skipped), or long enough for windows.
pub open spec fn sentence_ok(chain: Seq<PreStage>, s: Seq<char>, n: nat) -> bool {
    s.len() == 0 || sent_tokens(chain, s).len() >= n
}

/// Token sentences of the nonempty corpus sentences, in corpus order.
pub open spec fn kept_sentences(chain: Seq<PreStage>, corpus: Seq<Seq<char>>) -> Seq<
    Seq<Seq<char>>,
>
    decreases corpus.len(),
{
    if corpus.len() == 0 {
        Seq::empty()
    } else {
        let rest = kept_sentences(chain, corpus.drop_last());
        if corpus.last().len() == 0 {
            rest
        } else {
            rest.push(sent_tokens(chain, corpus.last()))
        }
    }
}

/// The (context, target) windows of one token sentence: at position `w`,
/// the space-join of the `n-1` tokens from `w` is the context and the
/// following token is the target.
pub open spec fn sent_windows(toks: Seq<Seq<char>>, n: nat) -> Seq<(Seq<char>, Seq<char>)> {
    if n >= 1 && toks.len() >= n {
        Seq::new(
            (toks.len() - n + 1) as nat,
            |w: int| (join_tokens(toks.subrange(w, w + n - 1)), toks[w + n - 1]),
        )
    } else {
        Seq::empty()
    }
}

/// All windows of all token sentences, in order.
pub open spec fn corpus_windows(sents: Seq<Seq<Seq<char>>>, n: nat) -> Seq<(Seq<char>, Seq<char>)>
    decreases sents.len(),
{
    if sents.len() == 0 {
        Seq::empty()
    } else {
        corpus_windows(sents.drop_last(), n) + sent_windows(sents.last(), n)
    }
}

/// How often token `tok` followed context `ctx` across the corpus.
pub open spec fn window_count(
    sents: Seq<Seq<Seq<char>>>,
    n: nat,
    ctx: Seq<char>,
    tok: Seq<char>,
) -> nat {
    corpus_windows(sents, n).to_multiset().count((ctx, tok))
}

/// The leading `n-1`-token context of each sentence, joined, in order.
pub open spec fn starts_of(sents: Seq<Seq<Seq<char>>>, n: nat) -> Seq<Seq<char>> {
    Seq::new(sents.len(), |i: int| join_tokens(sents[i].take(n - 1)))
}

/// Whether `tok` occurs anywhere in the token sentences.
pub open spec fn in_sentences(sents: Seq<Seq<Seq<char>>>, tok: Seq<char>) -> bool {
    exists|i: int, p: int|
        0 <= i < sents.len() && 0 <= p < sents[i].len() && #[trigger] sents[i][p] == tok
}

/// Windows of a corpus prefix are no more than windows of the corpus.
proof fn lemma_windows_prefix_le(chain: Seq<PreStage>, corpus: Seq<Seq<char>>, n: nat, i: int)
    requires
        0 <= i <= corpus.len(),
    ensures
        corpus_windows(kept_sentences(chain, corpus.take(i)), n).len() <= corpus_windows(
            kept_sentences(chain, corpus),
            n,
        ).len(),
    decreases corpus.len() - i,
{
    if i == corpus.len() {
        assert(corpus.take(i) =~= corpus);
    } else {
        lemma_windows_prefix_le(chain, corpus, n, i + 1);
        assert(corpus.take(i + 1).drop_last() =~= corpus.take(i));
        assert(corpus.take(i + 1).last() == corpus[i]);
        let rest = kept_sentences(chain, corpus.take(i));
        if corpus[i].len() == 0 {
        } else {
            let sents2 = rest.push(sent_tokens(chain, corpus[i]));
            assert(kept_sentences(chain, corpus.take(i + 1)) == sents2);
            assert(sents2.drop_last() =~= rest);
            assert(corpus_windows(sents2, n) == corpus_windows(rest, n) + sent_windows(
                sents2.last(),
                n,
            ));
        }
    }
}

/// A token of a pushed sentence is a token of the extended corpus.
proof fn lemma_in_sentences_push(sents: Seq<Seq<Seq<char>>>, toks: Seq<Seq<char>>, t: Seq<char>)
    ensures
        in_sentences(sents.push(toks), t) == (in_sentences(sents, t) || toks.contains(t)),
{
    let sents2 = sents.push(toks);
    if in_sentences(sents2, t) {
        let (i, p) = choose|i: int, p: int|
            0 <= i < sents2.len() && 0 <= p < sents2[i].len() && #[trigger] sents2[i][p] == t;
        if i < sents.len() {
            assert(sents[i][p] == t);
        } else {
            assert(toks[p] == t);
            assert(toks.contains(t));
        }
    }
    if in_sentences(sents, t) {
        let (i, p) = choose|i: int, p: int|
            0 <= i < sents.len() && 0 <= p < sents[i].len() && #[trigger] sents[i][p] == t;
        assert(sents2[i][p] == t);
    }
    if toks.contains(t) {
        let p = choose|p: int| 0 <= p < toks.len() && toks[p] == t;
        assert(sents2[sents.len() as int][p] == t);
    }
}

impl LidstoneModel {
    /// Learn the table from a corpus.
    ///
    /// Each nonempty sentence is preprocessed by `chain`, split on
    /// whitespace, and slid over with a window of `n_size` tokens; the
    /// first `n_size - 1` tokens of each window, space-joined, form the
    /// context and the last token the target. The first sentence that
    /// tokenizes to fewer than `n_size` tokens stops the build with an
    /// error naming its position; the model is then left unchanged (a
    /// failed build keeps no partial counts).
    ///
    /// The corpus may hold at most `MAX_CONTEXT_TOTAL` windows in all; a
    /// corpus anywhere near that bound could not be held in memory.
    /// A model is trained exactly once: `build_n_gram` expects a freshly
    /// configured model, and a failed build leaves it fresh.
    pub fn build_n_gram(&mut self, chain: &Vec<PreStage>, corpus: &Vec<String>) -> (r: Result<
        (),
        BuildError,
    >)
        requires
            wf(old(self)@),
            old(self)@.table.len() == 0,
            old(self)@.start_contexts.len() == 0,
            old(self)@.vocabulary.len() == 0,
            corpus_windows(
                kept_sentences(chain@, corpus.deep_view()),
                old(self)@.n_size,
            ).len() <= MAX_CONTEXT_TOTAL,
        ensures
            final(self)@.n_size == old(self)@.n_size,
            final(self)@.top_k == old(self)@.top_k,
            final(self)@.temperature == old(self)@.temperature,
            final(self)@.unseen == old(self)@.unseen,
            match r {
                Ok(()) => {
                    let sents = kept_sentences(chain@, corpus.deep_view());
                    let n = old(self)@.n_size;
                    &&& forall|i: int|
                        0 <= i < corpus.len() ==> sentence_ok(
                            chain@,
                            #[trigger] corpus.deep_view()[i],
                            n,
                        )
                    &&& wf(final(self)@)
                    &&& forall|ctx: Seq<char>, tok: Seq<char>|
                        #[trigger] table_count(final(self)@.table, ctx, tok) == window_count(
                            sents,
                            n,
                            ctx,
                            tok,
                        )
                    &&& final(self)@.start_contexts == starts_of(sents, n)
                    &&& sorted_by(final(self)@.vocabulary, lex_order())
                    &&& distinct_strs(final(self)@.vocabulary)
                    &&& forall|t: Seq<char>|
                        final(self)@.vocabulary.contains(t) <==> in_sentences(sents, t)
                },
                Err(BuildError::SentenceTooShort { index, n_size, sentence }) => {
                    &&& final(self)@ == old(self)@
                    &&& 0 <= index < corpus.len()
                    &&& !sentence_ok(chain@, corpus.deep_view()[index as int], old(self)@.n_size)
                    &&& forall|i: int|
                        0 <= i < index ==> sentence_ok(
                            chain@,
                            #[trigger] corpus.deep_view()[i],
                            old(self)@.n_size,
                        )
                    &&& n_size == old(self)@.n_size
                    &&& sentence@ == corpus.deep_view()[index as int]
                },
            },
    {
        broadcast use vstd::seq_lib::group_to_multiset_ensures;

        let n = self.n_size;
        let ghost cv = corpus.deep_view();
        let mut acc: Vec<ContextEntry> = Vec::new();
        let mut starts: Vec<String> = Vec::new();
        let mut vocab: Vec<String> = Vec::new();
        let mut i: usize = 0;
        let ghost mut sents = kept_sentences(chain@, cv.take(0));
        proof {
            assert(cv.take(0) =~= Seq::<Seq<char>>::empty());
            assert(sents =~= Seq::<Seq<Seq<char>>>::empty());
            assert(corpus_windows(sents, n as nat) =~= Seq::<(Seq<char>, Seq<char>)>::empty());
            assert(acc.deep_view() =~= Seq::<ContextEntryV>::empty());
            assert(starts.deep_view() =~= Seq::<Seq<char>>::empty());
            assert(starts_of(sents, n as nat) =~= Seq::<Seq<char>>::empty());
            assert(vocab.deep_view() =~= Seq::<Seq<char>>::empty());
            assert forall|t: Seq<char>|
                #[trigger] vocab.deep_view().contains(t) <==> in_sentences(sents, t) by {
                if vocab.deep_view().contains(t) {
                    let w = choose|w: int|
                        0 <= w < vocab.deep_view().len() && vocab.deep_view()[w] == t;
                }
                if in_sentences(sents, t) {
                    let (a, b) = choose|a: int, b: int|
                        0 <= a < sents.len() && 0 <= b < sents[a].len() && #[trigger] sents[a][b]
                            == t;
                }
            }
            assert forall|c: Seq<char>, t: Seq<char>|
                #[trigger] table_count(acc.deep_view(), c, t) == corpus_windows(
                    sents,
                    n as nat,
                ).to_multiset().count((c, t)) by {
                assert(table_count(Seq::<ContextEntryV>::empty(), c, t) == 0);
            }
            assert forall|c: Seq<char>|
                #[trigger] sum_counts(context_cands(acc.deep_view(), c)) <= corpus_windows(
                    sents,
                    n as nat,
                ).len() by {
                lemma_context_cands_absent(Seq::<ContextEntryV>::empty(), c);
            }
        }
        while i < corpus.len()
            invariant
                0 <= i <= corpus.len(),
                sents == kept_sentences(chain@, cv.take(i as int)),
                forall|q: int| 0 <= q < i ==> sentence_ok(chain@, #[trigger] cv[q], n as nat),
                acc_wf(acc.deep_view()),
                counts_bounded(acc.deep_view(), corpus_windows(sents, n as nat).len()),
                forall|c: Seq<char>|
                    #[trigger] sum_counts(context_cands(acc.deep_view(), c)) <= corpus_windows(
                        sents,
                        n as nat,
                    ).len(),
                forall|c: Seq<char>, t: Seq<char>|
                    #[trigger] table_count(acc.deep_view(), c, t) == corpus_windows(
                        sents,
                        n as nat,
                    ).to_multiset().count((c, t)),
                starts.deep_view() == starts_of(sents, n as nat),
                forall|q: int|
                    0 <= q < starts.len() ==> tokens_of(#[trigger] starts.deep_view()[q]).len()
                        == n - 1,
                distinct_strs(vocab.deep_view()),
                forall|t: Seq<char>|
                    #[trigger] vocab.deep_view().contains(t) <==> in_sentences(sents, t),
            decreases corpus.len() - i,
        {
            let ghost pre_sents = sents;
            if corpus[i].as_str().is_empty() {
                proof {
                    assert(cv.take(i + 1).drop_last() =~= cv.take(i as int));
                    assert(cv.take(i + 1).last() == cv[i as int]);
                    assert(cv[i as int].len() == 0);
                    assert(kept_sentences(chain@, cv.take(i + 1)) == sents);
                }
                i = i + 1;
                continue ;
            }
            let processed = preprocess(chain, corpus[i].as_str());
            let toks = tokenize(processed.as_str());
            let ghost tv = toks.deep_view();
            proof {
                assert(tv == sent_tokens(chain@, cv[i as int]));
            }
            if toks.len() < n {
                return Err(
                    BuildError::SentenceTooShort {
                        index: i,
                        n_size: n,
                        sentence: corpus[i].clone(),
                    },
                );
            }
            proof {
                assert(cv.take(i + 1).drop_last() =~= cv.take(i as int));
                assert(cv.take(i + 1).last() == cv[i as int]);
                assert(kept_sentences(chain@, cv.take(i + 1)) == pre_sents.push(tv));
                sents = pre_sents.push(tv);
                assert(sents.drop_last() =~= pre_sents);
                assert(sents.last() == tv);
                assert(corpus_windows(sents, n as nat) == corpus_windows(pre_sents, n as nat)
                    + sent_windows(tv, n as nat));
                lemma_windows_prefix_le(chain@, cv, n as nat, i + 1);
                lemma_tokens_good(apply_chain(chain@, cv[i as int]));
            }
            // the start context: the first n-1 tokens, joined
            let sc = join(&subvec(&toks, 0, n - 1));
            proof {
                assert(tv.take(n - 1) =~= tv.subrange(0, n - 1));
                lemma_tokens_of_join(tv.take(n - 1));
            }
            starts.push(sc);
            proof {
                assert(starts.deep_view() =~= starts_of(pre_sents, n as nat).push(
                    join_tokens(tv.take(n - 1)),
                ));
                assert(starts.deep_view() =~= starts_of(sents, n as nat));
            }
            // the vocabulary: every token of the sentence, once
            let ghost pre_vocab = vocab.deep_view();
            extend_vocab(&mut vocab, &toks);
            proof {
                assert forall|t: Seq<char>|
                    #[trigger] vocab.deep_view().contains(t) <==> in_sentences(sents, t) by {
                    lemma_in_sentences_push(pre_sents, tv, t);
                    assert(pre_vocab.contains(t) <==> in_sentences(pre_sents, t));
                    assert(vocab.deep_view().contains(t) == (pre_vocab.contains(t)
                        || tv.contains(t)));
                }
            }
            // the windows: slide, join the context, count the target
            let ghost base = corpus_windows(pre_sents, n as nat);
            let ghost sw = sent_windows(tv, n as nat);
            let wmax = toks.len() - n + 1;
            let mut w: usize = 0;
            proof {
                assert(sw.len() == wmax);
                assert(base + sw.take(0) =~= base);
            }
            while w < wmax
                invariant
                    0 <= w <= wmax,
                    wmax == toks.len() - n + 1,
                    n >= 2,
                    toks.len() >= n,
                    tv == toks.deep_view(),
                    sw == sent_windows(tv, n as nat),
                    base == corpus_windows(pre_sents, n as nat),
                    corpus_windows(sents, n as nat) == base + sw,
                    corpus_windows(sents, n as nat).len() <= MAX_CONTEXT_TOTAL,
                    acc_wf(acc.deep_view()),
                    counts_bounded(acc.deep_view(), (base.len() + w) as nat),
                    forall|c: Seq<char>|
                        #[trigger] sum_counts(context_cands(acc.deep_view(), c)) <= base.len() + w,
                    forall|c: Seq<char>, t: Seq<char>|
                        #[trigger] table_count(acc.deep_view(), c, t) == (base + sw.take(
                            w as int,
                        )).to_multiset().count((c, t)),
                decreases wmax - w,
            {
                let ctx = join(&subvec(&toks, w, w + n - 1));
                let ghost pair = sw[w as int];
                proof {
                    assert(pair == (join_tokens(tv.subrange(w as int, w + n - 1)), tv[w + n - 1]));
                    assert(ctx@ == pair.0);
                    assert(toks.deep_view()[w + n - 1] == pair.1);
                    assert(base.len() + w + 1 <= corpus_windows(sents, n as nat).len());
                }
                bump(
                    &mut acc,
                    ctx.as_str(),
                    toks[w + n - 1].as_str(),
                    Ghost((base.len() + w) as nat),
                );
                proof {
                    assert(base + sw.take(w + 1) =~= (base + sw.take(w as int)).push(pair));
                    assert((base + sw.take(w + 1)).to_multiset() =~= (base + sw.take(
                        w as int,
                    )).to_multiset().insert(pair));
                }
                w = w + 1;
            }
            proof {
                assert(sw.take(wmax as int) =~= sw);
            }
            i = i + 1;
        }
        proof {
            assert(cv.take(corpus.len() as int) =~= cv);
        }
        // derive the probabilities' canonical order: sort each row
        let ghost av = acc.deep_view();
        let mut table: Vec<ContextEntry> = Vec::new();
        let mut q: usize = 0;
        while q < acc.len()
            invariant
                0 <= q <= acc.len(),
                av == acc.deep_view(),
                table.len() == q,
                forall|k: int|
                    0 <= k < q ==> (#[trigger] table.deep_view()[k]).context == av[k].context,
                forall|k: int|
                    0 <= k < q ==> (#[trigger] table.deep_view()[k]).candidates.to_multiset()
                        == av[k].candidates.to_multiset(),
                forall|k: int|
                    0 <= k < q ==> sorted_by(
                        (#[trigger] table.deep_view()[k]).candidates,
                        cand_order(),
                    ),
            decreases acc.len() - q,
        {
            let sorted = sort_candidates(copy_candidates(&acc[q].candidates));
            let ghost pre_table = table.deep_view();
            let ghost sv = sorted.deep_view();
            table.push(ContextEntry { context: acc[q].context.clone(), candidates: sorted });
            proof {
                assert(table.deep_view() =~= pre_table.push(
                    ContextEntryV { context: av[q as int].context, candidates: sv },
                ));
                assert(table.deep_view()[q as int].context == av[q as int].context);
                assert(table.deep_view()[q as int].candidates == sv);
                assert(forall|k: int|
                    0 <= k < q ==> #[trigger] table.deep_view()[k] == pre_table[k]);
            }
            q = q + 1;
        }
        let vocab_sorted = sort_strings(vocab);
        proof {
            lemma_distinct_strs_perm(vocab.deep_view(), vocab_sorted.deep_view());
        }
        self.table = table;
        self.vocabulary = vocab_sorted;
        self.start_contexts = starts;
        proof {
            let tfin = self@.table;
            let wtotal = corpus_windows(sents, n as nat).len();
            // vocabulary membership carries through the sort
            assert forall|t: Seq<char>|
                self@.vocabulary.contains(t) <==> in_sentences(sents, t) by {
                if self@.vocabulary.contains(t) {
                    assert(self@.vocabulary.to_multiset().count(t) > 0);
                    assert(vocab.deep_view().to_multiset().count(t) > 0);
                    assert(vocab.deep_view().contains(t));
                }
                if in_sentences(sents, t) {
                    assert(vocab.deep_view().contains(t));
                    assert(vocab.deep_view().to_multiset().count(t) > 0);
                    assert(self@.vocabulary.to_multiset().count(t) > 0);
                    assert(self@.vocabulary.contains(t));
                }
            }
            // each final row keeps its context's counts, tokens, and total
            // well-formedness of the final table
            assert forall|k: int| 0 <= k < tfin.len() implies (#[trigger] tfin[k]).candidates.len()
                >= 1 && distinct_tokens(tfin[k].candidates) by {
                assert(av[k].candidates.to_multiset().len() == av[k].candidates.len());
                assert(tfin[k].candidates.to_multiset().len() == tfin[k].candidates.len());
                lemma_distinct_tokens_perm(av[k].candidates, tfin[k].candidates);
            }
            assert forall|k: int, tk: Seq<char>|
                0 <= k < tfin.len() implies #[trigger] cand_count(tfin[k].candidates, tk)
                == cand_count(av[k].candidates, tk) by {
                assert(distinct_tokens(tfin[k].candidates));
                lemma_cand_count_perm(av[k].candidates, tfin[k].candidates, tk);
            }
            assert forall|c: Seq<char>, t: Seq<char>|
                #[trigger] table_count(tfin, c, t) == window_count(sents, n as nat, c, t) by {
                lemma_table_count_mapped(av, tfin, c, t);
            }
            assert forall|k: int, j: int|
                0 <= k < tfin.len() && 0 <= j < tfin[k].candidates.len() implies 1 <= (
                #[trigger] tfin[k].candidates[j].count) && tfin[k].candidates[j].count
                <= MAX_CONTEXT_TOTAL by {
                let c = tfin[k].candidates[j];
                assert(tfin[k].candidates.contains(c));
                assert(tfin[k].candidates.to_multiset().count(c) > 0);
                assert(av[k].candidates.to_multiset().count(c) > 0);
                assert(av[k].candidates.contains(c));
                let a = choose|a: int| 0 <= a < av[k].candidates.len() && av[k].candidates[a] == c;
                assert(1 <= av[k].candidates[a].count <= wtotal);
                assert(wtotal <= MAX_CONTEXT_TOTAL);
            }
            assert forall|k: int| 0 <= k < tfin.len() implies sum_counts(
                (#[trigger] tfin[k]).candidates,
            ) <= MAX_CONTEXT_TOTAL by {
                lemma_sum_counts_perm(av[k].candidates, tfin[k].candidates);
                lemma_context_cands_at(av, k);
                assert(sum_counts(context_cands(av, av[k].context)) <= wtotal);
            }
            // every table token is in the vocabulary
            assert(sents == kept_sentences(chain@, cv));
            assert(acc_wf(tfin));
            assert(counts_bounded(tfin, MAX_CONTEXT_TOTAL as nat));
            lemma_table_tokens_in_vocabulary(self@, chain@, cv);
            assert(wf(self@));
        }
        Ok(())
    }
}

/// The start context drawn for a seed: a uniform pick from the recorded
/// start contexts, using the first draw.
pub open spec fn gen_start(m: ModelV, seed: u64) -> Seq<char> {
    m.start_contexts[spec_below(draw(seed, 0), m.start_contexts.len()) as int]
}

/// The trailing context of the output so far: its last `n_size - 1`
/// tokens, space-joined.
pub open spec fn gen_context(m: ModelV, out: Seq<Seq<char>>) -> Seq<char> {
    join_tokens(out.skip(out.len() - (m.n_size - 1)))
}

/// The output tokens after the start context, the mandatory first
/// prediction, and `j` further loop steps.
pub open spec fn gen_prefix(m: ModelV, seed: u64, j: nat) -> Seq<Seq<char>>
    decreases j,
{
    if j == 0 {
        tokens_of(gen_start(m, seed)).push(
            spec_predict(m, gen_start(m, seed), draw(seed, 1)),
        )
    } else {
        let prev = gen_prefix(m, seed, (j - 1) as nat);
        prev.push(spec_predict(m, gen_context(m, prev), draw(seed, j + 1)))
    }
}

/// Whether step `j` produced the end sentinel.
pub open spec fn gen_stops(m: ModelV, seed: u64, j: nat) -> bool {
    gen_prefix(m, seed, j).last() == end_token()
}

/// The step limit: `max_tokens`, or, for unbounded generation, a
/// defensive cap of `2^64 - 1` steps that no real run can reach.
pub open spec fn gen_limit(max_tokens: u32) -> nat {
    if max_tokens == 0 {
        0xFFFF_FFFF_FFFF_FFFFnat
    } else {
        max_tokens as nat
    }
}

/// What `generate` returns: the output after the first step in
/// `1..=limit` that sampled the end sentinel, or after `limit` steps if
/// none did. The first prediction after the start context is mandatory
/// and never checked against the sentinel.
pub open spec fn generate_post(m: ModelV, seed: u64, max_tokens: u32, out: Seq<char>) -> bool {
    let l = gen_limit(max_tokens);
    if exists|j: nat| 1 <= j <= l && #[trigger] gen_stops(m, seed, j) {
        exists|j: nat|
            {
                &&& 1 <= j <= l
                &&& #[trigger] gen_stops(m, seed, j)
                &&& forall|j2: nat| 1 <= j2 < j ==> !gen_stops(m, seed, j2)
                &&& out == join_tokens(gen_prefix(m, seed, j))
            }
    } else {
        out == join_tokens(gen_prefix(m, seed, l))
    }
}

/// Generation is deterministic: for a fixed model, seed and token
/// limit, any two outputs meeting the generation contract are equal.
pub proof fn lemma_generate_deterministic(
    m: ModelV,
    seed: u64,
    max_tokens: u32,
    out1: Seq<char>,
    out2: Seq<char>,
)
    requires
        generate_post(m, seed, max_tokens, out1),
        generate_post(m, seed, max_tokens, out2),
    ensures
        out1 == out2,
{
    let l = gen_limit(max_tokens);
    if exists|j: nat| 1 <= j <= l && #[trigger] gen_stops(m, seed, j) {
        let j1 = choose|j: nat|
            {
                &&& 1 <= j <= l
                &&& #[trigger] gen_stops(m, seed, j)
                &&& forall|j2: nat| 1 <= j2 < j ==> !gen_stops(m, seed, j2)
                &&& out1 == join_tokens(gen_prefix(m, seed, j))
            };
        let j2 = choose|j: nat|
            {
                &&& 1 <= j <= l
                &&& #[trigger] gen_stops(m, seed, j)
                &&& forall|j2: nat| 1 <= j2 < j ==> !gen_stops(m, seed, j2)
                &&& out2 == join_tokens(gen_prefix(m, seed, j))
            };
        if j1 < j2 {
            assert(!gen_stops(m, seed, j1));
        }
        if j2 < j1 {
            assert(!gen_stops(m, seed, j2));
        }
        assert(j1 == j2);
    }
}

impl LidstoneModel {
    /// Generate a token sequence, joined by single spaces.
    ///
    /// A fresh deterministic generator is seeded from `seed`; one draw
    /// picks a start context, one draw yields the mandatory first
    /// prediction, and each further step predicts from the trailing
    /// `n_size - 1` tokens. Generation ends when a step samples the end
    /// sentinel, or after `max_tokens` further steps; `max_tokens == 0`
    /// means unbounded generation (capped only at `2^64 - 1` steps, far
    /// beyond any reachable run).
    #[verifier::rlimit(60)]
    pub fn generate(&self, max_tokens: u32, seed: u64) -> (r: String)
        requires
            wf(self@),
            built(self@),
        ensures
            generate_post(self@, seed, max_tokens, r@),
    {
        let mut rng = SmRng::from_seed(seed);
        let x0 = rng.next_u64();
        proof {
            assert(state_after(seed, 0) == seed);
            assert(state_after(seed, 1) == next_state(seed));
            assert(x0 == draw(seed, 0));
        }
        let si = below(x0, self.start_contexts.len());
        let start = &self.start_contexts[si];
        proof {
            assert(start@ == gen_start(self@, seed));
            assert(tokens_of(start@).len() == self@.n_size - 1);
        }
        let mut out: Vec<String> = tokenize(start.as_str());
        let first = self.predict_next_token(start.as_str(), &mut rng);
        out.push(first);
        proof {
            assert(state_after(seed, 2) == next_state(state_after(seed, 1)));
            assert(rng@ == state_after(seed, 2));
            assert(output_of(next_state(state_after(seed, 1))) == draw(seed, 1));
            assert(out.deep_view() =~= gen_prefix(self@, seed, 0));
        }
        let limit: u64 = if max_tokens == 0 {
            u64::MAX
        } else {
            max_tokens as u64
        };
        let mut count: u64 = 0;
        loop
            invariant
                wf(self@),
                built(self@),
                count <= limit,
                limit == gen_limit(max_tokens),
                out.deep_view() == gen_prefix(self@, seed, count as nat),
                rng@ == state_after(seed, (count + 2) as nat),
                forall|j2: nat| 1 <= j2 <= count ==> !gen_stops(self@, seed, j2),
                out.len() == self@.n_size + count,
            decreases limit - count,
        {
            if count == limit {
                proof {
                    assert(!(exists|j: nat|
                        1 <= j <= gen_limit(max_tokens) && #[trigger] gen_stops(
                            self@,
                            seed,
                            j,
                        )));
                }
                return join(&out);
            }
            let sidx = out.len() - self.n_size + 1;
            let ctx = join(&subvec(&out, sidx, out.len()));
            proof {
                assert(out.deep_view().subrange(sidx as int, out.len() as int)
                    =~= out.deep_view().skip(
                    out.deep_view().len() - (self@.n_size - 1),
                ));
                assert(ctx@ == gen_context(self@, out.deep_view()));
            }
            let ghost pre_out = out.deep_view();
            let next = self.predict_next_token(ctx.as_str(), &mut rng);
            let is_end = str_eq_exec(next.as_str(), end_of_string());
            out.push(next);
            count = count + 1;
            proof {
                assert(state_after(seed, (count + 2) as nat) == next_state(
                    state_after(seed, (count + 1) as nat),
                ));
                assert(output_of(next_state(state_after(seed, (count + 1) as nat))) == draw(
                    seed,
                    (count + 1) as nat,
                ));
                assert(gen_prefix(self@, seed, count as nat) == pre_out.push(
                    spec_predict(self@, gen_context(self@, pre_out), draw(seed, (count + 1) as nat)),
                ));
                assert(out.deep_view() =~= gen_prefix(self@, seed, count as nat));
                assert(out.deep_view().last() == next@);
            }
            if is_end {
                proof {
                    assert(gen_stops(self@, seed, count as nat));
                    assert(1 <= count as nat <= gen_limit(max_tokens));
                }
                let r = join(&out);
                proof {
                    let j = count as nat;
                    assert({
                        &&& 1 <= j <= gen_limit(max_tokens)
                        &&& gen_stops(self@, seed, j)
                        &&& forall|j2: nat| 1 <= j2 < j ==> !gen_stops(self@, seed, j2)
                        &&& r@ == join_tokens(gen_prefix(self@, seed, j))
                    });
                }
                return r;
            }
            proof {
                assert(!gen_stops(self@, seed, count as nat));
            }
        }
    }
}

/// The persisted form of a model: the configuration, the vocabulary,
/// the start contexts, and the table as (token, raw count) pairs.
/// Probabilities are never persisted: they are derived from the counts,
/// on load as after training.
pub struct SavedModel {
    pub n_size: usize,
    pub top_k: Ratio,
    pub temperature: Ratio,
    pub unseen: UnseenPolicy,
    pub vocabulary: Vec<String>,
    pub start_contexts: Vec<String>,
    pub table: Vec<ContextEntry>,
}

impl View for SavedModel {
    type V = ModelV;

    open spec fn view(&self) -> ModelV {
        ModelV {
            n_size: self.n_size as nat,
            top_k: self.top_k,
            temperature: self.temperature,
            unseen: self.unseen,
            vocabulary: self.vocabulary.deep_view(),
            table: self.table.deep_view(),
            start_contexts: self.start_contexts.deep_view(),
        }
    }
}

/// The documented shape of a persisted model: a valid configuration,
/// rows with distinct contexts, candidates with distinct tokens and
/// positive counts in the canonical order, bounded totals, and start
/// contexts of exactly `n_size - 1` tokens. Emptiness of a candidate
/// list is not a shape question; it is corruption.
pub open spec fn saved_shape_ok(m: ModelV) -> bool {
    &&& m.n_size >= 2
    &&& valid_ratios(m.top_k, m.temperature)
    &&& crate::table::distinct_contexts(m.table)
    &&& forall|i: int| 0 <= i < m.table.len() ==> distinct_tokens((#[trigger] m.table[i]).candidates)
    &&& forall|i: int, j: int|
        0 <= i < m.table.len() && 0 <= j < m.table[i].candidates.len() ==> 1 <= (
        #[trigger] m.table[i].candidates[j].count) <= MAX_CONTEXT_TOTAL
    &&& forall|i: int|
        0 <= i < m.table.len() ==> sum_counts((#[trigger] m.table[i]).candidates)
            <= MAX_CONTEXT_TOTAL
    &&& forall|i: int|
        0 <= i < m.table.len() ==> sorted_by((#[trigger] m.table[i]).candidates, cand_order())
    &&& forall|i: int|
        0 <= i < m.start_contexts.len() ==> tokens_of(#[trigger] m.start_contexts[i]).len()
            == m.n_size - 1
    &&& sorted_by(m.vocabulary, lex_order())
    &&& distinct_strs(m.vocabulary)
    &&& forall|i: int, j: int|
        0 <= i < m.table.len() && 0 <= j < m.table[i].candidates.len() ==> m.vocabulary.contains(
            #[trigger] m.table[i].candidates[j].token,
        )
    &&& forall|i: int, t: Seq<char>|
        0 <= i < m.table.len() && #[trigger] tokens_of(m.table[i].context).contains(t)
            ==> m.vocabulary.contains(t)
}

/// A context whose candidate counts total zero: corrupt data.
pub open spec fn saved_corrupt(m: ModelV) -> bool {
    exists|i: int| 0 <= i < m.table.len() && (#[trigger] m.table[i]).candidates.len() == 0
}

/// A chain of adjacent comparisons orders a whole candidate list.
proof fn lemma_cand_le_span(cs: Seq<CandidateV>, i: int, j: int)
    requires
        forall|k: int| 0 <= k < cs.len() - 1 ==> cand_le(#[trigger] cs[k], cs[k + 1]),
        0 <= i <= j < cs.len(),
    ensures
        i < j ==> cand_le(cs[i], cs[j]),
    decreases j - i,
{
    if i < j {
        lemma_cand_le_span(cs, i, j - 1);
        assert(cand_le(cs[j - 1], cs[j]));
        if i < j - 1 {
            crate::table::lemma_cand_le_trans(cs[i], cs[j - 1], cs[j]);
        }
    }
}

/// Whether adjacent candidates are in the canonical order.
fn check_sorted(cs: &Vec<Candidate>) -> (r: bool)
    ensures
        r == sorted_by(cs.deep_view(), cand_order()),
{
    let mut i: usize = 0;
    if cs.len() == 0 {
        return true;
    }
    while i + 1 < cs.len()
        invariant
            0 <= i < cs.len(),
            forall|k: int| 0 <= k < i ==> cand_le(#[trigger] cs.deep_view()[k], cs.deep_view()[k + 1]),
        decreases cs.len() - i,
    {
        if !crate::table::cand_le_exec(&cs[i], &cs[i + 1]) {
            proof {
                assert(!cand_le(cs.deep_view()[i as int], cs.deep_view()[i + 1]));
                assert(!sorted_by(cs.deep_view(), cand_order())) by {
                    if sorted_by(cs.deep_view(), cand_order()) {
                        assert(cand_order()(cs.deep_view()[i as int], cs.deep_view()[i + 1]));
                    }
                }
            }
            return false;
        }
        i = i + 1;
    }
    proof {
        assert forall|a: int, b: int| 0 <= a < b < cs.len() implies cand_order()(
            cs.deep_view()[a],
            cs.deep_view()[b],
        ) by {
            lemma_cand_le_span(cs.deep_view(), a, b);
        }
    }
    true
}

/// Whether the candidate tokens are pairwise distinct.
fn check_tokens_distinct(cs: &Vec<Candidate>) -> (r: bool)
    ensures
        r == distinct_tokens(cs.deep_view()),
{
    let mut j: usize = 0;
    while j < cs.len()
        invariant
            0 <= j <= cs.len(),
            forall|a: int, b: int| 0 <= a < b < j ==> cs.deep_view()[a].token != cs.deep_view()[b].token,
        decreases cs.len() - j,
    {
        let mut k: usize = 0;
        while k < j
            invariant
                0 <= k <= j < cs.len(),
                forall|a: int, b: int|
                    0 <= a < b < j ==> cs.deep_view()[a].token != cs.deep_view()[b].token,
                forall|a: int| 0 <= a < k ==> cs.deep_view()[a].token != cs.deep_view()[j as int].token,
            decreases j - k,
        {
            if str_eq_exec(cs[k].token.as_str(), cs[j].token.as_str()) {
                proof {
                    assert(cs.deep_view()[k as int].token == cs.deep_view()[j as int].token);
                }
                return false;
            }
            k = k + 1;
        }
        j = j + 1;
    }
    true
}

/// Whether the row contexts are pairwise distinct.
fn check_contexts_distinct(t: &Vec<ContextEntry>) -> (r: bool)
    ensures
        r == crate::table::distinct_contexts(t.deep_view()),
{
    let mut j: usize = 0;
    while j < t.len()
        invariant
            0 <= j <= t.len(),
            forall|a: int, b: int|
                0 <= a < b < j ==> t.deep_view()[a].context != t.deep_view()[b].context,
        decreases t.len() - j,
    {
        let mut k: usize = 0;
        while k < j
            invariant
                0 <= k <= j < t.len(),
                forall|a: int, b: int|
                    0 <= a < b < j ==> t.deep_view()[a].context != t.deep_view()[b].context,
                forall|a: int|
                    0 <= a < k ==> t.deep_view()[a].context != t.deep_view()[j as int].context,
            decreases j - k,
        {
            if str_eq_exec(t[k].context.as_str(), t[j].context.as_str()) {
                proof {
                    assert(t.deep_view()[k as int].context == t.deep_view()[j as int].context);
                }
                return false;
            }
            k = k + 1;
        }
        j = j + 1;
    }
    true
}

/// Whether every count is positive and the total is in bounds.
fn check_counts(cs: &Vec<Candidate>) -> (r: bool)
    ensures
        r == (forall|j: int|
            0 <= j < cs.len() ==> 1 <= (#[trigger] cs.deep_view()[j].count) && sum_counts(
                cs.deep_view(),
            ) <= MAX_CONTEXT_TOTAL),
{
    let mut j: usize = 0;
    let mut total: u128 = 0;
    proof {
        assert(cs.deep_view().take(0) =~= Seq::<CandidateV>::empty());
    }
    while j < cs.len()
        invariant
            0 <= j <= cs.len(),
            total == sum_counts(cs.deep_view().take(j as int)),
            total <= MAX_CONTEXT_TOTAL,
            forall|k: int| 0 <= k < j ==> 1 <= (#[trigger] cs.deep_view()[k].count),
        decreases cs.len() - j,
    {
        if cs[j].count == 0 {
            proof {
                assert(cs.deep_view()[j as int].count == 0);
            }
            return false;
        }
        proof {
            lemma_sum_counts_take_push(cs.deep_view(), j as int);
        }
        let t2 = total + (cs[j].count as u128);
        if t2 > (MAX_CONTEXT_TOTAL as u128) {
            proof {
                lemma_sum_counts_take_le(cs.deep_view(), j + 1);
                assert(cs.deep_view().take(cs.deep_view().len() as int) =~= cs.deep_view());
                assert(sum_counts(cs.deep_view()) > MAX_CONTEXT_TOTAL);
            }
            return false;
        }
        total = t2;
        j = j + 1;
    }
    proof {
        assert(cs.deep_view().take(cs.len() as int) =~= cs.deep_view());
    }
    true
}

/// Copy a table row for row.
fn copy_table(t: &Vec<ContextEntry>) -> (r: Vec<ContextEntry>)
    ensures
        r.deep_view() == t.deep_view(),
{
    let mut r: Vec<ContextEntry> = Vec::new();
    let mut i: usize = 0;
    while i < t.len()
        invariant
            0 <= i <= t.len(),
            r.deep_view() =~= t.deep_view().take(i as int),
        decreases t.len() - i,
    {
        r.push(
            ContextEntry {
                context: t[i].context.clone(),
                candidates: copy_candidates(&t[i].candidates),
            },
        );
        proof {
            assert(r.deep_view() =~= t.deep_view().take(i + 1));
        }
        i = i + 1;
    }
    proof {
        assert(r.deep_view() =~= t.deep_view());
    }
    r
}

impl LidstoneModel {
    /// The persisted form of this model: an exact copy of its data.
    pub fn save_data(&self) -> (s: SavedModel)
        ensures
            s@ == self@,
    {
        let s = SavedModel {
            n_size: self.n_size,
            top_k: self.top_k,
            temperature: self.temperature,
            unseen: self.unseen,
            vocabulary: subvec(&self.vocabulary, 0, self.vocabulary.len()),
            start_contexts: subvec(&self.start_contexts, 0, self.start_contexts.len()),
            table: copy_table(&self.table),
        };
        proof {
            assert(self.vocabulary.deep_view().subrange(0, self.vocabulary.len() as int)
                =~= self.vocabulary.deep_view());
            assert(self.start_contexts.deep_view().subrange(0, self.start_contexts.len() as int)
                =~= self.start_contexts.deep_view());
        }
        s
    }

    /// Reconstruct a model from its persisted form.
    ///
    /// The structure is validated in full: a persisted form whose shape
    /// breaks the documented invariants is `Malformed`, and one with a
    /// zero-total context is `Corrupt`. On success the model is exactly
    /// the persisted data, with every probability derived from the
    /// counts again.
    pub fn load_data(saved: SavedModel) -> (r: Result<LidstoneModel, PersistenceError>)
        ensures
            match r {
                Ok(m) => m@ == saved@ && wf(m@) && saved_shape_ok(saved@) && !saved_corrupt(
                    saved@,
                ),
                Err(PersistenceError::Malformed) => !saved_shape_ok(saved@),
                Err(PersistenceError::Corrupt) => saved_shape_ok(saved@) && saved_corrupt(saved@),
            },
    {
        if saved.n_size < 2 {
            return Err(PersistenceError::Malformed);
        }
        if !(1 <= saved.top_k.num && saved.top_k.num <= saved.top_k.den && saved.top_k.den
            <= 1_000_000) {
            return Err(PersistenceError::Malformed);
        }
        if !(1 <= saved.temperature.num && saved.temperature.num <= 4 && 1
            <= saved.temperature.den && saved.temperature.den <= 4) {
            return Err(PersistenceError::Malformed);
        }
        if !check_contexts_distinct(&saved.table) {
            return Err(PersistenceError::Malformed);
        }
        let mut i: usize = 0;
        while i < saved.table.len()
            invariant
                0 <= i <= saved.table.len(),
                forall|k: int|
                    0 <= k < i ==> distinct_tokens((#[trigger] saved.table.deep_view()[k]).candidates),
                forall|k: int, j: int|
                    0 <= k < i && 0 <= j < saved.table.deep_view()[k].candidates.len() ==> 1 <= (
                    #[trigger] saved.table.deep_view()[k].candidates[j].count),
                forall|k: int|
                    0 <= k < i ==> sum_counts((#[trigger] saved.table.deep_view()[k]).candidates)
                        <= MAX_CONTEXT_TOTAL,
                forall|k: int|
                    0 <= k < i ==> sorted_by(
                        (#[trigger] saved.table.deep_view()[k]).candidates,
                        cand_order(),
                    ),
            decreases saved.table.len() - i,
        {
            let ghost row = saved@.table[i as int].candidates;
            if !check_tokens_distinct(&saved.table[i].candidates) {
                proof {
                    assert(!distinct_tokens(row));
                }
                return Err(PersistenceError::Malformed);
            }
            if !check_counts(&saved.table[i].candidates) {
                proof {
                    let j = choose|j: int|
                        !(0 <= j < row.len() ==> 1 <= (#[trigger] row[j].count) && sum_counts(row)
                            <= MAX_CONTEXT_TOTAL);
                    if row[j].count < 1 {
                        assert(!saved_shape_ok(saved@));
                    } else {
                        assert(sum_counts(row) > MAX_CONTEXT_TOTAL);
                        assert(!saved_shape_ok(saved@));
                    }
                }
                return Err(PersistenceError::Malformed);
            }
            if !check_sorted(&saved.table[i].candidates) {
                proof {
                    assert(!sorted_by(row, cand_order()));
                }
                return Err(PersistenceError::Malformed);
            }
            i = i + 1;
        }
        let mut q: usize = 0;
        while q < saved.start_contexts.len()
            invariant
                0 <= q <= saved.start_contexts.len(),
                saved.n_size >= 2,
                forall|k: int|
                    0 <= k < q ==> tokens_of(
                        #[trigger] saved.start_contexts.deep_view()[k],
                    ).len() == saved.n_size - 1,
            decreases saved.start_contexts.len() - q,
        {
            let toks = tokenize(saved.start_contexts[q].as_str());
            if toks.len() != saved.n_size - 1 {
                proof {
                    assert(tokens_of(saved.start_contexts.deep_view()[q as int]).len()
                        != saved@.n_size - 1);
                }
                return Err(PersistenceError::Malformed);
            }
            q = q + 1;
        }
        if saved.vocabulary.len() >= 2 {
            let mut vq: usize = 0;
            while vq + 1 < saved.vocabulary.len()
                invariant
                    0 <= vq < saved.vocabulary.len(),
                    forall|k: int|
                        0 <= k < vq ==> lex_le(
                            #[trigger] saved.vocabulary.deep_view()[k],
                            saved.vocabulary.deep_view()[k + 1],
                        ) && saved.vocabulary.deep_view()[k] != saved.vocabulary.deep_view()[k + 1],
                decreases saved.vocabulary.len() - vq,
            {
                let le = crate::text::lex_le_exec(
                    saved.vocabulary[vq].as_str(),
                    saved.vocabulary[vq + 1].as_str(),
                );
                let eq = str_eq_exec(
                    saved.vocabulary[vq].as_str(),
                    saved.vocabulary[vq + 1].as_str(),
                );
                if !le || eq {
                    proof {
                        let dv = saved@.vocabulary;
                        if !le {
                            assert(!sorted_by(dv, lex_order())) by {
                                if sorted_by(dv, lex_order()) {
                                    assert(lex_order()(dv[vq as int], dv[vq + 1]));
                                }
                            }
                        } else {
                            assert(dv[vq as int] =~= dv[vq + 1]);
                            assert(!distinct_strs(dv));
                        }
                    }
                    return Err(PersistenceError::Malformed);
                }
                vq = vq + 1;
            }
        }
        proof {
            let dv = saved@.vocabulary;
            assert forall|a: int, b: int| 0 <= a < b < dv.len() implies lex_order()(
                dv[a],
                dv[b],
            ) && dv[a] != dv[b] by {
                lemma_lex_lt_span(dv, a, b);
            }
            assert(sorted_by(dv, lex_order()));
            assert(distinct_strs(dv));
        }
        let mut mi: usize = 0;
        while mi < saved.table.len()
            invariant
                0 <= mi <= saved.table.len(),
                forall|k: int, j: int|
                    0 <= k < mi && 0 <= j < saved@.table[k].candidates.len()
                        ==> saved@.vocabulary.contains(
                        #[trigger] saved@.table[k].candidates[j].token,
                    ),
                forall|k: int, t: Seq<char>|
                    0 <= k < mi && #[trigger] tokens_of(saved@.table[k].context).contains(t)
                        ==> saved@.vocabulary.contains(t),
            decreases saved.table.len() - mi,
        {
            let ghost row = saved@.table[mi as int];
            let mut cj: usize = 0;
            while cj < saved.table[mi].candidates.len()
                invariant
                    0 <= mi < saved.table.len(),
                    0 <= cj <= saved.table[mi as int].candidates.len(),
                    row == saved@.table[mi as int],
                    forall|j: int|
                        0 <= j < cj ==> saved@.vocabulary.contains(
                            #[trigger] row.candidates[j].token,
                        ),
                decreases saved.table[mi as int].candidates.len() - cj,
            {
                if !find_string(&saved.vocabulary, saved.table[mi].candidates[cj].token.as_str()) {
                    proof {
                        assert(!saved@.vocabulary.contains(row.candidates[cj as int].token));
                    }
                    return Err(PersistenceError::Malformed);
                }
                cj = cj + 1;
            }
            let ctoks = tokenize(saved.table[mi].context.as_str());
            let mut ck: usize = 0;
            while ck < ctoks.len()
                invariant
                    0 <= mi < saved.table.len(),
                    0 <= ck <= ctoks.len(),
                    row == saved@.table[mi as int],
                    ctoks.deep_view() == tokens_of(row.context),
                    forall|j: int|
                        0 <= j < ck ==> saved@.vocabulary.contains(
                            #[trigger] ctoks.deep_view()[j],
                        ),
                decreases ctoks.len() - ck,
            {
                if !find_string(&saved.vocabulary, ctoks[ck].as_str()) {
                    proof {
                        assert(tokens_of(row.context).contains(ctoks.deep_view()[ck as int]));
                        assert(!saved@.vocabulary.contains(ctoks.deep_view()[ck as int]));
                    }
                    return Err(PersistenceError::Malformed);
                }
                ck = ck + 1;
            }
            proof {
                assert forall|t: Seq<char>|
                    #[trigger] tokens_of(row.context).contains(t) implies saved@.vocabulary.contains(
                    t,
                ) by {
                    let j = choose|j: int|
                        0 <= j < tokens_of(row.context).len() && tokens_of(row.context)[j] == t;
                    assert(ctoks.deep_view()[j] == t);
                }
            }
            mi = mi + 1;
        }
        proof {
            assert forall|k: int, j: int|
                0 <= k < saved@.table.len() && 0 <= j < saved@.table[k].candidates.len() implies 1
                <= (#[trigger] saved@.table[k].candidates[j].count) && saved@.table[k].candidates[j].count
                <= MAX_CONTEXT_TOTAL by {
                lemma_count_le_sum(saved@.table[k].candidates, j);
            }
            assert(saved_shape_ok(saved@));
        }
        let mut c: usize = 0;
        while c < saved.table.len()
            invariant
                0 <= c <= saved.table.len(),
                forall|k: int|
                    0 <= k < c ==> (#[trigger] saved.table.deep_view()[k]).candidates.len() >= 1,
            decreases saved.table.len() - c,
        {
            if saved.table[c].candidates.len() == 0 {
                proof {
                    assert(saved.table.deep_view()[c as int].candidates.len() == 0);
                }
                return Err(PersistenceError::Corrupt);
            }
            c = c + 1;
        }
        let m = LidstoneModel {
            n_size: saved.n_size,
            top_k: saved.top_k,
            temperature: saved.temperature,
            unseen: saved.unseen,
            vocabulary: saved.vocabulary,
            table: saved.table,
            start_contexts: saved.start_contexts,
        };
        proof {
            assert(!saved_corrupt(saved@));
            assert(wf(m@));
        }
        Ok(m)
    }
}

/// A well-formed model round-trips through its persisted form: the
/// persisted data is exactly the model's data, it passes every load
/// check, and the reconstructed model is identical, raw counts and the
/// probabilities derived from them included.
pub proof fn lemma_save_load_round_trip(m: ModelV)
    requires
        wf(m),
    ensures
        saved_shape_ok(m),
        !saved_corrupt(m),
{
}

/// With truncation and temperature disabled the sampler's weights are
/// the raw counts themselves, so the cumulative weight over a context's
/// full candidate list equals the total count: the probabilities
/// `count / total` sum to exactly one.
pub proof fn lemma_probabilities_sum_to_one(cands: Seq<CandidateV>)
    requires
        cands.len() >= 1,
        forall|j: int| 0 <= j < cands.len() ==> 1 <= (#[trigger] cands[j].count),
    ensures
        prefix_sum(
            spec_weights(cands, cands.len(), 1, 1),
            cands.len() as int,
        ) == sum_counts(cands),
        sum_counts(cands) >= 1,
{
    let ws = spec_weights(cands, cands.len(), 1, 1);
    assert forall|k: int| 0 <= k <= cands.len() implies prefix_sum(ws, k) == sum_counts(
        cands.take(k),
    ) by {
        lemma_prefix_is_sum(cands, k);
    }
    assert(cands.take(cands.len() as int) =~= cands);
    lemma_sum_counts_ge_len(cands);
}

/// Every context of a well-formed model has a positive total count and
/// candidate probabilities `count / total` that sum to exactly one.
pub proof fn lemma_model_probabilities_sum_to_one(m: ModelV, i: int)
    requires
        wf(m),
        0 <= i < m.table.len(),
    ensures
        sum_counts(m.table[i].candidates) >= 1,
        prefix_sum(
            spec_weights(m.table[i].candidates, m.table[i].candidates.len(), 1, 1),
            m.table[i].candidates.len() as int,
        ) == sum_counts(m.table[i].candidates),
{
    lemma_probabilities_sum_to_one(m.table[i].candidates);
}

/// The sampler's prefix sums with unit temperature are count totals.
proof fn lemma_prefix_is_sum(cands: Seq<CandidateV>, k: int)
    requires
        0 <= k <= cands.len(),
    ensures
        prefix_sum(spec_weights(cands, cands.len(), 1, 1), k) == sum_counts(cands.take(k)),
    decreases k,
{
    let ws = spec_weights(cands, cands.len(), 1, 1);
    if k == 0 {
        assert(cands.take(0) =~= Seq::<CandidateV>::empty());
    } else {
        lemma_prefix_is_sum(cands, k - 1);
        lemma_sum_counts_take_push(cands, k - 1);
        assert(ws[k - 1] == cands[k - 1].count);
    }
}

impl LidstoneModel {
    /// The n-gram order.
    pub fn n_size(&self) -> (n: usize)
        ensures
            n == self@.n_size,
    {
        self.n_size
    }

    /// The configured top-k fraction.
    pub fn top_k(&self) -> (r: Ratio)
        ensures
            r == self@.top_k,
    {
        self.top_k
    }

    /// The configured temperature.
    pub fn temperature(&self) -> (r: Ratio)
        ensures
            r == self@.temperature,
    {
        self.temperature
    }

    /// The configured unseen-context policy.
    pub fn unseen_policy(&self) -> (r: UnseenPolicy)
        ensures
            r == self@.unseen,
    {
        self.unseen
    }

    /// The learned vocabulary, sorted and deduplicated.
    pub fn vocabulary(&self) -> (v: &Vec<String>)
        ensures
            v.deep_view() == self@.vocabulary,
    {
        &self.vocabulary
    }

    /// The start contexts recorded during training, in corpus order.
    pub fn start_contexts(&self) -> (v: &Vec<String>)
        ensures
            v.deep_view() == self@.start_contexts,
    {
        &self.start_contexts
    }

    /// The candidates recorded for a context, in the canonical order,
    /// or nothing for a context never seen in training.
    pub fn context_candidates(&self, context: &str) -> (r: Option<&Vec<Candidate>>)
        ensures
            match r {
                Some(cs) => has_context(self@.table, context@) && cs.deep_view() == context_cands(
                    self@.table,
                    context@,
                ),
                None => !has_context(self@.table, context@),
            },
    {
        match find_context(&self.table, context) {
            Some(i) => {
                proof {
                    assert(has_context(self@.table, context@));
                    lemma_context_cands_at(self@.table, i as int);
                }
                Some(&self.table[i].candidates)
            },
            None => {
                proof {
                    assert(!has_context(self@.table, context@)) by {
                        if has_context(self@.table, context@) {
                            let w = choose|w: int|
                                0 <= w < self@.table.len() && self@.table[w].context == context@;
                            assert(self@.table[w].context == context@);
                        }
                    }
                }
                None
            },
        }
    }

    /// How many rows the context table holds.
    pub fn context_count(&self) -> (n: usize)
        ensures
            n == self@.table.len(),
    {
        self.table.len()
    }
}

/// An element of a concatenation comes from one of the parts.
proof fn lemma_concat_contains(
    a: Seq<(Seq<char>, Seq<char>)>,
    b: Seq<(Seq<char>, Seq<char>)>,
    x: (Seq<char>, Seq<char>),
)
    requires
        (a + b).contains(x),
    ensures
        a.contains(x) || b.contains(x),
{
    let w = choose|w: int| 0 <= w < (a + b).len() && (a + b)[w] == x;
    if w < a.len() {
        assert(a[w] == x);
    } else {
        assert(b[w - a.len()] == x);
    }
}

/// Every recorded window comes from a position in some token sentence.
proof fn lemma_window_source(sents: Seq<Seq<Seq<char>>>, n: nat, pair: (Seq<char>, Seq<char>))
    requires
        corpus_windows(sents, n).contains(pair),
    ensures
        exists|i: int, w: int|
            0 <= i < sents.len() && 0 <= w < sent_windows(sents[i], n).len() && #[trigger] sent_windows(
                sents[i],
                n,
            )[w] == pair,
    decreases sents.len(),
{
    assert(sents.len() > 0);
    lemma_concat_contains(corpus_windows(sents.drop_last(), n), sent_windows(sents.last(), n), pair);
    if corpus_windows(sents.drop_last(), n).contains(pair) {
        lemma_window_source(sents.drop_last(), n, pair);
        let (i, w) = choose|i: int, w: int|
            0 <= i < sents.drop_last().len() && 0 <= w < sent_windows(
                sents.drop_last()[i],
                n,
            ).len() && #[trigger] sent_windows(sents.drop_last()[i], n)[w] == pair;
        assert(sents[i] == sents.drop_last()[i]);
        assert(sent_windows(sents[i], n)[w] == pair);
    } else {
        let w = choose|w: int|
            0 <= w < sent_windows(sents.last(), n).len() && sent_windows(sents.last(), n)[w]
                == pair;
        assert(sents[sents.len() - 1] == sents.last());
        assert(sent_windows(sents[sents.len() - 1], n)[w] == pair);
    }
}

/// Every token of a processed corpus sentence is a usable token.
proof fn lemma_kept_tokens_good(chain: Seq<PreStage>, corpus: Seq<Seq<char>>)
    ensures
        forall|i: int, p: int|
            0 <= i < kept_sentences(chain, corpus).len() && 0 <= p < kept_sentences(
                chain,
                corpus,
            )[i].len() ==> good_token(#[trigger] kept_sentences(chain, corpus)[i][p]),
    decreases corpus.len(),
{
    let sents = kept_sentences(chain, corpus);
    if corpus.len() > 0 {
        lemma_kept_tokens_good(chain, corpus.drop_last());
        let rest = kept_sentences(chain, corpus.drop_last());
        if corpus.last().len() == 0 {
        } else {
            lemma_tokens_good(apply_chain(chain, corpus.last()));
            assert forall|i: int, p: int|
                0 <= i < sents.len() && 0 <= p < sents[i].len() implies good_token(
                #[trigger] sents[i][p],
            ) by {
                if i < rest.len() {
                    assert(sents[i] == rest[i]);
                } else {
                    assert(sents[i] == sent_tokens(chain, corpus.last()));
                }
            }
        }
    }
}

/// After training, every token the table holds — every candidate token,
/// and every token of every context key — is a member of the
/// vocabulary.
pub proof fn lemma_table_tokens_in_vocabulary(
    m: ModelV,
    chain: Seq<PreStage>,
    corpus: Seq<Seq<char>>,
)
    requires
        acc_wf(m.table),
        counts_bounded(m.table, MAX_CONTEXT_TOTAL as nat),
        forall|ctx: Seq<char>, tok: Seq<char>|
            #[trigger] table_count(m.table, ctx, tok) == window_count(
                kept_sentences(chain, corpus),
                m.n_size,
                ctx,
                tok,
            ),
        forall|t: Seq<char>|
            m.vocabulary.contains(t) <==> in_sentences(kept_sentences(chain, corpus), t),
    ensures
        forall|i: int, j: int|
            0 <= i < m.table.len() && 0 <= j < m.table[i].candidates.len()
                ==> m.vocabulary.contains(#[trigger] m.table[i].candidates[j].token),
        forall|i: int, t: Seq<char>|
            0 <= i < m.table.len() && #[trigger] tokens_of(m.table[i].context).contains(t)
                ==> m.vocabulary.contains(t),
{
    broadcast use vstd::seq_lib::group_to_multiset_ensures;

    let sents = kept_sentences(chain, corpus);
    let n = m.n_size;
    lemma_kept_tokens_good(chain, corpus);
    assert forall|i: int, j: int|
        0 <= i < m.table.len() && 0 <= j < m.table[i].candidates.len() implies m.vocabulary.contains(
        #[trigger] m.table[i].candidates[j].token,
    ) && (forall|t: Seq<char>|
        #[trigger] tokens_of(m.table[i].context).contains(t) ==> m.vocabulary.contains(t)) by {
        let ctx = m.table[i].context;
        let tok = m.table[i].candidates[j].token;
        // the candidate's count is positive, so some window carries it
        crate::table::lemma_table_count_at(m.table, i, tok);
        crate::table::lemma_cand_count_contains(m.table[i].candidates, m.table[i].candidates[j]);
        assert(table_count(m.table, ctx, tok) >= 1);
        assert(corpus_windows(sents, n).to_multiset().count((ctx, tok)) >= 1);
        assert(corpus_windows(sents, n).contains((ctx, tok)));
        lemma_window_source(sents, n, (ctx, tok));
        let (si, w) = choose|si: int, w: int|
            0 <= si < sents.len() && 0 <= w < sent_windows(sents[si], n).len()
                && #[trigger] sent_windows(sents[si], n)[w] == (ctx, tok);
        let toks = sents[si];
        assert(toks.len() >= n);
        let target = toks[w + n - 1];
        assert(sent_windows(toks, n)[w] == (join_tokens(toks.subrange(w, w + n - 1)), target));
        // the target token stands in the sentence
        assert(target == tok);
        assert(in_sentences(sents, tok)) by {
            assert(sents[si][w + n - 1] == tok);
        }
        // the context key is the join of n-1 sentence tokens
        assert(ctx == join_tokens(toks.subrange(w, w + n - 1)));
        let win = toks.subrange(w, w + n - 1);
        assert(forall|p: int| 0 <= p < win.len() ==> good_token(#[trigger] win[p])) by {
            assert(forall|p: int| 0 <= p < win.len() ==> win[p] == sents[si][p + w]);
        }
        lemma_tokens_of_join(win);
        assert(tokens_of(ctx) == win);
        assert forall|t: Seq<char>| tokens_of(ctx).contains(t) implies m.vocabulary.contains(
            t,
        ) by {
            let p = choose|p: int| 0 <= p < win.len() && win[p] == t;
            assert(sents[si][p + w] == t);
            assert(in_sentences(sents, t));
        }
    }
    assert forall|i: int, t: Seq<char>|
        0 <= i < m.table.len() && #[trigger] tokens_of(m.table[i].context).contains(t) implies m.vocabulary.contains(
        t,
    ) by {
        assert(m.table[i].candidates.len() >= 1);
        assert(m.vocabulary.contains(m.table[i].candidates[0].token));
    }
}

/// A corpus with a nonempty sentence leaves at least one token sentence.
proof fn lemma_kept_nonempty(chain: Seq<PreStage>, corpus: Seq<Seq<char>>)
    requires
        exists|i: int| 0 <= i < corpus.len() && (#[trigger] corpus[i]).len() > 0,
    ensures
        kept_sentences(chain, corpus).len() >= 1,
    decreases corpus.len(),
{
    let i = choose|i: int| 0 <= i < corpus.len() && (#[trigger] corpus[i]).len() > 0;
    if i == corpus.len() - 1 {
    } else {
        assert(corpus.drop_last()[i] == corpus[i]);
        lemma_kept_nonempty(chain, corpus.drop_last());
    }
}

/// When every sentence is acceptable, every kept token sentence has at
/// least `n` tokens.
proof fn lemma_kept_long(chain: Seq<PreStage>, corpus: Seq<Seq<char>>, n: nat)
    requires
        forall|i: int| 0 <= i < corpus.len() ==> sentence_ok(chain, #[trigger] corpus[i], n),
    ensures
        forall|i: int|
            0 <= i < kept_sentences(chain, corpus).len() ==> (#[trigger] kept_sentences(
                chain,
                corpus,
            )[i]).len() >= n,
    decreases corpus.len(),
{
    if corpus.len() > 0 {
        assert(forall|i: int|
            0 <= i < corpus.drop_last().len() ==> sentence_ok(
                chain,
                #[trigger] corpus.drop_last()[i],
                n,
            ));
        lemma_kept_long(chain, corpus.drop_last(), n);
        let rest = kept_sentences(chain, corpus.drop_last());
        let sents = kept_sentences(chain, corpus);
        assert(sentence_ok(chain, corpus.last(), n));
        assert forall|i: int| 0 <= i < sents.len() implies (#[trigger] sents[i]).len() >= n by {
            if i < rest.len() {
                assert(sents[i] == rest[i]);
            } else {
                assert(sents[i] == sent_tokens(chain, corpus.last()));
            }
        }
    }
}

/// A model trained on a corpus with at least one nonempty, acceptable
/// sentence is ready to generate: it has a start context, and a
/// vocabulary for the fallback policy to draw from.
pub proof fn lemma_built_after_training(m: ModelV, chain: Seq<PreStage>, corpus: Seq<Seq<char>>)
    requires
        m.n_size >= 2,
        forall|i: int|
            0 <= i < corpus.len() ==> sentence_ok(chain, #[trigger] corpus[i], m.n_size),
        exists|i: int| 0 <= i < corpus.len() && (#[trigger] corpus[i]).len() > 0,
        m.start_contexts == starts_of(kept_sentences(chain, corpus), m.n_size),
        forall|t: Seq<char>|
            m.vocabulary.contains(t) <==> in_sentences(kept_sentences(chain, corpus), t),
    ensures
        built(m),
{
    let sents = kept_sentences(chain, corpus);
    lemma_kept_nonempty(chain, corpus);
    lemma_kept_long(chain, corpus, m.n_size);
    assert(m.start_contexts.len() == sents.len());
    assert(sents[0].len() >= m.n_size);
    let t = sents[0][0];
    assert(in_sentences(sents, t)) by {
        assert(sents[0][0] == t);
    }
    assert(m.vocabulary.contains(t));
    let w = choose|w: int| 0 <= w < m.vocabulary.len() && m.vocabulary[w] == t;
    assert(m.vocabulary.len() >= 1);
}

} // verus!
