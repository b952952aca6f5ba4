//! The n-gram frequency table: per-context candidate lists with raw
//! counts, kept in a deterministic order (descending count, ties broken
//! by ascending lexicographic token order).
use vstd::prelude::*;
use vstd::multiset::Multiset;
use vstd::relations::sorted_by;
use crate::text::lex_le;
use crate::text::lex_le_exec;

verus! {

/// One candidate continuation of a context: a token and how often it
/// followed the context during training. Its probability is the count
/// divided by the context's total count; it is derived, never stored.
pub struct Candidate {
    pub token: String,
    pub count: u64,
}

/// The mathematical value of a [`Candidate`].
pub struct CandidateV {
    pub token: Seq<char>,
    pub count: u64,
}

impl View for Candidate {
    type V = CandidateV;

    open spec fn view(&self) -> CandidateV {
        CandidateV { token: self.token@, count: self.count }
    }
}

impl DeepView for Candidate {
    type V = CandidateV;

    open spec fn deep_view(&self) -> CandidateV {
        self@
    }
}

/// One row of the table: a context string and its candidate list.
pub struct ContextEntry {
    pub context: String,
    pub candidates: Vec<Candidate>,
}

/// The mathematical value of a [`ContextEntry`].
pub struct ContextEntryV {
    pub context: Seq<char>,
    pub candidates: Seq<CandidateV>,
}

impl View for ContextEntry {
    type V = ContextEntryV;

    open spec fn view(&self) -> ContextEntryV {
        ContextEntryV { context: self.context@, candidates: self.candidates.deep_view() }
    }
}

impl DeepView for ContextEntry {
    type V = ContextEntryV;

    open spec fn deep_view(&self) -> ContextEntryV {
        self@
    }
}

/// The candidate order: descending count, ties broken by ascending
/// lexicographic token order.
pub open spec fn cand_le(a: CandidateV, b: CandidateV) -> bool {
    a.count > b.count || (a.count == b.count && lex_le(a.token, b.token))
}

/// The candidate order as a relation value, for `sorted_by`.
pub open spec fn cand_order() -> spec_fn(CandidateV, CandidateV) -> bool {
    |a: CandidateV, b: CandidateV| cand_le(a, b)
}

/// `lex_le` is reflexive.
pub proof fn lemma_lex_le_refl(a: Seq<char>)
    ensures
        lex_le(a, a),
    decreases a.len(),
{
    if a.len() > 0 {
        lemma_lex_le_refl(a.drop_first());
    }
}

/// Any two sequences are `lex_le`-comparable.
pub proof fn lemma_lex_le_total(a: Seq<char>, b: Seq<char>)
    ensures
        lex_le(a, b) || lex_le(b, a),
    decreases a.len(),
{
    if a.len() > 0 && b.len() > 0 {
        if a[0] == b[0] {
            lemma_lex_le_total(a.drop_first(), b.drop_first());
        } else {
            vstd::utf8::char_u32_cast(a[0], a[0] as u32);
            vstd::utf8::char_u32_cast(b[0], b[0] as u32);
            assert((a[0] as u32) != (b[0] as u32));
        }
    }
}

/// `lex_le` is antisymmetric: ordered both ways means equal.
pub proof fn lemma_lex_le_antisym(a: Seq<char>, b: Seq<char>)
    requires
        lex_le(a, b),
        lex_le(b, a),
    ensures
        a == b,
    decreases a.len(),
{
    if a.len() == 0 {
        assert(b.len() == 0);
        assert(a =~= b);
    } else {
        assert(b.len() > 0);
        if a[0] == b[0] {
            lemma_lex_le_antisym(a.drop_first(), b.drop_first());
            assert(a.drop_first().len() == b.drop_first().len());
            assert(a.len() == b.len());
            assert forall|i: int| 0 <= i < a.len() implies a[i] == b[i] by {
                if i > 0 {
                    assert(a[i] == a.drop_first()[i - 1]);
                    assert(b[i] == b.drop_first()[i - 1]);
                }
            }
            assert(a =~= b);
        }
    }
}

/// `lex_le` is transitive.
pub proof fn lemma_lex_le_trans(a: Seq<char>, b: Seq<char>, c: Seq<char>)
    requires
        lex_le(a, b),
        lex_le(b, c),
    ensures
        lex_le(a, c),
    decreases a.len(),
{
    if a.len() > 0 && b.len() > 0 && c.len() > 0 {
        if a[0] == b[0] && b[0] == c[0] {
            lemma_lex_le_trans(a.drop_first(), b.drop_first(), c.drop_first());
        } else {
            vstd::utf8::char_u32_cast(a[0], a[0] as u32);
            vstd::utf8::char_u32_cast(b[0], b[0] as u32);
            vstd::utf8::char_u32_cast(c[0], c[0] as u32);
        }
    }
}

/// Any two candidates are comparable.
pub proof fn lemma_cand_le_total(a: CandidateV, b: CandidateV)
    ensures
        cand_le(a, b) || cand_le(b, a),
{
    lemma_lex_le_total(a.token, b.token);
}

/// The candidate order is transitive.
pub proof fn lemma_cand_le_trans(a: CandidateV, b: CandidateV, c: CandidateV)
    requires
        cand_le(a, b),
        cand_le(b, c),
    ensures
        cand_le(a, c),
{
    if a.count == b.count && b.count == c.count {
        lemma_lex_le_trans(a.token, b.token, c.token);
    }
}

/// String equality, decided character by character.
pub fn str_eq_exec(a: &str, b: &str) -> (r: bool)
    ensures
        r == (a@ == b@),
{
    let la = a.unicode_len();
    let lb = b.unicode_len();
    if la != lb {
        proof {
            assert(a@ != b@);
        }
        return false;
    }
    let mut i: usize = 0;
    while i < la
        invariant
            0 <= i <= la,
            la == a@.len(),
            la == b@.len(),
            forall|k: int| 0 <= k < i ==> a@[k] == b@[k],
        decreases la - i,
    {
        let ca = a.get_char(i);
        let cb = b.get_char(i);
        if ca != cb {
            proof {
                assert(a@[i as int] != b@[i as int]);
            }
            return false;
        }
        i = i + 1;
    }
    proof {
        assert(a@ =~= b@);
    }
    true
}

/// Copy a candidate.
pub fn clone_candidate(c: &Candidate) -> (r: Candidate)
    ensures
        r == *c,
{
    Candidate { token: c.token.clone(), count: c.count }
}

/// Index of a least candidate under the candidate order.
fn min_index(v: &Vec<Candidate>) -> (m: usize)
    requires
        v.len() > 0,
    ensures
        m < v.len(),
        forall|k: int| 0 <= k < v.len() ==> cand_le(v.deep_view()[m as int], v.deep_view()[k]),
{
    let mut m: usize = 0;
    let mut i: usize = 1;
    proof {
        lemma_cand_le_total(v.deep_view()[0], v.deep_view()[0]);
    }
    while i < v.len()
        invariant
            0 <= m < i <= v.len(),
            forall|k: int| 0 <= k < i ==> cand_le(v.deep_view()[m as int], v.deep_view()[k]),
        decreases v.len() - i,
    {
        let keep = cand_le_exec(&v[m], &v[i]);
        if !keep {
            proof {
                lemma_cand_le_total(v.deep_view()[m as int], v.deep_view()[i as int]);
                assert forall|k: int| 0 <= k < i + 1 implies cand_le(
                    v.deep_view()[i as int],
                    v.deep_view()[k],
                ) by {
                    if k < i {
                        lemma_cand_le_trans(
                            v.deep_view()[i as int],
                            v.deep_view()[m as int],
                            v.deep_view()[k],
                        );
                    } else {
                        lemma_cand_le_total(v.deep_view()[i as int], v.deep_view()[i as int]);
                    }
                }
            }
            m = i;
        }
        i = i + 1;
    }
    m
}

/// Compare two candidates in the candidate order.
pub fn cand_le_exec(a: &Candidate, b: &Candidate) -> (r: bool)
    ensures
        r == cand_le(a@, b@),
{
    a.count > b.count || (a.count == b.count && lex_le_exec(a.token.as_str(), b.token.as_str()))
}

/// Sort candidates by descending count, ties by ascending token order.
pub fn sort_candidates(v: Vec<Candidate>) -> (r: Vec<Candidate>)
    ensures
        sorted_by(r.deep_view(), cand_order()),
        r.deep_view().to_multiset() == v.deep_view().to_multiset(),
        r.len() == v.len(),
{
    broadcast use vstd::seq_lib::group_to_multiset_ensures;

    let ghost orig = v.deep_view();
    let mut v = v;
    let mut out: Vec<Candidate> = Vec::new();
    proof {
        assert(out.deep_view().to_multiset().add(v.deep_view().to_multiset()) =~= orig.to_multiset());
    }
    while v.len() > 0
        invariant
            out.deep_view().to_multiset().add(v.deep_view().to_multiset()) =~= orig.to_multiset(),
            sorted_by(out.deep_view(), cand_order()),
            forall|p: int, q: int|
                0 <= p < out.len() && 0 <= q < v.len() ==> cand_le(
                    out.deep_view()[p],
                    v.deep_view()[q],
                ),
            out.len() + v.len() == orig.len(),
        decreases v.len(),
    {
        let ghost old_out = out.deep_view();
        let ghost pre_v = v.deep_view();
        let m = min_index(&v);
        let x = v.remove(m);
        out.push(x);
        proof {
            assert(v.deep_view() =~= pre_v.remove(m as int));
            assert(x@ == pre_v[m as int]);
            assert(out.deep_view() =~= old_out.push(x@));
            assert(out.deep_view().to_multiset() =~= old_out.to_multiset().insert(x@));
            assert(v.deep_view().to_multiset() =~= pre_v.to_multiset().remove(x@)) by {
                assert(pre_v.remove(m as int).to_multiset() =~= pre_v.to_multiset().remove(
                    pre_v[m as int],
                ));
            }
            assert(pre_v.to_multiset().count(x@) > 0) by {
                assert(pre_v[m as int] == x@);
                assert(pre_v.contains(x@));
            }
            assert(out.deep_view().to_multiset().add(v.deep_view().to_multiset())
                =~= orig.to_multiset());
            let leq = cand_order();
            assert forall|p: int, q: int| 0 <= p < q < out.len() implies leq(
                out.deep_view()[p],
                out.deep_view()[q],
            ) by {
                if q == out.len() - 1 {
                    assert(out.deep_view()[q] == x@);
                    assert(cand_le(old_out[p], pre_v[m as int]));
                }
            }
            assert forall|p: int, q: int|
                0 <= p < out.len() && 0 <= q < v.len() implies cand_le(
                out.deep_view()[p],
                v.deep_view()[q],
            ) by {
                let vq = v.deep_view()[q];
                if q < m {
                    assert(vq == pre_v[q]);
                } else {
                    assert(vq == pre_v[q + 1]);
                }
                assert(cand_le(x@, vq));
                if p < out.len() - 1 {
                    assert(cand_le(old_out[p], vq));
                } else {
                    assert(out.deep_view()[p] == x@);
                }
            }
        }
    }
    proof {
        assert(v.deep_view().to_multiset() =~= Multiset::<CandidateV>::empty()) by {
            assert(v.deep_view() =~= Seq::<CandidateV>::empty());
        }
        assert(out.deep_view().to_multiset() =~= orig.to_multiset());
    }
    out
}

/// The count recorded for `tok` in a candidate list (0 when absent).
pub open spec fn cand_count(cs: Seq<CandidateV>, tok: Seq<char>) -> nat
    decreases cs.len(),
{
    if cs.len() == 0 {
        0
    } else if cs[0].token == tok {
        cs[0].count as nat
    } else {
        cand_count(cs.drop_first(), tok)
    }
}

/// The count recorded for `tok` after context `ctx` (0 when absent).
pub open spec fn table_count(t: Seq<ContextEntryV>, ctx: Seq<char>, tok: Seq<char>) -> nat
    decreases t.len(),
{
    if t.len() == 0 {
        0
    } else if t[0].context == ctx {
        cand_count(t[0].candidates, tok)
    } else {
        table_count(t.drop_first(), ctx, tok)
    }
}

/// Whether the table has a row for `ctx`.
pub open spec fn has_context(t: Seq<ContextEntryV>, ctx: Seq<char>) -> bool {
    exists|j: int| 0 <= j < t.len() && t[j].context == ctx
}

/// No two rows share a context.
pub open spec fn distinct_contexts(t: Seq<ContextEntryV>) -> bool {
    forall|i: int, j: int| 0 <= i < j < t.len() ==> t[i].context != t[j].context
}

/// No two candidates of one list share a token.
pub open spec fn distinct_tokens(cs: Seq<CandidateV>) -> bool {
    forall|i: int, j: int| 0 <= i < j < cs.len() ==> cs[i].token != cs[j].token
}

/// Every candidate of every row has a positive count, at most `b`.
pub open spec fn counts_bounded(t: Seq<ContextEntryV>, b: nat) -> bool {
    forall|i: int, j: int|
        0 <= i < t.len() && 0 <= j < t[i].candidates.len() ==> 1 <= (#[trigger] t[i].candidates[j].count)
            <= b
}

/// Every row has a distinct context, at least one candidate, and
/// distinct tokens.
pub open spec fn acc_wf(t: Seq<ContextEntryV>) -> bool {
    &&& distinct_contexts(t)
    &&& forall|i: int| 0 <= i < t.len() ==> (#[trigger] t[i].candidates.len()) >= 1
    &&& forall|i: int| 0 <= i < t.len() ==> distinct_tokens(#[trigger] t[i].candidates)
}

/// `cand_count` reads the candidate at the first occurrence of a token.
pub proof fn lemma_cand_count_at(cs: Seq<CandidateV>, j: int)
    requires
        0 <= j < cs.len(),
        forall|k: int| 0 <= k < j ==> cs[k].token != cs[j].token,
    ensures
        cand_count(cs, cs[j].token) == cs[j].count,
    decreases j,
{
    if j > 0 {
        lemma_cand_count_at(cs.drop_first(), j - 1);
    }
}

/// A token carried by no candidate has count 0.
pub proof fn lemma_cand_count_absent(cs: Seq<CandidateV>, tok: Seq<char>)
    requires
        forall|k: int| 0 <= k < cs.len() ==> cs[k].token != tok,
    ensures
        cand_count(cs, tok) == 0,
    decreases cs.len(),
{
    if cs.len() > 0 {
        lemma_cand_count_absent(cs.drop_first(), tok);
    }
}

/// Updating one candidate in place changes only its token's count.
pub proof fn lemma_cand_count_update(cs: Seq<CandidateV>, j: int, c2: CandidateV, tok: Seq<char>)
    requires
        0 <= j < cs.len(),
        c2.token == cs[j].token,
        distinct_tokens(cs),
    ensures
        cand_count(cs.update(j, c2), tok) == if tok == cs[j].token {
            c2.count as nat
        } else {
            cand_count(cs, tok)
        },
    decreases j,
{
    let cs2 = cs.update(j, c2);
    if j == 0 {
        assert(cs2[0] == c2);
        if tok != cs[0].token {
            assert(cs2.drop_first() =~= cs.drop_first());
        } else {
            lemma_cand_count_at(cs2, 0);
        }
    } else {
        assert(cs2[0] == cs[0]);
        assert(cs2.drop_first() =~= cs.drop_first().update(j - 1, c2));
        lemma_cand_count_update(cs.drop_first(), j - 1, c2, tok);
    }
}

/// Appending a fresh token adds its count and changes nothing else.
pub proof fn lemma_cand_count_push(cs: Seq<CandidateV>, c: CandidateV, tok: Seq<char>)
    requires
        forall|k: int| 0 <= k < cs.len() ==> cs[k].token != c.token,
    ensures
        cand_count(cs.push(c), tok) == if tok == c.token {
            c.count as nat
        } else {
            cand_count(cs, tok)
        },
    decreases cs.len(),
{
    let cs2 = cs.push(c);
    if cs.len() == 0 {
        assert(cs2[0] == c);
        assert(cs2.drop_first() =~= Seq::<CandidateV>::empty());
        assert(cand_count(Seq::<CandidateV>::empty(), tok) == 0);
        assert(cand_count(cs, tok) == 0);
    } else {
        assert(cs2[0] == cs[0]);
        assert(cs2.drop_first() =~= cs.drop_first().push(c));
        lemma_cand_count_push(cs.drop_first(), c, tok);
    }
}

/// `table_count` reads the row at the first occurrence of a context.
pub proof fn lemma_table_count_at(t: Seq<ContextEntryV>, i: int, tok: Seq<char>)
    requires
        0 <= i < t.len(),
        forall|k: int| 0 <= k < i ==> t[k].context != t[i].context,
    ensures
        table_count(t, t[i].context, tok) == cand_count(t[i].candidates, tok),
    decreases i,
{
    if i > 0 {
        lemma_table_count_at(t.drop_first(), i - 1, tok);
    }
}

/// A context with no row has count 0 for every token.
pub proof fn lemma_table_count_absent(t: Seq<ContextEntryV>, ctx: Seq<char>, tok: Seq<char>)
    requires
        forall|k: int| 0 <= k < t.len() ==> t[k].context != ctx,
    ensures
        table_count(t, ctx, tok) == 0,
    decreases t.len(),
{
    if t.len() > 0 {
        lemma_table_count_absent(t.drop_first(), ctx, tok);
    }
}

/// Updating one row in place changes only that row's context counts.
pub proof fn lemma_table_count_update(
    t: Seq<ContextEntryV>,
    i: int,
    e2: ContextEntryV,
    ctx: Seq<char>,
    tok: Seq<char>,
)
    requires
        0 <= i < t.len(),
        e2.context == t[i].context,
        distinct_contexts(t),
    ensures
        table_count(t.update(i, e2), ctx, tok) == if ctx == t[i].context {
            cand_count(e2.candidates, tok)
        } else {
            table_count(t, ctx, tok)
        },
    decreases i,
{
    let t2 = t.update(i, e2);
    if i == 0 {
        assert(t2[0] == e2);
        if ctx != t[0].context {
            assert(t2.drop_first() =~= t.drop_first());
        } else {
            lemma_table_count_at(t2, 0, tok);
        }
    } else {
        assert(t2[0] == t[0]);
        assert(t2.drop_first() =~= t.drop_first().update(i - 1, e2));
        lemma_table_count_update(t.drop_first(), i - 1, e2, ctx, tok);
    }
}

/// Appending a row for a fresh context adds its counts and changes
/// nothing else.
pub proof fn lemma_table_count_push(
    t: Seq<ContextEntryV>,
    e: ContextEntryV,
    ctx: Seq<char>,
    tok: Seq<char>,
)
    requires
        forall|k: int| 0 <= k < t.len() ==> t[k].context != e.context,
    ensures
        table_count(t.push(e), ctx, tok) == if ctx == e.context {
            cand_count(e.candidates, tok)
        } else {
            table_count(t, ctx, tok)
        },
    decreases t.len(),
{
    let t2 = t.push(e);
    if t.len() == 0 {
        assert(t2[0] == e);
        assert(t2.drop_first() =~= Seq::<ContextEntryV>::empty());
        assert(table_count(Seq::<ContextEntryV>::empty(), ctx, tok) == 0);
        assert(table_count(t, ctx, tok) == 0);
    } else {
        assert(t2[0] == t[0]);
        assert(t2.drop_first() =~= t.drop_first().push(e));
        lemma_table_count_push(t.drop_first(), e, ctx, tok);
    }
}

/// Find the row of a context, scanning in order.
pub fn find_context(t: &Vec<ContextEntry>, ctx: &str) -> (r: Option<usize>)
    ensures
        match r {
            Some(i) => i < t.len() && t.deep_view()[i as int].context == ctx@ && (forall|k: int|
                0 <= k < i ==> t.deep_view()[k].context != ctx@),
            None => forall|k: int| 0 <= k < t.len() ==> t.deep_view()[k].context != ctx@,
        },
{
    let mut i: usize = 0;
    while i < t.len()
        invariant
            0 <= i <= t.len(),
            forall|k: int| 0 <= k < i ==> t.deep_view()[k].context != ctx@,
        decreases t.len() - i,
    {
        if str_eq_exec(t[i].context.as_str(), ctx) {
            return Some(i);
        }
        i = i + 1;
    }
    None
}

/// Find the candidate of a token, scanning in order.
pub fn find_token(cs: &Vec<Candidate>, tok: &str) -> (r: Option<usize>)
    ensures
        match r {
            Some(j) => j < cs.len() && cs.deep_view()[j as int].token == tok@ && (forall|k: int|
                0 <= k < j ==> cs.deep_view()[k].token != tok@),
            None => forall|k: int| 0 <= k < cs.len() ==> cs.deep_view()[k].token != tok@,
        },
{
    let mut j: usize = 0;
    while j < cs.len()
        invariant
            0 <= j <= cs.len(),
            forall|k: int| 0 <= k < j ==> cs.deep_view()[k].token != tok@,
        decreases cs.len() - j,
    {
        if str_eq_exec(cs[j].token.as_str(), tok) {
            return Some(j);
        }
        j = j + 1;
    }
    None
}

/// Record one observation: token `tok` followed context `ctx`.
///
/// `bound` is any bound on the counts already recorded; it keeps the
/// incremented count within `u64`.
pub fn bump(acc: &mut Vec<ContextEntry>, ctx: &str, tok: &str, Ghost(bound): Ghost<nat>)
    requires
        acc_wf(old(acc).deep_view()),
        counts_bounded(old(acc).deep_view(), bound),
        bound + 1 <= u64::MAX,
    ensures
        acc_wf(final(acc).deep_view()),
        counts_bounded(final(acc).deep_view(), bound + 1),
        forall|c: Seq<char>, tk: Seq<char>|
            table_count(final(acc).deep_view(), c, tk) == table_count(old(acc).deep_view(), c, tk)
                + if c == ctx@ && tk == tok@ {
                1nat
            } else {
                0nat
            },
        forall|c: Seq<char>|
            has_context(final(acc).deep_view(), c) == (has_context(old(acc).deep_view(), c) || c
                == ctx@),
        forall|c: Seq<char>|
            #[trigger] sum_counts(context_cands(final(acc).deep_view(), c)) == sum_counts(
                context_cands(old(acc).deep_view(), c),
            ) + if c == ctx@ {
                1nat
            } else {
                0nat
            },
{
    let ghost t0 = acc.deep_view();
    match find_context(acc, ctx) {
        Some(i) => {
            let mut entry = acc.remove(i);
            let ghost e0 = t0[i as int];
            let ghost cs0 = e0.candidates;
            match find_token(&entry.candidates, tok) {
                Some(j) => {
                    let mut c = entry.candidates.remove(j);
                    proof {
                        assert(cs0[j as int].count >= 1);
                    }
                    c.count = c.count + 1;
                    entry.candidates.insert(j, c);
                    proof {
                        assert(entry.candidates.deep_view() =~= cs0.update(
                            j as int,
                            CandidateV { token: tok@, count: (cs0[j as int].count + 1) as u64 },
                        ));
                    }
                },
                None => {
                    entry.candidates.push(
                        Candidate { token: String::from_str(tok), count: 1 },
                    );
                    proof {
                        assert(entry.candidates.deep_view() =~= cs0.push(
                            CandidateV { token: tok@, count: 1u64 },
                        ));
                    }
                },
            }
            let ghost cs1 = entry.candidates.deep_view();
            acc.insert(i, entry);
            proof {
                assert(acc.deep_view() =~= t0.update(
                    i as int,
                    ContextEntryV { context: e0.context, candidates: cs1 },
                ));
                let e2 = ContextEntryV { context: e0.context, candidates: cs1 };
                // per-candidate counts of the updated row
                if cs1.len() == cs0.len() {
                    // the update case
                    let j = choose|j: int|
                        0 <= j < cs0.len() && cs0[j].token == tok@ && cs1 == cs0.update(
                            j,
                            CandidateV { token: tok@, count: (cs0[j].count + 1) as u64 },
                        );
                    assert forall|tk: Seq<char>|
                        cand_count(cs1, tk) == cand_count(cs0, tk) + if tk == tok@ {
                            1nat
                        } else {
                            0nat
                        } by {
                        lemma_cand_count_update(
                            cs0,
                            j,
                            CandidateV { token: tok@, count: (cs0[j].count + 1) as u64 },
                            tk,
                        );
                        if tk == tok@ {
                            lemma_cand_count_at(cs0, j);
                        }
                    }
                    assert(distinct_tokens(cs1)) by {
                        assert(forall|k: int|
                            0 <= k < cs1.len() ==> (#[trigger] cs1[k]).token == cs0[k].token);
                    }
                } else {
                    // the push case
                    assert forall|tk: Seq<char>|
                        cand_count(cs1, tk) == cand_count(cs0, tk) + if tk == tok@ {
                            1nat
                        } else {
                            0nat
                        } by {
                        lemma_cand_count_push(cs0, CandidateV { token: tok@, count: 1u64 }, tk);
                        if tk == tok@ {
                            lemma_cand_count_absent(cs0, tok@);
                        }
                    }
                    assert(distinct_tokens(cs1)) by {
                        assert(forall|k: int| 0 <= k < cs0.len() ==> cs1[k] == cs0[k]);
                        assert(cs1[cs0.len() as int].token == tok@);
                    }
                }
                assert forall|c: Seq<char>, tk: Seq<char>|
                    table_count(acc.deep_view(), c, tk) == table_count(t0, c, tk) + if c == ctx@
                        && tk == tok@ {
                        1nat
                    } else {
                        0nat
                    } by {
                    lemma_table_count_update(t0, i as int, e2, c, tk);
                    if c == ctx@ {
                        lemma_table_count_at(t0, i as int, tk);
                    }
                }
                assert forall|c: Seq<char>|
                    has_context(acc.deep_view(), c) == (has_context(t0, c) || c == ctx@) by {
                    assert(forall|k: int|
                        0 <= k < t0.len() ==> (#[trigger] acc.deep_view()[k]).context
                            == t0[k].context);
                    if has_context(t0, c) {
                        let w = choose|w: int| 0 <= w < t0.len() && t0[w].context == c;
                        assert(acc.deep_view()[w].context == c);
                    }
                }
                assert(sum_counts(cs1) == sum_counts(cs0) + 1) by {
                    if cs1.len() == cs0.len() {
                        let j = choose|j: int|
                            0 <= j < cs0.len() && cs0[j].token == tok@ && cs1 == cs0.update(
                                j,
                                CandidateV { token: tok@, count: (cs0[j].count + 1) as u64 },
                            );
                        lemma_sum_counts_update(
                            cs0,
                            j,
                            CandidateV { token: tok@, count: (cs0[j].count + 1) as u64 },
                        );
                    } else {
                        lemma_sum_counts_push(cs0, CandidateV { token: tok@, count: 1u64 });
                    }
                }
                assert forall|c: Seq<char>|
                    #[trigger] sum_counts(context_cands(acc.deep_view(), c)) == sum_counts(
                        context_cands(t0, c),
                    ) + if c == ctx@ {
                        1nat
                    } else {
                        0nat
                    } by {
                    lemma_context_cands_update(t0, i as int, e2, c);
                    if c == ctx@ {
                        lemma_context_cands_at(t0, i as int);
                    }
                }
            }
        },
        None => {
            let mut cands: Vec<Candidate> = Vec::new();
            cands.push(Candidate { token: String::from_str(tok), count: 1 });
            let entry = ContextEntry { context: String::from_str(ctx), candidates: cands };
            let ghost ev = entry@;
            acc.push(entry);
            proof {
                assert(acc.deep_view() =~= t0.push(ev));
                assert(ev.candidates =~= seq![CandidateV { token: tok@, count: 1u64 }]);
                assert forall|c: Seq<char>, tk: Seq<char>|
                    table_count(acc.deep_view(), c, tk) == table_count(t0, c, tk) + if c == ctx@
                        && tk == tok@ {
                        1nat
                    } else {
                        0nat
                    } by {
                    lemma_table_count_push(t0, ev, c, tk);
                    if c == ctx@ {
                        lemma_table_count_absent(t0, ctx@, tk);
                        assert(cand_count(ev.candidates, tk) == if tk == tok@ {
                            1nat
                        } else {
                            0nat
                        }) by {
                            assert(ev.candidates[0].token == tok@);
                            assert(ev.candidates.drop_first() =~= Seq::<CandidateV>::empty());
                            assert(cand_count(Seq::<CandidateV>::empty(), tk) == 0);
                        }
                    }
                }
                assert forall|c: Seq<char>|
                    has_context(acc.deep_view(), c) == (has_context(t0, c) || c == ctx@) by {
                    assert(forall|k: int|
                        0 <= k < t0.len() ==> (#[trigger] acc.deep_view()[k]).context
                            == t0[k].context);
                    assert(acc.deep_view()[t0.len() as int].context == ctx@);
                    if has_context(t0, c) {
                        let w = choose|w: int| 0 <= w < t0.len() && t0[w].context == c;
                        assert(acc.deep_view()[w].context == c);
                    }
                }
                assert(sum_counts(ev.candidates) == 1) by {
                    assert(ev.candidates.drop_first() =~= Seq::<CandidateV>::empty());
                    assert(sum_counts(Seq::<CandidateV>::empty()) == 0);
                }
                assert forall|c: Seq<char>|
                    #[trigger] sum_counts(context_cands(acc.deep_view(), c)) == sum_counts(
                        context_cands(t0, c),
                    ) + if c == ctx@ {
                        1nat
                    } else {
                        0nat
                    } by {
                    lemma_context_cands_push(t0, ev, c);
                    if c == ctx@ {
                        lemma_context_cands_absent(t0, ctx@);
                        assert(sum_counts(Seq::<CandidateV>::empty()) == 0);
                    }
                }
            }
        },
    }
}

/// The total count of a candidate list: the denominator of every
/// candidate's probability.
pub open spec fn sum_counts(cs: Seq<CandidateV>) -> nat
    decreases cs.len(),
{
    if cs.len() == 0 {
        0
    } else {
        (cs[0].count as nat) + sum_counts(cs.drop_first())
    }
}

/// A list of positive counts has a total of at least its length.
pub proof fn lemma_sum_counts_ge_len(cs: Seq<CandidateV>)
    requires
        forall|j: int| 0 <= j < cs.len() ==> (#[trigger] cs[j].count) >= 1,
    ensures
        sum_counts(cs) >= cs.len(),
    decreases cs.len(),
{
    if cs.len() > 0 {
        lemma_sum_counts_ge_len(cs.drop_first());
    }
}

/// The total of a prefix never exceeds the total of the whole list.
pub proof fn lemma_sum_counts_take_le(cs: Seq<CandidateV>, k: int)
    requires
        0 <= k <= cs.len(),
    ensures
        sum_counts(cs.take(k)) <= sum_counts(cs),
    decreases cs.len(),
{
    if k == 0 {
        assert(cs.take(0) =~= Seq::<CandidateV>::empty());
    } else {
        assert(cs.take(k)[0] == cs[0]);
        assert(cs.take(k).drop_first() =~= cs.drop_first().take(k - 1));
        lemma_sum_counts_take_le(cs.drop_first(), k - 1);
    }
}

/// The candidate list recorded for a context (empty when absent).
pub open spec fn context_cands(t: Seq<ContextEntryV>, ctx: Seq<char>) -> Seq<CandidateV>
    decreases t.len(),
{
    if t.len() == 0 {
        Seq::empty()
    } else if t[0].context == ctx {
        t[0].candidates
    } else {
        context_cands(t.drop_first(), ctx)
    }
}

/// `context_cands` reads the row at the first occurrence of a context.
pub proof fn lemma_context_cands_at(t: Seq<ContextEntryV>, i: int)
    requires
        0 <= i < t.len(),
        forall|k: int| 0 <= k < i ==> t[k].context != t[i].context,
    ensures
        context_cands(t, t[i].context) == t[i].candidates,
    decreases i,
{
    if i > 0 {
        lemma_context_cands_at(t.drop_first(), i - 1);
    }
}

/// `table_count` is `cand_count` of the context's candidate list.
pub proof fn lemma_table_count_is_cand_count(t: Seq<ContextEntryV>, ctx: Seq<char>, tok: Seq<char>)
    ensures
        table_count(t, ctx, tok) == cand_count(context_cands(t, ctx), tok),
    decreases t.len(),
{
    if t.len() == 0 {
        assert(cand_count(Seq::<CandidateV>::empty(), tok) == 0);
    } else if t[0].context != ctx {
        lemma_table_count_is_cand_count(t.drop_first(), ctx, tok);
    }
}

/// Extending a prefix by one adds that candidate's count.
pub proof fn lemma_sum_counts_take_push(cs: Seq<CandidateV>, j: int)
    requires
        0 <= j < cs.len(),
    ensures
        sum_counts(cs.take(j + 1)) == sum_counts(cs.take(j)) + cs[j].count,
    decreases j,
{
    if j == 0 {
        assert(cs.take(0) =~= Seq::<CandidateV>::empty());
        assert(cs.take(1)[0] == cs[0]);
        assert(cs.take(1).drop_first() =~= Seq::<CandidateV>::empty());
    } else {
        assert(cs.take(j + 1)[0] == cs[0]);
        assert(cs.take(j)[0] == cs[0]);
        assert(cs.take(j + 1).drop_first() =~= cs.drop_first().take(j));
        assert(cs.take(j).drop_first() =~= cs.drop_first().take(j - 1));
        assert(cs.drop_first()[j - 1] == cs[j]);
        lemma_sum_counts_take_push(cs.drop_first(), j - 1);
    }
}

/// The lexicographic order as a relation value, for `sorted_by`.
pub open spec fn lex_order() -> spec_fn(Seq<char>, Seq<char>) -> bool {
    |a: Seq<char>, b: Seq<char>| lex_le(a, b)
}

/// A context with no row has the empty candidate list.
pub proof fn lemma_context_cands_absent(t: Seq<ContextEntryV>, ctx: Seq<char>)
    requires
        forall|k: int| 0 <= k < t.len() ==> t[k].context != ctx,
    ensures
        context_cands(t, ctx) == Seq::<CandidateV>::empty(),
    decreases t.len(),
{
    if t.len() > 0 {
        lemma_context_cands_absent(t.drop_first(), ctx);
    }
}

/// Updating one row in place changes only that context's candidate list.
pub proof fn lemma_context_cands_update(
    t: Seq<ContextEntryV>,
    i: int,
    e2: ContextEntryV,
    ctx: Seq<char>,
)
    requires
        0 <= i < t.len(),
        e2.context == t[i].context,
        distinct_contexts(t),
    ensures
        context_cands(t.update(i, e2), ctx) == if ctx == t[i].context {
            e2.candidates
        } else {
            context_cands(t, ctx)
        },
    decreases i,
{
    let t2 = t.update(i, e2);
    if i == 0 {
        assert(t2[0] == e2);
        if ctx != t[0].context {
            assert(t2.drop_first() =~= t.drop_first());
        } else {
            lemma_context_cands_at(t2, 0);
        }
    } else {
        assert(t2[0] == t[0]);
        assert(t2.drop_first() =~= t.drop_first().update(i - 1, e2));
        lemma_context_cands_update(t.drop_first(), i - 1, e2, ctx);
    }
}

/// Appending a row for a fresh context adds its list and changes no other.
pub proof fn lemma_context_cands_push(t: Seq<ContextEntryV>, e: ContextEntryV, ctx: Seq<char>)
    requires
        forall|k: int| 0 <= k < t.len() ==> t[k].context != e.context,
    ensures
        context_cands(t.push(e), ctx) == if ctx == e.context {
            e.candidates
        } else {
            context_cands(t, ctx)
        },
    decreases t.len(),
{
    let t2 = t.push(e);
    if t.len() == 0 {
        assert(t2[0] == e);
        assert(t2.drop_first() =~= Seq::<ContextEntryV>::empty());
        assert(context_cands(Seq::<ContextEntryV>::empty(), ctx) == Seq::<CandidateV>::empty());
    } else {
        assert(t2[0] == t[0]);
        assert(t2.drop_first() =~= t.drop_first().push(e));
        lemma_context_cands_push(t.drop_first(), e, ctx);
    }
}

/// Appending a candidate adds its count to the total.
pub proof fn lemma_sum_counts_push(cs: Seq<CandidateV>, c: CandidateV)
    ensures
        sum_counts(cs.push(c)) == sum_counts(cs) + c.count,
    decreases cs.len(),
{
    let cs2 = cs.push(c);
    if cs.len() == 0 {
        assert(cs2[0] == c);
        assert(cs2.drop_first() =~= Seq::<CandidateV>::empty());
        assert(sum_counts(Seq::<CandidateV>::empty()) == 0);
    } else {
        assert(cs2[0] == cs[0]);
        assert(cs2.drop_first() =~= cs.drop_first().push(c));
        lemma_sum_counts_push(cs.drop_first(), c);
    }
}

/// Replacing one candidate adjusts the total by the count difference.
pub proof fn lemma_sum_counts_update(cs: Seq<CandidateV>, j: int, c2: CandidateV)
    requires
        0 <= j < cs.len(),
    ensures
        sum_counts(cs.update(j, c2)) + cs[j].count == sum_counts(cs) + c2.count,
    decreases j,
{
    let cs2 = cs.update(j, c2);
    if j == 0 {
        assert(cs2[0] == c2);
        assert(cs2.drop_first() =~= cs.drop_first());
    } else {
        assert(cs2[0] == cs[0]);
        assert(cs2.drop_first() =~= cs.drop_first().update(j - 1, c2));
        lemma_sum_counts_update(cs.drop_first(), j - 1, c2);
    }
}

/// Removing one candidate subtracts its count from the total.
pub proof fn lemma_sum_counts_remove(cs: Seq<CandidateV>, j: int)
    requires
        0 <= j < cs.len(),
    ensures
        sum_counts(cs.remove(j)) + cs[j].count == sum_counts(cs),
    decreases j,
{
    let cs2 = cs.remove(j);
    if j == 0 {
        assert(cs2 =~= cs.drop_first());
    } else {
        assert(cs2[0] == cs[0]);
        assert(cs2.drop_first() =~= cs.drop_first().remove(j - 1));
        lemma_sum_counts_remove(cs.drop_first(), j - 1);
    }
}

/// A positive count comes from some candidate carrying that token.
pub proof fn lemma_cand_count_witness(cs: Seq<CandidateV>, tok: Seq<char>)
    requires
        cand_count(cs, tok) > 0,
    ensures
        exists|j: int|
            0 <= j < cs.len() && (#[trigger] cs[j]).token == tok && cs[j].count == cand_count(
                cs,
                tok,
            ),
    decreases cs.len(),
{
    if cs[0].token == tok {
        assert(cs[0].token == tok && cs[0].count == cand_count(cs, tok));
    } else {
        lemma_cand_count_witness(cs.drop_first(), tok);
        let j = choose|j: int|
            0 <= j < cs.drop_first().len() && (#[trigger] cs.drop_first()[j]).token == tok
                && cs.drop_first()[j].count == cand_count(cs.drop_first(), tok);
        assert(cs[j + 1].token == tok && cs[j + 1].count == cand_count(cs, tok));
    }
}

/// With distinct tokens, a contained candidate's count is read exactly.
pub proof fn lemma_cand_count_contains(cs: Seq<CandidateV>, c: CandidateV)
    requires
        cs.contains(c),
        distinct_tokens(cs),
    ensures
        cand_count(cs, c.token) == c.count,
{
    let j = choose|j: int| 0 <= j < cs.len() && cs[j] == c;
    assert forall|k: int| 0 <= k < j implies cs[k].token != cs[j].token by {}
    lemma_cand_count_at(cs, j);
}

/// Reordering a candidate list with distinct tokens keeps every count.
pub proof fn lemma_cand_count_perm(cs1: Seq<CandidateV>, cs2: Seq<CandidateV>, tok: Seq<char>)
    requires
        cs1.to_multiset() == cs2.to_multiset(),
        distinct_tokens(cs1),
        distinct_tokens(cs2),
        forall|j: int| 0 <= j < cs1.len() ==> (#[trigger] cs1[j]).count >= 1,
    ensures
        cand_count(cs1, tok) == cand_count(cs2, tok),
{
    broadcast use vstd::seq_lib::group_to_multiset_ensures;

    if cand_count(cs1, tok) > 0 {
        lemma_cand_count_witness(cs1, tok);
        let j = choose|j: int|
            0 <= j < cs1.len() && (#[trigger] cs1[j]).token == tok && cs1[j].count == cand_count(
                cs1,
                tok,
            );
        let c = cs1[j];
        assert(cs1.contains(c));
        assert(cs2.to_multiset().count(c) > 0);
        assert(cs2.contains(c));
        lemma_cand_count_contains(cs2, c);
    }
    if cand_count(cs2, tok) > 0 {
        lemma_cand_count_witness(cs2, tok);
        let j = choose|j: int|
            0 <= j < cs2.len() && (#[trigger] cs2[j]).token == tok && cs2[j].count == cand_count(
                cs2,
                tok,
            );
        let c = cs2[j];
        assert(cs2.contains(c));
        assert(cs1.to_multiset().count(c) > 0);
        assert(cs1.contains(c));
        lemma_cand_count_contains(cs1, c);
    }
}

/// Reordering a candidate list keeps its tokens distinct.
pub proof fn lemma_distinct_tokens_perm(cs1: Seq<CandidateV>, cs2: Seq<CandidateV>)
    requires
        cs1.to_multiset() == cs2.to_multiset(),
        distinct_tokens(cs1),
    ensures
        distinct_tokens(cs2),
{
    broadcast use vstd::seq_lib::group_to_multiset_ensures;

    assert forall|i: int, j: int| 0 <= i < j < cs2.len() implies cs2[i].token != cs2[j].token by {
        if cs2[i].token == cs2[j].token {
            if cs2[i] == cs2[j] {
                let sub = cs2.remove(j);
                assert(sub.to_multiset() =~= cs2.to_multiset().remove(cs2[j]));
                assert(sub[i] == cs2[i]);
                assert(sub.contains(cs2[i]));
                assert(sub.to_multiset().count(cs2[i]) > 0);
                assert(cs2.to_multiset().count(cs2[i]) >= 2);
                assert(cs1.to_multiset().count(cs2[i]) >= 2);
                lemma_multiset_count_le_one(cs1, cs2[i]);
            } else {
                assert(cs2.contains(cs2[i]));
                assert(cs2.contains(cs2[j]));
                assert(cs1.to_multiset().count(cs2[i]) > 0);
                assert(cs1.to_multiset().count(cs2[j]) > 0);
                assert(cs1.contains(cs2[i]));
                assert(cs1.contains(cs2[j]));
                let a = choose|a: int| 0 <= a < cs1.len() && cs1[a] == cs2[i];
                let b = choose|b: int| 0 <= b < cs1.len() && cs1[b] == cs2[j];
                assert(a != b);
                assert(cs1[a].token != cs1[b].token);
            }
        }
    }
}

/// Distinct tokens leave room for at most one copy of any candidate.
proof fn lemma_multiset_count_le_one(cs: Seq<CandidateV>, c: CandidateV)
    requires
        distinct_tokens(cs),
    ensures
        cs.to_multiset().count(c) <= 1,
{
    broadcast use vstd::seq_lib::group_to_multiset_ensures;

    if cs.to_multiset().count(c) >= 2 {
        assert(cs.contains(c));
        let a = choose|a: int| 0 <= a < cs.len() && cs[a] == c;
        let sub = cs.remove(a);
        assert(sub.to_multiset() =~= cs.to_multiset().remove(c));
        assert(sub.to_multiset().count(c) >= 1);
        assert(sub.contains(c));
        let b = choose|b: int| 0 <= b < sub.len() && sub[b] == c;
        if b < a {
            assert(cs[b] == c);
            assert(cs[b].token == cs[a].token);
        } else {
            assert(cs[b + 1] == c);
            assert(cs[b + 1].token == cs[a].token);
        }
    }
}

/// Reordering a candidate list keeps the total count.
pub proof fn lemma_sum_counts_perm(cs1: Seq<CandidateV>, cs2: Seq<CandidateV>)
    requires
        cs1.to_multiset() == cs2.to_multiset(),
    ensures
        sum_counts(cs1) == sum_counts(cs2),
    decreases cs1.len(),
{
    broadcast use vstd::seq_lib::group_to_multiset_ensures;

    if cs1.len() == 0 {
        assert(cs1.to_multiset().len() == cs1.len());
        assert(cs2.to_multiset().len() == cs2.len());
        assert(cs2 =~= Seq::<CandidateV>::empty());
    } else {
        let c = cs1[0];
        assert(cs1.contains(c));
        assert(cs2.to_multiset().count(c) > 0);
        assert(cs2.contains(c));
        let b = choose|b: int| 0 <= b < cs2.len() && cs2[b] == c;
        lemma_sum_counts_remove(cs2, b);
        assert(cs1.drop_first() =~= cs1.remove(0));
        assert(cs1.remove(0).to_multiset() =~= cs1.to_multiset().remove(c));
        assert(cs2.remove(b).to_multiset() =~= cs2.to_multiset().remove(c));
        lemma_sum_counts_perm(cs1.drop_first(), cs2.remove(b));
    }
}

/// Row-for-row equal contexts and counts give equal table counts.
pub proof fn lemma_table_count_mapped(t1: Seq<ContextEntryV>, t2: Seq<ContextEntryV>, ctx: Seq<char>, tok: Seq<char>)
    requires
        t1.len() == t2.len(),
        forall|q: int|
            0 <= q < t1.len() ==> (#[trigger] t2[q]).context == t1[q].context,
        forall|q: int, tk: Seq<char>|
            0 <= q < t1.len() ==> #[trigger] cand_count(t2[q].candidates, tk) == cand_count(
                t1[q].candidates,
                tk,
            ),
    ensures
        table_count(t2, ctx, tok) == table_count(t1, ctx, tok),
    decreases t1.len(),
{
    if t1.len() > 0 {
        assert(t2[0].context == t1[0].context);
        assert(cand_count(t2[0].candidates, tok) == cand_count(t1[0].candidates, tok));
        assert forall|q: int| 0 <= q < t1.drop_first().len() implies (#[trigger] t1.drop_first()[q]).context == t2.drop_first()[q].context by {
            assert(t1.drop_first()[q] == t1[q + 1]);
            assert(t2.drop_first()[q] == t2[q + 1]);
        }
        assert forall|q: int, tk: Seq<char>|
            0 <= q < t1.drop_first().len() implies #[trigger] cand_count(
            t2.drop_first()[q].candidates,
            tk,
        ) == cand_count(t1.drop_first()[q].candidates, tk) by {
            assert(t1.drop_first()[q] == t1[q + 1]);
            assert(t2.drop_first()[q] == t2[q + 1]);
            assert(cand_count(t2[q + 1].candidates, tk) == cand_count(t1[q + 1].candidates, tk));
        }
        lemma_table_count_mapped(t1.drop_first(), t2.drop_first(), ctx, tok);
    }
}

/// No two entries are the same string.
pub open spec fn distinct_strs(v: Seq<Seq<char>>) -> bool {
    forall|i: int, j: int| 0 <= i < j < v.len() ==> v[i] != v[j]
}

/// Whether the list holds this string.
pub fn find_string(v: &Vec<String>, s: &str) -> (r: bool)
    ensures
        r == v.deep_view().contains(s@),
{
    let mut i: usize = 0;
    while i < v.len()
        invariant
            0 <= i <= v.len(),
            forall|k: int| 0 <= k < i ==> v.deep_view()[k] != s@,
        decreases v.len() - i,
    {
        if str_eq_exec(v[i].as_str(), s) {
            proof {
                assert(v.deep_view()[i as int] == s@);
            }
            return true;
        }
        i = i + 1;
    }
    proof {
        if v.deep_view().contains(s@) {
            let w = choose|w: int| 0 <= w < v.len() && v.deep_view()[w] == s@;
        }
    }
    false
}

/// Copy out a contiguous run of strings.
pub fn subvec(v: &Vec<String>, from: usize, to: usize) -> (r: Vec<String>)
    requires
        from <= to <= v.len(),
    ensures
        r.deep_view() == v.deep_view().subrange(from as int, to as int),
{
    let mut r: Vec<String> = Vec::new();
    let mut i: usize = from;
    while i < to
        invariant
            from <= i <= to <= v.len(),
            r.deep_view() =~= v.deep_view().subrange(from as int, i as int),
        decreases to - i,
    {
        r.push(v[i].clone());
        proof {
            assert(r.deep_view() =~= v.deep_view().subrange(from as int, i + 1));
        }
        i = i + 1;
    }
    proof {
        assert(r.deep_view() =~= v.deep_view().subrange(from as int, to as int));
    }
    r
}

/// Index of a lexicographically least string.
fn min_str_index(v: &Vec<String>) -> (m: usize)
    requires
        v.len() > 0,
    ensures
        m < v.len(),
        forall|k: int| 0 <= k < v.len() ==> lex_le(v.deep_view()[m as int], v.deep_view()[k]),
{
    let mut m: usize = 0;
    let mut i: usize = 1;
    proof {
        lemma_lex_le_refl(v.deep_view()[0]);
    }
    while i < v.len()
        invariant
            0 <= m < i <= v.len(),
            forall|k: int| 0 <= k < i ==> lex_le(v.deep_view()[m as int], v.deep_view()[k]),
        decreases v.len() - i,
    {
        let keep = lex_le_exec(v[m].as_str(), v[i].as_str());
        if !keep {
            proof {
                lemma_lex_le_total(v.deep_view()[m as int], v.deep_view()[i as int]);
                assert forall|k: int| 0 <= k < i + 1 implies lex_le(
                    v.deep_view()[i as int],
                    v.deep_view()[k],
                ) by {
                    if k < i {
                        lemma_lex_le_trans(
                            v.deep_view()[i as int],
                            v.deep_view()[m as int],
                            v.deep_view()[k],
                        );
                    } else {
                        lemma_lex_le_refl(v.deep_view()[i as int]);
                    }
                }
            }
            m = i;
        }
        i = i + 1;
    }
    m
}

/// Sort strings into ascending lexicographic order.
pub fn sort_strings(v: Vec<String>) -> (r: Vec<String>)
    ensures
        sorted_by(r.deep_view(), lex_order()),
        r.deep_view().to_multiset() == v.deep_view().to_multiset(),
        r.len() == v.len(),
{
    broadcast use vstd::seq_lib::group_to_multiset_ensures;

    let ghost orig = v.deep_view();
    let mut v = v;
    let mut out: Vec<String> = Vec::new();
    proof {
        assert(out.deep_view().to_multiset().add(v.deep_view().to_multiset()) =~= orig.to_multiset());
    }
    while v.len() > 0
        invariant
            out.deep_view().to_multiset().add(v.deep_view().to_multiset()) =~= orig.to_multiset(),
            sorted_by(out.deep_view(), lex_order()),
            forall|p: int, q: int|
                0 <= p < out.len() && 0 <= q < v.len() ==> lex_le(
                    out.deep_view()[p],
                    v.deep_view()[q],
                ),
            out.len() + v.len() == orig.len(),
        decreases v.len(),
    {
        let ghost old_out = out.deep_view();
        let ghost pre_v = v.deep_view();
        let m = min_str_index(&v);
        let x = v.remove(m);
        out.push(x);
        proof {
            assert(v.deep_view() =~= pre_v.remove(m as int));
            assert(x@ == pre_v[m as int]);
            assert(out.deep_view() =~= old_out.push(x@));
            assert(out.deep_view().to_multiset() =~= old_out.to_multiset().insert(x@));
            assert(v.deep_view().to_multiset() =~= pre_v.to_multiset().remove(x@)) by {
                assert(pre_v.remove(m as int).to_multiset() =~= pre_v.to_multiset().remove(
                    pre_v[m as int],
                ));
            }
            assert(pre_v.to_multiset().count(x@) > 0) by {
                assert(pre_v[m as int] == x@);
                assert(pre_v.contains(x@));
            }
            assert(out.deep_view().to_multiset().add(v.deep_view().to_multiset())
                =~= orig.to_multiset());
            let leq = lex_order();
            assert forall|p: int, q: int| 0 <= p < q < out.len() implies leq(
                out.deep_view()[p],
                out.deep_view()[q],
            ) by {
                if q == out.len() - 1 {
                    assert(out.deep_view()[q] == x@);
                    assert(lex_le(old_out[p], pre_v[m as int]));
                }
            }
            assert forall|p: int, q: int|
                0 <= p < out.len() && 0 <= q < v.len() implies lex_le(
                out.deep_view()[p],
                v.deep_view()[q],
            ) by {
                let vq = v.deep_view()[q];
                if q < m {
                    assert(vq == pre_v[q]);
                } else {
                    assert(vq == pre_v[q + 1]);
                }
                assert(lex_le(x@, vq));
                if p < out.len() - 1 {
                    assert(lex_le(old_out[p], vq));
                } else {
                    assert(out.deep_view()[p] == x@);
                }
            }
        }
    }
    proof {
        assert(v.deep_view().to_multiset() =~= Multiset::<Seq<char>>::empty()) by {
            assert(v.deep_view() =~= Seq::<Seq<char>>::empty());
        }
        assert(out.deep_view().to_multiset() =~= orig.to_multiset());
    }
    out
}

/// Distinct strings leave room for at most one copy of any value.
proof fn lemma_strs_count_le_one(v: Seq<Seq<char>>, x: Seq<char>)
    requires
        distinct_strs(v),
    ensures
        v.to_multiset().count(x) <= 1,
{
    broadcast use vstd::seq_lib::group_to_multiset_ensures;

    if v.to_multiset().count(x) >= 2 {
        assert(v.contains(x));
        let a = choose|a: int| 0 <= a < v.len() && v[a] == x;
        let sub = v.remove(a);
        assert(sub.to_multiset() =~= v.to_multiset().remove(x));
        assert(sub.to_multiset().count(x) >= 1);
        assert(sub.contains(x));
        let b = choose|b: int| 0 <= b < sub.len() && sub[b] == x;
        if b < a {
            assert(v[b] == x);
        } else {
            assert(v[b + 1] == x);
        }
    }
}

/// Reordering a list of distinct strings keeps them distinct.
pub proof fn lemma_distinct_strs_perm(v1: Seq<Seq<char>>, v2: Seq<Seq<char>>)
    requires
        v1.to_multiset() == v2.to_multiset(),
        distinct_strs(v1),
    ensures
        distinct_strs(v2),
{
    broadcast use vstd::seq_lib::group_to_multiset_ensures;

    assert forall|i: int, j: int| 0 <= i < j < v2.len() implies v2[i] != v2[j] by {
        if v2[i] == v2[j] {
            let sub = v2.remove(j);
            assert(sub.to_multiset() =~= v2.to_multiset().remove(v2[j]));
            assert(sub[i] == v2[i]);
            assert(sub.contains(v2[i]));
            assert(sub.to_multiset().count(v2[i]) > 0);
            assert(v2.to_multiset().count(v2[i]) >= 2);
            assert(v1.to_multiset().count(v2[i]) >= 2);
            lemma_strs_count_le_one(v1, v2[i]);
        }
    }
}

/// Copy a candidate list.
pub fn copy_candidates(v: &Vec<Candidate>) -> (r: Vec<Candidate>)
    ensures
        r.deep_view() == v.deep_view(),
{
    let mut r: Vec<Candidate> = Vec::new();
    let mut i: usize = 0;
    while i < v.len()
        invariant
            0 <= i <= v.len(),
            r.deep_view() =~= v.deep_view().take(i as int),
        decreases v.len() - i,
    {
        r.push(clone_candidate(&v[i]));
        proof {
            assert(r.deep_view() =~= v.deep_view().take(i + 1));
        }
        i = i + 1;
    }
    proof {
        assert(r.deep_view() =~= v.deep_view());
    }
    r
}

/// Add every token of a sentence to the vocabulary, once.
pub fn extend_vocab(vocab: &mut Vec<String>, toks: &Vec<String>)
    requires
        distinct_strs(old(vocab).deep_view()),
    ensures
        distinct_strs(final(vocab).deep_view()),
        forall|t: Seq<char>|
            #[trigger] final(vocab).deep_view().contains(t) == (old(vocab).deep_view().contains(t)
                || toks.deep_view().contains(t)),
{
    let ghost v0 = vocab.deep_view();
    let ghost tv = toks.deep_view();
    let mut p: usize = 0;
    proof {
        assert(tv.take(0) =~= Seq::<Seq<char>>::empty());
        assert forall|t: Seq<char>|
            #[trigger] vocab.deep_view().contains(t) == (v0.contains(t) || tv.take(0).contains(
                t,
            )) by {
            if tv.take(0).contains(t) {
                let w = choose|w: int| 0 <= w < tv.take(0).len() && #[trigger] tv.take(0)[w] == t;
            }
        }
    }
    while p < toks.len()
        invariant
            0 <= p <= toks.len(),
            tv == toks.deep_view(),
            distinct_strs(vocab.deep_view()),
            forall|t: Seq<char>|
                #[trigger] vocab.deep_view().contains(t) == (v0.contains(t) || tv.take(
                    p as int,
                ).contains(t)),
        decreases toks.len() - p,
    {
        let ghost pre = vocab.deep_view();
        let present = find_string(vocab, toks[p].as_str());
        proof {
            assert(tv[p as int] == toks@[p as int]@);
            assert(present == pre.contains(tv[p as int]));
        }
        if !present {
            vocab.push(toks[p].clone());
        }
        proof {
            if !present {
                assert(vocab.deep_view() =~= pre.push(tv[p as int]));
            }
            assert forall|t: Seq<char>|
                vocab.deep_view().contains(t) implies (v0.contains(t) || tv.take(p + 1).contains(
                t,
            )) by {
                if !present {
                    let w = choose|w: int|
                        0 <= w < vocab.deep_view().len() && vocab.deep_view()[w] == t;
                    if w < pre.len() {
                        assert(pre[w] == t);
                        assert(pre.contains(t));
                    } else {
                        assert(t == tv[p as int]);
                    }
                } else {
                    assert(pre.contains(t));
                }
                // now pre.contains(t) or t == tv[p]
                if pre.contains(t) {
                    if tv.take(p as int).contains(t) {
                        let u = choose|u: int|
                            0 <= u < tv.take(p as int).len() && #[trigger] tv.take(p as int)[u]
                                == t;
                        assert(tv.take(p + 1)[u] == t);
                        assert(tv.take(p + 1).contains(t));
                    }
                } else {
                    assert(t == tv[p as int]);
                    assert(tv.take(p + 1)[p as int] == t);
                    assert(tv.take(p + 1).contains(t));
                }
            }
            assert forall|t: Seq<char>|
                (v0.contains(t) || tv.take(p + 1).contains(t)) implies vocab.deep_view().contains(
                t,
            ) by {
                let has_new = if v0.contains(t) {
                    assert(pre.contains(t));
                    true
                } else {
                    let w = choose|w: int|
                        0 <= w < tv.take(p + 1).len() && #[trigger] tv.take(p + 1)[w] == t;
                    if w < p {
                        assert(tv.take(p as int)[w] == t);
                        assert(tv.take(p as int).contains(t));
                        assert(pre.contains(t));
                        true
                    } else {
                        assert(t == tv[p as int]);
                        false
                    }
                };
                if has_new {
                    let w2 = choose|w2: int| 0 <= w2 < pre.len() && pre[w2] == t;
                    assert(vocab.deep_view()[w2] == t);
                    assert(vocab.deep_view().contains(t));
                } else {
                    assert(t == tv[p as int]);
                    if present {
                        assert(vocab.deep_view().contains(t));
                    } else {
                        assert(vocab.deep_view()[pre.len() as int] == t);
                        assert(vocab.deep_view().contains(t));
                    }
                }
            }
            assert forall|t: Seq<char>|
                #[trigger] vocab.deep_view().contains(t) == (v0.contains(t) || tv.take(
                    p + 1,
                ).contains(t)) by {
                if vocab.deep_view().contains(t) {
                    assert(v0.contains(t) || tv.take(p + 1).contains(t));
                }
                if v0.contains(t) || tv.take(p + 1).contains(t) {
                    assert(vocab.deep_view().contains(t));
                }
            }
            if !present {
                assert(distinct_strs(vocab.deep_view())) by {
                    assert(!pre.contains(tv[p as int]));
                    assert(forall|k: int|
                        0 <= k < pre.len() ==> #[trigger] vocab.deep_view()[k] == pre[k]);
                    assert forall|a: int, b: int|
                        0 <= a < b < vocab.deep_view().len() implies vocab.deep_view()[a]
                        != vocab.deep_view()[b] by {
                        if b == pre.len() {
                            if vocab.deep_view()[a] == vocab.deep_view()[b] {
                                assert(pre[a] == tv[p as int]);
                                assert(pre.contains(tv[p as int]));
                            }
                        }
                    }
                }
            }
        }
        p = p + 1;
    }
    proof {
        assert(tv.take(toks.len() as int) =~= tv);
    }
}

/// No single count exceeds the total.
pub proof fn lemma_count_le_sum(cs: Seq<CandidateV>, j: int)
    requires
        0 <= j < cs.len(),
    ensures
        cs[j].count <= sum_counts(cs),
    decreases j,
{
    if j == 0 {
    } else {
        lemma_count_le_sum(cs.drop_first(), j - 1);
    }
}

/// A chain of adjacent strict comparisons orders a whole string list,
/// strictly.
pub proof fn lemma_lex_lt_span(v: Seq<Seq<char>>, i: int, j: int)
    requires
        forall|k: int|
            0 <= k < v.len() - 1 ==> lex_le(#[trigger] v[k], v[k + 1]) && v[k] != v[k + 1],
        0 <= i <= j < v.len(),
    ensures
        i < j ==> lex_le(v[i], v[j]) && v[i] != v[j],
    decreases j - i,
{
    if i < j {
        lemma_lex_lt_span(v, i, j - 1);
        assert(lex_le(v[j - 1], v[j]) && v[j - 1] != v[j]);
        if i < j - 1 {
            lemma_lex_le_trans(v[i], v[j - 1], v[j]);
            if v[i] == v[j] {
                lemma_lex_le_antisym(v[i], v[j - 1]);
            }
        }
    }
}

} // verus!
