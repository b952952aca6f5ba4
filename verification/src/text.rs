//! Text primitives: whitespace tokenization, space-joining, ASCII
//! lowercasing, sentinel wrapping, and the lexicographic token order used
//! to break ties between equally counted candidates.
use vstd::prelude::*;

verus! {

/// A character that separates tokens.
pub open spec fn is_space(c: char) -> bool {
    c == ' ' || c == '\t' || c == '\n' || c == '\r'
}

/// Length of the leading run of non-space characters.
pub open spec fn word_len(s: Seq<char>) -> nat
    decreases s.len(),
{
    if s.len() == 0 || is_space(s[0]) {
        0
    } else {
        1 + word_len(s.drop_first())
    }
}

pub proof fn lemma_word_len_le(s: Seq<char>)
    ensures
        word_len(s) <= s.len(),
    decreases s.len(),
{
    if s.len() > 0 && !is_space(s[0]) {
        lemma_word_len_le(s.drop_first());
    }
}

/// `word_len` is exactly the position of the first space (or the length).
pub proof fn lemma_word_len_exact(s: Seq<char>, j: int)
    requires
        0 <= j <= s.len(),
        forall|k: int| 0 <= k < j ==> !is_space(s[k]),
        j == s.len() || is_space(s[j]),
    ensures
        word_len(s) == j,
    decreases j,
{
    if j == 0 {
    } else {
        lemma_word_len_exact(s.drop_first(), j - 1);
    }
}

/// The tokens of `s`: the maximal runs of non-space characters, in order.
pub open spec fn tokens_of(s: Seq<char>) -> Seq<Seq<char>>
    decreases s.len(),
    via tokens_of_decreases
{
    if s.len() == 0 {
        Seq::empty()
    } else if is_space(s[0]) {
        tokens_of(s.drop_first())
    } else {
        seq![s.take(word_len(s) as int)] + tokens_of(s.skip(word_len(s) as int))
    }
}

#[via_fn]
proof fn tokens_of_decreases(s: Seq<char>) {
    lemma_word_len_le(s);
}

/// Dropping a leading space does not change the tokens.
pub proof fn lemma_tokens_skip_space(s: Seq<char>, i: int)
    requires
        0 <= i < s.len(),
        is_space(s[i]),
    ensures
        tokens_of(s.skip(i)) == tokens_of(s.skip(i + 1)),
{
    assert(s.skip(i).drop_first() =~= s.skip(i + 1));
}

/// A word running from `i` to `j` is the next token of `s.skip(i)`.
pub proof fn lemma_tokens_word(s: Seq<char>, i: int, j: int)
    requires
        0 <= i < j <= s.len(),
        forall|k: int| i <= k < j ==> !is_space(s[k]),
        j == s.len() || is_space(s[j]),
    ensures
        tokens_of(s.skip(i)) == seq![s.subrange(i, j)] + tokens_of(s.skip(j)),
{
    let t = s.skip(i);
    assert(forall|k: int| 0 <= k < j - i ==> t[k] == s[k + i] && !is_space(t[k]));
    if j - i < t.len() {
        assert(t[j - i] == s[j]);
    }
    lemma_word_len_exact(t, j - i);
    assert(t.take(j - i) =~= s.subrange(i, j));
    assert(t.skip(j - i) =~= s.skip(j));
}

/// Split a string into its whitespace-separated tokens.
pub fn tokenize(s: &str) -> (r: Vec<String>)
    ensures
        r.deep_view() == tokens_of(s@),
{
    let len = s.unicode_len();
    let mut r: Vec<String> = Vec::new();
    let mut i: usize = 0;
    proof {
        assert(s@.skip(0) =~= s@);
        assert(r.deep_view() + tokens_of(s@) =~= tokens_of(s@));
    }
    while i < len
        invariant
            0 <= i <= len,
            len == s@.len(),
            tokens_of(s@) == r.deep_view() + tokens_of(s@.skip(i as int)),
        decreases len - i,
    {
        let c = s.get_char(i);
        if is_space_exec(c) {
            proof {
                lemma_tokens_skip_space(s@, i as int);
            }
            i = i + 1;
        } else {
            let j = word_end(s, i, len);
            let word = s.substring_char(i, j);
            proof {
                lemma_tokens_word(s@, i as int, j as int);
            }
            r.push(String::from_str(word));
            proof {
                assert(r.deep_view() =~= r.deep_view().take(r.len() - 1).push(s@.subrange(i as int, j as int)));
            }
            i = j;
        }
    }
    proof {
        assert(s@.skip(len as int) =~= Seq::<char>::empty());
        assert(r.deep_view() =~= r.deep_view() + tokens_of(s@.skip(len as int)));
    }
    r
}

/// Position of the first space at or after `start` (or the length).
fn word_end(s: &str, start: usize, len: usize) -> (j: usize)
    requires
        start < len,
        len == s@.len(),
        !is_space(s@[start as int]),
    ensures
        start < j <= len,
        forall|k: int| start <= k < j ==> !is_space(s@[k]),
        j == len || is_space(s@[j as int]),
{
    let mut j: usize = start + 1;
    while j < len
        invariant
            start < j <= len,
            len == s@.len(),
            forall|k: int| start <= k < j ==> !is_space(s@[k]),
        decreases len - j,
    {
        let c = s.get_char(j);
        if is_space_exec(c) {
            return j;
        }
        j = j + 1;
    }
    j
}

/// Whether `c` separates tokens.
pub fn is_space_exec(c: char) -> (r: bool)
    ensures
        r == is_space(c),
{
    c == ' ' || c == '\t' || c == '\n' || c == '\r'
}

/// The tokens joined by single spaces.
pub open spec fn join_tokens(ts: Seq<Seq<char>>) -> Seq<char>
    decreases ts.len(),
{
    if ts.len() == 0 {
        Seq::empty()
    } else if ts.len() == 1 {
        ts[0]
    } else {
        ts[0] + seq![' '] + join_tokens(ts.drop_first())
    }
}

/// Joining one more token appends a space and the token.
pub proof fn lemma_join_push(ts: Seq<Seq<char>>, t: Seq<char>)
    ensures
        join_tokens(ts.push(t)) == if ts.len() == 0 {
            t
        } else {
            join_tokens(ts) + seq![' '] + t
        },
    decreases ts.len(),
{
    let ts2 = ts.push(t);
    if ts.len() == 0 {
        assert(ts2[0] == t);
        assert(join_tokens(ts2) == t);
    } else if ts.len() == 1 {
        assert(ts2[0] == ts[0]);
        assert(ts2.drop_first() =~= seq![t]);
        assert(join_tokens(ts2.drop_first()) == t);
    } else {
        assert(ts2[0] == ts[0]);
        assert(ts2.drop_first() =~= ts.drop_first().push(t));
        lemma_join_push(ts.drop_first(), t);
        assert(ts[0] + seq![' '] + (join_tokens(ts.drop_first()) + seq![' '] + t) =~= (ts[0]
            + seq![' '] + join_tokens(ts.drop_first())) + seq![' '] + t);
    }
}

/// Join a list of tokens with single spaces.
pub fn join(tokens: &Vec<String>) -> (r: String)
    ensures
        r@ == join_tokens(tokens.deep_view()),
{
    let mut r = String::new();
    let mut i: usize = 0;
    while i < tokens.len()
        invariant
            0 <= i <= tokens.len(),
            r@ == join_tokens(tokens.deep_view().take(i as int)),
        decreases tokens.len() - i,
    {
        if i > 0 {
            r.append(" ");
            proof {
                reveal_strlit(" ");
            }
        }
        r.append(tokens[i].as_str());
        proof {
            lemma_join_push(tokens.deep_view().take(i as int), tokens.deep_view()[i as int]);
            assert(tokens.deep_view().take(i as int).push(tokens.deep_view()[i as int])
                =~= tokens.deep_view().take(i + 1));
            if i > 0 {
                assert(r@ =~= join_tokens(tokens.deep_view().take(i + 1)));
            }
        }
        i = i + 1;
    }
    proof {
        assert(tokens.deep_view().take(tokens.len() as int) =~= tokens.deep_view());
    }
    r
}

/// A usable token: nonempty, with no separating characters inside.
pub open spec fn good_token(t: Seq<char>) -> bool {
    t.len() >= 1 && forall|k: int| 0 <= k < t.len() ==> !is_space(t[k])
}

/// The leading word consists of non-space characters.
pub proof fn lemma_word_len_chars(s: Seq<char>)
    ensures
        forall|k: int| 0 <= k < word_len(s) ==> !is_space(s[k]),
    decreases s.len(),
{
    lemma_word_len_le(s);
    if s.len() > 0 && !is_space(s[0]) {
        lemma_word_len_chars(s.drop_first());
        lemma_word_len_le(s.drop_first());
        assert forall|k: int| 0 <= k < word_len(s) implies !is_space(s[k]) by {
            if k > 0 {
                assert(s[k] == s.drop_first()[k - 1]);
            }
        }
    }
}

/// Every token produced by `tokens_of` is a usable token.
pub proof fn lemma_tokens_good(s: Seq<char>)
    ensures
        forall|i: int| 0 <= i < tokens_of(s).len() ==> good_token(#[trigger] tokens_of(s)[i]),
    decreases s.len(),
{
    lemma_word_len_le(s);
    if s.len() == 0 {
        assert(tokens_of(s).len() == 0);
    } else if is_space(s[0]) {
        lemma_tokens_good(s.drop_first());
        assert(tokens_of(s) == tokens_of(s.drop_first()));
        assert forall|i: int| 0 <= i < tokens_of(s).len() implies good_token(
            #[trigger] tokens_of(s)[i],
        ) by {
            assert(tokens_of(s)[i] == tokens_of(s.drop_first())[i]);
        }
    } else {
        let wl = word_len(s) as int;
        lemma_word_len_chars(s);
        lemma_tokens_good(s.skip(wl));
        assert(good_token(s.take(wl)));
        assert forall|i: int| 0 <= i < tokens_of(s).len() implies good_token(
            #[trigger] tokens_of(s)[i],
        ) by {
            if i > 0 {
                assert(tokens_of(s)[i] == tokens_of(s.skip(wl))[i - 1]);
            }
        }
    }
}

/// A single usable token tokenizes to itself.
pub proof fn lemma_tokens_of_single(t: Seq<char>)
    requires
        good_token(t),
    ensures
        tokens_of(t) == seq![t],
{
    lemma_word_len_exact(t, t.len() as int);
    assert(t.take(t.len() as int) =~= t);
    assert(t.skip(t.len() as int) =~= Seq::<char>::empty());
    assert(tokens_of(Seq::<char>::empty()) =~= Seq::<Seq<char>>::empty());
    assert(tokens_of(t) =~= seq![t]);
}

/// Tokenizing a space-join of usable tokens gives the tokens back.
pub proof fn lemma_tokens_of_join(ts: Seq<Seq<char>>)
    requires
        forall|i: int| 0 <= i < ts.len() ==> good_token(#[trigger] ts[i]),
    ensures
        tokens_of(join_tokens(ts)) == ts,
    decreases ts.len(),
{
    if ts.len() == 0 {
        assert(tokens_of(join_tokens(ts)) =~= ts);
    } else if ts.len() == 1 {
        lemma_tokens_of_single(ts[0]);
        assert(tokens_of(join_tokens(ts)) =~= ts);
    } else {
        let s = join_tokens(ts);
        let l0 = ts[0].len() as int;
        let rest = join_tokens(ts.drop_first());
        assert(s == ts[0] + seq![' '] + rest);
        assert(s.len() == l0 + 1 + rest.len());
        assert forall|k: int| 0 <= k < l0 implies !is_space(s[k]) by {
            assert(s[k] == ts[0][k]);
        }
        assert(s[l0] == ' ');
        lemma_tokens_word(s, 0, l0);
        assert(s.skip(0) =~= s);
        assert(s.subrange(0, l0) =~= ts[0]);
        lemma_tokens_skip_space(s, l0);
        assert(s.skip(l0 + 1) =~= rest);
        lemma_tokens_of_join(ts.drop_first());
        assert(tokens_of(s) == seq![ts[0]] + ts.drop_first());
        assert(seq![ts[0]] + ts.drop_first() =~= ts);
    }
}

/// Lexicographic order on character sequences, by scalar value.
pub open spec fn lex_le(a: Seq<char>, b: Seq<char>) -> bool
    decreases a.len(),
{
    if a.len() == 0 {
        true
    } else if b.len() == 0 {
        false
    } else if a[0] == b[0] {
        lex_le(a.drop_first(), b.drop_first())
    } else {
        (a[0] as u32) < (b[0] as u32)
    }
}

/// `lex_le` only looks at the suffixes after a common prefix.
pub proof fn lemma_lex_skip(a: Seq<char>, b: Seq<char>, i: int)
    requires
        0 <= i <= a.len(),
        i <= b.len(),
        forall|k: int| 0 <= k < i ==> a[k] == b[k],
    ensures
        lex_le(a, b) == lex_le(a.skip(i), b.skip(i)),
    decreases i,
{
    if i == 0 {
        assert(a.skip(0) =~= a);
        assert(b.skip(0) =~= b);
    } else {
        assert(a.len() > 0 && b.len() > 0 && a[0] == b[0]);
        lemma_lex_skip(a.drop_first(), b.drop_first(), i - 1);
        assert(a.drop_first().skip(i - 1) =~= a.skip(i));
        assert(b.drop_first().skip(i - 1) =~= b.skip(i));
    }
}

/// Compare two strings in the lexicographic order.
pub fn lex_le_exec(a: &str, b: &str) -> (r: bool)
    ensures
        r == lex_le(a@, b@),
{
    let la = a.unicode_len();
    let lb = b.unicode_len();
    let mut i: usize = 0;
    loop
        invariant
            0 <= i <= la,
            i <= lb,
            la == a@.len(),
            lb == b@.len(),
            forall|k: int| 0 <= k < i ==> a@[k] == b@[k],
        decreases la - i,
    {
        proof {
            lemma_lex_skip(a@, b@, i as int);
        }
        if i == la {
            return true;
        }
        if i == lb {
            return false;
        }
        let ca = a.get_char(i);
        let cb = b.get_char(i);
        proof {
            assert(a@.skip(i as int)[0] == ca);
            assert(b@.skip(i as int)[0] == cb);
        }
        if ca != cb {
            return (ca as u32) < (cb as u32);
        }
        i = i + 1;
    }
}

/// ASCII lowercase of one character; all others are unchanged.
pub open spec fn lower_char(c: char) -> char {
    match c {
        'A' => 'a',
        'B' => 'b',
        'C' => 'c',
        'D' => 'd',
        'E' => 'e',
        'F' => 'f',
        'G' => 'g',
        'H' => 'h',
        'I' => 'i',
        'J' => 'j',
        'K' => 'k',
        'L' => 'l',
        'M' => 'm',
        'N' => 'n',
        'O' => 'o',
        'P' => 'p',
        'Q' => 'q',
        'R' => 'r',
        'S' => 's',
        'T' => 't',
        'U' => 'u',
        'V' => 'v',
        'W' => 'w',
        'X' => 'x',
        'Y' => 'y',
        'Z' => 'z',
        _ => c,
    }
}

/// ASCII lowercase applied to every character.
pub open spec fn lower_seq(s: Seq<char>) -> Seq<char> {
    Seq::new(s.len(), |i: int| lower_char(s[i]))
}

/// ASCII lowercase of one character, as an executable function.
pub fn lower_char_exec(c: char) -> (r: char)
    ensures
        r == lower_char(c),
{
    match c {
        'A' => 'a',
        'B' => 'b',
        'C' => 'c',
        'D' => 'd',
        'E' => 'e',
        'F' => 'f',
        'G' => 'g',
        'H' => 'h',
        'I' => 'i',
        'J' => 'j',
        'K' => 'k',
        'L' => 'l',
        'M' => 'm',
        'N' => 'n',
        'O' => 'o',
        'P' => 'p',
        'Q' => 'q',
        'R' => 'r',
        'S' => 's',
        'T' => 't',
        'U' => 'u',
        'V' => 'v',
        'W' => 'w',
        'X' => 'x',
        'Y' => 'y',
        'Z' => 'z',
        _ => c,
    }
}

/// Relies on `String::push`: appends exactly the given character.
#[verifier::external_body]
fn push_char(s: &mut String, c: char)
    ensures
        final(s)@ == old(s)@.push(c),
{
    s.push(c);
}

/// ASCII-lowercase a whole string.
pub fn lowercase(s: &str) -> (r: String)
    ensures
        r@ == lower_seq(s@),
{
    let len = s.unicode_len();
    let mut r = String::new();
    let mut i: usize = 0;
    while i < len
        invariant
            0 <= i <= len,
            len == s@.len(),
            r@ =~= lower_seq(s@).take(i as int),
        decreases len - i,
    {
        let c = lower_char_exec(s.get_char(i));
        push_char(&mut r, c);
        i = i + 1;
    }
    proof {
        assert(lower_seq(s@).take(len as int) =~= lower_seq(s@));
    }
    r
}

/// The start-of-sequence sentinel token.
pub open spec fn start_token() -> Seq<char> {
    "<s>"@
}

/// The end-of-sequence sentinel token.
pub open spec fn end_token() -> Seq<char> {
    "<s/>"@
}

/// The start-of-sequence sentinel, as text.
pub fn start_of_string() -> (r: &'static str)
    ensures
        r@ == start_token(),
{
    "<s>"
}

/// The end-of-sequence sentinel, as text.
pub fn end_of_string() -> (r: &'static str)
    ensures
        r@ == end_token(),
{
    "<s/>"
}

/// A sentence wrapped in the start and end sentinels, space-separated.
pub open spec fn wrap_start_end(s: Seq<char>) -> Seq<char> {
    start_token() + seq![' '] + s + seq![' '] + end_token()
}

/// Wrap a sentence in the start and end sentinels.
pub fn add_start_end(s: &str) -> (r: String)
    ensures
        r@ == wrap_start_end(s@),
{
    proof {
        reveal_strlit(" ");
    }
    let mut r = String::from_str(start_of_string());
    r.append(" ");
    r.append(s);
    r.append(" ");
    r.append(end_of_string());
    proof {
        assert(r@ =~= wrap_start_end(s@));
    }
    r
}

/// One preprocessing stage: a plain text transform.
#[derive(Clone, Copy, Debug, PartialEq, Eq, Structural)]
pub enum PreStage {
    /// Map ASCII uppercase letters to lowercase.
    LowerCase,
    /// Wrap the sentence in the start and end sentinel tokens.
    StartEndTokens,
}

/// What one stage does to a sentence.
pub open spec fn apply_stage(stage: PreStage, s: Seq<char>) -> Seq<char> {
    match stage {
        PreStage::LowerCase => lower_seq(s),
        PreStage::StartEndTokens => wrap_start_end(s),
    }
}

/// What a chain of stages does to a sentence, applied left to right.
pub open spec fn apply_chain(chain: Seq<PreStage>, s: Seq<char>) -> Seq<char>
    decreases chain.len(),
{
    if chain.len() == 0 {
        s
    } else {
        apply_stage(chain.last(), apply_chain(chain.drop_last(), s))
    }
}

/// Apply a chain of preprocessing stages, left to right.
pub fn preprocess(chain: &Vec<PreStage>, s: &str) -> (r: String)
    ensures
        r@ == apply_chain(chain@, s@),
{
    let mut r = String::from_str(s);
    let mut i: usize = 0;
    proof {
        assert(chain@.take(0) =~= Seq::<PreStage>::empty());
    }
    while i < chain.len()
        invariant
            0 <= i <= chain.len(),
            r@ == apply_chain(chain@.take(i as int), s@),
        decreases chain.len() - i,
    {
        let next = match chain[i] {
            PreStage::LowerCase => lowercase(r.as_str()),
            PreStage::StartEndTokens => add_start_end(r.as_str()),
        };
        r = next;
        proof {
            assert(chain@.take(i + 1).drop_last() =~= chain@.take(i as int));
            assert(chain@.take(i + 1).last() == chain@[i as int]);
        }
        i = i + 1;
    }
    proof {
        assert(chain@.take(chain.len() as int) =~= chain@);
    }
    r
}

/// A sentence being prepared for tokenization; transforms are applied one
/// at a time and the result is taken out with [`PreProcessor::done`].
pub struct PreProcessor {
    sent: String,
}

impl View for PreProcessor {
    type V = Seq<char>;

    closed spec fn view(&self) -> Seq<char> {
        self.sent@
    }
}

impl PreProcessor {
    pub fn new(sentence: String) -> (r: PreProcessor)
        ensures
            r@ == sentence@,
    {
        PreProcessor { sent: sentence }
    }

    /// Map ASCII uppercase letters to lowercase.
    pub fn lowercase(self) -> (r: PreProcessor)
        ensures
            r@ == lower_seq(self@),
    {
        PreProcessor { sent: lowercase(self.sent.as_str()) }
    }

    /// Wrap the sentence in the start and end sentinel tokens.
    pub fn add_start_end_tokens(self) -> (r: PreProcessor)
        ensures
            r@ == wrap_start_end(self@),
    {
        PreProcessor { sent: add_start_end(self.sent.as_str()) }
    }

    /// Take out the processed sentence.
    pub fn done(self) -> (r: String)
        ensures
            r@ == self@,
    {
        self.sent
    }
}

/// What `str::to_lowercase` returns: full Unicode lowercasing, a
/// function of the characters alone.
pub uninterp spec fn unicode_lower_of(s: Seq<char>) -> Seq<char>;

/// Relies on `str::to_lowercase`: the Unicode lowercase of the string,
/// a function of its characters alone; an empty string stays empty.
#[verifier::external_body]
fn to_unicode_lowercase(s: &str) -> (r: String)
    ensures
        r@ == unicode_lower_of(s@),
        s@.len() == 0 ==> r@.len() == 0,
{
    s.to_lowercase()
}

/// A standalone lowercasing transform, with full Unicode case mapping.
pub struct LowerCasePreProcessor {}

impl LowerCasePreProcessor {
    pub fn new() -> (r: LowerCasePreProcessor) {
        LowerCasePreProcessor {  }
    }

    /// Lowercase the whole sentence with Unicode case mapping (the
    /// [`PreProcessor`] builder's `lowercase`, by contrast, maps ASCII
    /// letters only); this transform never fails.
    pub fn process(&self, sentence: String) -> (r: Result<String, String>)
        ensures
            r is Ok,
            r->Ok_0@ == unicode_lower_of(sentence@),
    {
        Ok(to_unicode_lowercase(sentence.as_str()))
    }
}

/// A standalone sentinel-wrapping transform.
pub struct StartEndTokensPreProcessor {}

impl StartEndTokensPreProcessor {
    pub fn new() -> (r: StartEndTokensPreProcessor) {
        StartEndTokensPreProcessor {  }
    }

    /// Wrap the sentence in the start and end sentinels; this transform
    /// never fails.
    pub fn process(&self, sentence: String) -> (r: Result<String, String>)
        ensures
            r is Ok,
            r->Ok_0@ == wrap_start_end(sentence@),
    {
        Ok(add_start_end(sentence.as_str()))
    }
}

} // verus!
