//! Grouping of sub-word tokens from a transducer recognizer into words,
//! and of words into sentences.
//!
//! Word rules: a token that begins with the SentencePiece marker `▁` or a
//! space starts a new word (unless what follows the marker is an
//! apostrophe or a hyphen, so contractions and compounds stay together);
//! whitespace-only tokens end the current word; punctuation-only tokens
//! attach to the current word's text but not to its timing; a word made of
//! punctuation only is dropped, and a word equal (ignoring case) to the word
//! just emitted is dropped as a repeat.
use vstd::prelude::*;
use vstd::string::*;
use crate::text::{
    all_punct, all_punct_str, all_ws, all_ws_str, is_pure_punct, is_ws, join_spaced, is_pure_punctuation, strip_leading,
    strip_leading_str, strip_trailing_punct, strip_trailing_punct_str, chars_of,
};

verus! {

/// A token or word with its time span (microseconds).
#[derive(Debug, Clone, PartialEq, Eq)]
pub struct TimedToken {
    pub text: String,
    pub start: i64,
    pub end: i64,
}

/// A timed token as a mathematical value.
pub struct TokenView {
    pub text: Seq<char>,
    pub start: int,
    pub end: int,
}

impl View for TimedToken {
    type V = TokenView;

    open spec fn view(&self) -> TokenView {
        TokenView { text: self.text@, start: self.start as int, end: self.end as int }
    }
}

pub open spec fn tokens_view(ts: Seq<TimedToken>) -> Seq<TokenView> {
    ts.map_values(|t: TimedToken| t@)
}

/// The full Unicode lowercase mapping of a string (`str::to_lowercase`).
pub uninterp spec fn str_lowercase(s: Seq<char>) -> Seq<char>;

/// `s.to_lowercase()`. The contract names the result and says nothing of
/// how Unicode case mapping is done.
#[verifier::external_body]
fn lowercase(s: &str) -> (r: String)
    ensures
        r@ == str_lowercase(s@),
{
    s.to_lowercase()
}

// ---------------------------------------------------------------------------
// Words
// ---------------------------------------------------------------------------

/// The state of the word grouping between tokens.
pub struct WordState {
    /// Words emitted so far.
    pub words: Seq<TokenView>,
    /// Text of the word being built.
    pub text: Seq<char>,
    /// Start of the word being built.
    pub start: int,
    /// End of the last non-punctuation token of the word being built.
    pub last_end: int,
    /// Lowercase text of the last emitted word.
    pub last_lower: Seq<char>,
}

/// Emit the word being built (unless empty, punctuation only, or a repeat
/// of the last word ignoring case) and clear it.
pub open spec fn flush_word(st: WordState) -> WordState {
    if st.text.len() == 0 {
        st
    } else if all_punct(st.text) {
        WordState { text: Seq::empty(), ..st }
    } else if str_lowercase(st.text) != st.last_lower {
        WordState {
            words: st.words.push(TokenView { text: st.text, start: st.start, end: st.last_end }),
            text: Seq::empty(),
            last_lower: str_lowercase(st.text),
            ..st
        }
    } else {
        WordState { text: Seq::empty(), ..st }
    }
}

/// A token's text without its leading `▁` markers, then without its
/// leading spaces.
pub open spec fn token_body(t: Seq<char>) -> Seq<char> {
    strip_leading(strip_leading(t, '▁'), ' ')
}

/// Whether the token at position `i` starts a new word.
pub open spec fn starts_word(t: Seq<char>, i: int) -> bool {
    let body = token_body(t);
    let marked = t.len() > 0 && (t[0] == '▁' || t[0] == ' ');
    let contraction = body.len() > 0 && body[0] == '\'';
    let hyphenation = body.len() > 0 && body[0] == '-';
    (marked && !contraction && !hyphenation) || i == 0
}

/// One token of the word grouping; `i` is its position.
pub open spec fn word_step(st: WordState, tok: TokenView, i: int) -> WordState {
    if all_ws(tok.text) {
        flush_word(st)
    } else {
        let body = token_body(tok.text);
        let st1 = if starts_word(tok.text, i) && st.text.len() > 0 {
            flush_word(st)
        } else {
            st
        };
        let st2 = if st1.text.len() == 0 {
            WordState { start: tok.start, ..st1 }
        } else {
            st1
        };
        let text = st2.text + body;
        if is_pure_punct(tok.text) {
            WordState { text, ..st2 }
        } else if strip_trailing_punct(text) == body {
            WordState { text, last_end: tok.end, start: tok.start, ..st2 }
        } else {
            WordState { text, last_end: tok.end, ..st2 }
        }
    }
}

pub open spec fn initial_word_state() -> WordState {
    WordState {
        words: Seq::empty(),
        text: Seq::empty(),
        start: 0,
        last_end: 0,
        last_lower: Seq::empty(),
    }
}

/// The word grouping after the tokens `ts`.
pub open spec fn word_fold(ts: Seq<TokenView>) -> WordState
    decreases ts.len(),
{
    if ts.len() == 0 {
        initial_word_state()
    } else {
        word_step(word_fold(ts.drop_last()), ts.last(), ts.len() - 1)
    }
}

/// What `group_by_words` returns.
pub open spec fn words_of_tokens(ts: Seq<TokenView>) -> Seq<TokenView> {
    if ts.len() == 0 {
        Seq::empty()
    } else {
        flush_word(word_fold(ts)).words
    }
}

/// The executable word-grouping state.
struct WordAcc {
    words: Vec<TimedToken>,
    text: String,
    start: i64,
    last_end: i64,
    last_lower: String,
}

spec fn acc_view(a: &WordAcc) -> WordState {
    WordState {
        words: tokens_view(a.words@),
        text: a.text@,
        start: a.start as int,
        last_end: a.last_end as int,
        last_lower: a.last_lower@,
    }
}

/// Append `word`, whose lowercase text is `lower`, to `words`, unless it
/// repeats the last emitted word ignoring case, that is unless `lower`
/// equals `last_lower`; an appended word's `lower` becomes the new
/// `last_lower`. Returns whether the word was appended.
pub fn push_word_unless_repeat(
    words: &mut Vec<TimedToken>,
    last_lower: &mut String,
    word: TimedToken,
    lower: String,
) -> (pushed: bool)
    ensures
        pushed == (lower@ != old(last_lower)@),
        tokens_view(final(words)@) == (if pushed {
            tokens_view(old(words)@).push(word@)
        } else {
            tokens_view(old(words)@)
        }),
        final(last_lower)@ == (if pushed {
            lower@
        } else {
            old(last_lower)@
        }),
{
    if lower == *last_lower {
        false
    } else {
        let ghost old_words = words@;
        let ghost wv = word@;
        words.push(word);
        assert(tokens_view(words@) =~= tokens_view(old_words).push(wv));
        *last_lower = lower;
        true
    }
}

fn flush_word_exec(a: &mut WordAcc)
    ensures
        acc_view(final(a)) == flush_word(acc_view(old(a))),
{
    if a.text.unicode_len() == 0 {
        return ;
    }
    if all_punct_str(a.text.as_str()) {
        a.text = String::new();
        return ;
    }
    let lower = lowercase(a.text.as_str());
    let w = TimedToken { text: a.text.clone(), start: a.start, end: a.last_end };
    push_word_unless_repeat(&mut a.words, &mut a.last_lower, w, lower);
    a.text = String::new();
}

/// Group sub-word tokens into words (see the module documentation).
pub fn group_by_words(tokens: &Vec<TimedToken>) -> (r: Vec<TimedToken>)
    ensures
        tokens_view(r@) == words_of_tokens(tokens_view(tokens@)),
{
    let ghost tv = tokens_view(tokens@);
    if tokens.len() == 0 {
        return Vec::new();
    }
    let mut a = WordAcc {
        words: Vec::new(),
        text: String::new(),
        start: 0,
        last_end: 0,
        last_lower: String::new(),
    };
    assert(tokens_view(a.words@) =~= Seq::<TokenView>::empty());
    assert(acc_view(&a) == initial_word_state());
    assert(tv.take(0) =~= Seq::<TokenView>::empty());
    let mut i: usize = 0;
    while i < tokens.len()
        invariant
            i <= tokens.len(),
            tv == tokens_view(tokens@),
            acc_view(&a) == word_fold(tv.take(i as int)),
        decreases tokens.len() - i,
    {
        assert(tv.take(i + 1).drop_last() =~= tv.take(i as int));
        assert(tv.take(i + 1).last() == tokens@[i as int]@);
        let tok = &tokens[i];
        if all_ws_str(tok.text.as_str()) {
            flush_word_exec(&mut a);
        } else {
            let is_pp = is_pure_punctuation(tok.text.as_str());
            let marker_free = strip_leading_str(tok.text.as_str(), '▁');
            let body = strip_leading_str(marker_free.as_str(), ' ');
            let tv_chars = chars_of(tok.text.as_str());
            let body_chars = chars_of(body.as_str());
            let marked = tv_chars.len() > 0 && (tv_chars[0] == '▁' || tv_chars[0] == ' ');
            let contraction = body_chars.len() > 0 && body_chars[0] == '\'';
            let hyphenation = body_chars.len() > 0 && body_chars[0] == '-';
            let starts = (marked && !contraction && !hyphenation) || i == 0;
            if starts && a.text.unicode_len() > 0 {
                flush_word_exec(&mut a);
            }
            if a.text.unicode_len() == 0 {
                a.start = tok.start;
            }
            a.text.append(body.as_str());
            if !is_pp {
                a.last_end = tok.end;
                let stripped = strip_trailing_punct_str(a.text.as_str());
                if stripped == body {
                    a.start = tok.start;
                }
            }
        }
        i = i + 1;
    }
    assert(tv.take(tokens.len() as int) =~= tv);
    flush_word_exec(&mut a);
    a.words
}

// ---------------------------------------------------------------------------
// Sentences
// ---------------------------------------------------------------------------

/// A word is a sentence terminator when it contains `.`, `?` or `!`.
pub open spec fn ends_sentence(t: Seq<char>) -> bool {
    t.contains('.') || t.contains('?') || t.contains('!')
}

/// A one-character word `. , ! ? ; : )` that takes no space before it.
pub open spec fn is_standalone_punct(t: Seq<char>) -> bool {
    t.len() == 1 && (t[0] == '.' || t[0] == ',' || t[0] == '!' || t[0] == '?' || t[0] == ';'
        || t[0] == ':' || t[0] == ')')
}

/// Words joined with single spaces, except before standalone punctuation.
pub open spec fn format_sentence_spec(ws: Seq<TokenView>) -> Seq<char>
    decreases ws.len(),
{
    if ws.len() == 0 {
        Seq::empty()
    } else {
        let sep = if ws.len() > 1 && !is_standalone_punct(ws.last().text) {
            seq![' ']
        } else {
            Seq::empty()
        };
        format_sentence_spec(ws.drop_last()) + sep + ws.last().text
    }
}

/// The end of the last word that is not punctuation only.
pub open spec fn last_content_end(ws: Seq<TokenView>) -> Option<int>
    decreases ws.len(),
{
    if ws.len() == 0 {
        None
    } else if !is_pure_punct(ws.last().text) {
        Some(ws.last().end)
    } else {
        last_content_end(ws.drop_last())
    }
}

/// End time of a terminated sentence: the end of its last spoken word,
/// else of its last word.
pub open spec fn sentence_end_spec(ws: Seq<TokenView>) -> int {
    match last_content_end(ws) {
        Some(e) => e,
        None => if ws.len() > 0 {
            ws.last().end
        } else {
            0
        },
    }
}

/// The state of the sentence grouping between words.
pub struct SentenceState {
    pub sentences: Seq<TokenView>,
    pub current: Seq<TokenView>,
}

/// Emit `s` as a sentence unless its text is empty.
pub open spec fn emit_if_text(out: Seq<TokenView>, s: TokenView) -> Seq<TokenView> {
    if s.text.len() > 0 {
        out.push(s)
    } else {
        out
    }
}

pub open spec fn sentence_step(st: SentenceState, w: TokenView) -> SentenceState {
    let cur = st.current.push(w);
    if ends_sentence(w.text) {
        SentenceState {
            sentences: emit_if_text(
                st.sentences,
                TokenView {
                    text: format_sentence_spec(cur),
                    start: cur[0].start,
                    end: sentence_end_spec(cur),
                },
            ),
            current: Seq::empty(),
        }
    } else {
        SentenceState { current: cur, ..st }
    }
}

pub open spec fn sentence_fold(ws: Seq<TokenView>) -> SentenceState
    decreases ws.len(),
{
    if ws.len() == 0 {
        SentenceState { sentences: Seq::empty(), current: Seq::empty() }
    } else {
        sentence_step(sentence_fold(ws.drop_last()), ws.last())
    }
}

/// Sentences of a word list: the terminated ones, then the trailing
/// fragment (which ends at its last word's end).
pub open spec fn sentences_of_words(ws: Seq<TokenView>) -> Seq<TokenView> {
    let st = sentence_fold(ws);
    if st.current.len() > 0 {
        emit_if_text(
            st.sentences,
            TokenView {
                text: format_sentence_spec(st.current),
                start: st.current[0].start,
                end: st.current.last().end,
            },
        )
    } else {
        st.sentences
    }
}

/// What `group_by_sentences` returns.
pub open spec fn sentences_of_tokens(ts: Seq<TokenView>) -> Seq<TokenView> {
    sentences_of_words(words_of_tokens(ts))
}

fn is_standalone_punct_exec(t: &str) -> (b: bool)
    ensures
        b == is_standalone_punct(t@),
{
    let v = chars_of(t);
    v.len() == 1 && (v[0] == '.' || v[0] == ',' || v[0] == '!' || v[0] == '?' || v[0] == ';'
        || v[0] == ':' || v[0] == ')')
}

/// Join words with single spaces, but none before `. , ! ? ; : )`.
fn format_sentence(words: &Vec<TimedToken>) -> (r: String)
    ensures
        r@ == format_sentence_spec(tokens_view(words@)),
{
    let ghost wv = tokens_view(words@);
    let mut out = String::new();
    let mut i: usize = 0;
    while i < words.len()
        invariant
            i <= words.len(),
            wv == tokens_view(words@),
            out@ == format_sentence_spec(wv.take(i as int)),
        decreases words.len() - i,
    {
        let ghost pre = wv.take(i as int);
        let ghost post = wv.take(i + 1);
        assert(post.drop_last() =~= pre);
        assert(post.last() == words@[i as int]@);
        let standalone = is_standalone_punct_exec(words[i].text.as_str());
        if i > 0 && !standalone {
            proof {
                reveal_strlit(" ");
            }
            out.append(" ");
        }
        out.append(words[i].text.as_str());
        assert(out@ =~= format_sentence_spec(post));
        i = i + 1;
    }
    assert(wv.take(words.len() as int) =~= wv);
    out
}

/// End time of a sentence: the end of its last word that is not
/// punctuation only, else of its last word, else zero.
fn sentence_end_excluding_terminator(words: &Vec<TimedToken>) -> (r: i64)
    ensures
        r as int == sentence_end_spec(tokens_view(words@)),
{
    let ghost wv = tokens_view(words@);
    let mut i: usize = words.len();
    assert(wv.take(i as int) =~= wv);
    while i > 0
        invariant
            i <= words.len(),
            wv == tokens_view(words@),
            last_content_end(wv) == last_content_end(wv.take(i as int)),
        decreases i,
    {
        let ghost pre = wv.take(i as int);
        assert(pre.last() == words@[i - 1]@);
        assert(pre.drop_last() =~= wv.take(i - 1));
        if !is_pure_punctuation(words[i - 1].text.as_str()) {
            return words[i - 1].end;
        }
        i = i - 1;
    }
    assert(wv.take(0) =~= Seq::<TokenView>::empty());
    if words.len() > 0 {
        words[words.len() - 1].end
    } else {
        0
    }
}

/// Group tokens into words, then words into sentences ended by `.`, `?`
/// or `!`. A terminated sentence ends at its last spoken word, so that a
/// trailing punctuation token does not stretch it.
pub fn group_by_sentences(tokens: &Vec<TimedToken>) -> (r: Vec<TimedToken>)
    ensures
        tokens_view(r@) == sentences_of_tokens(tokens_view(tokens@)),
{
    let words = group_by_words(tokens);
    let ghost wv = tokens_view(words@);
    let mut sentences: Vec<TimedToken> = Vec::new();
    let mut current: Vec<TimedToken> = Vec::new();
    assert(wv.take(0) =~= Seq::<TokenView>::empty());
    let mut i: usize = 0;
    while i < words.len()
        invariant
            i <= words.len(),
            wv == tokens_view(words@),
            tokens_view(sentences@) == sentence_fold(wv.take(i as int)).sentences,
            tokens_view(current@) == sentence_fold(wv.take(i as int)).current,
        decreases words.len() - i,
    {
        let ghost pre = wv.take(i as int);
        let ghost post = wv.take(i + 1);
        assert(post.drop_last() =~= pre);
        assert(post.last() == words@[i as int]@);
        let w = TimedToken { text: words[i].text.clone(), start: words[i].start, end: words[i].end };
        let ghost old_cur = current@;
        current.push(w);
        assert(tokens_view(current@) =~= tokens_view(old_cur).push(w@));
        let ends = has_char_any(words[i].text.as_str());
        if ends {
            let text = format_sentence(&current);
            let start = current[0].start;
            let end = sentence_end_excluding_terminator(&current);
            if text.unicode_len() > 0 {
                let s = TimedToken { text, start, end };
                let ghost old_s = sentences@;
                sentences.push(s);
                assert(tokens_view(sentences@) =~= tokens_view(old_s).push(s@));
            }
            current = Vec::new();
            assert(tokens_view(current@) =~= Seq::<TokenView>::empty());
        }
        i = i + 1;
    }
    assert(wv.take(words.len() as int) =~= wv);
    if current.len() > 0 {
        let text = format_sentence(&current);
        let start = current[0].start;
        let end = current[current.len() - 1].end;
        if text.unicode_len() > 0 {
            let s = TimedToken { text, start, end };
            let ghost old_s = sentences@;
            sentences.push(s);
            assert(tokens_view(sentences@) =~= tokens_view(old_s).push(s@));
        }
    }
    sentences
}

/// Whether `t` contains `.`, `?` or `!`.
fn has_char_any(t: &str) -> (b: bool)
    ensures
        b == ends_sentence(t@),
{
    crate::text::has_char(t, '.') || crate::text::has_char(t, '?') || crate::text::has_char(t, '!')
}

// ---------------------------------------------------------------------------
// Laws
// ---------------------------------------------------------------------------

/// Every word has text, not made only of punctuation, and no word repeats
/// the one before it, ignoring case.
pub open spec fn clean_words(ws: Seq<TokenView>) -> bool {
    &&& forall|k: int|
        0 <= k < ws.len() ==> (#[trigger] ws[k]).text.len() > 0 && !all_punct(ws[k].text)
    &&& forall|i: int, j: int|
        0 <= i && j == i + 1 && j < ws.len() ==> str_lowercase(#[trigger] ws[i].text)
            != str_lowercase(#[trigger] ws[j].text)
}

pub open spec fn state_ok(st: WordState) -> bool {
    &&& clean_words(st.words)
    &&& st.words.len() > 0 ==> st.last_lower == str_lowercase(st.words.last().text)
}

proof fn lemma_flush_ok(st: WordState)
    requires
        state_ok(st),
    ensures
        state_ok(flush_word(st)),
        flush_word(st).text.len() == 0,
{
    if st.text.len() > 0 && !all_punct(st.text) && str_lowercase(st.text) != st.last_lower {
        let w = TokenView { text: st.text, start: st.start, end: st.last_end };
        let ws = st.words.push(w);
        assert forall|i: int, j: int| 0 <= i && j == i + 1 && j < ws.len() implies str_lowercase(
            #[trigger] ws[i].text,
        ) != str_lowercase(#[trigger] ws[j].text) by {
            if j < st.words.len() {
                assert(ws[i] == st.words[i] && ws[j] == st.words[j]);
            } else {
                assert(ws[i] == st.words.last());
            }
        }
    }
}

proof fn lemma_word_fold_ok(ts: Seq<TokenView>)
    ensures
        state_ok(word_fold(ts)),
    decreases ts.len(),
{
    if ts.len() > 0 {
        lemma_word_fold_ok(ts.drop_last());
        let st = word_fold(ts.drop_last());
        lemma_flush_ok(st);
    }
}

/// Word grouping never yields an empty word, a word of punctuation only,
/// or a word equal to the previous one ignoring case.
pub proof fn law_words_clean(ts: Seq<TokenView>)
    ensures
        clean_words(words_of_tokens(ts)),
{
    if ts.len() > 0 {
        lemma_word_fold_ok(ts);
        lemma_flush_ok(word_fold(ts));
    }
}

proof fn lemma_sentence_fold_nonempty(ws: Seq<TokenView>)
    ensures
        forall|k: int|
            0 <= k < sentence_fold(ws).sentences.len() ==> (#[trigger] sentence_fold(ws).sentences[k]).text.len()
                > 0,
    decreases ws.len(),
{
    if ws.len() > 0 {
        lemma_sentence_fold_nonempty(ws.drop_last());
        let prev = sentence_fold(ws.drop_last());
        let w = ws.last();
        let cur = prev.current.push(w);
        if ends_sentence(w.text) {
            let t = TokenView {
                text: format_sentence_spec(cur),
                start: cur[0].start,
                end: sentence_end_spec(cur),
            };
            let out = emit_if_text(prev.sentences, t);
            assert(sentence_fold(ws).sentences == out);
            assert forall|k: int| 0 <= k < out.len() implies (#[trigger] out[k]).text.len() > 0 by {
                if k < prev.sentences.len() {
                    assert(out[k] == prev.sentences[k]);
                }
            }
        } else {
            assert(sentence_fold(ws).sentences == prev.sentences);
        }
    }
}

/// Every sentence has text.
pub proof fn law_sentences_nonempty(ts: Seq<TokenView>)
    ensures
        forall|k: int|
            0 <= k < sentences_of_tokens(ts).len() ==> (#[trigger] sentences_of_tokens(ts)[k]).text.len()
                > 0,
{
    let ws = words_of_tokens(ts);
    lemma_sentence_fold_nonempty(ws);
    let st = sentence_fold(ws);
    let out = sentences_of_tokens(ts);
    assert forall|k: int| 0 <= k < out.len() implies (#[trigger] out[k]).text.len() > 0 by {
        if k < st.sentences.len() {
            assert(out[k] == st.sentences[k]);
        }
    }
}

/// The texts of a list of words or sentences.
pub open spec fn texts_of(ws: Seq<TokenView>) -> Seq<Seq<char>> {
    ws.map_values(|w: TokenView| w.text)
}

/// A word that `format_sentence` joins with a space before it.
spec fn spaced_word(t: Seq<char>) -> bool {
    t.len() > 0 && !is_standalone_punct(t)
}

proof fn lemma_join_push_spaced(xs: Seq<Seq<char>>, y: Seq<char>, z: Seq<char>)
    ensures
        join_spaced(xs.push(y + seq![' '] + z)) == join_spaced(xs.push(y)) + seq![' '] + z,
{
    assert(xs.push(y + seq![' '] + z).drop_last() =~= xs);
    assert(xs.push(y).drop_last() =~= xs);
    if xs.len() > 0 {
        assert(join_spaced(xs.push(y + seq![' '] + z)) =~= join_spaced(xs.push(y)) + seq![' '] + z);
    } else {
        assert(join_spaced(xs.push(y + seq![' '] + z)) =~= join_spaced(xs.push(y)) + seq![' '] + z);
    }
}

proof fn lemma_join_nonempty(xs: Seq<Seq<char>>)
    requires
        xs.len() > 0,
        xs.last().len() > 0,
    ensures
        join_spaced(xs).len() > 0,
{
    assert(xs[xs.len() - 1] == xs.last());
}

proof fn lemma_format_is_join(ws: Seq<TokenView>)
    requires
        forall|k: int| 0 <= k < ws.len() ==> spaced_word(#[trigger] ws[k].text),
    ensures
        format_sentence_spec(ws) == join_spaced(texts_of(ws)),
    decreases ws.len(),
{
    if ws.len() > 0 {
        lemma_format_is_join(ws.drop_last());
        assert(texts_of(ws.drop_last()) =~= texts_of(ws).drop_last());
        assert(spaced_word(ws[ws.len() - 1].text));
        if ws.len() == 1 {
            assert(format_sentence_spec(ws) =~= ws[0].text);
        } else {
            assert(format_sentence_spec(ws) =~= format_sentence_spec(ws.drop_last()) + seq![' ']
                + ws.last().text);
        }
    }
}

/// The sentences emitted so far, then the sentence being built, as texts.
spec fn flat_texts(st: SentenceState) -> Seq<Seq<char>> {
    if st.current.len() > 0 {
        texts_of(st.sentences).push(join_spaced(texts_of(st.current)))
    } else {
        texts_of(st.sentences)
    }
}

proof fn lemma_sentence_fold_join(ws: Seq<TokenView>)
    requires
        forall|k: int| 0 <= k < ws.len() ==> spaced_word(#[trigger] ws[k].text),
    ensures
        join_spaced(flat_texts(sentence_fold(ws))) == join_spaced(texts_of(ws)),
        forall|k: int|
            0 <= k < sentence_fold(ws).current.len() ==> spaced_word(
                #[trigger] sentence_fold(ws).current[k].text,
            ),
    decreases ws.len(),
{
    if ws.len() > 0 {
        let pw = ws.drop_last();
        assert forall|k: int| 0 <= k < pw.len() implies spaced_word(#[trigger] pw[k].text) by {
            assert(pw[k] == ws[k]);
        }
        lemma_sentence_fold_join(pw);
        lemma_sentence_fold_nonempty(pw);
        let prev = sentence_fold(pw);
        let w = ws.last();
        assert(spaced_word(ws[ws.len() - 1].text));
        let cur = prev.current.push(w);
        assert forall|k: int| 0 <= k < cur.len() implies spaced_word(#[trigger] cur[k].text) by {
            if k < prev.current.len() {
                assert(cur[k] == prev.current[k]);
            }
        }
        lemma_format_is_join(cur);
        let tc = texts_of(cur);
        assert(tc.drop_last() =~= texts_of(prev.current));
        assert(tc.last() == w.text);
        lemma_join_nonempty(tc);
        let st = sentence_fold(ws);
        let sp = texts_of(prev.sentences);
        assert(flat_texts(st) =~= sp.push(join_spaced(tc))) by {
            if ends_sentence(w.text) {
                assert(texts_of(st.sentences) =~= sp.push(join_spaced(tc)));
            } else {
                assert(st.sentences == prev.sentences);
            }
        }
        let tw = texts_of(ws);
        assert(tw.drop_last() =~= texts_of(pw));
        assert(tw.last() == w.text);
        if prev.current.len() > 0 {
            assert(join_spaced(tc) == join_spaced(texts_of(prev.current)) + seq![' '] + w.text);
            lemma_join_push_spaced(sp, join_spaced(texts_of(prev.current)), w.text);
            lemma_format_is_join(prev.current);
            assert(texts_of(prev.current).last() == prev.current.last().text);
            assert(prev.current[prev.current.len() - 1] == prev.current.last());
            lemma_join_nonempty(texts_of(prev.current));
            lemma_join_nonempty(flat_texts(prev));
            assert(pw.len() > 0);
        } else {
            assert(join_spaced(tc) == w.text) by {
                assert(tc.len() == 1);
            }
            assert(sp.push(w.text).drop_last() =~= sp);
            if sp.len() > 0 {
                assert(sp.last() == prev.sentences.last().text);
                assert(prev.sentences[prev.sentences.len() - 1] == prev.sentences.last());
                lemma_join_nonempty(sp);
                assert(pw.len() > 0);
            } else {
                assert(join_spaced(texts_of(pw)).len() == 0);
                if pw.len() > 0 {
                    assert(texts_of(pw).last() == pw.last().text);
                    assert(pw[pw.len() - 1] == pw.last());
                    lemma_join_nonempty(texts_of(pw));
                }
                assert(tw.len() == 1);
            }
        }
        assert forall|k: int| 0 <= k < st.current.len() implies spaced_word(
            #[trigger] st.current[k].text,
        ) by {
            assert(st.current[k] == cur[k]);
        }
    }
}

/// Sentence grouping loses and adds no word: the sentences' texts joined
/// with single spaces read the same as the words' texts joined with single
/// spaces.
pub proof fn law_sentences_join_words(ts: Seq<TokenView>)
    ensures
        join_spaced(texts_of(sentences_of_tokens(ts))) == join_spaced(
            texts_of(words_of_tokens(ts)),
        ),
{
    let ws = words_of_tokens(ts);
    law_words_clean(ts);
    assert forall|k: int| 0 <= k < ws.len() implies spaced_word(#[trigger] ws[k].text) by {
        assert(ws[k].text.len() > 0 && !all_punct(ws[k].text));
        if is_standalone_punct(ws[k].text) {
            assert(crate::text::is_punct(ws[k].text[0]));
        }
    }
    lemma_sentence_fold_join(ws);
    let st = sentence_fold(ws);
    if st.current.len() > 0 {
        lemma_format_is_join(st.current);
        assert(texts_of(st.current).last() == st.current.last().text);
        assert(st.current[st.current.len() - 1] == st.current.last());
        lemma_join_nonempty(texts_of(st.current));
        assert(texts_of(sentences_of_tokens(ts)) =~= flat_texts(st));
    } else {
        assert(texts_of(sentences_of_tokens(ts)) =~= flat_texts(st));
    }
}


/// Whether a word carries `.`, `?` or `!`.
spec fn has_terminator(t: Seq<char>) -> bool {
    t.contains('.') || t.contains('?') || t.contains('!')
}

proof fn lemma_contains_concat(a: Seq<char>, b: Seq<char>, c: char)
    ensures
        (a + b).contains(c) <==> a.contains(c) || b.contains(c),
{
    let ab = a + b;
    if ab.contains(c) {
        let i = choose|i: int| 0 <= i < ab.len() && ab[i] == c;
        if i < a.len() {
            assert(a[i] == c);
        } else {
            assert(b[i - a.len()] == c);
        }
    }
    if a.contains(c) {
        let i = choose|i: int| 0 <= i < a.len() && a[i] == c;
        assert(ab[i] == c);
    }
    if b.contains(c) {
        let i = choose|i: int| 0 <= i < b.len() && b[i] == c;
        assert(ab[i + a.len()] == c);
    }
}

proof fn lemma_format_terminators(ws: Seq<TokenView>)
    ensures
        (forall|k: int| 0 <= k < ws.len() ==> !has_terminator(#[trigger] ws[k].text)) ==> !has_terminator(
            format_sentence_spec(ws),
        ),
        ws.len() > 0 && has_terminator(ws.last().text) ==> has_terminator(format_sentence_spec(ws)),
    decreases ws.len(),
{
    if ws.len() > 0 {
        let d = ws.drop_last();
        lemma_format_terminators(d);
        let sep = if ws.len() > 1 && !is_standalone_punct(ws.last().text) {
            seq![' ']
        } else {
            Seq::<char>::empty()
        };
        let f0 = format_sentence_spec(d);
        assert(format_sentence_spec(ws) == f0 + sep + ws.last().text);
        lemma_contains_concat(f0 + sep, ws.last().text, '.');
        lemma_contains_concat(f0 + sep, ws.last().text, '?');
        lemma_contains_concat(f0 + sep, ws.last().text, '!');
        lemma_contains_concat(f0, sep, '.');
        lemma_contains_concat(f0, sep, '?');
        lemma_contains_concat(f0, sep, '!');
        if forall|k: int| 0 <= k < ws.len() ==> !has_terminator(#[trigger] ws[k].text) {
            assert forall|k: int| 0 <= k < d.len() implies !has_terminator(#[trigger] d[k].text) by {
                assert(d[k] == ws[k]);
            }
            assert(!has_terminator(ws[ws.len() - 1].text));
            if sep.len() > 0 {
                assert(!sep.contains('.') && !sep.contains('?') && !sep.contains('!')) by {
                    assert(sep[0] == ' ');
                }
            }
        }
    }
}

proof fn lemma_sentence_fold_terminators(ws: Seq<TokenView>)
    requires
        forall|k: int| 0 <= k < ws.len() ==> (#[trigger] ws[k]).text.len() > 0,
    ensures
        sentence_fold(ws).sentences.len() == ws.filter(|w: TokenView| has_terminator(w.text)).len(),
        forall|k: int|
            0 <= k < sentence_fold(ws).sentences.len() ==> has_terminator(
                (#[trigger] sentence_fold(ws).sentences[k]).text,
            ),
        forall|k: int|
            0 <= k < sentence_fold(ws).current.len() ==> !has_terminator(
                (#[trigger] sentence_fold(ws).current[k]).text,
            ),
        sentence_fold(ws).current.len() > 0 <==> ws.len() > 0 && !has_terminator(ws.last().text),
    decreases ws.len(),
{
    reveal(Seq::filter);
    if ws.len() > 0 {
        let d = ws.drop_last();
        assert forall|k: int| 0 <= k < d.len() implies (#[trigger] d[k]).text.len() > 0 by {
            assert(d[k] == ws[k]);
        }
        lemma_sentence_fold_terminators(d);
        let prev = sentence_fold(d);
        let w = ws.last();
        assert(w == ws[ws.len() - 1]);
        let cur = prev.current.push(w);
        let st = sentence_fold(ws);
        assert(ends_sentence(w.text) == has_terminator(w.text));
        if has_terminator(w.text) {
            assert(cur.last() == w);
            lemma_format_terminators(cur);
            let f = format_sentence_spec(cur);
            assert(f.len() > 0) by {
                if f.len() == 0 {
                    assert(!f.contains('.') && !f.contains('?') && !f.contains('!'));
                }
            }
            assert(st.sentences == prev.sentences.push(TokenView {
                text: f,
                start: cur[0].start,
                end: sentence_end_spec(cur),
            }));
            assert forall|k: int| 0 <= k < st.sentences.len() implies has_terminator(
                (#[trigger] st.sentences[k]).text,
            ) by {
                if k < prev.sentences.len() {
                    assert(st.sentences[k] == prev.sentences[k]);
                }
            }
        } else {
            assert(st.current == cur);
            assert forall|k: int| 0 <= k < st.current.len() implies !has_terminator(
                (#[trigger] st.current[k]).text,
            ) by {
                if k < prev.current.len() {
                    assert(st.current[k] == prev.current[k]);
                }
            }
        }
    }
}

/// Sentences close exactly at the words that carry `.`, `?` or `!`: there
/// are as many sentences as such words, plus one trailing fragment when
/// the last word carries none; every sentence before that fragment
/// contains a terminator, and the fragment contains none.
pub proof fn law_sentence_boundaries(ts: Seq<TokenView>)
    ensures
        ({
            let ws = words_of_tokens(ts);
            let r = sentences_of_tokens(ts);
            let n = ws.filter(
                |w: TokenView| w.text.contains('.') || w.text.contains('?') || w.text.contains('!'),
            ).len() as int;
            let trailing = ws.len() > 0 && !(ws.last().text.contains('.') || ws.last().text.contains(
                '?',
            ) || ws.last().text.contains('!'));
            &&& r.len() == n + (if trailing {
                1int
            } else {
                0int
            })
            &&& forall|k: int|
                0 <= k < n ==> (#[trigger] r[k]).text.contains('.') || r[k].text.contains('?')
                    || r[k].text.contains('!')
            &&& trailing ==> !(r[n].text.contains('.') || r[n].text.contains('?')
                || r[n].text.contains('!'))
        }),
{
    let ws = words_of_tokens(ts);
    law_words_clean(ts);
    assert(ws.filter(
        |w: TokenView| w.text.contains('.') || w.text.contains('?') || w.text.contains('!'),
    ) == ws.filter(|w: TokenView| has_terminator(w.text))) by {
        assert((|w: TokenView| w.text.contains('.') || w.text.contains('?') || w.text.contains('!'))
            =~= (|w: TokenView| has_terminator(w.text)));
    }
    assert forall|k: int| 0 <= k < ws.len() implies (#[trigger] ws[k]).text.len() > 0 by {}
    lemma_sentence_fold_terminators(ws);
    let st = sentence_fold(ws);
    let r = sentences_of_tokens(ts);
    if st.current.len() > 0 {
        lemma_format_terminators(st.current);
        let f = format_sentence_spec(st.current);
        assert(st.current.last() == st.current[st.current.len() - 1]);
        lemma_format_is_join_len(st.current);
        assert(r == st.sentences.push(TokenView {
            text: f,
            start: st.current[0].start,
            end: st.current.last().end,
        }));
        assert forall|k: int| 0 <= k < st.sentences.len() implies has_terminator(
            (#[trigger] r[k]).text,
        ) by {
            assert(r[k] == st.sentences[k]);
        }
    } else {
        assert(r == st.sentences);
    }
}

proof fn lemma_format_is_join_len(ws: Seq<TokenView>)
    requires
        ws.len() > 0,
        ws.last().text.len() > 0,
    ensures
        format_sentence_spec(ws).len() > 0,
{
}


/// A token that begins with the marker `▁` or with a space, followed by
/// text that starts with neither, nor with whitespace, an apostrophe or a
/// hyphen, starts a new word of its own: the words after it are the words
/// before it, plus at most one word made of exactly its text after the
/// marker, spanning exactly this token (none when that text is punctuation
/// only or repeats the word before).
pub proof fn law_marked_token_starts_word(ts: Seq<TokenView>, i: int, m: char, x: Seq<char>)
    requires
        0 <= i < ts.len(),
        m == '▁' || m == ' ',
        ts[i].text == seq![m] + x,
        x.len() > 0,
        !is_ws(x[0]),
        x[0] != '▁',
        x[0] != '\'',
        x[0] != '-',
    ensures
        words_of_tokens(ts.take(i + 1)) == words_of_tokens(ts.take(i)) || words_of_tokens(
            ts.take(i + 1),
        ) == words_of_tokens(ts.take(i)).push(
            TokenView { text: x, start: ts[i].start, end: ts[i].end },
        ),
{
    let t = ts[i].text;
    let tok = ts[i];
    assert(t.drop_first() =~= x);
    assert(t[0] == m);
    assert(token_body(t) == x) by {
        if m == '▁' {
            assert(strip_leading(t, '▁') == strip_leading(x, '▁'));
        } else {
            assert(strip_leading(t, '▁') == t);
            assert(strip_leading(t, ' ') == strip_leading(x, ' '));
        }
        assert(strip_leading(x, '▁') == x);
        assert(strip_leading(x, ' ') == x);
    }
    assert(!all_ws(t)) by {
        assert(t[1] == x[0]);
    }
    assert(!is_pure_punct(t)) by {
        assert(!crate::text::is_punct(t[0]));
    }
    assert(starts_word(t, i));
    let pre = ts.take(i);
    let post = ts.take(i + 1);
    assert(post.drop_last() =~= pre);
    assert(post.last() == tok);
    let st = word_fold(pre);
    assert(word_fold(post) == word_step(st, tok, i));
    let fl = flush_word(st);
    assert(fl.text.len() == 0);
    let st2 = WordState { text: x, start: tok.start, last_end: tok.end, ..fl };
    assert(word_step(st, tok, i) == st2);
    assert(words_of_tokens(pre) == fl.words) by {
        if i == 0 {
            assert(pre.len() == 0);
        }
    }
    assert(words_of_tokens(post) == flush_word(st2).words);
}


/// A token that does not start a word extends the word being built by its
/// text after any marker, and emits nothing: this holds of a token that
/// begins with neither `▁` nor a space (and is not whitespace only), and
/// of a marked token whose text after the marker begins with an
/// apostrophe or a hyphen, so that contractions and compounds stay
/// together.
pub proof fn law_continuing_token_extends_word(ts: Seq<TokenView>, i: int, x: Seq<char>)
    requires
        0 < i < ts.len(),
        word_fold(ts.take(i)).text.len() > 0,
        ({
            let t = ts[i].text;
            ||| (t == x && x.len() > 0 && x[0] != '▁' && x[0] != ' ' && !all_ws(x))
            ||| (t.len() > 0 && (t[0] == '▁' || t[0] == ' ') && t.drop_first() == x && x.len() > 0
                && (x[0] == '\'' || x[0] == '-'))
        }),
    ensures
        word_fold(ts.take(i + 1)).text == word_fold(ts.take(i)).text + x,
        word_fold(ts.take(i + 1)).words == word_fold(ts.take(i)).words,
{
    let t = ts[i].text;
    let tok = ts[i];
    let pre = ts.take(i);
    let post = ts.take(i + 1);
    assert(post.drop_last() =~= pre);
    assert(post.last() == tok);
    if t == x && x.len() > 0 && x[0] != '▁' && x[0] != ' ' && !all_ws(x) {
        assert(strip_leading(t, '▁') == t);
        assert(strip_leading(t, ' ') == t);
    } else {
        assert(t.drop_first() == x);
        assert(x[0] != '▁' && x[0] != ' ');
        assert(strip_leading(x, '▁') == x);
        assert(strip_leading(x, ' ') == x);
        if t[0] == '▁' {
            assert(strip_leading(t, '▁') == strip_leading(x, '▁'));
        } else {
            assert(strip_leading(t, '▁') == t);
            assert(strip_leading(t, ' ') == strip_leading(x, ' '));
        }
        assert(!all_ws(t)) by {
            assert(t[1] == x[0]);
        }
    }
    assert(token_body(t) == x);
    assert(!starts_word(t, i));
    assert(word_fold(post) == word_step(word_fold(pre), tok, i));
}

} // verus!
