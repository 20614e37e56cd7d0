//! Encoding of a nested corpus (documents, sentences, words, characters) into
//! one flat sequence of `(code, tag)` pairs.
use crate::alphabet::{assign_spec, is_eligible, lemma_assign_wf, table_wf, AlphabetTable};
use vstd::prelude::*;

verus! {

/// A word: its characters and its tag.
pub type Word = (Vec<char>, u8);

/// A sentence: its words in order.
pub type Sentence = Vec<Word>;

/// A document: its sentences in order.
pub type Document = Vec<Sentence>;

/// A corpus: its documents in order.
pub type Corpus = Vec<Document>;

/// The model of a word.
pub type WordV = (Seq<char>, u8);

/// The model of a corpus.
pub type CorpusV = Seq<Seq<Seq<WordV>>>;

/// The model of an alphabet table, keyed by code point.
pub type TableV = Map<u32, u8>;

/// A flat sequence of `(code, tag)` pairs.
pub type Pairs = Seq<(u8, u8)>;

/// One step of an encoding: from a table and an item to the new table and
/// the pairs emitted, or `None` when the alphabet runs out of codes.
pub type Step<A> = spec_fn(TableV, A) -> Option<(TableV, Pairs)>;

/// The codes of `cs`, encoded one after another from table `t`.
pub open spec fn encode_chars(t: TableV, cs: Seq<char>, extra: Seq<char>) -> Option<
    (TableV, Seq<u8>),
>
    decreases cs.len(),
{
    if cs.len() == 0 {
        Some((t, Seq::empty()))
    } else {
        match encode_chars(t, cs.drop_last(), extra) {
            Some((t1, codes)) => match assign_spec(t1, cs.last(), extra) {
                Some((t2, code)) => Some((t2, codes.push(code))),
                None => None,
            },
            None => None,
        }
    }
}

/// The pairs of a word with codes `codes`: tag `0` on every character but the
/// last, which carries the word's tag.
pub open spec fn word_pairs(codes: Seq<u8>, tag: u8) -> Pairs {
    Seq::new(
        codes.len(),
        |i: int|
            (codes[i], if i == codes.len() - 1 {
                tag
            } else {
                0u8
            }),
    )
}

/// The encoding of one word.
pub open spec fn encode_word(t: TableV, w: WordV, extra: Seq<char>) -> Option<(TableV, Pairs)> {
    match encode_chars(t, w.0, extra) {
        Some((t2, codes)) => Some((t2, word_pairs(codes, w.1))),
        None => None,
    }
}

/// Items encoded one after another, the table handed on from each to the
/// next, their pairs concatenated in order.
pub open spec fn encode_seq<A>(t: TableV, s: Seq<A>, step: Step<A>) -> Option<(TableV, Pairs)>
    decreases s.len(),
{
    if s.len() == 0 {
        Some((t, Seq::empty()))
    } else {
        match encode_seq(t, s.drop_last(), step) {
            Some((t1, pairs_a)) => match step(t1, s.last()) {
                Some((t2, pairs_b)) => Some((t2, pairs_a + pairs_b)),
                None => None,
            },
            None => None,
        }
    }
}

/// The encoding of one word, as a step.
pub open spec fn word_step(extra: Seq<char>) -> Step<WordV> {
    |t: TableV, w: WordV| encode_word(t, w, extra)
}

/// The encoding of a sentence.
pub open spec fn encode_sentence(t: TableV, s: Seq<WordV>, extra: Seq<char>) -> Option<
    (TableV, Pairs),
> {
    encode_seq(t, s, word_step(extra))
}

/// The encoding of one sentence, as a step.
pub open spec fn sentence_step(extra: Seq<char>) -> Step<Seq<WordV>> {
    |t: TableV, s: Seq<WordV>| encode_sentence(t, s, extra)
}

/// The encoding of a document.
pub open spec fn encode_document(t: TableV, d: Seq<Seq<WordV>>, extra: Seq<char>) -> Option<
    (TableV, Pairs),
> {
    encode_seq(t, d, sentence_step(extra))
}

/// The encoding of one document, as a step.
pub open spec fn document_step(extra: Seq<char>) -> Step<Seq<Seq<WordV>>> {
    |t: TableV, d: Seq<Seq<WordV>>| encode_document(t, d, extra)
}

/// The encoding of a corpus.
pub open spec fn encode_corpus(t: TableV, c: CorpusV, extra: Seq<char>) -> Option<
    (TableV, Pairs),
> {
    encode_seq(t, c, document_step(extra))
}

/// The encoding of one corpus, as a step.
pub open spec fn corpus_step(extra: Seq<char>) -> Step<CorpusV> {
    |t: TableV, c: CorpusV| encode_corpus(t, c, extra)
}

/// The encoding of several corpora, one after another.
pub open spec fn encode_corpora(t: TableV, cs: Seq<CorpusV>, extra: Seq<char>) -> Option<
    (TableV, Pairs),
> {
    encode_seq(t, cs, corpus_step(extra))
}

/// Once the encoding of a prefix fails, so does that of the whole.
pub proof fn lemma_chars_fail_extends(t: TableV, cs: Seq<char>, extra: Seq<char>, i: int)
    requires
        0 <= i <= cs.len(),
        encode_chars(t, cs.take(i), extra).is_none(),
    ensures
        encode_chars(t, cs, extra).is_none(),
    decreases cs.len() - i,
{
    if i < cs.len() {
        assert(cs.take(i + 1).drop_last() =~= cs.take(i));
        lemma_chars_fail_extends(t, cs, extra, i + 1);
    } else {
        assert(cs.take(i) =~= cs);
    }
}

/// Once the encoding of a prefix fails, so does that of the whole.
pub proof fn lemma_seq_fail_extends<A>(t: TableV, s: Seq<A>, step: Step<A>, i: int)
    requires
        0 <= i <= s.len(),
        encode_seq(t, s.take(i), step).is_none(),
    ensures
        encode_seq(t, s, step).is_none(),
    decreases s.len() - i,
{
    if i < s.len() {
        assert(s.take(i + 1).drop_last() =~= s.take(i));
        lemma_seq_fail_extends(t, s, step, i + 1);
    } else {
        assert(s.take(i) =~= s);
    }
}

/// Encodes one word onto the end of `out`. Returns `false` when the alphabet
/// runs out of codes.
pub fn vectorize_word(
    chars: &Vec<char>,
    tag: u8,
    extra: &[char],
    table: &mut AlphabetTable,
    out: &mut Vec<(u8, u8)>,
) -> (r: bool)
    ensures
        match encode_word(old(table)@, (chars@, tag), extra@) {
            Some((t2, p)) => r && final(table)@ == t2 && final(out)@ == old(out)@ + p,
            None => !r,
        },
{
    let mut codes: Vec<u8> = Vec::new();
    let mut i: usize = 0;
    while i < chars.len()
        invariant
            i <= chars@.len(),
            encode_chars(old(table)@, chars@.take(i as int), extra@) == Some((table@, codes@)),
            out@ == old(out)@,
        decreases chars@.len() - i,
    {
        assert(chars@.take(i + 1).drop_last() =~= chars@.take(i as int));
        match table.assign(chars[i], extra) {
            Some(code) => {
                codes.push(code);
            },
            None => {
                proof {
                    assert(chars@.take(i + 1).last() == chars@[i as int]);
                    assert(encode_chars(old(table)@, chars@.take(i + 1), extra@).is_none());
                    lemma_chars_fail_extends(old(table)@, chars@, extra@, i + 1);
                }
                return false;
            },
        }
        i += 1;
    }
    assert(chars@.take(i as int) =~= chars@);
    let n = codes.len();
    let ghost start = out@.len();
    let mut j: usize = 0;
    while j < n
        invariant
            j <= n == codes@.len(),
            start == old(out)@.len(),
            out@.len() == start + j,
            out@.take(start as int) == old(out)@,
            forall|k: int| 0 <= k < j ==> out@[start + k] == word_pairs(codes@, tag)[k],
        decreases n - j,
    {
        let t = if j == n - 1 {
            tag
        } else {
            0u8
        };
        out.push((codes[j], t));
        proof {
            assert(out@.take(start as int) =~= old(out)@);
        }
        j += 1;
    }
    assert(out@ =~= old(out)@ + word_pairs(codes@, tag));
    true
}

/// Encodes one sentence onto the end of `out`. Returns `false` when the
/// alphabet runs out of codes.
pub fn vectorize_sentence(
    s: &Sentence,
    extra: &[char],
    table: &mut AlphabetTable,
    out: &mut Vec<(u8, u8)>,
) -> (r: bool)
    ensures
        match encode_sentence(old(table)@, s.deep_view(), extra@) {
            Some((t2, p)) => r && final(table)@ == t2 && final(out)@ == old(out)@ + p,
            None => !r,
        },
{
    let ghost sv = s.deep_view();
    let ghost mut acc: Pairs = Seq::empty();
    let mut i: usize = 0;
    while i < s.len()
        invariant
            i <= s@.len(),
            sv == s.deep_view(),
            encode_seq(old(table)@, sv.take(i as int), word_step(extra@)) == Some((table@, acc)),
            out@ == old(out)@ + acc,
        decreases s@.len() - i,
    {
        assert(sv.take(i + 1).drop_last() =~= sv.take(i as int));
        assert(sv.take(i + 1).last() == sv[i as int]);
        let ghost tb = table@;
        let ghost ob = out@;
        let item = &s[i];
        assert(item.0.deep_view() =~= item.0@);
        if !vectorize_word(&item.0, item.1, extra, table, out) {
            proof {
                lemma_seq_fail_extends(old(table)@, sv, word_step(extra@), i + 1);
            }
            return false;
        }
        proof {
            let p = encode_word(tb, sv[i as int], extra@).unwrap().1;
            assert(ob + p =~= old(out)@ + (acc + p));
            acc = acc + p;
        }
        i += 1;
    }
    assert(sv.take(i as int) =~= sv);
    true
}

/// Encodes one document onto the end of `out`. Returns `false` when the
/// alphabet runs out of codes.
pub fn vectorize_document(
    s: &Document,
    extra: &[char],
    table: &mut AlphabetTable,
    out: &mut Vec<(u8, u8)>,
) -> (r: bool)
    ensures
        match encode_document(old(table)@, s.deep_view(), extra@) {
            Some((t2, p)) => r && final(table)@ == t2 && final(out)@ == old(out)@ + p,
            None => !r,
        },
{
    let ghost sv = s.deep_view();
    let ghost mut acc: Pairs = Seq::empty();
    let mut i: usize = 0;
    while i < s.len()
        invariant
            i <= s@.len(),
            sv == s.deep_view(),
            encode_seq(old(table)@, sv.take(i as int), sentence_step(extra@)) == Some((table@, acc)),
            out@ == old(out)@ + acc,
        decreases s@.len() - i,
    {
        assert(sv.take(i + 1).drop_last() =~= sv.take(i as int));
        assert(sv.take(i + 1).last() == sv[i as int]);
        let ghost tb = table@;
        let ghost ob = out@;
        let item = &s[i];
        if !vectorize_sentence(item, extra, table, out) {
            proof {
                lemma_seq_fail_extends(old(table)@, sv, sentence_step(extra@), i + 1);
            }
            return false;
        }
        proof {
            let p = encode_sentence(tb, sv[i as int], extra@).unwrap().1;
            assert(ob + p =~= old(out)@ + (acc + p));
            acc = acc + p;
        }
        i += 1;
    }
    assert(sv.take(i as int) =~= sv);
    true
}

/// Encodes one corpus onto the end of `out`. Returns `false` when the
/// alphabet runs out of codes.
pub fn vectorize_corpus(
    s: &Corpus,
    extra: &[char],
    table: &mut AlphabetTable,
    out: &mut Vec<(u8, u8)>,
) -> (r: bool)
    ensures
        match encode_corpus(old(table)@, s.deep_view(), extra@) {
            Some((t2, p)) => r && final(table)@ == t2 && final(out)@ == old(out)@ + p,
            None => !r,
        },
{
    let ghost sv = s.deep_view();
    let ghost mut acc: Pairs = Seq::empty();
    let mut i: usize = 0;
    while i < s.len()
        invariant
            i <= s@.len(),
            sv == s.deep_view(),
            encode_seq(old(table)@, sv.take(i as int), document_step(extra@)) == Some((table@, acc)),
            out@ == old(out)@ + acc,
        decreases s@.len() - i,
    {
        assert(sv.take(i + 1).drop_last() =~= sv.take(i as int));
        assert(sv.take(i + 1).last() == sv[i as int]);
        let ghost tb = table@;
        let ghost ob = out@;
        let item = &s[i];
        if !vectorize_document(item, extra, table, out) {
            proof {
                lemma_seq_fail_extends(old(table)@, sv, document_step(extra@), i + 1);
            }
            return false;
        }
        proof {
            let p = encode_document(tb, sv[i as int], extra@).unwrap().1;
            assert(ob + p =~= old(out)@ + (acc + p));
            acc = acc + p;
        }
        i += 1;
    }
    assert(sv.take(i as int) =~= sv);
    true
}

/// Why a run of the encoder failed.
#[derive(Debug, Clone, Copy, PartialEq, Eq, Structural)]
pub enum VectorizeError {
    /// The corpus file at this position is not a well-formed corpus.
    Malformed { file: usize },
    /// More distinct eligible characters were met than there are codes.
    AlphabetFull,
}

/// Encodes several corpora, one after another, from `table`.
pub fn vectorize_corpora(cs: &Vec<Corpus>, extra: &[char], table: &mut AlphabetTable) -> (r:
    Result<Vec<(u8, u8)>, VectorizeError>)
    ensures
        match encode_corpora(old(table)@, cs.deep_view(), extra@) {
            Some((t2, p)) => r matches Ok(v) && v@ == p && final(table)@ == t2,
            None => r == Err::<Vec<(u8, u8)>, VectorizeError>(VectorizeError::AlphabetFull),
        },
{
    let ghost sv = cs.deep_view();
    let mut out: Vec<(u8, u8)> = Vec::new();
    let mut i: usize = 0;
    while i < cs.len()
        invariant
            i <= cs@.len(),
            sv == cs.deep_view(),
            encode_seq(old(table)@, sv.take(i as int), corpus_step(extra@)) == Some(
                (table@, out@),
            ),
        decreases cs@.len() - i,
    {
        assert(sv.take(i + 1).drop_last() =~= sv.take(i as int));
        assert(sv.take(i + 1).last() == sv[i as int]);
        if !vectorize_corpus(&cs[i], extra, table, &mut out) {
            proof {
                lemma_seq_fail_extends(old(table)@, sv, corpus_step(extra@), i + 1);
            }
            return Err(VectorizeError::AlphabetFull);
        }
        i += 1;
    }
    assert(sv.take(i as int) =~= sv);
    Ok(out)
}

/// serde_json's error type, carried through unopened.
#[verifier::external_type_specification]
#[verifier::external_body]
pub struct ExJsonError(serde_json::Error);

/// The corpus that a JSON text denotes (an array of documents, each an array
/// of sentences, each an array of `[characters, tag]` words), if it denotes
/// one.
pub uninterp spec fn corpus_of_json(b: Seq<u8>) -> Option<CorpusV>;

/// Relies on serde_json::from_slice: it decodes the JSON text `b` into a
/// corpus, and its outcome depends on the bytes alone.
#[verifier::external_body]
fn parse_corpus(b: &[u8]) -> (r: Result<Corpus, serde_json::Error>)
    ensures
        match r {
            Ok(c) => corpus_of_json(b@) == Some(c.deep_view()),
            Err(_) => corpus_of_json(b@).is_none(),
        },
{
    serde_json::from_slice::<Corpus>(b)
}

/// Each file's bytes decoded, where every file decodes.
pub open spec fn decoded_all(files: Seq<Vec<u8>>) -> Seq<CorpusV> {
    files.map_values(|f: Vec<u8>| corpus_of_json(f@).unwrap())
}

/// Whether every file decodes to a corpus.
pub open spec fn all_decode(files: Seq<Vec<u8>>) -> bool {
    forall|j: int| 0 <= j < files.len() ==> (#[trigger] corpus_of_json(files[j]@)).is_some()
}

/// Decodes every corpus file (JSON text) and encodes the corpora in the
/// order given, from `table`. The first file that does not decode is
/// reported, before any encoding and with `table` untouched.
pub fn vectorize(extra: &[char], files: &Vec<Vec<u8>>, table: &mut AlphabetTable) -> (r: Result<
    Vec<(u8, u8)>,
    VectorizeError,
>)
    ensures
        !all_decode(files@) ==> exists|f: int|
            0 <= f < files@.len() && corpus_of_json(files@[f]@).is_none() && all_decode(
                files@.take(f),
            ) && r == Err::<Vec<(u8, u8)>, VectorizeError>(
                VectorizeError::Malformed { file: f as usize },
            ) && final(table)@ == old(table)@,
        all_decode(files@) ==> match encode_corpora(old(table)@, decoded_all(files@), extra@) {
            Some((t2, p)) => r matches Ok(v) && v@ == p && final(table)@ == t2,
            None => r == Err::<Vec<(u8, u8)>, VectorizeError>(VectorizeError::AlphabetFull),
        },
{
    let mut cs: Vec<Corpus> = Vec::new();
    let mut i: usize = 0;
    while i < files.len()
        invariant
            i <= files@.len(),
            cs@.len() == i,
            all_decode(files@.take(i as int)),
            forall|j: int| 0 <= j < i ==> corpus_of_json(files@[j]@) == Some(#[trigger] cs@[j].deep_view()),
        decreases files@.len() - i,
    {
        match parse_corpus(files[i].as_slice()) {
            Ok(c) => {
                cs.push(c);
            },
            Err(_) => {
                assert(all_decode(files@.take(i as int)));
                return Err(VectorizeError::Malformed { file: i });
            },
        }
        i += 1;
        assert(all_decode(files@.take(i as int)));
    }
    assert(files@.take(i as int) =~= files@);
    assert(cs.deep_view() =~= decoded_all(files@));
    vectorize_corpora(&cs, extra, table)
}

/// `t2` keeps every code of `t`, and is well formed where `t` is.
pub open spec fn grows(t: TableV, t2: TableV) -> bool {
    &&& table_wf(t) ==> table_wf(t2)
    &&& forall|k: u32| #[trigger] t.contains_key(k) ==> t2.contains_key(k) && t2[k] == t[k]
}

/// Each step grows the table.
pub open spec fn step_grows<A>(step: Step<A>) -> bool {
    forall|t: TableV, a: A| (#[trigger] step(t, a)) matches Some((t2, _)) ==> grows(t, t2)
}

/// Encoding characters grows the table, and every code emitted for an
/// eligible character is the code that the resulting table gives it (a
/// positive one where the table was well formed).
pub proof fn lemma_chars_codes(t: TableV, cs: Seq<char>, extra: Seq<char>)
    ensures
        encode_chars(t, cs, extra) matches Some((t2, codes)) ==> {
            &&& grows(t, t2)
            &&& codes.len() == cs.len()
            &&& forall|i: int|
                0 <= i < cs.len() && is_eligible(#[trigger] cs[i], extra) ==> t2.contains_key(
                    cs[i] as u32,
                ) && t2[cs[i] as u32] == codes[i] && (table_wf(t) ==> codes[i] >= 1)
        },
    decreases cs.len(),
{
    if cs.len() > 0 {
        let p = cs.drop_last();
        lemma_chars_codes(t, p, extra);
        if let Some((t1, codes1)) = encode_chars(t, p, extra) {
            lemma_assign_wf(t1, cs.last(), extra);
            if let Some((t2, code)) = assign_spec(t1, cs.last(), extra) {
                let codes = codes1.push(code);
                assert forall|i: int|
                    0 <= i < cs.len() && is_eligible(#[trigger] cs[i], extra) implies t2.contains_key(
                    cs[i] as u32,
                ) && t2[cs[i] as u32] == codes[i] && (table_wf(t) ==> codes[i] >= 1) by {
                    if i < cs.len() - 1 {
                        assert(cs[i] == p[i]);
                        assert(codes[i] == codes1[i]);
                        assert(t1.contains_key(cs[i] as u32));
                    }
                }
            }
        }
    }
}

/// A character that is neither Thai nor in `extra` is encoded as `0` at every
/// occurrence, whatever the table held before.
pub proof fn lemma_ineligible_is_zero(t: TableV, cs: Seq<char>, extra: Seq<char>)
    ensures
        encode_chars(t, cs, extra) matches Some((t2, codes)) ==> codes.len() == cs.len() && forall|
            i: int,
        | 0 <= i < cs.len() && !is_eligible(#[trigger] cs[i], extra) ==> codes[i] == 0,
    decreases cs.len(),
{
    if cs.len() > 0 {
        let p = cs.drop_last();
        lemma_ineligible_is_zero(t, p, extra);
        if let Some((t1, codes1)) = encode_chars(t, p, extra) {
            lemma_assign_wf(t1, cs.last(), extra);
            if let Some((t2, code)) = assign_spec(t1, cs.last(), extra) {
                let codes = codes1.push(code);
                assert forall|i: int|
                    0 <= i < cs.len() && !is_eligible(#[trigger] cs[i], extra) implies codes[i]
                    == 0 by {
                    if i < cs.len() - 1 {
                        assert(cs[i] == p[i]);
                    }
                }
            }
        }
    }
}

/// A word's pairs carry tag `0` at every position but the last, which
/// carries the word's tag; there is one pair per character.
pub proof fn lemma_word_tags(t: TableV, w: WordV, extra: Seq<char>)
    ensures
        encode_word(t, w, extra) matches Some((t2, p)) ==> {
            &&& p.len() == w.0.len()
            &&& forall|i: int| 0 <= i < w.0.len() - 1 ==> (#[trigger] p[i]).1 == 0
            &&& w.0.len() >= 1 ==> p[w.0.len() - 1].1 == w.1
        },
{
    lemma_chars_codes(t, w.0, extra);
}

/// Encoding a sequence grows the table when each step does.
pub proof fn lemma_seq_grows<A>(t: TableV, s: Seq<A>, step: Step<A>)
    requires
        step_grows(step),
    ensures
        encode_seq(t, s, step) matches Some((t2, _)) ==> grows(t, t2),
    decreases s.len(),
{
    if s.len() > 0 {
        lemma_seq_grows(t, s.drop_last(), step);
    }
}

/// Every level of the encoding grows the table.
pub proof fn lemma_steps_grow(extra: Seq<char>)
    ensures
        step_grows(word_step(extra)),
        step_grows(sentence_step(extra)),
        step_grows(document_step(extra)),
        step_grows(corpus_step(extra)),
{
    assert forall|t: TableV, w: WordV| (#[trigger] word_step(extra)(t, w)) is Some implies grows(
        t,
        word_step(extra)(t, w).unwrap().0,
    ) by {
        lemma_chars_codes(t, w.0, extra);
    }
    assert forall|t: TableV, a: Seq<WordV>| (#[trigger] sentence_step(extra)(t, a)) is Some implies grows(
        t,
        sentence_step(extra)(t, a).unwrap().0,
    ) by {
        lemma_seq_grows(t, a, word_step(extra));
    }
    assert forall|t: TableV, a: Seq<Seq<WordV>>| (#[trigger] document_step(extra)(t, a)) is Some implies grows(
        t,
        document_step(extra)(t, a).unwrap().0,
    ) by {
        lemma_seq_grows(t, a, sentence_step(extra));
    }
    assert forall|t: TableV, a: CorpusV| (#[trigger] corpus_step(extra)(t, a)) is Some implies grows(
        t,
        corpus_step(extra)(t, a).unwrap().0,
    ) by {
        lemma_seq_grows(t, a, document_step(extra));
    }
}

/// A run over several corpora leaves a well-formed table well formed (each
/// character has one code, and the codes are distinct positive integers),
/// and changes no code that was already given.
pub proof fn lemma_run_keeps_table(t: TableV, cs: Seq<CorpusV>, extra: Seq<char>)
    requires
        table_wf(t),
    ensures
        encode_corpora(t, cs, extra) matches Some((t2, _)) ==> {
            &&& table_wf(t2)
            &&& forall|k: u32| #[trigger] t.contains_key(k) ==> t2.contains_key(k) && t2[k] == t[k]
        },
{
    lemma_steps_grow(extra);
    lemma_seq_grows(t, cs, corpus_step(extra));
}

/// Encoding `b` after the outcome `r` of encoding what came before.
pub open spec fn then_encode<A>(r: Option<(TableV, Pairs)>, b: Seq<A>, step: Step<A>) -> Option<
    (TableV, Pairs),
> {
    match r {
        Some((t1, pairs_a)) => match encode_seq(t1, b, step) {
            Some((t2, pairs_b)) => Some((t2, pairs_a + pairs_b)),
            None => None,
        },
        None => None,
    }
}

/// Encoding `a + b` is encoding `a`, then `b` from the table that `a` left,
/// with the pairs concatenated.
pub proof fn lemma_seq_split<A>(t: TableV, a: Seq<A>, b: Seq<A>, step: Step<A>)
    ensures
        encode_seq(t, a + b, step) == then_encode(encode_seq(t, a, step), b, step),
    decreases b.len(),
{
    if b.len() == 0 {
        assert(a + b =~= a);
        if let Some((t1, pairs_a)) = encode_seq(t, a, step) {
            assert(pairs_a + Seq::<(u8, u8)>::empty() =~= pairs_a);
        }
    } else {
        assert((a + b).drop_last() =~= a + b.drop_last());
        assert((a + b).last() == b.last());
        lemma_seq_split(t, a, b.drop_last(), step);
        if let Some((t1, pairs_a)) = encode_seq(t, a, step) {
            if let Some((t2, pairs_b)) = encode_seq(t1, b.drop_last(), step) {
                if let Some((t3, pairs_c)) = step(t2, b.last()) {
                    assert(pairs_a + pairs_b + pairs_c =~= pairs_a + (pairs_b + pairs_c));
                }
            }
        }
    }
}

/// The encoding of a group of corpora, as a step.
pub open spec fn corpora_step(extra: Seq<char>) -> Step<Seq<CorpusV>> {
    |t: TableV, cs: Seq<CorpusV>| encode_corpora(t, cs, extra)
}

/// Splitting the corpora into consecutive groups, encoding group after
/// group with the table handed on, and concatenating the groups' pairs in
/// the groups' order gives the same pairs and table as encoding all corpora
/// in one pass.
pub proof fn lemma_grouped_run(t: TableV, groups: Seq<Seq<CorpusV>>, extra: Seq<char>)
    ensures
        encode_corpora(t, groups.flatten(), extra) == encode_seq(t, groups, corpora_step(extra)),
    decreases groups.len(),
{
    if groups.len() == 0 {
        assert(groups.flatten() =~= Seq::<CorpusV>::empty());
    } else {
        let init = groups.drop_last();
        lemma_grouped_run(t, init, extra);
        assert(groups =~= init.push(groups.last()));
        init.lemma_flatten_push(groups.last());
        lemma_seq_split(t, init.flatten(), groups.last(), corpus_step(extra));
    }
}

/// Whether a character occurs in an item.
pub type Occurs<A> = spec_fn(A, char) -> bool;

/// Occurrence in a word: among its characters.
pub open spec fn in_word() -> Occurs<WordV> {
    |w: WordV, c: char| w.0.contains(c)
}

/// Occurrence in a sequence: in one of its items.
pub open spec fn in_any<A>(occurs: Occurs<A>) -> Occurs<Seq<A>> {
    |s: Seq<A>, c: char| exists|i: int| 0 <= i < s.len() && #[trigger] occurs(s[i], c)
}

/// Whether `c` occurs in a word of one of the corpora.
pub open spec fn occurs_in_corpora(cs: Seq<CorpusV>, c: char) -> bool {
    in_any(in_any(in_any(in_any(in_word()))))(cs, c)
}

/// After each step, every eligible character of the item has a code.
pub open spec fn step_covers<A>(step: Step<A>, extra: Seq<char>, occurs: Occurs<A>) -> bool {
    forall|t: TableV, a: A, c: char|
        (#[trigger] step(t, a)) is Some && #[trigger] occurs(a, c) && is_eligible(c, extra)
            ==> step(t, a).unwrap().0.contains_key(c as u32)
}

/// Encoding a sequence gives a code to every eligible character of its
/// items, when each step does so for its item and keeps earlier codes.
pub proof fn lemma_seq_covers<A>(
    t: TableV,
    s: Seq<A>,
    step: Step<A>,
    extra: Seq<char>,
    occurs: Occurs<A>,
    c: char,
)
    requires
        step_grows(step),
        step_covers(step, extra, occurs),
    ensures
        encode_seq(t, s, step) is Some && in_any(occurs)(s, c) && is_eligible(c, extra)
            ==> encode_seq(t, s, step).unwrap().0.contains_key(c as u32),
    decreases s.len(),
{
    if s.len() > 0 && in_any(occurs)(s, c) {
        let p = s.drop_last();
        if let Some((t1, pairs_a)) = encode_seq(t, p, step) {
            if let Some((t2, pairs_b)) = step(t1, s.last()) {
                assert(grows(t1, t2));
                let i = choose|i: int| 0 <= i < s.len() && #[trigger] occurs(s[i], c);
                if i < s.len() - 1 {
                    assert(p[i] == s[i]);
                    assert(in_any(occurs)(p, c));
                    lemma_seq_covers(t, p, step, extra, occurs, c);
                } else {
                    assert(occurs(s.last(), c));
                }
            }
        }
    }
}

/// Every level of the encoding gives a code to each eligible character of
/// what it encodes.
pub proof fn lemma_steps_cover(extra: Seq<char>)
    ensures
        step_covers(word_step(extra), extra, in_word()),
        step_covers(sentence_step(extra), extra, in_any(in_word())),
        step_covers(document_step(extra), extra, in_any(in_any(in_word()))),
        step_covers(corpus_step(extra), extra, in_any(in_any(in_any(in_word())))),
{
    lemma_steps_grow(extra);
    assert forall|t: TableV, w: WordV, c: char|
        (#[trigger] word_step(extra)(t, w)) is Some && #[trigger] in_word()(w, c) && is_eligible(
            c,
            extra,
        ) implies word_step(extra)(t, w).unwrap().0.contains_key(c as u32) by {
        lemma_chars_codes(t, w.0, extra);
        let i = choose|i: int| 0 <= i < w.0.len() && w.0[i] == c;
        assert(is_eligible(w.0[i], extra));
    }
    assert forall|t: TableV, a: Seq<WordV>, c: char|
        (#[trigger] sentence_step(extra)(t, a)) is Some && #[trigger] in_any(in_word())(a, c)
            && is_eligible(c, extra) implies sentence_step(extra)(t, a).unwrap().0.contains_key(
        c as u32,
    ) by {
        lemma_seq_covers(t, a, word_step(extra), extra, in_word(), c);
        assert(sentence_step(extra)(t, a) == encode_seq(t, a, word_step(extra)));
        assert(encode_seq(t, a, word_step(extra)).unwrap().0.contains_key(c as u32));
    }
    assert forall|t: TableV, a: Seq<Seq<WordV>>, c: char|
        (#[trigger] document_step(extra)(t, a)) is Some && #[trigger] in_any(in_any(in_word()))(
            a,
            c,
        ) && is_eligible(c, extra) implies document_step(extra)(t, a).unwrap().0.contains_key(
        c as u32,
    ) by {
        lemma_seq_covers(t, a, sentence_step(extra), extra, in_any(in_word()), c);
        assert(document_step(extra)(t, a) == encode_seq(t, a, sentence_step(extra)));
        assert(encode_seq(t, a, sentence_step(extra)).unwrap().0.contains_key(c as u32));
    }
    assert forall|t: TableV, a: CorpusV, c: char|
        (#[trigger] corpus_step(extra)(t, a)) is Some && #[trigger] in_any(in_any(in_any(in_word())))(
            a,
            c,
        ) && is_eligible(c, extra) implies corpus_step(extra)(t, a).unwrap().0.contains_key(
        c as u32,
    ) by {
        lemma_seq_covers(t, a, document_step(extra), extra, in_any(in_any(in_word())), c);
    }
}

/// After a run over several corpora, every eligible character that occurs
/// in them has a code in the final table.
pub proof fn lemma_run_codes_every_char(t: TableV, cs: Seq<CorpusV>, extra: Seq<char>, c: char)
    ensures
        encode_corpora(t, cs, extra) matches Some((t2, _)) ==> (occurs_in_corpora(cs, c)
            && is_eligible(c, extra) ==> t2.contains_key(c as u32)),
{
    lemma_steps_grow(extra);
    lemma_steps_cover(extra);
    lemma_seq_covers(t, cs, corpus_step(extra), extra, in_any(in_any(in_any(in_word()))), c);
}

} // verus!
