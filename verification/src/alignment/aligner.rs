//! The steps of the aligner around the acoustic model.

use vstd::prelude::*;

use crate::alignment::forced_align::{
    best_positions, counted_words, covers, covers_targets, interleaved, known_ids,
    path_to_word_timestamps, rows, spoken_as_provided, text_to_ctc_targets, timed_words,
    token_id, tokens_at, viterbi_forced_align, AlignError, LogProb, WordTimestamp,
};
use crate::alignment::text::{
    ascii_lowercase, is_ascii_letter, is_white_space, is_whitespace, join, joined,
    lowercased_str, replace_char, replaced, split_whitespace, str_to_lowercase,
    to_ascii_lowercase, views, words_of,
};

verus! {

/// The repository that holds the alignment model.
pub const ALIGNMENT_REPO: &'static str = "KnockOutEZ/pocket-tts-alignment";

/// The file that holds the model.
pub const ONNX_FILENAME: &'static str = "wav2vec2-large-int8.onnx";

/// The file that holds the vocabulary of the model.
pub const VOCAB_FILENAME: &'static str = "vocab.json";

/// Sample rate of the synthesised speech.
pub const TTS_SAMPLE_RATE: u32 = 24000;

/// Sample rate that the alignment model expects.
pub const WHISPER_SAMPLE_RATE: u32 = 16000;

/// How long a frame of the alignment model lasts, in milliseconds.
pub const FRAME_MILLIS: u64 = 20;

/// The address of a file in a repository of the model hub.
pub fn hub_url(repo: &str, filename: &str) -> (r: String)
    ensures
        r@ == "hf://"@ + repo@ + "/"@ + filename@,
{
    let mut r: String = "hf://".to_owned();
    r.append(repo);
    r.append("/");
    r.append(filename);
    r
}

/// The name of the directory in which the model hub's cache keeps a repository.
pub fn cache_dir_name(repo: &str) -> (r: String)
    ensures
        r@ == "models--"@ + replaced(repo@, '/', "--"@),
{
    let mut r: String = "models--".to_owned();
    let dashed: String = replace_char(repo, '/', "--");
    r.append(dashed.as_str());
    r
}

/// Whether the files of a cached repository are those that the aligner needs.
pub fn holds_model(files: &Vec<String>) -> (r: bool)
    ensures
        r == (views(files@).contains(ONNX_FILENAME@) && views(files@).contains(VOCAB_FILENAME@)),
{
    let model: String = ONNX_FILENAME.to_owned();
    let vocab: String = VOCAB_FILENAME.to_owned();
    holds_file(files, &model) && holds_file(files, &vocab)
}

/// Whether a file is among the files.
fn holds_file(files: &Vec<String>, name: &String) -> (r: bool)
    ensures
        r == views(files@).contains(name@),
{
    let n: usize = files.len();
    for i in 0..n
        invariant
            n == files@.len(),
            forall|k: int| 0 <= k < i ==> #[trigger] views(files@)[k] != name@,
    {
        if files[i] == *name {
            assert(views(files@)[i as int] == name@);
            return true;
        }
    }
    false
}

/// How audio becomes mono with a leading channel dimension.
#[derive(Debug, Clone, Copy, PartialEq, Eq, Structural)]
pub enum MonoStep {
    /// It is a single channel: add the channel dimension.
    AddChannel,
    /// It has one channel already.
    Keep,
    /// It has several channels: take their mean and add the channel dimension.
    MeanOverChannels,
}

/// How audio of the shape `dims` becomes mono, or `None` if it has no such shape as audio has.
pub fn mono_step(dims: &[usize]) -> (r: Option<MonoStep>)
    ensures
        r == (if dims@.len() == 1 {
            Some(MonoStep::AddChannel)
        } else if dims@.len() == 2 && dims@[0] == 1 {
            Some(MonoStep::Keep)
        } else if dims@.len() == 2 {
            Some(MonoStep::MeanOverChannels)
        } else {
            None
        }),
{
    if dims.len() == 1 {
        Some(MonoStep::AddChannel)
    } else if dims.len() == 2 {
        if dims[0] == 1 {
            Some(MonoStep::Keep)
        } else {
            Some(MonoStep::MeanOverChannels)
        }
    } else {
        None
    }
}

/// Cuts `data` into `frames` rows of `width` values.
pub fn split_frames<T: Copy>(data: &[T], frames: usize, width: usize) -> (r: Vec<Vec<T>>)
    requires
        frames * width <= data@.len(),
    ensures
        r@.len() == frames,
        forall|t: int|
            0 <= t < frames ==> (#[trigger] r@[t])@ == data@.subrange(
                t * width,
                (t + 1) * width,
            ),
{
    let len: usize = data.len();
    let mut r: Vec<Vec<T>> = Vec::new();
    let mut offset: usize = 0;
    assert(0 * width == 0) by (nonlinear_arith);
    for t in 0..frames
        invariant
            frames * width <= data@.len() == len,
            offset == t * width,
            r@.len() == t,
            forall|i: int|
                0 <= i < t ==> (#[trigger] r@[i])@ == data@.subrange(i * width, (i + 1) * width),
    {
        assert((t + 1) * width == t * width + width && (t + 1) * width <= frames * width)
            by (nonlinear_arith)
            requires
                0 <= t < frames,
                0 <= width,
        ;
        let mut row: Vec<T> = Vec::new();
        for v in 0..width
            invariant
                offset + width <= data@.len() == len,
                row@ == data@.subrange(offset as int, offset + v),
        {
            row.push(data[offset + v]);
        }
        r.push(row);
        offset = offset + width;
    }
    r
}

/// What becomes of one character of a text that is to be aligned: letters are lowercased,
/// apostrophes kept, white space and hyphens turned into spaces, and the rest dropped.
pub open spec fn alignable(c: char) -> Option<char> {
    if is_ascii_letter(c) {
        Some(ascii_lowercase(c))
    } else if c == '\'' {
        Some('\'')
    } else if is_white_space(c) || c == '-' {
        Some(' ')
    } else {
        None
    }
}

/// The alignable characters of `text`, in order.
pub open spec fn alignable_chars(text: Seq<char>) -> Seq<char>
    decreases text.len(),
{
    if text.len() == 0 {
        Seq::empty()
    } else {
        let before = alignable_chars(text.drop_last());
        match alignable(text.last()) {
            Some(c) => before.push(c),
            None => before,
        }
    }
}

/// The words of `text` that can be aligned.
pub open spec fn alignable_words(text: Seq<char>) -> Seq<Seq<char>> {
    words_of(alignable_chars(text))
}

/// `text` in the form in which it is aligned: its alignable words with one space between
/// every two of them.
pub open spec fn normalized(text: Seq<char>) -> Seq<char> {
    joined(alignable_words(text), seq![' '])
}

/// The words of `text` as they stand there, between white space, each with the number of its
/// alignable parts. A word is more than one part where it holds a hyphen, and none where it
/// holds no letter and no apostrophe.
pub open spec fn provided_words(text: Seq<char>) -> Seq<(Seq<char>, nat)> {
    Seq::new(
        words_of(text).len(),
        |k: int| (words_of(text)[k], alignable_words(words_of(text)[k]).len()),
    )
}

/// The alignable characters of `text`.
fn keep_alignable(text: &str) -> (r: String)
    ensures
        r@ == alignable_chars(text@),
{
    let mut filtered: String = String::new();
    let ghost mut done: Seq<char> = Seq::empty();
    for c in it: text.chars()
        invariant
            it.seq() == text@,
            done == text@.take(it.index() as int),
            filtered@ == alignable_chars(done),
    {
        proof {
            assert(text@.take(it.index() as int + 1).drop_last() == done);
            done = text@.take(it.index() as int + 1);
        }
        if ('a' <= c && c <= 'z') || ('A' <= c && c <= 'Z') {
            filtered.push(to_ascii_lowercase(c));
        } else if c == '\'' {
            filtered.push('\'');
        } else if is_whitespace(c) || c == '-' {
            filtered.push(' ');
        }
    }
    assert(text@.take(text@.len() as int) == text@);
    filtered
}

/// Normalize text for CTC alignment: lowercase, keep only a-z/space/apostrophe,
/// collapse whitespace.
pub fn normalize_for_alignment(text: &str) -> (r: String)
    ensures
        r@ == normalized(text@),
{
    let filtered: String = keep_alignable(text);
    let words: Vec<String> = split_whitespace(filtered.as_str());
    proof {
        reveal_strlit(" ");
        assert(" "@ == seq![' ']);
    }
    join(&words, " ")
}

/// Splits `text` into its words and counts the alignable parts of each.
pub fn count_parts(text: &str) -> (r: Vec<(String, usize)>)
    ensures
        counted_words(r@) == provided_words(text@),
        r@.len() == words_of(text@).len(),
        forall|k: int|
            0 <= k < r@.len() ==> (#[trigger] r@[k]).0@ == words_of(text@)[k] && r@[k].1
                == alignable_words(words_of(text@)[k]).len(),
{
    let words: Vec<String> = split_whitespace(text);
    let mut r: Vec<(String, usize)> = Vec::new();
    let n: usize = words.len();
    for k in 0..n
        invariant
            n == words@.len(),
            views(words@) == words_of(text@),
            counted_words(r@) == provided_words(text@).take(k as int),
            r@.len() == k,
            forall|i: int|
                0 <= i < k ==> (#[trigger] r@[i]).0@ == words_of(text@)[i] && r@[i].1
                    == alignable_words(words_of(text@)[i]).len(),
    {
        let ghost before = counted_words(r@);
        let filtered: String = keep_alignable(words[k].as_str());
        let parts: Vec<String> = split_whitespace(filtered.as_str());
        assert(parts@.len() == views(parts@).len());
        assert(words@[k as int]@ == views(words@)[k as int]);
        r.push((words[k].clone(), parts.len()));
        assert(counted_words(r@) == before.push((words@[k as int]@, parts@.len())));
    }
    assert(provided_words(text@).take(n as int) == provided_words(text@));
    r
}

/// The aligner: the vocabulary of the acoustic model and its blank token.
#[derive(Debug, Clone)]
pub struct NativeAligner {
    /// The token for every ID.
    pub vocab: Vec<String>,
    /// The ID of the CTC blank.
    pub blank_id: usize,
}

/// Why a vocabulary cannot be used.
#[derive(Debug)]
pub enum VocabError {
    /// It is not JSON.
    Json(serde_json::Error),
    /// It is not a JSON object.
    NotAnObject,
    /// The ID of the token is not an integer.
    NotAnInteger { token: String },
    /// An ID is beyond what this machine can index.
    IdTooLarge,
}

/// The members of a vocabulary file: the tokens, each with its ID if that is an integer.
pub open spec fn members(v: Seq<(String, Option<u64>)>) -> Seq<(Seq<char>, Option<u64>)> {
    Seq::new(v.len(), |i: int| (v[i].0@, v[i].1))
}

/// The greatest ID, or 0 if there is none.
pub open spec fn max_id(entries: Seq<(Seq<char>, Option<u64>)>) -> u64
    decreases entries.len(),
{
    if entries.len() == 0 {
        0
    } else {
        let before = max_id(entries.drop_last());
        match entries.last().1 {
            Some(id) => if id > before {
                id
            } else {
                before
            },
            None => before,
        }
    }
}

/// The first token whose ID is not an integer.
pub open spec fn first_without_id(entries: Seq<(Seq<char>, Option<u64>)>) -> Option<Seq<char>>
    decreases entries.len(),
{
    if entries.len() == 0 {
        None
    } else {
        match first_without_id(entries.drop_last()) {
            Some(token) => Some(token),
            None => if entries.last().1 is None {
                Some(entries.last().0)
            } else {
                None
            },
        }
    }
}

/// The form in which a token enters the vocabulary: the word boundary is a space, and the rest
/// is lowercased.
pub open spec fn vocab_form(token: Seq<char>) -> Seq<char> {
    if token == seq!['|'] {
        seq![' ']
    } else {
        lowercased_str(token)
    }
}

/// The token with the given ID, the last one if there are several, and nothing if there is
/// none.
pub open spec fn token_with_id(entries: Seq<(Seq<char>, Option<u64>)>, id: int) -> Seq<char>
    decreases entries.len(),
{
    if entries.len() == 0 {
        Seq::empty()
    } else if entries.last().1 == Some(id as u64) {
        vocab_form(entries.last().0)
    } else {
        token_with_id(entries.drop_last(), id)
    }
}

/// The ID of the last `<pad>` token, or 0 if there is none.
pub open spec fn pad_id(entries: Seq<(Seq<char>, Option<u64>)>) -> int
    decreases entries.len(),
{
    if entries.len() == 0 {
        0
    } else if entries.last().0 == "<pad>"@ && entries.last().1 is Some {
        entries.last().1->0 as int
    } else {
        pad_id(entries.drop_last())
    }
}

impl NativeAligner {
    /// The aligner has a token for its blank.
    pub open spec fn wf(&self) -> bool {
        self.blank_id < self.vocab@.len()
    }
}

/// Finds the greatest ID, or 0 if there is none.
fn greatest_id(entries: &Vec<(String, Option<u64>)>) -> (r: u64)
    ensures
        r == max_id(members(entries@)),
{
    let ghost all = members(entries@);
    let mut r: u64 = 0;
    let n: usize = entries.len();
    for i in 0..n
        invariant
            n == entries@.len(),
            all == members(entries@),
            r == max_id(all.take(i as int)),
    {
        assert(all.take(i + 1).drop_last() == all.take(i as int));
        if let Some(id) = entries[i].1 {
            if id > r {
                r = id;
            }
        }
    }
    assert(all.take(n as int) == all);
    r
}

/// Every ID is at most the greatest.
proof fn lemma_max_id(entries: Seq<(Seq<char>, Option<u64>)>, i: int)
    requires
        0 <= i < entries.len(),
        entries[i].1 is Some,
    ensures
        entries[i].1->0 <= max_id(entries),
    decreases entries.len(),
{
    if i < entries.len() - 1 {
        lemma_max_id(entries.drop_last(), i);
    }
}

/// A token without an ID is found.
proof fn lemma_first_without_id(entries: Seq<(Seq<char>, Option<u64>)>, n: int)
    requires
        0 <= n <= entries.len(),
        first_without_id(entries.take(n)) is Some,
    ensures
        first_without_id(entries) == first_without_id(entries.take(n)),
    decreases entries.len(),
{
    if n < entries.len() {
        assert(entries.drop_last().take(n) == entries.take(n));
        lemma_first_without_id(entries.drop_last(), n);
    } else {
        assert(entries.take(n) == entries);
    }
}

/// The form in which a token enters the vocabulary.
fn to_vocab_form(token: &String) -> (r: String)
    ensures
        r@ == vocab_form(token@),
{
    proof {
        reveal_strlit("|");
        reveal_strlit(" ");
        assert("|"@ == seq!['|']);
        assert(" "@ == seq![' ']);
    }
    let boundary: String = "|".to_owned();
    if *token == boundary {
        " ".to_owned()
    } else {
        str_to_lowercase(token.as_str())
    }
}

/// Inverts the members of a vocabulary file into the list of tokens by ID, and finds the blank.
pub fn build_vocab(entries: &Vec<(String, Option<u64>)>) -> (r: Result<NativeAligner, VocabError>)
    requires
        max_id(members(entries@)) < usize::MAX,
    ensures
        match r {
            Err(e) => e matches VocabError::NotAnInteger { token } && first_without_id(
                members(entries@),
            ) == Some(token@),
            Ok(aligner) => {
                &&& first_without_id(members(entries@)) is None
                &&& views(aligner.vocab@) == Seq::new(
                    (max_id(members(entries@)) + 1) as nat,
                    |id: int| token_with_id(members(entries@), id),
                )
                &&& aligner.blank_id == pad_id(members(entries@))
                &&& aligner.wf()
            },
        },
{
    let ghost all = members(entries@);
    let max: usize = greatest_id(entries) as usize;
    let mut vocab: Vec<String> = Vec::new();
    for id in 0..max + 1
        invariant
            max < usize::MAX,
            vocab@.len() == id,
            forall|i: int| 0 <= i < id ==> (#[trigger] vocab@[i])@ == Seq::<char>::empty(),
    {
        vocab.push(String::new());
    }
    let mut blank_id: usize = 0;
    let pad: String = "<pad>".to_owned();
    let n: usize = entries.len();
    assert(all.take(0) == Seq::<(Seq<char>, Option<u64>)>::empty());
    for i in 0..n
        invariant
            n == entries@.len(),
            all == members(entries@),
            pad@ == "<pad>"@,
            max == max_id(all) < usize::MAX,
            first_without_id(all.take(i as int)) is None,
            vocab@.len() == max + 1,
            forall|id: int|
                0 <= id <= max ==> (#[trigger] vocab@[id])@ == token_with_id(
                    all.take(i as int),
                    id,
                ),
            blank_id == pad_id(all.take(i as int)),
            blank_id <= max,
    {
        let ghost before = vocab@;
        assert(all.take(i + 1).drop_last() == all.take(i as int));
        assert(all.take(i + 1).last() == all[i as int]);
        let entry: &(String, Option<u64>) = &entries[i];
        match entry.1 {
            None => {
                proof {
                    lemma_first_without_id(all, i + 1);
                }
                return Err(VocabError::NotAnInteger { token: entry.0.clone() });
            },
            Some(id) => {
                proof {
                    lemma_max_id(all, i as int);
                }
                if entry.0 == pad {
                    blank_id = id as usize;
                }
                let form: String = to_vocab_form(&entry.0);
                vocab.set(id as usize, form);
            },
        }
        assert forall|id: int| 0 <= id <= max implies (#[trigger] vocab@[id])@ == token_with_id(
            all.take(i + 1),
            id,
        ) by {
            assert(before[id]@ == token_with_id(all.take(i as int), id));
        }
    }
    assert(all.take(n as int) == all);
    Ok(NativeAligner { vocab, blank_id })
}

/// The error of the JSON parser.
#[verifier::external_type_specification]
#[verifier::external_body]
pub struct ExJsonError(serde_json::Error);

/// What the JSON parser makes of `bytes`: `None` if it reports an error, `Some(None)` if the
/// value is no object, and else the members of the object in the order in which its map
/// yields them, each with the value if that is an integer from 0 to `u64::MAX`.
pub uninterp spec fn json_members(bytes: Seq<u8>) -> Option<
    Option<Seq<(Seq<char>, Option<u64>)>>,
>;

/// `serde_json::from_slice`, with the members of the value read out by `Value::as_u64`.
///
/// The result depends on the bytes alone. What it is for given bytes is not stated.
#[verifier::external_body]
fn parse_members(bytes: &[u8]) -> (r: Result<Option<Vec<(String, Option<u64>)>>, serde_json::Error>)
    ensures
        match r {
            Err(_) => json_members(bytes@) is None,
            Ok(None) => json_members(bytes@) == Some(None::<Seq<(Seq<char>, Option<u64>)>>),
            Ok(Some(v)) => json_members(bytes@) == Some(Some(members(v@))),
        },
{
    match serde_json::from_slice::<serde_json::Value>(bytes) {
        Ok(serde_json::Value::Object(map)) => {
            Ok(Some(map.iter().map(|(token, id)| (token.clone(), id.as_u64())).collect()))
        },
        Ok(_) => Ok(None),
        Err(e) => Err(e),
    }
}

impl NativeAligner {
    /// Makes an aligner from the contents of a vocabulary file.
    ///
    /// The file is a JSON object `{ "a": 1, "b": 2, ... }` that gives every token its ID.
    pub fn from_vocab_json(bytes: &[u8]) -> (r: Result<Self, VocabError>)
        ensures
            match json_members(bytes@) {
                None => r matches Err(VocabError::Json(_)),
                Some(None) => r matches Err(VocabError::NotAnObject),
                Some(Some(entries)) => if max_id(entries) >= usize::MAX {
                    r matches Err(VocabError::IdTooLarge)
                } else {
                    match first_without_id(entries) {
                        Some(bad) => r matches Err(VocabError::NotAnInteger { token }) && token@
                            == bad,
                        None => r matches Ok(aligner) && {
                            &&& views(aligner.vocab@) == Seq::new(
                                (max_id(entries) + 1) as nat,
                                |id: int| token_with_id(entries, id),
                            )
                            &&& aligner.blank_id == pad_id(entries)
                            &&& aligner.wf()
                        },
                    }
                },
            },
    {
        match parse_members(bytes) {
            Err(e) => Err(VocabError::Json(e)),
            Ok(None) => Err(VocabError::NotAnObject),
            Ok(Some(entries)) => {
                if greatest_id(&entries) >= usize::MAX as u64 {
                    Err(VocabError::IdTooLarge)
                } else {
                    build_vocab(&entries)
                }
            },
        }
    }

    /// The CTC targets of a text.
    pub open spec fn targets_of(&self, text: Seq<char>) -> Seq<usize> {
        interleaved(known_ids(normalized(text), views(self.vocab@)), self.blank_id)
    }

    /// The tokens of the best alignment of a text, one for every frame.
    pub open spec fn path_of(&self, emissions: Seq<Seq<LogProb>>, text: Seq<char>) -> Seq<usize> {
        tokens_at(self.targets_of(text), best_positions(emissions, self.targets_of(text)))
    }

    /// Whether the emissions hold every log-probability that the alignment of the text reads.
    /// It reads none for a text without words or for one that needs more frames.
    pub open spec fn is_covered(&self, emissions: Seq<Seq<LogProb>>, text: Seq<char>) -> bool {
        normalized(text).len() > 0 && emissions.len() >= self.targets_of(text).len() ==> covers(
            emissions,
            self.targets_of(text),
        )
    }

    /// Whether the emissions hold every log-probability that the alignment of the text reads.
    pub fn can_align(&self, emissions: &[Vec<LogProb>], text: &str) -> (r: bool)
        ensures
            r == self.is_covered(rows(emissions@), text@),
            r <==> normalized(text@).len() == 0 || emissions@.len() < self.targets_of(text@).len()
                || forall|t: int, s: int|
                0 <= t < emissions@.len() && 0 <= s < self.targets_of(text@).len() && (t > 0 || s
                    <= 1) ==> (#[trigger] self.targets_of(text@)[s]) < (
                #[trigger] emissions@[t])@.len(),
    {
        let normalized_text: String = normalize_for_alignment(text);
        let targets: Vec<usize> = text_to_ctc_targets(
            normalized_text.as_str(),
            self.vocab.as_slice(),
            self.blank_id,
        );
        normalized_text.as_str().is_empty() || emissions.len() < targets.len()
            || covers_targets(emissions, targets.as_slice())
    }

    /// Aligns a text to the emissions of the acoustic model to produce word-level timestamps.
    ///
    /// Pipeline: normalized text -> CTC targets -> Viterbi -> word timestamps. The words of the
    /// result are those of `text` as they stand there, with their case and punctuation. Those
    /// without a letter, such as numbers, take no time. A text of nothing else has no words.
    pub fn align(&self, emissions: &[Vec<LogProb>], text: &str) -> (r: Result<
        Vec<WordTimestamp>,
        AlignError,
    >)
        requires
            self.is_covered(rows(emissions@), text@),
        ensures
            if normalized(text@).len() == 0 {
                r matches Ok(words) && words@.len() == 0
            } else if emissions@.len() < self.targets_of(text@).len() {
                r == Err::<Vec<WordTimestamp>, AlignError>(
                    AlignError::TooFewFrames {
                        frames: emissions@.len() as usize,
                        targets: self.targets_of(text@).len() as usize,
                    },
                )
            } else {
                r matches Ok(words) && timed_words(words@) == spoken_as_provided(
                    provided_words(text@),
                    self.path_of(rows(emissions@), text@),
                    self.blank_id,
                    token_id(views(self.vocab@), seq![' ']),
                    FRAME_MILLIS as nat,
                )
            },
            r matches Ok(words) ==> normalized(text@).len() > 0 ==> {
                &&& words@.len() == words_of(text@).len()
                &&& forall|k: int|
                    0 <= k < words@.len() ==> (#[trigger] words@[k]).word@ == words_of(text@)[k]
            },
    {
        let normalized_text: String = normalize_for_alignment(text);
        if normalized_text.as_str().is_empty() {
            return Ok(Vec::new());
        }
        let targets: Vec<usize> = text_to_ctc_targets(
            normalized_text.as_str(),
            self.vocab.as_slice(),
            self.blank_id,
        );
        match viterbi_forced_align(emissions, targets.as_slice()) {
            Err(e) => Err(e),
            Ok(path) => {
                Ok(
                    path_to_word_timestamps(
                        path.as_slice(),
                        text,
                        self.vocab.as_slice(),
                        self.blank_id,
                        FRAME_MILLIS,
                    ),
                )
            },
        }
    }
}

} // verus!
