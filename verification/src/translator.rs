//! The translator facade: its configuration builder and the built-in
//! engine, which hands every text back unchanged.

use crate::cache::ContentCache;
use crate::chunker::{chunk, chunk_at, is_chunking, window_texts, windows, Chunk};
use crate::config::{ConfigError, DEFAULT_BATCH_SIZE};
use crate::error::EngineError;
use crate::key::{cache_key, entry_name, entry_suffix, key_of};
use crate::merger::{merge, merged, MergeError};
use crate::orchestrator::{
    are_engine_replies, chunk_texts, inputs_of, is_engine_reply, keys_of, plan_of, reply_of, run,
    run_model, Reply,
};
use crate::segment::{is_sentence, is_terminal, sentences, split_into_sentences};
use crate::text::texts;
use std::path::PathBuf;
use vstd::prelude::*;

verus! {

/// `std::path::PathBuf`, carried through as a value that the library never
/// looks into.
#[verifier::external_type_specification]
#[verifier::external_body]
pub struct ExPathBuf(PathBuf);

/// `PathBuf::from` on a string: the path that the string spells.
#[verifier::external_body]
fn path_from_str(s: &str) -> PathBuf {
    PathBuf::from(s)
}

/// The path of the entry `name` under the directory `dir`.
pub uninterp spec fn joined_path(dir: PathBuf, name: Seq<char>) -> PathBuf;

/// `Path::join`: the path of `name` under `dir`. The result is settled by
/// the directory and the name alone. How it is spelt is the platform's
/// affair, and nothing is claimed of that.
#[verifier::external_body]
fn path_join(dir: &PathBuf, name: &str) -> (out: PathBuf)
    ensures
        out == joined_path(*dir, name@),
{
    dir.join(name)
}

/// Why a document could not be translated.
#[derive(Debug, Clone, Copy, PartialEq, Eq, Structural)]
pub enum TranslateError {
    /// The translator is not configured validly.
    Config(ConfigError),
    /// The translation of some chunk is not in the cache, or cannot be
    /// read.
    Merge(MergeError),
}

/// The separator between the outputs of a document's chunks.
pub open spec fn line_feed() -> Seq<char> {
    seq!['\n']
}

/// The chunk texts of a document for `batch` sentences per chunk: none for
/// a document without sentences, otherwise one per window.
pub open spec fn document_texts(text: Seq<char>, batch: int) -> Seq<Seq<char>> {
    if sentences(text).len() == 0 {
        Seq::empty()
    } else {
        window_texts(sentences(text), batch, 0)
    }
}

/// The replies of an engine that hands every input back unchanged.
pub open spec fn echo_replies(ts: Seq<Seq<char>>, bs: Seq<Seq<usize>>) -> Seq<Reply> {
    bs.map_values(|b: Seq<usize>| Some(inputs_of(ts, b)))
}

/// The output for a document of `n` chunks, given what the merge of their
/// translations gave: the merged text, closed by a line feed if there is
/// any chunk.
pub open spec fn document_output(merge: Result<Seq<char>, MergeError>, n: nat) -> Result<
    Seq<char>,
    TranslateError,
> {
    match merge {
        Ok(t) => Ok(
            if n > 0 {
                t.push('\n')
            } else {
                t
            },
        ),
        Err(e) => Err(TranslateError::Merge(e)),
    }
}

/// Device to run translation on.
#[derive(Debug, Clone, Copy, PartialEq, Eq, Structural)]
pub enum Device {
    Cpu,
    Cuda,
}

impl Device {
    /// The device to use. The built-in engine needs none, so this is
    /// always the CPU.
    pub fn cuda_if_available() -> (d: Device)
        ensures
            d == Device::Cpu,
    {
        Device::Cpu
    }
}

/// Model size selection.
#[derive(Debug, Clone, Copy, PartialEq, Eq, Structural)]
pub enum ModelSize {
    Tiny,
    Small,
    Base,
    Large,
}

/// Builder for [`Translator`].
pub struct TranslatorBuilder {
    pub device: Device,
    pub source: String,
    pub target: String,
    pub model: ModelSize,
    pub batch: usize,
    pub cache_dir: PathBuf,
}

/// A configured translator.
pub struct Translator {
    pub device: Device,
    pub source: String,
    pub target: String,
    pub model: ModelSize,
    pub batch: usize,
    pub cache_dir: PathBuf,
}

impl TranslatorBuilder {
    /// The defaults: French to English, the smallest model, batches of
    /// four, the cache under `.cache`.
    pub fn new() -> (b: TranslatorBuilder)
        ensures
            b.device == Device::Cpu,
            b.source@ == "fr"@,
            b.target@ == "en"@,
            b.model == ModelSize::Tiny,
            b.batch == DEFAULT_BATCH_SIZE,
    {
        TranslatorBuilder {
            device: Device::cuda_if_available(),
            source: "fr".to_owned(),
            target: "en".to_owned(),
            model: ModelSize::Tiny,
            batch: DEFAULT_BATCH_SIZE,
            cache_dir: path_from_str(".cache"),
        }
    }

    /// Sets the device.
    pub fn device(self, d: Device) -> (b: TranslatorBuilder)
        ensures
            b == (TranslatorBuilder { device: d, ..self }),
    {
        let mut b = self;
        b.device = d;
        b
    }

    /// Sets the source language tag.
    pub fn source<S: Into<String>>(self, s: S) -> (b: TranslatorBuilder)
        ensures
            call_ensures(S::into, (s,), b.source),
            b == (TranslatorBuilder { source: b.source, ..self }),
    {
        let mut b = self;
        b.source = s.into();
        b
    }

    /// Sets the target language tag.
    pub fn target<S: Into<String>>(self, s: S) -> (b: TranslatorBuilder)
        ensures
            call_ensures(S::into, (s,), b.target),
            b == (TranslatorBuilder { target: b.target, ..self }),
    {
        let mut b = self;
        b.target = s.into();
        b
    }

    /// Sets the model size.
    pub fn model_size(self, m: ModelSize) -> (b: TranslatorBuilder)
        ensures
            b == (TranslatorBuilder { model: m, ..self }),
    {
        let mut b = self;
        b.model = m;
        b
    }

    /// Sets the number of sentences per chunk.
    pub fn batch_size(self, n: usize) -> (b: TranslatorBuilder)
        ensures
            b == (TranslatorBuilder { batch: n, ..self }),
    {
        let mut b = self;
        b.batch = n;
        b
    }

    /// Sets the cache directory.
    pub fn cache_dir<P: Into<PathBuf>>(self, p: P) -> (b: TranslatorBuilder)
        ensures
            call_ensures(P::into, (p,), b.cache_dir),
            b == (TranslatorBuilder { cache_dir: b.cache_dir, ..self }),
    {
        let mut b = self;
        b.cache_dir = p.into();
        b
    }

    /// Builds the translator, or rejects a batch size of zero.
    pub fn build(self) -> (r: Result<Translator, ConfigError>)
        ensures
            r is Err <==> self.batch == 0,
            r is Err ==> r->Err_0 == ConfigError::ZeroBatchSize,
            r matches Ok(t) ==> t == (Translator {
                device: self.device,
                source: self.source,
                target: self.target,
                model: self.model,
                batch: self.batch,
                cache_dir: self.cache_dir,
            }),
    {
        if self.batch == 0 {
            return Err(ConfigError::ZeroBatchSize);
        }
        Ok(
            Translator {
                device: self.device,
                source: self.source,
                target: self.target,
                model: self.model,
                batch: self.batch,
                cache_dir: self.cache_dir,
            },
        )
    }
}

impl Translator {
    /// A builder with the defaults.
    pub fn builder() -> (b: TranslatorBuilder)
        ensures
            b.device == Device::Cpu,
            b.source@ == "fr"@,
            b.target@ == "en"@,
            b.model == ModelSize::Tiny,
            b.batch == DEFAULT_BATCH_SIZE,
    {
        TranslatorBuilder::new()
    }

    /// The built-in engine: one output per input, each equal to its input.
    /// It never fails.
    pub fn translate(&self, sentences: &[String]) -> (r: Result<Vec<String>, EngineError>)
        ensures
            r is Ok,
            texts(r->Ok_0@) == texts(sentences@),
    {
        let mut out: Vec<String> = Vec::new();
        let mut i: usize = 0;
        while i < sentences.len()
            invariant
                i <= sentences.len(),
                texts(out@) == texts(sentences@.take(i as int)),
            decreases sentences.len() - i,
        {
            let s = sentences[i].clone();
            let ghost before = out@;
            out.push(s);
            assert(sentences@.take(i + 1) =~= sentences@.take(i as int).push(sentences@[i as int]));
            assert(texts(before.push(s)) =~= texts(before).push(s@));
            assert(texts(sentences@.take(i + 1)) =~= texts(sentences@.take(i as int)).push(
                sentences@[i as int]@,
            ));
            i += 1;
        }
        assert(sentences@.take(i as int) =~= sentences@);
        Ok(out)
    }

    /// The name of the cache entry for a chunk text: its key, then `.txt`.
    pub fn cache_file_name(&self, text: &str) -> (name: String)
        ensures
            name@ == key_of(text@) + entry_suffix(),
    {
        let key = cache_key(text);
        entry_name(key.as_str())
    }

    /// The path of the cache entry for a chunk text: the entry named by
    /// `cache_file_name`, under the cache directory.
    pub fn cache_path(&self, text: &str) -> (path: PathBuf)
        ensures
            path == joined_path(self.cache_dir, key_of(text@) + entry_suffix()),
    {
        let name = self.cache_file_name(text);
        path_join(&self.cache_dir, name.as_str())
    }

    /// The chunks of a document: its sentences in groups of `batch`, each
    /// group joined by single spaces. A document without sentences has no
    /// chunks. A batch size of zero is rejected.
    pub fn chunks(&self, text: &str) -> (r: Result<Vec<Chunk>, ConfigError>)
        ensures
            r is Err <==> self.batch == 0,
            r matches Err(e) ==> e == ConfigError::ZeroBatchSize,
            r matches Ok(chunks) ==> chunk_texts(chunks@) == document_texts(
                text@,
                self.batch as int,
            ) && (sentences(text@).len() > 0 ==> is_chunking(
                chunks@,
                sentences(text@),
                self.batch as int,
                0,
            )),
    {
        if self.batch == 0 {
            return Err(ConfigError::ZeroBatchSize);
        }
        let sents = split_into_sentences(text);
        if sents.len() == 0 {
            let none: Vec<Chunk> = Vec::new();
            assert(chunk_texts(none@) =~= document_texts(text@, self.batch as int));
            return Ok(none);
        }
        match chunk(&sents, self.batch, 0) {
            Ok(chunks) => {
                proof {
                    let s = sentences(text@);
                    let w = windows(s.len() as int, self.batch as int, 0);
                    assert forall|k: int| 0 <= k < chunks@.len() implies chunk_texts(chunks@)[k]
                        == window_texts(s, self.batch as int, 0)[k] by {
                        assert(chunk_at(chunks@[k], k, w[k], s));
                    }
                    assert(chunk_texts(chunks@) =~= window_texts(s, self.batch as int, 0));
                }
                Ok(chunks)
            },
            Err(_) => Err(ConfigError::ZeroBatchSize),
        }
    }

    /// Translates a document through the cache, one chunk per engine
    /// call. Chunks whose translation the cache holds are not sent to the
    /// engine; the others are sent and their outputs written to the cache.
    /// The result is the translation of every chunk, in chunk order, each
    /// followed by a line feed. A caller that wants nothing resumed hands
    /// in an empty cache.
    pub fn translate_document(&self, text: &str, cache: &mut ContentCache) -> (r: Result<
        String,
        TranslateError,
    >)
        ensures
            self.batch == 0 ==> r == Err::<String, TranslateError>(
                TranslateError::Config(ConfigError::ZeroBatchSize),
            ) && final(cache)@ == old(cache)@,
            final(cache).limit() == old(cache).limit(),
            self.batch > 0 ==> ({
                let ts = document_texts(text@, self.batch as int);
                let end = run_model(
                    old(cache)@,
                    old(cache).limit(),
                    ts,
                    1,
                    echo_replies(ts, plan_of(old(cache)@, ts, 1)),
                );
                let out = document_output(merged(end.cache, keys_of(ts), line_feed(), true), ts.len());
                &&& final(cache)@ == end.cache
                &&& match r {
                    Ok(s) => out == Ok::<Seq<char>, TranslateError>(s@),
                    Err(e) => out == Err::<Seq<char>, TranslateError>(e),
                }
            }),
    {
        let chunks = match self.chunks(text) {
            Ok(chunks) => chunks,
            Err(e) => {
                return Err(TranslateError::Config(e));
            },
        };
        let ghost ts = document_texts(text@, self.batch as int);
        let ghost m0 = cache@;
        let ghost plan = plan_of(m0, ts, 1);
        let echo = |inputs: Vec<String>| -> (r: Result<Vec<String>, EngineError>)
            ensures
                r is Ok,
                texts(r->Ok_0@) == texts(inputs@),
            { self.translate(inputs.as_slice()) };
        let report = run(&chunks, 1, cache, echo);
        proof {
            let replies = choose|replies: Seq<Reply>|
                {
                    &&& are_engine_replies(echo, ts, plan, replies)
                    &&& (crate::orchestrator::RunState {
                        cache: cache@,
                        jobs: report->Ok_0.jobs@,
                    }) == #[trigger] run_model(m0, old(cache).limit(), ts, 1, replies)
                };
            assert forall|b: int| 0 <= b < plan.len() implies replies[b] == echo_replies(
                ts,
                plan,
            )[b] by {
                let inputs = inputs_of(ts, plan[b]);
                assert(is_engine_reply(echo, inputs, replies[b]));
                let (v, res) = choose|v: Vec<String>, res: Result<Vec<String>, EngineError>|
                    texts(v@) == inputs && #[trigger] call_ensures(echo, (v,), res) && reply_of(
                        res,
                        inputs.len(),
                    ) == replies[b];
                assert(texts(res->Ok_0@).len() == inputs.len());
            }
            assert(replies =~= echo_replies(ts, plan));
        }
        let merged_text = merge(cache, &chunks, "\n", true);
        proof {
            reveal_strlit("\n");
            assert("\n"@ =~= line_feed());
        }
        match merged_text {
            Ok(s) => {
                let mut s = s;
                if chunks.len() > 0 {
                    s.push('\n');
                }
                Ok(s)
            },
            Err(e) => Err(TranslateError::Merge(e)),
        }
    }

    /// The sentences of `text`, in order, each with its terminal
    /// punctuation.
    pub fn segment(&self, text: &str) -> (out: Vec<String>)
        ensures
            texts(out@) == sentences(text@),
            forall|k: int| 0 <= k < out.len() ==> is_sentence(#[trigger] out[k]@),
            forall|k: int| 0 <= k < out.len() - 1 ==> is_terminal((#[trigger] out[k]@).last()),
    {
        split_into_sentences(text)
    }
}

} // verus!
