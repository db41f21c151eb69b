//! What holds of whole runs of text and bytes: how they are taken in piece by
//! piece, and that decoding gives back the text that was encoded.

use crate::dict_set::{DictionarySetView, WordIdentifier};
use crate::encoding::{
    encode_all, DecoderView, EncoderView, EncodingState, Instruction, ATTACH_TO_PREVIOUS,
    BUFFER_LIMIT,
};
use crate::error::Error;
use crate::variation::Variation;
use vstd::prelude::*;

verus! {

impl DictionarySetView {
    /// Whether every word that is read in `variation` is written in it as it
    /// was read. It is not where a spelling is found among the words in the
    /// default orthography only, and the variation writes that word otherwise.
    pub open spec fn reads_back(self, variation: Variation) -> bool {
        forall|word: Seq<char>|
            match #[trigger] self.resolve(word, variation) {
                Some(identifier) => self.spelling(identifier, variation) == word,
                None => true,
            }
    }

    /// What is resolved is a word of the set.
    pub proof fn lemma_resolve_in_set(self, word: Seq<char>, variation: Variation)
        requires
            self.wf(),
        ensures
            match self.resolve(word, variation) {
                Some(identifier) => self.contains(identifier),
                None => true,
            },
    {
        self.lemma_hit_is_first(word, variation, 0);
        self.lemma_hit_is_first(word, Variation::Default, 0);
    }

    /// In the default orthography every word is written as it was read.
    pub proof fn lemma_default_reads_back(self)
        requires
            self.wf(),
        ensures
            self.reads_back(Variation::Default),
    {
        assert forall|word: Seq<char>|
            match #[trigger] self.resolve(word, Variation::Default) {
                Some(identifier) => self.spelling(identifier, Variation::Default) == word,
                None => true,
            } by {
            self.lemma_hit_is_first(word, Variation::Default, 0);
            match self.resolve(word, Variation::Default) {
                Some(identifier) => {
                    self.dictionaries[identifier.dict as int].lemma_lookup_in_range(
                        word,
                        Variation::Default,
                    );
                },
                None => {},
            }
        }
    }
}

impl DecoderView {
    /// Reading two runs of bytes one after the other is reading them as one,
    /// as long as the first does not fail.
    pub proof fn lemma_read_all_concat(
        self,
        dictionaries: DictionarySetView,
        first: Seq<u8>,
        second: Seq<u8>,
    )
        ensures
            self.read_all(dictionaries, first + second) == (if self.read_all(
                dictionaries,
                first,
            ).1 is Ok {
                self.read_all(dictionaries, first).0.read_all(dictionaries, second)
            } else {
                self.read_all(dictionaries, first)
            }),
        decreases first.len(),
    {
        if first.len() == 0 {
            assert(first + second =~= second);
        } else {
            assert((first + second)[0] == first[0]);
            assert((first + second).skip(1) =~= first.skip(1) + second);
            let (next, result) = self.read(dictionaries, first[0]);
            if result is Ok {
                next.lemma_read_all_concat(dictionaries, first.skip(1), second);
            }
        }
    }

    /// Reading the byte of a word writes the word.
    pub proof fn lemma_read_word(self, dictionaries: DictionarySetView, word: WordIdentifier)
        requires
            dictionaries.contains(word),
            dictionaries.encode(word) is Ok,
        ensures
            self.read_all(dictionaries, dictionaries.encode(word).unwrap()) == (
                self.execute(dictionaries, Instruction::TokiPonaWord { word }),
                Ok::<(), Error>(()),
            ),
    {
        let bytes = dictionaries.encode(word).unwrap();
        dictionaries.lemma_decode_encode(word);
        dictionaries.lemma_words_before_grows(0, word.dict as int);
        assert(seq![bytes[0]] =~= bytes);
        assert(bytes.skip(1) =~= Seq::<u8>::empty());
        let next = self.read(dictionaries, bytes[0]).0;
        assert(next.read_all(dictionaries, bytes.skip(1)) == (next, Ok::<(), Error>(())));
    }

    /// Reading the byte that attaches cancels the space that is due.
    pub proof fn lemma_read_attach(self, dictionaries: DictionarySetView)
        ensures
            self.read_all(dictionaries, seq![ATTACH_TO_PREVIOUS]) == (
                self.execute(dictionaries, Instruction::AttachToPrevious),
                Ok::<(), Error>(()),
            ),
    {
        let bytes = seq![ATTACH_TO_PREVIOUS];
        assert(bytes.skip(1) =~= Seq::<u8>::empty());
        let next = self.read(dictionaries, bytes[0]).0;
        assert(next.read_all(dictionaries, bytes.skip(1)) == (next, Ok::<(), Error>(())));
    }
}

impl EncoderView {
    /// Text that is no word fails as an unknown word, and nothing is written
    /// for it.
    pub proof fn lemma_unknown_word_fails(self, dictionaries: DictionarySetView)
        requires
            dictionaries.resolve(self.fragment(), self.state.variation) is None,
        ensures
            self.flush(dictionaries) == (self.cleared(), Err::<(), Error>(Error::UnknownWord)),
            self.flush(dictionaries).0.written == self.written,
    {
    }

    /// What encoding writes for a word: the byte of the word, and before it
    /// the byte that attaches exactly if a space was due before the word and
    /// the text had none.
    pub proof fn lemma_flush_writes(self, dictionaries: DictionarySetView)
        requires
            self.flush(dictionaries).1 is Ok,
        ensures
            ({
                let word = dictionaries.resolve(self.fragment(), self.state.variation);
                &&& word is Some
                &&& dictionaries.encode(word.unwrap()) is Ok
                &&& self.flush(dictionaries).0.written == self.written + (if self.attaches() {
                    seq![ATTACH_TO_PREVIOUS]
                } else {
                    Seq::empty()
                }) + dictionaries.encode(word.unwrap()).unwrap()
            }),
    {
        reveal_with_fuel(encode_all, 3);
        let word = dictionaries.resolve(self.fragment(), self.state.variation).unwrap();
        let instruction = Instruction::TokiPonaWord { word };
        assert(seq![instruction].skip(1) =~= Seq::<Instruction>::empty());
        assert(seq![Instruction::AttachToPrevious, instruction].skip(1) =~= seq![instruction]);
        let bytes = dictionaries.encode(word).unwrap();
        assert(self.flush(dictionaries).0.written =~= self.written + (if self.attaches() {
            seq![ATTACH_TO_PREVIOUS]
        } else {
            Seq::empty()
        }) + bytes);
    }

    /// Taking in two texts one after the other is taking them in as one, as
    /// long as the first does not fail.
    pub proof fn lemma_push_all_concat(
        self,
        dictionaries: DictionarySetView,
        first: Seq<char>,
        second: Seq<char>,
    )
        ensures
            self.push_all(dictionaries, first + second) == (if self.push_all(
                dictionaries,
                first,
            ).1 is Ok {
                self.push_all(dictionaries, first).0.push_all(dictionaries, second)
            } else {
                self.push_all(dictionaries, first)
            }),
        decreases first.len(),
    {
        if first.len() == 0 {
            assert(first + second =~= second);
        } else {
            assert((first + second)[0] == first[0]);
            assert((first + second).skip(1) =~= first.skip(1) + second);
            let (next, result) = self.push(dictionaries, first[0]);
            if result is Ok {
                next.lemma_push_all_concat(dictionaries, first.skip(1), second);
            }
        }
    }

    /// Characters other than spaces only wait, as long as no more than
    /// `BUFFER_LIMIT` of them come to wait together.
    pub proof fn lemma_push_all_buffers(self, dictionaries: DictionarySetView, text: Seq<char>)
        requires
            !text.contains(' '),
            self.unencoded.len() + text.len() <= BUFFER_LIMIT,
        ensures
            self.push_all(dictionaries, text) == (
                EncoderView { unencoded: self.unencoded + text, ..self },
                Ok::<(), Error>(()),
            ),
        decreases text.len(),
    {
        if text.len() == 0 {
            assert(self.unencoded + text =~= self.unencoded);
        } else {
            assert(text[0] != ' ');
            let next = self.buffering(text[0]);
            assert forall|i: int| 0 <= i < text.skip(1).len() implies text.skip(1)[i] != ' ' by {
                assert(text[i + 1] != ' ');
            }
            next.lemma_push_all_buffers(dictionaries, text.skip(1));
            assert(next.unencoded + text.skip(1) =~= self.unencoded + text);
        }
    }

    /// A run of more than `BUFFER_LIMIT` characters other than spaces is cut:
    /// when the character behind the first `BUFFER_LIMIT` comes in, these are
    /// encoded as a word of their own, and fail as one if they are none.
    pub proof fn lemma_long_run_is_cut(self, dictionaries: DictionarySetView, run: Seq<char>)
        requires
            self.unencoded.len() == 0,
            run.len() == BUFFER_LIMIT + 1,
            !run.contains(' '),
        ensures
            self.push_all(dictionaries, run) == ({
                let full = EncoderView { unencoded: run.take(BUFFER_LIMIT as int), ..self };
                let (flushed, result) = full.flush(dictionaries);
                if result is Ok {
                    (flushed.buffering(run.last()), result)
                } else {
                    (flushed, result)
                }
            }),
    {
        let head = run.take(BUFFER_LIMIT as int);
        let tail = run.skip(BUFFER_LIMIT as int);
        assert(head + tail =~= run);
        assert forall|i: int| 0 <= i < head.len() implies head[i] != ' ' by {
            assert(run[i] != ' ');
        }
        self.lemma_push_all_concat(dictionaries, head, tail);
        self.lemma_push_all_buffers(dictionaries, head);
        assert(self.unencoded + head =~= head);
        let full = EncoderView { unencoded: head, ..self };
        assert(tail[0] == run.last());
        assert(tail.skip(1) =~= Seq::<char>::empty());
        let (next, result) = full.push(dictionaries, tail[0]);
        assert(next.push_all(dictionaries, tail.skip(1)) == (next, Ok::<(), Error>(())));
    }
}

impl EncoderView {
    /// Whether a decoder that started as `start` and has read what this
    /// encoder has written is in step with it: it is in the same state, and
    /// what it has written since, with the text that the encoder has taken in
    /// and not encoded yet, is `text`.
    pub open spec fn in_step(
        self,
        dictionaries: DictionarySetView,
        start: DecoderView,
        text: Seq<char>,
    ) -> bool {
        let (decoder, result) = start.read_all(dictionaries, self.written);
        &&& result == Ok::<(), Error>(())
        &&& decoder.state == self.state
        &&& decoder.written + self.unencoded =~= start.written + text
    }

    /// Encoding the unencoded text keeps the decoder in step.
    pub proof fn lemma_flush_keeps_in_step(
        self,
        dictionaries: DictionarySetView,
        start: DecoderView,
        text: Seq<char>,
    )
        requires
            dictionaries.wf(),
            dictionaries.reads_back(self.state.variation),
            self.in_step(dictionaries, start, text),
            self.flush(dictionaries).1 is Ok,
        ensures
            self.flush(dictionaries).0.in_step(dictionaries, start, text),
            self.flush(dictionaries).0.state.variation == self.state.variation,
    {
        reveal_with_fuel(encode_all, 3);
        let variation = self.state.variation;
        let fragment = self.fragment();
        let word = dictionaries.resolve(fragment, variation).unwrap();
        let instruction = Instruction::TokiPonaWord { word };
        dictionaries.lemma_resolve_in_set(fragment, variation);
        assert(seq![instruction].skip(1) =~= Seq::<Instruction>::empty());
        assert(seq![Instruction::AttachToPrevious, instruction].skip(1) =~= seq![instruction]);
        let bytes = dictionaries.encode(word).unwrap();
        let flushed = self.flush(dictionaries).0;
        let decoder = start.read_all(dictionaries, self.written).0;
        let written = decoder.execute(dictionaries, instruction);
        if self.attaches() {
            let attached = decoder.execute(dictionaries, Instruction::AttachToPrevious);
            assert(flushed.written =~= self.written + (seq![ATTACH_TO_PREVIOUS] + bytes));
            start.lemma_read_all_concat(
                dictionaries,
                self.written,
                seq![ATTACH_TO_PREVIOUS] + bytes,
            );
            decoder.lemma_read_all_concat(dictionaries, seq![ATTACH_TO_PREVIOUS], bytes);
            decoder.lemma_read_attach(dictionaries);
            attached.lemma_read_word(dictionaries, word);
            let last = attached.execute(dictionaries, instruction);
            assert(last.written =~= decoder.written + self.unencoded);
        } else {
            assert(flushed.written =~= self.written + bytes);
            start.lemma_read_all_concat(dictionaries, self.written, bytes);
            decoder.lemma_read_word(dictionaries, word);
            if self.state.prepend_space {
                assert(seq![' '] + self.unencoded.skip(1) =~= self.unencoded);
            }
            assert(written.written =~= decoder.written + self.unencoded);
        }
    }

    /// Taking in a character keeps the decoder in step.
    pub proof fn lemma_push_keeps_in_step(
        self,
        dictionaries: DictionarySetView,
        start: DecoderView,
        text: Seq<char>,
        c: char,
    )
        requires
            dictionaries.wf(),
            dictionaries.reads_back(self.state.variation),
            self.in_step(dictionaries, start, text),
            self.push(dictionaries, c).1 is Ok,
        ensures
            self.push(dictionaries, c).0.in_step(dictionaries, start, text.push(c)),
            self.push(dictionaries, c).0.state.variation == self.state.variation,
    {
        let pushed = self.push(dictionaries, c).0;
        let before = if c == ' ' || self.unencoded.len() >= BUFFER_LIMIT {
            self.lemma_flush_keeps_in_step(dictionaries, start, text);
            self.flush(dictionaries).0
        } else {
            self
        };
        let decoder = start.read_all(dictionaries, before.written).0;
        assert(decoder.written + pushed.unencoded =~= (decoder.written + before.unencoded).push(
            c,
        ));
        assert(start.written + text.push(c) =~= (start.written + text).push(c));
    }

    /// Taking in more text keeps the decoder in step.
    pub proof fn lemma_push_all_keeps_in_step(
        self,
        dictionaries: DictionarySetView,
        start: DecoderView,
        text: Seq<char>,
        more: Seq<char>,
    )
        requires
            dictionaries.wf(),
            dictionaries.reads_back(self.state.variation),
            self.in_step(dictionaries, start, text),
            self.push_all(dictionaries, more).1 is Ok,
        ensures
            self.push_all(dictionaries, more).0.in_step(dictionaries, start, text + more),
            self.push_all(dictionaries, more).0.state.variation == self.state.variation,
        decreases more.len(),
    {
        if more.len() == 0 {
            assert(text + more =~= text);
        } else {
            let next = self.push(dictionaries, more[0]).0;
            self.lemma_push_keeps_in_step(dictionaries, start, text, more[0]);
            next.lemma_push_all_keeps_in_step(
                dictionaries,
                start,
                text.push(more[0]),
                more.skip(1),
            );
            assert(text.push(more[0]) + more.skip(1) =~= text + more);
        }
    }

    /// Decoding gives the text back. Where an encoder that has written
    /// nothing takes in `text` and then encodes what is left unencoded, both
    /// without failing, a decoder in the same state that reads the bytes
    /// written writes exactly `text`, as long as the active orthography writes
    /// every word as it was read. The default orthography does.
    pub proof fn lemma_decoding_gives_the_text_back(
        self,
        dictionaries: DictionarySetView,
        decoder: DecoderView,
        text: Seq<char>,
    )
        requires
            dictionaries.wf(),
            dictionaries.reads_back(self.state.variation),
            self.unencoded.len() == 0,
            self.written.len() == 0,
            decoder.state == self.state,
            self.push_all(dictionaries, text).1 is Ok,
            self.push_all(dictionaries, text).0.flush(dictionaries).1 is Ok,
        ensures
            decoder.read_all(
                dictionaries,
                self.push_all(dictionaries, text).0.flush(dictionaries).0.written,
            ) == (
                DecoderView {
                    state: EncodingState { prepend_space: true, ..decoder.state },
                    written: decoder.written + text,
                },
                Ok::<(), Error>(()),
            ),
    {
        assert(self.written =~= Seq::<u8>::empty());
        assert(self.unencoded =~= Seq::<char>::empty());
        assert(self.in_step(dictionaries, decoder, Seq::empty()));
        self.lemma_push_all_keeps_in_step(dictionaries, decoder, Seq::empty(), text);
        assert(Seq::<char>::empty() + text =~= text);
        let taken = self.push_all(dictionaries, text).0;
        taken.lemma_flush_keeps_in_step(dictionaries, decoder, text);
        let flushed = taken.flush(dictionaries).0;
        let read = decoder.read_all(dictionaries, flushed.written).0;
        assert(read.written =~= decoder.written + text);
    }
}

} // verus!
