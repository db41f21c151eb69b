//! The instructions that a passage of text compiles to, and the encoder and
//! decoder that turn text into their bytes and back.

use crate::dict_set::{DictionarySet, DictionarySetView, WordIdentifier, WORD_OFFSET};
use crate::error::Error;
use crate::text::string_of;
use crate::variation::Variation;
use vstd::prelude::*;

verus! {

/// The byte that stands for `Instruction::AttachToPrevious`.
pub const ATTACH_TO_PREVIOUS: u8 = 0x21;

/// How many characters the encoder collects before it takes them for a word,
/// whether or not a space has ended them.
pub const BUFFER_LIMIT: usize = 16;

/// A passage of text is comprised of a list of instructions.
/// Each instruction may write some Unicode output, or alter some internal state.
#[derive(Debug, Clone, Copy, PartialEq, Eq, Structural)]
pub enum Instruction {
    /// Print a word in toki pona from the main dictionary set
    /// using the active variation.
    TokiPonaWord { word: WordIdentifier },
    /// Instead of prepending a space before the subsequent word, attach the words together.
    AttachToPrevious,
}

impl Instruction {
    /// The bytes that stand for the instruction.
    pub open spec fn spec_encode(self, dictionaries: DictionarySetView) -> Result<Seq<u8>, Error> {
        match self {
            Instruction::TokiPonaWord { word } => dictionaries.encode(word),
            Instruction::AttachToPrevious => Ok(seq![ATTACH_TO_PREVIOUS]),
        }
    }

    /// Whether the instruction can be carried out with the given
    /// dictionaries: the word that it prints, if it prints one, is one of theirs.
    pub open spec fn in_set(self, dictionaries: DictionarySetView) -> bool {
        match self {
            Instruction::TokiPonaWord { word } => dictionaries.contains(word),
            Instruction::AttachToPrevious => true,
        }
    }

    /// The instruction that a byte stands for.
    pub open spec fn spec_decode(dictionaries: DictionarySetView, byte: u8) -> Result<
        Instruction,
        Error,
    > {
        if byte == ATTACH_TO_PREVIOUS {
            Ok(Instruction::AttachToPrevious)
        } else {
            match dictionaries.decode(seq![byte]) {
                Ok(word) => Ok(Instruction::TokiPonaWord { word }),
                Err(error) => Err(error),
            }
        }
    }

    /// The bytes that stand for the instruction.
    pub fn encode(&self, dict_set: &DictionarySet) -> (bytes: Result<Vec<u8>, Error>)
        ensures
            match bytes {
                Ok(bytes) => self.spec_encode(dict_set@) == Ok::<Seq<u8>, Error>(bytes@),
                Err(error) => self.spec_encode(dict_set@) == Err::<Seq<u8>, Error>(error),
            },
    {
        match self {
            Instruction::TokiPonaWord { word } => dict_set.word_to_bytes(*word),
            Instruction::AttachToPrevious => {
                let mut bytes: Vec<u8> = Vec::new();
                bytes.push(ATTACH_TO_PREVIOUS);
                proof {
                    assert(bytes@ =~= seq![ATTACH_TO_PREVIOUS]);
                }
                Ok(bytes)
            },
        }
    }

    /// The instruction that a byte stands for.
    pub fn decode(dict_set: &DictionarySet, byte: u8) -> (instruction: Result<Instruction, Error>)
        ensures
            instruction == Instruction::spec_decode(dict_set@, byte),
            instruction matches Ok(decoded) ==> decoded.in_set(dict_set@),
    {
        if byte == ATTACH_TO_PREVIOUS {
            return Ok(Instruction::AttachToPrevious);
        }
        let bytes = [byte];
        proof {
            assert(bytes@ =~= seq![byte]);
        }
        match dict_set.word_from_bytes(bytes.as_slice()) {
            Ok(word) => Ok(Instruction::TokiPonaWord { word }),
            Err(error) => Err(error),
        }
    }
}

/// The internal state of an encoder or decoder.
#[derive(Debug, Clone, Copy, PartialEq, Eq, Structural)]
pub struct EncodingState {
    /// What orthography variation is active?
    pub variation: Variation,
    /// If this is true, before printing the next TokiPonaWord, a space will be prepended.
    pub prepend_space: bool,
}

impl Default for EncodingState {
    fn default() -> (state: Self)
        ensures
            state == (EncodingState { variation: Variation::Default, prepend_space: false }),
    {
        EncodingState { variation: Variation::Default, prepend_space: false }
    }
}

/// The bytes that stand for the given instructions, one after the other.
pub open spec fn encode_all(dictionaries: DictionarySetView, instructions: Seq<Instruction>) -> Result<
    Seq<u8>,
    Error,
>
    decreases instructions.len(),
{
    if instructions.len() == 0 {
        Ok(Seq::empty())
    } else {
        match (
            instructions[0].spec_encode(dictionaries),
            encode_all(dictionaries, instructions.skip(1)),
        ) {
            (Ok(first), Ok(rest)) => Ok(first + rest),
            (Err(error), _) => Err(error),
            (_, Err(error)) => Err(error),
        }
    }
}

/// What an encoder holds at a moment: its state, the text that it has
/// taken in and not encoded yet, and the bytes that it has written.
pub struct EncoderView {
    pub state: EncodingState,
    pub unencoded: Seq<char>,
    pub written: Seq<u8>,
}

impl EncoderView {
    /// An encoder that has taken in nothing yet.
    pub open spec fn initial() -> EncoderView {
        EncoderView {
            state: EncodingState { variation: Variation::Default, prepend_space: false },
            unencoded: Seq::empty(),
            written: Seq::empty(),
        }
    }

    /// Whether the unencoded text begins with a space.
    pub open spec fn space_led(self) -> bool {
        self.unencoded.len() > 0 && self.unencoded[0] == ' '
    }

    /// The part of the unencoded text that is taken for a word: all of it,
    /// but for the space in front that a word before it was waiting for.
    pub open spec fn fragment(self) -> Seq<char> {
        if self.state.prepend_space && self.space_led() {
            self.unencoded.skip(1)
        } else {
            self.unencoded
        }
    }

    /// Whether the word in the unencoded text is attached to the word before
    /// it: a space was due between the two, and there is none.
    pub open spec fn attaches(self) -> bool {
        self.state.prepend_space && !self.space_led()
    }

    /// The instructions that the unencoded text compiles to, if it is a word.
    pub open spec fn instructions(self, dictionaries: DictionarySetView) -> Result<
        Seq<Instruction>,
        Error,
    > {
        match dictionaries.resolve(self.fragment(), self.state.variation) {
            Some(word) => Ok(
                if self.attaches() {
                    seq![Instruction::AttachToPrevious, Instruction::TokiPonaWord { word }]
                } else {
                    seq![Instruction::TokiPonaWord { word }]
                },
            ),
            None => Err(Error::UnknownWord),
        }
    }

    /// The encoder with no unencoded text, otherwise unchanged.
    pub open spec fn cleared(self) -> EncoderView {
        EncoderView { unencoded: Seq::empty(), ..self }
    }

    /// The encoder with one more character of unencoded text.
    pub open spec fn buffering(self, c: char) -> EncoderView {
        EncoderView { unencoded: self.unencoded.push(c), ..self }
    }

    /// Encodes the unencoded text. Where it is a word that has an encoding,
    /// its instructions are written and a space is due before the next word.
    /// Where it is not, nothing is written. Either way no unencoded text is
    /// left.
    pub open spec fn flush(self, dictionaries: DictionarySetView) -> (
        EncoderView,
        Result<(), Error>,
    ) {
        match self.instructions(dictionaries) {
            Ok(instructions) => match encode_all(dictionaries, instructions) {
                Ok(bytes) => (
                    EncoderView {
                        state: EncodingState { prepend_space: true, ..self.state },
                        unencoded: Seq::empty(),
                        written: self.written + bytes,
                    },
                    Ok(()),
                ),
                Err(error) => (self.cleared(), Err(error)),
            },
            Err(error) => (self.cleared(), Err(error)),
        }
    }

    /// Takes in one character. A space, or any character once `BUFFER_LIMIT`
    /// characters wait, has the waiting text encoded first; the character then
    /// waits in its turn, unless that encoding failed.
    pub open spec fn push(self, dictionaries: DictionarySetView, c: char) -> (
        EncoderView,
        Result<(), Error>,
    ) {
        if c == ' ' || self.unencoded.len() >= BUFFER_LIMIT {
            let (flushed, result) = self.flush(dictionaries);
            if result is Ok {
                (flushed.buffering(c), Ok(()))
            } else {
                (flushed, result)
            }
        } else {
            (self.buffering(c), Ok(()))
        }
    }

    /// Takes in the characters of `text` one by one, up to the first that
    /// fails.
    pub open spec fn push_all(self, dictionaries: DictionarySetView, text: Seq<char>) -> (
        EncoderView,
        Result<(), Error>,
    )
        decreases text.len(),
    {
        if text.len() == 0 {
            (self, Ok(()))
        } else {
            let (next, result) = self.push(dictionaries, text[0]);
            if result is Ok {
                next.push_all(dictionaries, text.skip(1))
            } else {
                (next, result)
            }
        }
    }
}

/// Encodes text into the toki pona encoding.
///
/// The text is taken in character by character, and a word is encoded once
/// the character behind it has been seen. The last word has none behind it:
/// `finalize` encodes it, and without that call it is lost.
pub struct Encoder<'a> {
    dict_set: &'a DictionarySet,
    writer: Vec<u8>,
    state: EncodingState,
    /// We may have some text that is not encoded yet, but that might
    /// be more efficiently encoded later. This unencoded text is stored here.
    /// Stored as a Vec<char> for convenience; UTF-8 is likely unnecessary.
    unencoded: Vec<char>,
}

impl<'a> View for Encoder<'a> {
    type V = EncoderView;

    closed spec fn view(&self) -> EncoderView {
        EncoderView { state: self.state, unencoded: self.unencoded@, written: self.writer@ }
    }
}

impl<'a> Encoder<'a> {
    /// The dictionaries whose words the encoder knows.
    pub closed spec fn dictionaries(&self) -> DictionarySetView {
        self.dict_set@
    }

    /// Encodes input text with the words of the given dictionaries.
    pub fn new(dict_set: &'a DictionarySet) -> (encoder: Self)
        ensures
            encoder@ == EncoderView::initial(),
            encoder.dictionaries() == dict_set@,
    {
        Self {
            dict_set,
            writer: Vec::new(),
            state: EncodingState::default(),
            unencoded: Vec::new(),
        }
    }

    /// Makes `variation` the active orthography: the one in which the text
    /// taken in from now on is read.
    pub fn set_variation(&mut self, variation: Variation)
        ensures
            final(self)@ == (EncoderView {
                state: EncodingState { variation, ..old(self)@.state },
                ..old(self)@
            }),
            final(self).dictionaries() == old(self).dictionaries(),
    {
        self.state.variation = variation;
    }

    /// Process the given text and output the generated instructions to the writer.
    /// Stops at the first character that fails.
    pub fn write_text(&mut self, text: &str) -> (result: Result<(), Error>)
        ensures
            (final(self)@, result) == old(self)@.push_all(old(self).dictionaries(), text@),
            final(self).dictionaries() == old(self).dictionaries(),
    {
        let ghost dictionaries = self.dictionaries();
        proof {
            assert(text@.skip(0) =~= text@);
        }
        for c in it: text.chars()
            invariant
                it.seq() == text@,
                self.dictionaries() == dictionaries,
                dictionaries == old(self).dictionaries(),
                old(self)@.push_all(dictionaries, text@) == self@.push_all(
                    dictionaries,
                    text@.skip(it.index() as int),
                ),
        {
            let ghost rest = text@.skip(it.index() as int);
            proof {
                assert(rest[0] == c);
                assert(rest.skip(1) =~= text@.skip(it.index() + 1));
            }
            match self.write_character(c) {
                Ok(()) => {},
                Err(error) => {
                    return Err(error);
                },
            }
        }
        Ok(())
    }

    /// Takes in one more character of the text.
    pub fn write_character(&mut self, c: char) -> (result: Result<(), Error>)
        ensures
            (final(self)@, result) == old(self)@.push(old(self).dictionaries(), c),
            final(self).dictionaries() == old(self).dictionaries(),
    {
        if c == ' ' || self.unencoded.len() >= BUFFER_LIMIT {
            match self.encode() {
                Ok(()) => {},
                Err(error) => {
                    return Err(error);
                },
            }
        }
        self.unencoded.push(c);
        Ok(())
    }

    /// Ends the text: encodes what remains in the unencoded text, and hands
    /// out every byte that has been written and not taken out before.
    pub fn finalize(self) -> (result: Result<Vec<u8>, Error>)
        ensures
            match result {
                Ok(bytes) => {
                    &&& self@.flush(self.dictionaries()).1 is Ok
                    &&& bytes@ == self@.flush(self.dictionaries()).0.written
                },
                Err(error) => self@.flush(self.dictionaries()).1 == Err::<(), Error>(error),
            },
    {
        let mut encoder = self;
        match encoder.encode() {
            Ok(()) => Ok(encoder.writer),
            Err(error) => Err(error),
        }
    }

    /// The bytes that have been written and not taken out yet.
    pub fn output(&self) -> (bytes: &Vec<u8>)
        ensures
            bytes@ == self@.written,
    {
        &self.writer
    }

    /// Takes out the bytes that have been written, so that the encoder holds
    /// none of them any more.
    pub fn take_output(&mut self) -> (bytes: Vec<u8>)
        ensures
            bytes@ == old(self)@.written,
            final(self)@ == (EncoderView { written: Seq::empty(), ..old(self)@ }),
            final(self).dictionaries() == old(self).dictionaries(),
    {
        let mut bytes: Vec<u8> = Vec::new();
        core::mem::swap(&mut self.writer, &mut bytes);
        bytes
    }

    /// Encode what remains in the unencoded text.
    /// After this method, the unencoded text will be empty.
    pub fn encode(&mut self) -> (result: Result<(), Error>)
        ensures
            (final(self)@, result) == old(self)@.flush(old(self).dictionaries()),
            final(self).dictionaries() == old(self).dictionaries(),
            old(self).dictionaries().resolve(old(self)@.fragment(), old(self)@.state.variation)
                is None ==> result == Err::<(), Error>(Error::UnknownWord) && final(self)@.written
                == old(self)@.written,
    {
        // Check if the buffer represents a word.
        let length = self.unencoded.len();
        let space_led = length > 0 && self.unencoded[0] == ' ';
        // If a space was due, it is implicit in the word before, so ignore it.
        let start: usize = if self.state.prepend_space && space_led {
            1
        } else {
            0
        };
        // The previous word was a toki pona word, but there was no space
        // between this word and the previous.
        let manually_attach_to_previous = self.state.prepend_space && !space_led;
        let toki_pona_word = string_of(&self.unencoded, start, length);
        proof {
            assert(toki_pona_word@ =~= old(self)@.fragment());
        }
        self.unencoded.clear();
        let word = match self.dict_set.get_identifier_variation(
            toki_pona_word.as_str(),
            self.state.variation,
        ) {
            Some(word) => word,
            None => {
                return Err(Error::UnknownWord);
            },
        };
        let instruction = Instruction::TokiPonaWord { word };
        let ghost dictionaries = self.dict_set@;
        // Nothing is written for a word that has no encoding.
        let mut bytes = match instruction.encode(self.dict_set) {
            Ok(bytes) => bytes,
            Err(error) => {
                proof {
                    reveal_with_fuel(encode_all, 3);
                }
                return Err(error);
            },
        };
        proof {
            reveal_with_fuel(encode_all, 3);
            assert(seq![instruction].skip(1) =~= Seq::<Instruction>::empty());
            assert(seq![Instruction::AttachToPrevious, instruction].skip(1) =~= seq![instruction]);
            assert(encode_all(dictionaries, seq![instruction]) == Ok::<Seq<u8>, Error>(
                bytes@ + Seq::<u8>::empty(),
            ));
            assert(bytes@ + Seq::<u8>::empty() =~= bytes@);
        }
        if manually_attach_to_previous {
            // We expected a space character, but one was not given.
            // We must emit an instruction to attach this word to the previous
            // word when decoding.
            match Instruction::AttachToPrevious.encode(self.dict_set) {
                Ok(mut attach) => self.write(&mut attach),
                Err(error) => {
                    return Err(error);
                },
            }
        }
        self.write(&mut bytes);
        // If the next word is a toki pona word, we will expect to put a space before it.
        self.state.prepend_space = true;
        proof {
            let expected = old(self)@.flush(dictionaries).0;
            assert(self@.written =~= expected.written);
            assert(self@.unencoded =~= expected.unencoded);
        }
        Ok(())
    }

    /// Writes the given bytes behind those written before, and takes them
    /// out of `bytes`.
    fn write(&mut self, bytes: &mut Vec<u8>)
        ensures
            final(self)@ == (EncoderView { written: old(self)@.written + old(bytes)@, ..old(self)@ }),
            final(self).dictionaries() == old(self).dictionaries(),
            final(bytes)@ == Seq::<u8>::empty(),
    {
        self.writer.append(bytes);
    }
}

/// What a decoder holds at a moment: its state and the text that it has
/// written.
pub struct DecoderView {
    pub state: EncodingState,
    pub written: Seq<char>,
}

impl DecoderView {
    /// A decoder that has read nothing yet.
    pub open spec fn initial() -> DecoderView {
        DecoderView {
            state: EncodingState { variation: Variation::Default, prepend_space: false },
            written: Seq::empty(),
        }
    }

    /// Carries out one instruction. A word is written in the active
    /// orthography, behind a space if one is due, and has a space due before
    /// the next word; attaching cancels the space that is due.
    pub open spec fn execute(self, dictionaries: DictionarySetView, instruction: Instruction)
        -> DecoderView {
        match instruction {
            Instruction::TokiPonaWord { word } => DecoderView {
                state: EncodingState { prepend_space: true, ..self.state },
                written: self.written + (if self.state.prepend_space {
                    seq![' ']
                } else {
                    Seq::empty()
                }) + dictionaries.spelling(word, self.state.variation),
            },
            Instruction::AttachToPrevious => DecoderView {
                state: EncodingState { prepend_space: false, ..self.state },
                ..self
            },
        }
    }

    /// Reads one byte: carries out the instruction that it stands for, or
    /// fails and changes nothing if it stands for none.
    pub open spec fn read(self, dictionaries: DictionarySetView, byte: u8) -> (
        DecoderView,
        Result<(), Error>,
    ) {
        match Instruction::spec_decode(dictionaries, byte) {
            Ok(instruction) => (self.execute(dictionaries, instruction), Ok(())),
            Err(error) => (self, Err(error)),
        }
    }

    /// Reads the given bytes one by one, up to the first that fails.
    pub open spec fn read_all(self, dictionaries: DictionarySetView, bytes: Seq<u8>) -> (
        DecoderView,
        Result<(), Error>,
    )
        decreases bytes.len(),
    {
        if bytes.len() == 0 {
            (self, Ok(()))
        } else {
            let (next, result) = self.read(dictionaries, bytes[0]);
            if result is Ok {
                next.read_all(dictionaries, bytes.skip(1))
            } else {
                (next, result)
            }
        }
    }

    /// No byte below `ATTACH_TO_PREVIOUS` stands for an instruction.
    pub proof fn lemma_low_byte_fails(self, dictionaries: DictionarySetView, byte: u8)
        requires
            byte < ATTACH_TO_PREVIOUS,
        ensures
            self.read(dictionaries, byte) == (self, Err::<(), Error>(Error::InvalidByte)),
    {
        assert(seq![byte][0] == byte);
    }

    /// A single byte that fails is an invalid byte, whatever else it is.
    pub proof fn lemma_read_fails_as_invalid(self, dictionaries: DictionarySetView, byte: u8)
        ensures
            self.read(dictionaries, byte).1 is Err ==> self.read(dictionaries, byte).1 == Err::<
                (),
                Error,
            >(Error::InvalidByte),
    {
        assert(seq![byte].len() == 1);
    }

    /// Decoding a stream that holds a byte below `ATTACH_TO_PREVIOUS` fails
    /// with `InvalidByte`.
    pub proof fn lemma_stream_with_low_byte_fails(
        self,
        dictionaries: DictionarySetView,
        bytes: Seq<u8>,
        at: int,
    )
        requires
            0 <= at < bytes.len(),
            bytes[at] < ATTACH_TO_PREVIOUS,
        ensures
            self.read_all(dictionaries, bytes).1 == Err::<(), Error>(Error::InvalidByte),
        decreases bytes.len(),
    {
        self.lemma_read_fails_as_invalid(dictionaries, bytes[0]);
        if at == 0 {
            self.lemma_low_byte_fails(dictionaries, bytes[0]);
        } else {
            let (next, result) = self.read(dictionaries, bytes[0]);
            if result is Ok {
                next.lemma_stream_with_low_byte_fails(dictionaries, bytes.skip(1), at - 1);
            }
        }
    }
}

/// Decodes text from the toki pona encoding.
///
/// Every byte is decoded as it is read, so the text written is always
/// complete for the bytes read so far.
pub struct Decoder<'a> {
    dict_set: &'a DictionarySet,
    writer: String,
    state: EncodingState,
}

impl<'a> View for Decoder<'a> {
    type V = DecoderView;

    closed spec fn view(&self) -> DecoderView {
        DecoderView { state: self.state, written: self.writer@ }
    }
}

impl<'a> Decoder<'a> {
    /// The dictionaries whose words the decoder knows.
    pub closed spec fn dictionaries(&self) -> DictionarySetView {
        self.dict_set@
    }

    /// Decodes input bytes into the words of the given dictionaries.
    pub fn new(dict_set: &'a DictionarySet) -> (decoder: Self)
        ensures
            decoder@ == DecoderView::initial(),
            decoder.dictionaries() == dict_set@,
    {
        Self { dict_set, writer: String::new(), state: EncodingState::default() }
    }

    /// Makes `variation` the active orthography: the one in which the words
    /// read from now on are written.
    pub fn set_variation(&mut self, variation: Variation)
        ensures
            final(self)@ == (DecoderView {
                state: EncodingState { variation, ..old(self)@.state },
                ..old(self)@
            }),
            final(self).dictionaries() == old(self).dictionaries(),
    {
        self.state.variation = variation;
    }

    /// Process the given bytes and output the decoded text to the writer.
    /// Stops at the first byte that fails.
    pub fn read_bytes(&mut self, bytes: &[u8]) -> (result: Result<(), Error>)
        ensures
            (final(self)@, result) == old(self)@.read_all(old(self).dictionaries(), bytes@),
            final(self).dictionaries() == old(self).dictionaries(),
    {
        let ghost dictionaries = self.dictionaries();
        proof {
            assert(bytes@.skip(0) =~= bytes@);
        }
        for i in 0..bytes.len()
            invariant
                self.dictionaries() == dictionaries,
                dictionaries == old(self).dictionaries(),
                old(self)@.read_all(dictionaries, bytes@) == self@.read_all(
                    dictionaries,
                    bytes@.skip(i as int),
                ),
        {
            proof {
                assert(bytes@.skip(i as int)[0] == bytes[i as int]);
                assert(bytes@.skip(i as int).skip(1) =~= bytes@.skip(i + 1));
            }
            match self.read_byte(bytes[i]) {
                Ok(()) => {},
                Err(error) => {
                    return Err(error);
                },
            }
        }
        Ok(())
    }

    /// Reads one more byte of the encoded text.
    pub fn read_byte(&mut self, byte: u8) -> (result: Result<(), Error>)
        ensures
            (final(self)@, result) == old(self)@.read(old(self).dictionaries(), byte),
            final(self).dictionaries() == old(self).dictionaries(),
            byte < ATTACH_TO_PREVIOUS ==> result == Err::<(), Error>(Error::InvalidByte),
    {
        proof {
            self@.lemma_read_fails_as_invalid(self.dictionaries(), byte);
            assert(seq![byte][0] == byte);
        }
        match Instruction::decode(self.dict_set, byte) {
            Ok(instruction) => {
                self.execute(instruction);
                Ok(())
            },
            Err(error) => Err(error),
        }
    }

    /// Carries out one instruction.
    pub fn execute(&mut self, instruction: Instruction)
        requires
            instruction.in_set(old(self).dictionaries()),
        ensures
            final(self)@ == old(self)@.execute(old(self).dictionaries(), instruction),
            final(self).dictionaries() == old(self).dictionaries(),
    {
        match instruction {
            Instruction::TokiPonaWord { word } => {
                if self.state.prepend_space {
                    proof {
                        reveal_strlit(" ");
                        assert(" "@ =~= seq![' ']);
                    }
                    self.write(" ");
                }
                let spelling = self.dict_set.get_word_variation(word, self.state.variation);
                self.write(spelling);
                self.state.prepend_space = true;
                proof {
                    let expected = old(self)@.execute(old(self).dictionaries(), instruction);
                    assert(self@.written =~= expected.written);
                }
            },
            Instruction::AttachToPrevious => {
                self.state.prepend_space = false;
            },
        }
    }

    /// Writes `string` behind the text written before.
    fn write(&mut self, string: &str)
        ensures
            final(self)@ == (DecoderView { written: old(self)@.written + string@, ..old(self)@ }),
            final(self).dictionaries() == old(self).dictionaries(),
    {
        self.writer.append(string);
    }

    /// The text that has been written and not taken out yet.
    pub fn output(&self) -> (text: &str)
        ensures
            text@ == self@.written,
    {
        self.writer.as_str()
    }

    /// Takes out the text that has been written, so that the decoder holds
    /// none of it any more.
    pub fn take_output(&mut self) -> (text: String)
        ensures
            text@ == old(self)@.written,
            final(self)@ == (DecoderView { written: Seq::empty(), ..old(self)@ }),
            final(self).dictionaries() == old(self).dictionaries(),
    {
        let mut text = String::new();
        core::mem::swap(&mut self.writer, &mut text);
        text
    }
}

} // verus!
