//! Sets of dictionaries, which give every word an identifier and a byte.

use crate::dict::{Dictionary, DictionaryView};
use crate::error::Error;
use crate::variation::Variation;
use vstd::prelude::*;

verus! {

/// The byte that stands for the first word of the first dictionary. The
/// bytes below it are not words.
pub const WORD_OFFSET: u8 = 0x22;

/// Uniquely identifies a word, and possibly a variant.
/// Linked to a single DictionarySet.
#[derive(Debug, Clone, Copy, PartialEq, Eq, Structural)]
pub struct WordIdentifier {
    /// Which dictionary is this word stored in?
    pub dict: usize,
    /// What index is this word at in the dictionary above?
    pub word: usize,
}

/// What a dictionary set holds: its dictionaries, in list order.
pub struct DictionarySetView {
    pub dictionaries: Seq<DictionaryView>,
}

impl DictionarySetView {
    /// Whether `identifier` names a word of this set.
    pub open spec fn contains(self, identifier: WordIdentifier) -> bool {
        &&& identifier.dict < self.dictionaries.len()
        &&& identifier.word < self.dictionaries[identifier.dict as int].words.len()
    }

    /// The set can be held in memory: it has no more dictionaries, and none
    /// of them more words, than can be counted, and each dictionary is well
    /// formed.
    pub open spec fn wf(self) -> bool {
        &&& self.dictionaries.len() <= usize::MAX
        &&& forall|i: int|
            0 <= i < self.dictionaries.len() ==> {
                &&& (#[trigger] self.dictionaries[i]).wf()
                &&& self.dictionaries[i].words.len() <= usize::MAX
            }
    }

    /// How many words the first `count` dictionaries hold together.
    pub open spec fn words_before(self, count: int) -> int
        decreases count,
    {
        if count <= 0 {
            0
        } else {
            self.words_before(count - 1) + self.dictionaries[count - 1].words.len()
        }
    }

    /// How many words the set holds.
    pub open spec fn word_count(self) -> int {
        self.words_before(self.dictionaries.len() as int)
    }

    /// The position of a word in the list of all words of the set, dictionary
    /// after dictionary.
    pub open spec fn global_index(self, identifier: WordIdentifier) -> int {
        self.words_before(identifier.dict as int) + identifier.word
    }

    /// The first hit for `word` among the spellings of `variation`, searching
    /// the dictionaries in list order from the one at `from` on.
    pub open spec fn hit_from(self, word: Seq<char>, variation: Variation, from: int) -> Option<
        WordIdentifier,
    >
        decreases self.dictionaries.len() - from,
    {
        if from < 0 || from >= self.dictionaries.len() {
            None
        } else {
            match self.dictionaries[from].lookup_in(word, variation) {
                Some(position) => Some(
                    WordIdentifier { dict: from as usize, word: position as usize },
                ),
                None => self.hit_from(word, variation, from + 1),
            }
        }
    }

    /// The first hit for `word` among the spellings of `variation`, searching
    /// the dictionaries in list order.
    pub open spec fn hit(self, word: Seq<char>, variation: Variation) -> Option<WordIdentifier> {
        self.hit_from(word, variation, 0)
    }

    /// The word that `word` names when it is read in `variation`: the hit
    /// among the spellings of that variation when there is one, else the hit
    /// among the words in the default orthography, else nothing.
    pub open spec fn resolve(self, word: Seq<char>, variation: Variation) -> Option<
        WordIdentifier,
    > {
        match self.hit(word, variation) {
            Some(identifier) => Some(identifier),
            None => self.hit(word, Variation::Default),
        }
    }

    /// How the word that `identifier` names is written in `variation`.
    pub open spec fn spelling(self, identifier: WordIdentifier, variation: Variation) -> Seq<
        char,
    > {
        self.dictionaries[identifier.dict as int].spelling(identifier.word as int, variation)
    }

    /// The bytes that stand for a word: one byte, the word's global index
    /// above `WORD_OFFSET`, as long as that fits in a byte.
    pub open spec fn encode(self, identifier: WordIdentifier) -> Result<Seq<u8>, Error> {
        if identifier.dict < self.dictionaries.len() && self.global_index(identifier) + WORD_OFFSET
            <= u8::MAX {
            Ok(seq![(self.global_index(identifier) + WORD_OFFSET) as u8])
        } else {
            Err(Error::UnsupportedEncodingRange)
        }
    }

    /// The word at `index` in the list of the words of the dictionaries from
    /// the one at `from` on.
    pub open spec fn locate(self, index: int, from: int) -> Option<WordIdentifier>
        decreases self.dictionaries.len() - from,
    {
        if from < 0 || from >= self.dictionaries.len() {
            None
        } else if index < self.dictionaries[from].words.len() {
            Some(WordIdentifier { dict: from as usize, word: index as usize })
        } else {
            self.locate(index - self.dictionaries[from].words.len(), from + 1)
        }
    }

    /// The word that the given bytes stand for.
    pub open spec fn decode(self, bytes: Seq<u8>) -> Result<WordIdentifier, Error> {
        if bytes.len() != 1 {
            Err(Error::UnsupportedEncodingRange)
        } else if bytes[0] < WORD_OFFSET {
            Err(Error::InvalidByte)
        } else {
            match self.locate(bytes[0] - WORD_OFFSET, 0) {
                Some(identifier) => Ok(identifier),
                None => Err(Error::InvalidByte),
            }
        }
    }
}

/// Indexes all words and variants in toki pona.
/// This uses multiple dictionaries to categorise each word.
pub struct DictionarySet {
    /// A list of dictionaries whose words will be directly encoded as a single byte.
    base_dictionaries: Vec<Dictionary>,
}

impl View for DictionarySet {
    type V = DictionarySetView;

    closed spec fn view(&self) -> DictionarySetView {
        DictionarySetView {
            dictionaries: self.base_dictionaries@.map_values(|dictionary: Dictionary| dictionary@),
        }
    }
}

impl DictionarySet {
    /// Makes a set of the given dictionaries, in the given order.
    pub fn new(base_dictionaries: Vec<Dictionary>) -> (set: Self)
        ensures
            set@.dictionaries == base_dictionaries@.map_values(|dictionary: Dictionary| dictionary@),
    {
        DictionarySet { base_dictionaries }
    }

    /// Whether `identifier` names a word of this set.
    pub fn contains(&self, identifier: WordIdentifier) -> (found: bool)
        ensures
            found == self@.contains(identifier),
    {
        identifier.dict < self.base_dictionaries.len()
            && identifier.word < self.base_dictionaries[identifier.dict].len()
    }

    /// Looks up a toki pona word, written in the given variation.
    /// If this lookup fails, the lookup will be retried in the default orthography.
    pub fn get_identifier_variation(&self, word: &str, variation: Variation) -> (identifier: Option<
        WordIdentifier,
    >)
        ensures
            identifier == self@.resolve(word@, variation),
    {
        if variation == Variation::Default {
            return self.get_identifier(word);
        }
        for dict_idx in 0..self.base_dictionaries.len()
            invariant
                self@.hit(word@, variation) == self@.hit_from(word@, variation, dict_idx as int),
        {
            if let Some(result) = self.base_dictionaries[dict_idx].lookup_in(word, variation) {
                return Some(WordIdentifier { dict: dict_idx, word: result });
            }
        }
        self.get_identifier(word)
    }

    /// Looks up a toki pona word, written in the default orthography.
    pub fn get_identifier(&self, word: &str) -> (identifier: Option<WordIdentifier>)
        ensures
            identifier == self@.hit(word@, Variation::Default),
    {
        for dict_idx in 0..self.base_dictionaries.len()
            invariant
                self@.hit(word@, Variation::Default) == self@.hit_from(
                    word@,
                    Variation::Default,
                    dict_idx as int,
                ),
        {
            if let Some(result) = self.base_dictionaries[dict_idx].lookup(word) {
                return Some(WordIdentifier { dict: dict_idx, word: result });
            }
        }
        None
    }

    /// Looks up a word identifier and returns the toki pona word in the given orthography.
    pub fn get_word_variation(&self, identifier: WordIdentifier, variation: Variation) -> (word:
        &str)
        requires
            self@.contains(identifier),
        ensures
            word@ == self@.spelling(identifier, variation),
    {
        self.base_dictionaries[identifier.dict].spelling(identifier.word, variation)
    }

    /// Returns a list of bytes representing this word.
    pub fn word_to_bytes(&self, word: WordIdentifier) -> (bytes: Result<Vec<u8>, Error>)
        ensures
            match bytes {
                Ok(bytes) => self@.encode(word) == Ok::<Seq<u8>, Error>(bytes@),
                Err(error) => self@.encode(word) == Err::<Seq<u8>, Error>(error),
            },
    {
        let highest: usize = (u8::MAX - WORD_OFFSET) as usize;
        if word.dict >= self.base_dictionaries.len() || word.word > highest {
            proof {
                self@.lemma_words_before_grows(0, word.dict as int);
            }
            return Err(Error::UnsupportedEncodingRange);
        }
        let mut index: usize = word.word;
        for dict_idx in 0..word.dict
            invariant
                word.dict < self.base_dictionaries.len(),
                highest == u8::MAX - WORD_OFFSET,
                index == self@.words_before(dict_idx as int) + word.word,
                index <= highest,
        {
            let count = self.base_dictionaries[dict_idx].len();
            if count > highest - index {
                proof {
                    self@.lemma_words_before_grows(dict_idx + 1, word.dict as int);
                }
                return Err(Error::UnsupportedEncodingRange);
            }
            index += count;
        }
        let byte: u8 = WORD_OFFSET + index as u8;
        let mut bytes: Vec<u8> = Vec::new();
        bytes.push(byte);
        proof {
            assert(bytes@ =~= seq![byte]);
        }
        Ok(bytes)
    }

    /// Returns the word identifier representing this word.
    pub fn word_from_bytes(&self, bytes: &[u8]) -> (word: Result<WordIdentifier, Error>)
        ensures
            word == self@.decode(bytes@),
            word matches Ok(identifier) ==> self@.contains(identifier),
    {
        if bytes.len() != 1 {
            return Err(Error::UnsupportedEncodingRange);
        }
        if bytes[0] < WORD_OFFSET {
            return Err(Error::InvalidByte);
        }
        // This is a single-byte word, which must be in the base dictionaries.
        let mut index: usize = (bytes[0] - WORD_OFFSET) as usize;
        for dict_index in 0..self.base_dictionaries.len()
            invariant
                bytes.len() == 1,
                bytes[0] >= WORD_OFFSET,
                self@.locate(bytes[0] - WORD_OFFSET, 0) == self@.locate(
                    index as int,
                    dict_index as int,
                ),
        {
            let count = self.base_dictionaries[dict_index].len();
            if index < count {
                return Ok(WordIdentifier { dict: dict_index, word: index });
            }
            index -= count;
        }
        Err(Error::InvalidByte)
    }
}

impl DictionarySetView {
    /// A word is found again from its place among the words of the
    /// dictionaries from the one at `from` on.
    pub proof fn lemma_locate_finds(self, identifier: WordIdentifier, from: int)
        requires
            self.contains(identifier),
            0 <= from <= identifier.dict,
        ensures
            self.locate(self.global_index(identifier) - self.words_before(from), from) == Some(
                identifier,
            ),
        decreases identifier.dict - from,
    {
        if from < identifier.dict {
            self.lemma_words_before_grows(from + 1, identifier.dict as int);
            self.lemma_locate_finds(identifier, from + 1);
        }
    }

    /// What `locate` finds is a word of the set, and it stands at the index
    /// that was asked for.
    pub proof fn lemma_locate_found(self, index: int, from: int)
        requires
            self.wf(),
            0 <= index,
            0 <= from,
        ensures
            match self.locate(index, from) {
                Some(identifier) => {
                    &&& self.contains(identifier)
                    &&& from <= identifier.dict
                    &&& self.global_index(identifier) == self.words_before(from) + index
                },
                None => true,
            },
        decreases self.dictionaries.len() - from,
    {
        if from < self.dictionaries.len() && index >= self.dictionaries[from].words.len() {
            self.lemma_locate_found(index - self.dictionaries[from].words.len(), from + 1);
        }
    }

    /// Decoding the bytes of a word gives the word back: for every word of
    /// the set that has an encoding, `decode(encode(word)) == word`.
    pub proof fn lemma_decode_encode(self, identifier: WordIdentifier)
        requires
            self.contains(identifier),
            self.encode(identifier) is Ok,
        ensures
            self.decode(self.encode(identifier).unwrap()) == Ok::<WordIdentifier, Error>(
                identifier,
            ),
    {
        self.lemma_words_before_grows(0, identifier.dict as int);
        self.lemma_locate_finds(identifier, 0);
    }

    /// Bytes that decode to a word are the encoding of that word, and of no
    /// other: `encode(decode(bytes)) == bytes`.
    pub proof fn lemma_encode_decode(self, bytes: Seq<u8>)
        requires
            self.wf(),
            self.decode(bytes) is Ok,
        ensures
            self.contains(self.decode(bytes).unwrap()),
            self.encode(self.decode(bytes).unwrap()) == Ok::<Seq<u8>, Error>(bytes),
    {
        self.lemma_locate_found(bytes[0] - WORD_OFFSET, 0);
        let identifier = self.decode(bytes).unwrap();
        assert(seq![(self.global_index(identifier) + WORD_OFFSET) as u8] =~= bytes);
    }

    /// A hit is in the first dictionary, in list order from `from` on, in
    /// which the variation has the spelling; there is none only if no
    /// dictionary from there on has it.
    pub proof fn lemma_hit_is_first(self, word: Seq<char>, variation: Variation, from: int)
        requires
            self.wf(),
            0 <= from,
        ensures
            match self.hit_from(word, variation, from) {
                Some(identifier) => {
                    &&& self.contains(identifier)
                    &&& from <= identifier.dict
                    &&& self.dictionaries[identifier.dict as int].lookup_in(word, variation)
                        == Some(identifier.word as int)
                    &&& forall|i: int|
                        from <= i < identifier.dict ==> (#[trigger] self.dictionaries[i]).lookup_in(
                            word,
                            variation,
                        ) is None
                },
                None => forall|i: int|
                    from <= i < self.dictionaries.len() ==> (#[trigger] self.dictionaries[i]).lookup_in(
                        word,
                        variation,
                    ) is None,
            },
        decreases self.dictionaries.len() - from,
    {
        if from < self.dictionaries.len() {
            let dictionary = self.dictionaries[from];
            dictionary.lemma_lookup_in_range(word, variation);
            if dictionary.lookup_in(word, variation) is None {
                self.lemma_hit_is_first(word, variation, from + 1);
            }
        }
    }

    /// In a set whose words all have room in the bytes from `WORD_OFFSET` up,
    /// every word has an encoding.
    pub proof fn lemma_small_set_encodes(self, identifier: WordIdentifier)
        requires
            self.contains(identifier),
            self.word_count() + WORD_OFFSET <= u8::MAX + 1,
        ensures
            self.encode(identifier) is Ok,
    {
        self.lemma_words_before_grows(identifier.dict + 1, self.dictionaries.len() as int);
    }

    /// The more dictionaries are counted, the more words there are before.
    pub proof fn lemma_words_before_grows(self, fewer: int, more: int)
        requires
            fewer <= more,
        ensures
            0 <= self.words_before(fewer) <= self.words_before(more),
        decreases more - fewer, more,
    {
        if fewer < more {
            self.lemma_words_before_grows(fewer, more - 1);
        } else if fewer > 0 {
            self.lemma_words_before_grows(fewer - 1, fewer - 1);
        }
    }
}

} // verus!
