//! Dictionaries: the words of toki pona with their spellings in each
//! variation, and the table format from which a dictionary is read.

use crate::error::Error;
use crate::table::{lemma_row_has_cell, parse_rows, table_rows};
use crate::text::{chars_of, lines};
use crate::variation::{Variation, VARIATIONS};
use vstd::hash_map::StringHashMap;
use vstd::prelude::*;

verus! {

/// What a reverse lookup table says of `key`.
spec fn looked_up(lookup: Map<Seq<char>, usize>, key: Seq<char>) -> Option<int> {
    if lookup.contains_key(key) {
        Some(lookup[key] as int)
    } else {
        None
    }
}

/// Where `needle` stands last once `last` has been appended to `s`.
proof fn lemma_index_of_last_push<T>(s: Seq<T>, last: T, needle: T)
    ensures
        s.push(last).index_of_last(needle) == (if needle == last {
            Some(s.len() as int)
        } else {
            s.index_of_last(needle)
        }),
{
    let t = s.push(last);
    t.index_of_last_ensures(needle);
    s.index_of_last_ensures(needle);
    if needle == last {
        assert(t[s.len() as int] == needle);
    } else {
        match s.index_of_last(needle) {
            Some(i) => {
                assert(t[i] == needle);
            },
            None => {
                if t.contains(needle) {
                    let j = choose|j: int| 0 <= j < t.len() && t[j] == needle;
                    assert(s[j] == needle);
                }
            },
        }
    }
}

/// Represents the dictionary of words for the default orthographic system
/// for toki pona. This is the version toki pona that is most commonly seen
/// online and in pu/ku.
pub struct DefaultDictionary {
    /// A list of words, written out in toki pona.
    words: Vec<String>,
    /// Maps a word to its index in the dictionary.
    lookup: StringHashMap<usize>,
}

impl View for DefaultDictionary {
    type V = Seq<Seq<char>>;

    closed spec fn view(&self) -> Seq<Seq<char>> {
        self.words.deep_view()
    }
}

impl DefaultDictionary {
    #[verifier::type_invariant]
    spec fn lookup_is_reverse(self) -> bool {
        forall|word: Seq<char>| #[trigger]
            looked_up(self.lookup@, word) == self.words.deep_view().index_of_last(word)
    }

    /// Builds the dictionary of the given words, which keep their positions.
    pub fn new(words: Vec<String>) -> (dictionary: Self)
        ensures
            dictionary@ == words.deep_view(),
    {
        let mut lookup: StringHashMap<usize> = StringHashMap::new();
        let ghost all = words.deep_view();
        proof {
            assert forall|word: Seq<char>| #[trigger]
                looked_up(lookup@, word) == all.take(0).index_of_last(word) by {
                all.take(0).index_of_last_ensures(word);
            }
        }
        for i in 0..words.len()
            invariant
                all == words.deep_view(),
                forall|word: Seq<char>| #[trigger]
                    looked_up(lookup@, word) == all.take(i as int).index_of_last(word),
        {
            let ghost before = lookup@;
            let key = words[i].clone();
            lookup.insert(key, i);
            proof {
                assert(all.take(i + 1) =~= all.take(i as int).push(all[i as int]));
                assert forall|word: Seq<char>| #[trigger]
                    looked_up(lookup@, word) == all.take(i + 1).index_of_last(word) by {
                    lemma_index_of_last_push(all.take(i as int), all[i as int], word);
                    assert(looked_up(before, word) == all.take(i as int).index_of_last(word));
                }
            }
        }
        proof {
            assert(all.take(words.len() as int) =~= all);
        }
        DefaultDictionary { words, lookup }
    }

    /// The number of words.
    pub fn len(&self) -> (len: usize)
        ensures
            len == self@.len(),
    {
        self.words.len()
    }

    /// The word at `position`.
    pub fn word(&self, position: usize) -> (word: &str)
        requires
            position < self@.len(),
        ensures
            word@ == self@[position as int],
    {
        self.words[position].as_str()
    }

    /// The position of `word`: the last one, should the word stand at several.
    pub fn position(&self, word: &str) -> (position: Option<usize>)
        ensures
            match position {
                Some(p) => self@.index_of_last(word@) == Some(p as int),
                None => self@.index_of_last(word@) is None,
            },
    {
        proof {
            use_type_invariant(self);
            assert(looked_up(self.lookup@, word@) == self.words.deep_view().index_of_last(word@));
        }
        match self.lookup.get(word) {
            Some(p) => Some(*p),
            None => None,
        }
    }
}

/// Represents the dictionary of words for a specific variation of toki pona.
pub struct VariationDictionary {
    /// If a word does not exist in this variation, None is returned.
    words: Vec<Option<String>>,
    /// Maps a word to its index in the dictionary.
    lookup: StringHashMap<usize>,
}

impl View for VariationDictionary {
    type V = Seq<Option<Seq<char>>>;

    closed spec fn view(&self) -> Seq<Option<Seq<char>>> {
        self.words.deep_view()
    }
}

impl VariationDictionary {
    #[verifier::type_invariant]
    spec fn lookup_is_reverse(self) -> bool {
        forall|word: Seq<char>| #[trigger]
            looked_up(self.lookup@, word) == self.words.deep_view().index_of_last(Some(word))
    }

    /// Builds the dictionary of the given spellings, which keep their
    /// positions. `None` stands where the variation has no spelling of its own.
    pub fn new(words: Vec<Option<String>>) -> (dictionary: Self)
        ensures
            dictionary@ == words.deep_view(),
    {
        let mut lookup: StringHashMap<usize> = StringHashMap::new();
        let ghost all = words.deep_view();
        proof {
            assert forall|word: Seq<char>| #[trigger]
                looked_up(lookup@, word) == all.take(0).index_of_last(Some(word)) by {
                all.take(0).index_of_last_ensures(Some(word));
            }
        }
        for i in 0..words.len()
            invariant
                all == words.deep_view(),
                forall|word: Seq<char>| #[trigger]
                    looked_up(lookup@, word) == all.take(i as int).index_of_last(Some(word)),
        {
            let ghost before = lookup@;
            proof {
                assert(all.take(i + 1) =~= all.take(i as int).push(all[i as int]));
            }
            match &words[i] {
                Some(word) => {
                    let key = word.clone();
                    lookup.insert(key, i);
                },
                None => {},
            }
            proof {
                assert forall|word: Seq<char>| #[trigger]
                    looked_up(lookup@, word) == all.take(i + 1).index_of_last(Some(word)) by {
                    lemma_index_of_last_push(all.take(i as int), all[i as int], Some(word));
                    assert(looked_up(before, word) == all.take(i as int).index_of_last(
                        Some(word),
                    ));
                }
            }
        }
        proof {
            assert(all.take(words.len() as int) =~= all);
        }
        VariationDictionary { words, lookup }
    }

    /// The number of positions, with or without a spelling.
    pub fn len(&self) -> (len: usize)
        ensures
            len == self@.len(),
    {
        self.words.len()
    }

    /// The spelling at `position`, if the variation has one there.
    pub fn word(&self, position: usize) -> (word: Option<&str>)
        requires
            position < self@.len(),
        ensures
            word.deep_view() == self@[position as int],
    {
        match &self.words[position] {
            Some(word) => Some(word.as_str()),
            None => None,
        }
    }

    /// The position of the spelling `word`: the last one, should it stand at
    /// several.
    pub fn position(&self, word: &str) -> (position: Option<usize>)
        ensures
            match position {
                Some(p) => self@.index_of_last(Some(word@)) == Some(p as int),
                None => self@.index_of_last(Some(word@)) is None,
            },
    {
        proof {
            use_type_invariant(self);
            assert(looked_up(self.lookup@, word@) == self.words.deep_view().index_of_last(
                Some(word@),
            ));
        }
        match self.lookup.get(word) {
            Some(p) => Some(*p),
            None => None,
        }
    }
}

/// What a dictionary holds: its words in the default orthography, and for
/// each variation it knows the spellings of those words in that variation.
pub struct DictionaryView {
    /// The words in the default orthography; a word's index is its position.
    pub words: Seq<Seq<char>>,
    /// For each known variation, the spelling at each position, where the
    /// variation has one of its own.
    pub variations: Map<Variation, Seq<Option<Seq<char>>>>,
}

impl DictionaryView {
    /// Every variation gives a spelling, or none, for exactly the positions
    /// that hold a word.
    pub open spec fn wf(self) -> bool {
        forall|variation: Variation| #[trigger]
            self.variations.contains_key(variation) ==> self.variations[variation].len()
                == self.words.len()
    }

    /// The spelling that the variation has of its own at `position`, if any.
    /// The default orthography has none: its spellings are the words themselves.
    pub open spec fn variant(self, position: int, variation: Variation) -> Option<Seq<char>> {
        if variation != Variation::Default && self.variations.contains_key(variation) && 0
            <= position < self.variations[variation].len() {
            self.variations[variation][position]
        } else {
            None
        }
    }

    /// How the word at `position` is written in `variation`: with the
    /// variation's own spelling where it has one, as in the default orthography
    /// where it has none.
    pub open spec fn spelling(self, position: int, variation: Variation) -> Seq<char> {
        match self.variant(position, variation) {
            Some(spelling) => spelling,
            None => self.words[position],
        }
    }

    /// The position at which the default orthography has `word`.
    pub open spec fn lookup(self, word: Seq<char>) -> Option<int> {
        self.words.index_of_last(word)
    }

    /// The position at which `variation` has the spelling `word`. Only that
    /// variation's own spellings are searched: for the default orthography
    /// the words themselves; for a variation that the dictionary does not
    /// know, nothing.
    pub open spec fn lookup_in(self, word: Seq<char>, variation: Variation) -> Option<int> {
        if variation == Variation::Default {
            self.lookup(word)
        } else if self.variations.contains_key(variation) {
            self.variations[variation].index_of_last(Some(word))
        } else {
            None
        }
    }
}

impl DictionaryView {
    /// Where a variation has no spelling of its own at a position, the word
    /// there is written as in the default orthography.
    pub proof fn lemma_spelling_falls_back(self, position: int, variation: Variation)
        requires
            self.variant(position, variation) is None,
        ensures
            self.spelling(position, variation) == self.spelling(position, Variation::Default),
            self.spelling(position, Variation::Default) == self.words[position],
    {
    }

    /// A lookup finds a position that holds a word, and the spelling that was
    /// looked up is how the variation writes that word.
    pub proof fn lemma_lookup_in_range(self, word: Seq<char>, variation: Variation)
        requires
            self.wf(),
        ensures
            match self.lookup_in(word, variation) {
                Some(position) => {
                    &&& 0 <= position < self.words.len()
                    &&& self.spelling(position, variation) == word
                },
                None => true,
            },
    {
        self.words.index_of_last_ensures(word);
        if variation != Variation::Default && self.variations.contains_key(variation) {
            self.variations[variation].index_of_last_ensures(Some(word));
        }
    }
}

/// The variations that the header of a table names, one for each column
/// after the first; `None` where a column's code names no variation.
pub open spec fn header_tags(header: Seq<Seq<char>>) -> Seq<Option<Variation>> {
    header.skip(1).map_values(|code: Seq<char>| Variation::spec_from_code(code))
}

/// A header is valid if its first column is the code of the default
/// orthography and each of the others is the code of some variation.
pub open spec fn valid_header(header: Seq<Seq<char>>) -> bool {
    &&& header.len() >= 1
    &&& Variation::spec_from_code(header[0]) == Some(Variation::Default)
    &&& !header_tags(header).contains(None)
}

/// A table can be read as a dictionary if it has a header, and a valid one.
pub open spec fn valid_table(rows: Seq<Seq<Seq<char>>>) -> bool {
    rows.len() >= 1 && valid_header(rows[0])
}

/// The column of the table from which the spellings of `variation` are
/// taken: the last one that the header gives to it.
pub open spec fn variation_column(header: Seq<Seq<char>>, variation: Variation) -> Option<int> {
    match header_tags(header).index_of_last(Some(variation)) {
        Some(tag) => Some(tag + 1),
        None => None,
    }
}

/// The spelling that a row gives in `column`: none where the row is too
/// short to have the column, or has nothing in it.
pub open spec fn cell(row: Seq<Seq<char>>, column: int) -> Option<Seq<char>> {
    if 0 <= column < row.len() && row[column].len() > 0 {
        Some(row[column])
    } else {
        None
    }
}

/// The spellings that the rows give in `column`, row by row.
pub open spec fn column_cells(body: Seq<Seq<Seq<char>>>, column: int) -> Seq<Option<Seq<char>>> {
    body.map_values(|row: Seq<Seq<char>>| cell(row, column))
}

/// The dictionary that a table stands for. Its first row is the header; each
/// row after it is one word, whose first cell is the word in the default
/// orthography, whatever it holds.
pub open spec fn table_dictionary(rows: Seq<Seq<Seq<char>>>) -> DictionaryView {
    let header = rows[0];
    let body = rows.skip(1);
    DictionaryView {
        words: body.map_values(|row: Seq<Seq<char>>| row[0]),
        variations: Map::new(
            |variation: Variation| variation_column(header, variation) is Some,
            |variation: Variation| column_cells(body, variation_column(header, variation).unwrap()),
        ),
    }
}

/// The spellings of the variation at `ordinal`, if the dictionaries built so
/// far hold one for it.
spec fn read_columns(variations: Seq<Option<VariationDictionary>>, ordinal: int) -> Option<
    Seq<Option<Seq<char>>>,
> {
    match variations[ordinal] {
        Some(dictionary) => Some(dictionary@),
        None => None,
    }
}

/// The spellings of `variation` that the first `count` columns after the
/// first give, if any of them is given to it.
spec fn columns_so_far(
    header: Seq<Seq<char>>,
    body: Seq<Seq<Seq<char>>>,
    variation: Variation,
    count: int,
) -> Option<Seq<Option<Seq<char>>>> {
    match header_tags(header).take(count).index_of_last(Some(variation)) {
        Some(tag) => Some(column_cells(body, tag + 1)),
        None => None,
    }
}

/// Reads the header of a table: the variation of each column after the first,
/// or nothing if the header is not valid.
fn read_header(header: &Vec<String>) -> (tags: Option<Vec<Variation>>)
    ensures
        match tags {
            Some(tags) => {
                &&& valid_header(header.deep_view())
                &&& tags@.map_values(|variation: Variation| Some(variation)) == header_tags(
                    header.deep_view(),
                )
            },
            None => !valid_header(header.deep_view()),
        },
{
    let ghost codes = header.deep_view();
    if header.len() == 0 {
        return None;
    }
    match Variation::try_from(header[0].as_str()) {
        Ok(Variation::Default) => {},
        _ => {
            return None;
        },
    }
    let mut tags: Vec<Variation> = Vec::new();
    for k in 1..header.len()
        invariant
            codes == header.deep_view(),
            header.len() >= 1,
            tags@.map_values(|variation: Variation| Some(variation)) == header_tags(codes).take(
                k - 1,
            ),
    {
        let ghost before = tags@;
        match Variation::try_from(header[k].as_str()) {
            Ok(variation) => {
                tags.push(variation);
                proof {
                    assert(header_tags(codes)[k - 1] == Some(variation));
                    assert(tags@.map_values(|variation: Variation| Some(variation))
                        =~= before.map_values(|variation: Variation| Some(variation)).push(
                        Some(variation),
                    ));
                    assert(header_tags(codes).take(k as int) =~= header_tags(codes).take(
                        k - 1,
                    ).push(Some(variation)));
                }
            },
            Err(_) => {
                proof {
                    assert(header_tags(codes)[k - 1] is None);
                }
                return None;
            },
        }
    }
    proof {
        assert(header_tags(codes).take(header.len() - 1) =~= header_tags(codes));
        let made = tags@.map_values(|variation: Variation| Some(variation));
        if made.contains(None) {
            let j = choose|j: int| 0 <= j < made.len() && made[j] == None::<Variation>;
            assert(made[j] == Some(tags@[j]));
        }
    }
    Some(tags)
}

/// The first cell of each row after the header.
fn base_words(rows: &Vec<Vec<String>>) -> (words: Vec<String>)
    requires
        rows.len() >= 1,
        forall|i: int| 0 <= i < rows.len() ==> (#[trigger] rows[i]).len() >= 1,
    ensures
        words.deep_view() == rows.deep_view().skip(1).map_values(|row: Seq<Seq<char>>| row[0]),
{
    let ghost body = rows.deep_view().skip(1);
    let mut words: Vec<String> = Vec::new();
    for i in 1..rows.len()
        invariant
            rows.len() >= 1,
            body == rows.deep_view().skip(1),
            forall|i: int| 0 <= i < rows.len() ==> (#[trigger] rows[i]).len() >= 1,
            words.len() == i - 1,
            forall|j: int| 0 <= j < i - 1 ==> (#[trigger] words[j])@ == body[j][0],
    {
        let word = rows[i][0].clone();
        proof {
            assert(body[i - 1] == rows[i as int].deep_view());
            assert(rows[i as int].deep_view()[0] == rows[i as int][0]@);
        }
        words.push(word);
    }
    proof {
        assert(words.deep_view() =~= body.map_values(|row: Seq<Seq<char>>| row[0]));
    }
    words
}

/// What each row after the header gives in `column`.
fn read_column(rows: &Vec<Vec<String>>, column: usize) -> (cells: Vec<Option<String>>)
    requires
        rows.len() >= 1,
    ensures
        cells.deep_view() == column_cells(rows.deep_view().skip(1), column as int),
{
    let ghost body = rows.deep_view().skip(1);
    let mut cells: Vec<Option<String>> = Vec::new();
    for i in 1..rows.len()
        invariant
            rows.len() >= 1,
            body == rows.deep_view().skip(1),
            cells.len() == i - 1,
            forall|j: int|
                0 <= j < i - 1 ==> (#[trigger] cells[j]).deep_view() == cell(body[j], column as int),
    {
        let row = &rows[i];
        proof {
            assert(body[i - 1] == row.deep_view());
            if column < row.len() {
                assert(row.deep_view()[column as int] == row[column as int]@);
            }
        }
        if column < row.len() && !row[column].as_str().is_empty() {
            cells.push(Some(row[column].clone()));
        } else {
            cells.push(None);
        }
    }
    proof {
        assert(cells.deep_view() =~= column_cells(body, column as int));
    }
    cells
}

/// Stores a list of words in toki pona, including variants for
/// other orthographic systems such as tipunsin and CJK characters.
pub struct Dictionary {
    default: DefaultDictionary,
    /// The dictionary of each variation, at the index that is the variation's
    /// ordinal; `None` for a variation that this dictionary does not know.
    variations: Vec<Option<VariationDictionary>>,
}

impl View for Dictionary {
    type V = DictionaryView;

    closed spec fn view(&self) -> DictionaryView {
        DictionaryView {
            words: self.default@,
            variations: Map::new(
                |variation: Variation| self.variations[variation.spec_ordinal()] is Some,
                |variation: Variation| self.variations[variation.spec_ordinal()].unwrap()@,
            ),
        }
    }
}

impl Dictionary {
    #[verifier::type_invariant]
    spec fn aligned(self) -> bool {
        &&& self.variations.len() == VARIATIONS
        &&& forall|i: int|
            0 <= i < self.variations.len() ==> match #[trigger] self.variations[i] {
                Some(variation) => variation@.len() == self.default@.len(),
                None => true,
            }
    }

    /// Parses a CSV file containing a dictionary of toki pona words.
    /// The first row states the variation of each column, the default one
    /// first, and subsequent lines are words in each variation. An empty
    /// entry means that the variation writes the word as the default one does.
    /// No quote marks or extra commas are expected.
    pub fn from_csv(text: &str) -> (result: Result<Dictionary, Error>)
        ensures
            match result {
                Ok(dictionary) => {
                    &&& valid_table(table_rows(text@))
                    &&& dictionary@ == table_dictionary(table_rows(text@))
                    &&& dictionary@.wf()
                },
                Err(error) => {
                    &&& !valid_table(table_rows(text@))
                    &&& error == Error::MalformedDictionarySource
                },
            },
    {
        let chars = chars_of(text);
        let rows = parse_rows(&chars);
        if rows.len() == 0 {
            return Err(Error::MalformedDictionarySource);
        }
        let ghost table = rows.deep_view();
        let ghost header = table[0];
        let ghost body = table.skip(1);
        let tags = match read_header(&rows[0]) {
            Some(tags) => tags,
            None => {
                return Err(Error::MalformedDictionarySource);
            },
        };
        proof {
            assert forall|i: int| 0 <= i < rows.len() implies (#[trigger] rows[i]).len() >= 1 by {
                lemma_row_has_cell(lines(text@)[i]);
                assert(table[i] == rows[i].deep_view());
            }
        }
        let default = DefaultDictionary::new(base_words(&rows));
        let mut variations: Vec<Option<VariationDictionary>> = Vec::new();
        for i in 0..VARIATIONS
            invariant
                variations.len() == i,
                forall|j: int| 0 <= j < i ==> variations[j] is None,
        {
            variations.push(None);
        }
        proof {
            assert forall|variation: Variation|
                read_columns(variations@, #[trigger] variation.spec_ordinal())
                    == columns_so_far(header, body, variation, 0) by {
                header_tags(header).take(0).index_of_last_ensures(Some(variation));
            }
        }
        for k in 0..tags.len()
            invariant
                table == rows.deep_view(),
                header == table[0],
                body == table.skip(1),
                rows.len() >= 1,
                tags@.map_values(|variation: Variation| Some(variation)) == header_tags(header),
                variations.len() == VARIATIONS,
                forall|variation: Variation|
                    read_columns(variations@, #[trigger] variation.spec_ordinal())
                        == columns_so_far(header, body, variation, k as int),
        {
            let ghost before = variations@;
            let tag = tags[k];
            let dictionary = VariationDictionary::new(read_column(&rows, k + 1));
            variations.set(tag.ordinal(), Some(dictionary));
            proof {
                let all = header_tags(header);
                assert(all[k as int] == tags@.map_values(|variation: Variation| Some(variation))[k as int]);
                assert(all.take(k + 1) =~= all.take(k as int).push(Some(tag)));
                assert forall|variation: Variation|
                    read_columns(variations@, #[trigger] variation.spec_ordinal())
                        == columns_so_far(header, body, variation, k + 1) by {
                    lemma_index_of_last_push(all.take(k as int), Some(tag), Some(variation));
                    assert(read_columns(before, variation.spec_ordinal()) == columns_so_far(
                        header,
                        body,
                        variation,
                        k as int,
                    ));
                }
            }
        }
        proof {
            let all = header_tags(header);
            assert(all.take(tags.len() as int) =~= all);
            assert(table == table_rows(text@));
            assert forall|i: int| 0 <= i < variations.len() implies match #[trigger] variations[i] {
                Some(variation) => variation@.len() == default@.len(),
                None => true,
            } by {
                assert(Variation::Default.spec_ordinal() == 0);
                assert(Variation::Tipunsin.spec_ordinal() == 1);
                assert(Variation::Hanzi.spec_ordinal() == 2);
                assert(read_columns(variations@, Variation::Default.spec_ordinal())
                    == columns_so_far(header, body, Variation::Default, tags.len() as int));
                assert(read_columns(variations@, Variation::Tipunsin.spec_ordinal())
                    == columns_so_far(header, body, Variation::Tipunsin, tags.len() as int));
                assert(read_columns(variations@, Variation::Hanzi.spec_ordinal())
                    == columns_so_far(header, body, Variation::Hanzi, tags.len() as int));
            }
        }
        let dictionary = Dictionary { default, variations };
        proof {
            let expected = table_dictionary(table);
            assert(dictionary@.words == expected.words);
            assert forall|variation: Variation|
                dictionary@.variations.contains_key(variation)
                    == #[trigger] expected.variations.contains_key(variation)
                && (dictionary@.variations.contains_key(variation)
                    ==> dictionary@.variations[variation] == expected.variations[variation]) by {
                assert(read_columns(variations@, variation.spec_ordinal()) == columns_so_far(
                    header,
                    body,
                    variation,
                    tags.len() as int,
                ));
            }
            assert(dictionary@.variations =~= expected.variations);
        }
        Ok(dictionary)
    }

    /// The number of words.
    pub fn len(&self) -> (len: usize)
        ensures
            len == self@.words.len(),
    {
        self.default.len()
    }

    /// The word at `position`, written in `variation`. Where the variation is
    /// unknown to this dictionary or has no spelling of its own at that
    /// position, this is the word in the default orthography.
    pub fn spelling(&self, position: usize, variation: Variation) -> (spelling: &str)
        requires
            position < self@.words.len(),
        ensures
            spelling@ == self@.spelling(position as int, variation),
    {
        proof {
            use_type_invariant(self);
        }
        if variation == Variation::Default {
            return self.default.word(position);
        }
        let ordinal = variation.ordinal();
        match &self.variations[ordinal] {
            Some(dictionary) => match dictionary.word(position) {
                Some(spelling) => spelling,
                None => self.default.word(position),
            },
            None => self.default.word(position),
        }
    }

    /// Looks `word` up among the words in the default orthography.
    pub fn lookup(&self, word: &str) -> (position: Option<usize>)
        ensures
            position.is_some() == self@.lookup(word@).is_some(),
            position.is_some() ==> self@.lookup(word@) == Some(position.unwrap() as int),
    {
        self.default.position(word)
    }

    /// Looks `word` up among the spellings of `variation` alone.
    pub fn lookup_in(&self, word: &str, variation: Variation) -> (position: Option<usize>)
        ensures
            position.is_some() == self@.lookup_in(word@, variation).is_some(),
            position.is_some() ==> self@.lookup_in(word@, variation) == Some(
                position.unwrap() as int,
            ),
    {
        proof {
            use_type_invariant(self);
        }
        if variation == Variation::Default {
            return self.default.position(word);
        }
        let ordinal = variation.ordinal();
        match &self.variations[ordinal] {
            Some(dictionary) => dictionary.position(word),
            None => None,
        }
    }
}

} // verus!
