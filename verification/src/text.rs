//! Splitting text at separators and at line ends.

use vstd::prelude::*;

verus! {

/// `String::push` appends the given character to the end of the string and
/// leaves the characters before it as they were.
pub assume_specification[ String::push ](s: &mut String, ch: char)
    ensures
        final(s)@ == old(s)@.push(ch),
;

/// The pieces of `s` that lie between the occurrences of `sep`. There is one
/// piece more than there are occurrences, and a piece may be empty.
pub open spec fn split(s: Seq<char>, sep: char) -> Seq<Seq<char>>
    decreases s.len(),
{
    match s.index_of_first(sep) {
        None => seq![s],
        Some(i) => {
            proof {
                s.index_of_first_ensures(sep);
            }
            seq![s.take(i)] + split(s.skip(i + 1), sep)
        },
    }
}

/// `line` without the carriage return at its end, if it has one there.
pub open spec fn strip_cr(line: Seq<char>) -> Seq<char> {
    if line.len() > 0 && line.last() == '\r' {
        line.drop_last()
    } else {
        line
    }
}

/// The lines of `s`. A line ends with a line feed, or with a carriage return
/// and a line feed; neither belongs to the line. What follows the last line
/// feed is a line of its own, taken as it is, unless it is empty.
pub open spec fn lines(s: Seq<char>) -> Seq<Seq<char>> {
    let pieces = split(s, '\n');
    let ended = pieces.drop_last().map_values(|line: Seq<char>| strip_cr(line));
    if pieces.last().len() == 0 {
        ended
    } else {
        ended.push(pieces.last())
    }
}

/// The pieces put together again, with `sep` between each two.
pub open spec fn join(pieces: Seq<Seq<char>>, sep: char) -> Seq<char>
    decreases pieces.len(),
{
    if pieces.len() == 0 {
        Seq::empty()
    } else if pieces.len() == 1 {
        pieces[0]
    } else {
        pieces[0] + seq![sep] + join(pieces.skip(1), sep)
    }
}

/// Where the first `sep` of `s` stands, given that it stands at `i`.
pub proof fn lemma_first_at(s: Seq<char>, sep: char, i: int)
    requires
        0 <= i < s.len(),
        s[i] == sep,
        forall|k: int| 0 <= k < i ==> s[k] != sep,
    ensures
        s.index_of_first(sep) == Some(i),
{
    s.index_of_first_ensures(sep);
}

/// Splitting loses nothing and leaves no separator behind: there is at least
/// one piece, no piece holds `sep`, and the pieces joined by `sep` are `s`.
pub proof fn lemma_split_joins(s: Seq<char>, sep: char)
    ensures
        split(s, sep).len() >= 1,
        forall|i: int| 0 <= i < split(s, sep).len() ==> !(#[trigger] split(s, sep)[i]).contains(sep),
        join(split(s, sep), sep) == s,
    decreases s.len(),
{
    s.index_of_first_ensures(sep);
    match s.index_of_first(sep) {
        None => {},
        Some(at) => {
            let first = s.take(at);
            let rest = split(s.skip(at + 1), sep);
            lemma_split_joins(s.skip(at + 1), sep);
            let pieces = seq![first] + rest;
            assert(pieces.skip(1) =~= rest);
            assert(first + seq![sep] + s.skip(at + 1) =~= s);
            assert forall|i: int| 0 <= i < pieces.len() implies !(#[trigger] pieces[i]).contains(
                sep,
            ) by {
                if i == 0 {
                    if first.contains(sep) {
                        let k = choose|k: int| 0 <= k < first.len() && first[k] == sep;
                        assert(s[k] == sep);
                    }
                } else {
                    assert(pieces[i] == rest[i - 1]);
                }
            }
        },
    }
}

/// Pieces that hold no separator are the pieces into which their joining
/// splits.
pub proof fn lemma_split_of_join(pieces: Seq<Seq<char>>, sep: char)
    requires
        pieces.len() >= 1,
        forall|i: int| 0 <= i < pieces.len() ==> !(#[trigger] pieces[i]).contains(sep),
    ensures
        split(join(pieces, sep), sep) == pieces,
    decreases pieces.len(),
{
    let s = join(pieces, sep);
    s.index_of_first_ensures(sep);
    if pieces.len() == 1 {
        assert(seq![pieces[0]] =~= pieces);
    } else {
        let first = pieces[0];
        let rest = pieces.skip(1);
        let at = first.len() as int;
        assert forall|i: int| 0 <= i < rest.len() implies !(#[trigger] rest[i]).contains(sep) by {
            assert(rest[i] == pieces[i + 1]);
        }
        lemma_split_of_join(rest, sep);
        assert(s[at] == sep);
        assert forall|k: int| 0 <= k < at implies s[k] != sep by {
            assert(s[k] == first[k]);
        }
        lemma_first_at(s, sep, at);
        assert(s.take(at) =~= first);
        assert(s.skip(at + 1) =~= join(rest, sep));
        assert(seq![first] + rest =~= pieces);
    }
}

/// The lines of a text, line by line: the first line ends before the first
/// line feed, and the lines after it are the lines of what follows that line
/// feed.
pub proof fn lemma_lines_unfold(s: Seq<char>)
    ensures
        lines(s) == (if s.len() == 0 {
            Seq::empty()
        } else {
            match s.index_of_first('\n') {
                None => seq![s],
                Some(at) => seq![strip_cr(s.take(at))] + lines(s.skip(at + 1)),
            }
        }),
{
    s.index_of_first_ensures('\n');
    let pieces = split(s, '\n');
    match s.index_of_first('\n') {
        None => {
            assert(pieces.drop_last() =~= Seq::<Seq<char>>::empty());
            if s.len() == 0 {
                assert(lines(s) =~= Seq::<Seq<char>>::empty());
            } else {
                assert(lines(s) =~= seq![s]);
            }
        },
        Some(at) => {
            let rest = split(s.skip(at + 1), '\n');
            lemma_split_joins(s.skip(at + 1), '\n');
            assert(pieces.drop_last() =~= seq![s.take(at)] + rest.drop_last());
            assert(pieces.last() == rest.last());
            assert(pieces.drop_last().map_values(|line: Seq<char>| strip_cr(line)) =~= seq![
                strip_cr(s.take(at)),
            ] + rest.drop_last().map_values(|line: Seq<char>| strip_cr(line)));
            assert(lines(s) =~= seq![strip_cr(s.take(at))] + lines(s.skip(at + 1)));
        },
    }
}

/// The characters of `text`, in order.
pub fn chars_of(text: &str) -> (chars: Vec<char>)
    ensures
        chars@ == text@,
{
    let mut chars: Vec<char> = Vec::new();
    for c in it: text.chars()
        invariant
            it.seq() == text@,
            chars@ == text@.take(it.index() as int),
    {
        chars.push(c);
    }
    chars
}

/// The string that holds `chars[from..to]`.
pub fn string_of(chars: &Vec<char>, from: usize, to: usize) -> (text: String)
    requires
        from <= to <= chars.len(),
    ensures
        text@ == chars@.subrange(from as int, to as int),
{
    let mut text = String::new();
    let mut i: usize = from;
    while i < to
        invariant
            from <= i <= to <= chars.len(),
            text@ == chars@.subrange(from as int, i as int),
        decreases to - i,
    {
        text.push(chars[i]);
        i += 1;
    }
    text
}

/// The position of the first `sep` in `chars[from..to]`, or `to` if there is none.
pub fn find(chars: &Vec<char>, from: usize, to: usize, sep: char) -> (at: usize)
    requires
        from <= to <= chars.len(),
    ensures
        from <= at <= to,
        chars@.subrange(from as int, to as int).index_of_first(sep) == (if at < to {
            Some(at - from)
        } else {
            None
        }),
{
    let mut at: usize = from;
    while at < to && chars[at] != sep
        invariant
            from <= at <= to <= chars.len(),
            forall|k: int| from <= k < at ==> chars[k] != sep,
        decreases to - at,
    {
        at += 1;
    }
    proof {
        let s = chars@.subrange(from as int, to as int);
        if at < to {
            lemma_first_at(s, sep, at - from);
        } else {
            s.index_of_first_ensures(sep);
        }
    }
    at
}

/// Splits `chars[from..to]` at every `sep`.
pub fn split_range(chars: &Vec<char>, from: usize, to: usize, sep: char) -> (pieces: Vec<String>)
    requires
        from <= to <= chars.len(),
    ensures
        pieces.deep_view() == split(chars@.subrange(from as int, to as int), sep),
{
    let ghost whole = chars@.subrange(from as int, to as int);
    let mut pieces: Vec<String> = Vec::new();
    let mut start: usize = from;
    loop
        invariant
            from <= start <= to <= chars.len(),
            whole == chars@.subrange(from as int, to as int),
            split(whole, sep) == pieces.deep_view() + split(
                chars@.subrange(start as int, to as int),
                sep,
            ),
        decreases to - start,
    {
        let ghost rest = chars@.subrange(start as int, to as int);
        let ghost before = pieces.deep_view();
        let at = find(chars, start, to, sep);
        let piece = string_of(chars, start, at);
        pieces.push(piece);
        proof {
            assert(pieces.deep_view() =~= before.push(piece@));
            assert(rest.take(at - start) =~= piece@);
        }
        if at == to {
            proof {
                assert(rest.take(at - start) =~= rest);
                assert(split(whole, sep) =~= pieces.deep_view());
            }
            return pieces;
        }
        proof {
            assert(rest.skip(at - start + 1) =~= chars@.subrange(at + 1, to as int));
            assert(split(whole, sep) =~= pieces.deep_view() + split(
                chars@.subrange(at + 1, to as int),
                sep,
            ));
        }
        start = at + 1;
    }
}

} // verus!
