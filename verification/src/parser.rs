//! The source loader: from the text of a practice-set file to its list of
//! word/definition pairs.
//!
//! A file holds one entry per line, the word and its definition separated by
//! the first `;` of the line. White space around either is dropped, and with
//! it the carriage return that may end a line. A line without `;`, or with
//! nothing on one side of it, is no entry and is passed over: it does not
//! stop the reading of the lines that follow.

use crate::text::{
    chars_of, find, first_index, is_trimmed, lemma_first_index, lemma_first_index_is, lemma_trim,
    lemma_trim_is, lowercase, string_of, trim, trim_bounds,
};
use crate::SPLIT_DELIMITER;
use vstd::prelude::*;

verus! {

/// A word and its definition, as texts.
pub type Pair = (Seq<char>, Seq<char>);

/// The lines of `content`: what stands between its line feeds. A line feed at
/// the very end opens no further line.
pub open spec fn lines(content: Seq<char>) -> Seq<Seq<char>>
    decreases content.len(),
{
    if content.len() == 0 {
        Seq::empty()
    } else {
        let n = first_index(content, '\n');
        let rest = if n < content.len() {
            content.skip(n as int + 1)
        } else {
            Seq::empty()
        };
        seq![content.take(n as int)] + lines(rest)
    }
}

/// The entry that `line` holds, if it holds one: the trimmed texts on both
/// sides of its first delimiter, neither of them empty.
pub open spec fn entry_of(line: Seq<char>) -> Option<Pair> {
    let k = first_index(line, SPLIT_DELIMITER);
    if k < line.len() {
        let front = trim(line.take(k as int));
        let back = trim(line.skip(k as int + 1));
        if front.len() > 0 && back.len() > 0 {
            Some((front, back))
        } else {
            None
        }
    } else {
        None
    }
}

/// Whether `line` holds an entry.
pub open spec fn is_entry(line: Seq<char>) -> bool {
    entry_of(line) is Some
}

/// The pairs of a file with text `content`: the entries of its lines, in the
/// order of the lines.
pub open spec fn parse(content: Seq<char>) -> Seq<Pair> {
    lines(content).filter_map(|line: Seq<char>| entry_of(line))
}

/// The entry held by the characters of `chars` from `from` up to `to`.
fn entry_at(chars: &Vec<char>, from: usize, to: usize) -> (entry: Option<(String, String)>)
    requires
        from <= to <= chars.len(),
    ensures
        entry.deep_view() == entry_of(chars@.subrange(from as int, to as int)),
{
    let ghost line = chars@.subrange(from as int, to as int);
    let k = find(chars, from, to, SPLIT_DELIMITER);
    if k == to {
        return None;
    }
    let (a, b) = trim_bounds(chars, from, k);
    let (c, d) = trim_bounds(chars, k + 1, to);
    assert(line.take(k - from) =~= chars@.subrange(from as int, k as int));
    assert(line.skip(k - from + 1) =~= chars@.subrange(k + 1, to as int));
    if a == b || c == d {
        None
    } else {
        Some((string_of(chars, a, b), string_of(chars, c, d)))
    }
}

/// Reads the entry that `line` holds, if it holds one.
pub fn parse_line(line: &str) -> (entry: Option<(String, String)>)
    ensures
        entry.deep_view() == entry_of(line@),
{
    let chars = chars_of(line);
    assert(chars@.subrange(0, chars.len() as int) =~= chars@);
    entry_at(&chars, 0, chars.len())
}

/// Reads the pairs of a practice-set file from its text.
pub fn parse_file(content: String) -> (pairs: Vec<(String, String)>)
    ensures
        pairs.deep_view() == parse(content@),
{
    let chars = chars_of(content.as_str());
    let n = chars.len();
    let mut pairs: Vec<(String, String)> = Vec::new();
    let mut start: usize = 0;
    let ghost read: Seq<Seq<char>> = Seq::empty();
    assert(chars@.skip(0) =~= chars@);
    assert(pairs.deep_view() =~= Seq::empty());
    while start < n
        invariant
            n == chars.len(),
            start <= n,
            chars@ == content@,
            read + lines(chars@.skip(start as int)) == lines(chars@),
            pairs.deep_view() == read.filter_map(|line: Seq<char>| entry_of(line)),
        decreases n - start,
    {
        let ghost tail = chars@.skip(start as int);
        let ghost before = pairs.deep_view();
        let end = find(&chars, start, n, '\n');
        let entry = entry_at(&chars, start, end);
        let next = if end < n {
            end + 1
        } else {
            n
        };
        proof {
            let line = chars@.subrange(start as int, end as int);
            assert(chars@.subrange(start as int, n as int) =~= tail);
            assert(tail.take(end - start) =~= line);
            if end < n {
                assert(tail.skip(end - start + 1) =~= chars@.skip(next as int));
            } else {
                assert(chars@.skip(next as int) =~= Seq::<char>::empty());
            }
            assert(lines(tail) == seq![line] + lines(chars@.skip(next as int)));
            assert(read.push(line) + lines(chars@.skip(next as int)) =~= read + lines(tail));
            assert(read.push(line).drop_last() =~= read);
            read = read.push(line);
        }
        match entry {
            Some(pair) => {
                let ghost added = pair.deep_view();
                pairs.push(pair);
                assert(pairs.deep_view() =~= before + seq![added]);
            },
            None => {},
        }
        start = next;
    }
    proof {
        assert(lines(chars@.skip(n as int)) =~= Seq::<Seq<char>>::empty());
        assert(read =~= lines(chars@));
    }
    pairs
}

/// Builds the catalog of practice sets from what was read: for each source,
/// under its key, the pairs of its text put in lower case. The catalog keeps
/// the order of the sources.
pub fn parse_all<K>(sources: Vec<(K, String)>) -> (catalog: Vec<(K, Vec<(String, String)>)>)
    ensures
        catalog.len() == sources.len(),
        forall|i: int|
            0 <= i < sources.len() ==> (#[trigger] catalog[i]).0 == sources[i].0
                && catalog[i].1.deep_view() == parse(lowercase(sources[i].1@)),
{
    let mut catalog: Vec<(K, Vec<(String, String)>)> = Vec::new();
    let ghost given = sources@;
    for source in iter: sources.into_iter()
        invariant
            iter.seq() == given,
            catalog.len() == iter.index(),
            forall|i: int|
                0 <= i < iter.index() ==> (#[trigger] catalog[i]).0 == given[i].0
                    && catalog[i].1.deep_view() == parse(lowercase(given[i].1@)),
    {
        let (key, raw) = source;
        let lower = raw.as_str().to_lowercase();
        let pairs = parse_file(lower);
        catalog.push((key, pairs));
    }
    catalog
}

/// What the file system says an entry of a folder is.
#[derive(Clone, Copy, Debug, PartialEq, Eq, Structural)]
pub enum EntryKind {
    /// A regular file.
    File,
    /// A folder.
    Directory,
    /// Anything else.
    Other,
}

/// What the walk through the source folder does with an entry.
#[derive(Clone, Copy, Debug, PartialEq, Eq, Structural)]
pub enum Visit {
    /// The entry is a practice set: it is read.
    Take,
    /// The entry is a folder: the walk goes through it.
    Descend,
    /// The entry is passed over.
    Skip,
}

/// Decides what the walk does with an entry of kind `kind` and of `size`
/// bytes, either of them `None` where the file system would not tell. A file
/// is taken unless it is known to be empty; a folder is walked through;
/// anything else, and what could not be told apart, is passed over.
pub fn visit(kind: Option<EntryKind>, size: Option<u64>) -> (visit: Visit)
    ensures
        visit is Take <==> kind == Some(EntryKind::File) && size != Some(0u64),
        visit is Descend <==> kind == Some(EntryKind::Directory),
{
    match kind {
        Some(EntryKind::File) => match size {
            Some(0) => Visit::Skip,
            _ => Visit::Take,
        },
        Some(EntryKind::Directory) => Visit::Descend,
        _ => Visit::Skip,
    }
}

/// A file gives one pair for each of its lines that holds an entry, and none
/// for any other line: its pairs are the entries of those lines, in the order
/// of the lines, and there are as many pairs as such lines.
pub proof fn lemma_one_pair_per_entry(content: Seq<char>)
    ensures
        parse(content) == lines(content).filter(|line: Seq<char>| is_entry(line)).map_values(
            |line: Seq<char>| entry_of(line).unwrap(),
        ),
        parse(content).len() == lines(content).filter(|line: Seq<char>| is_entry(line)).len(),
{
    lemma_entries(lines(content));
}

/// The entries of a list of lines are the entries of those that hold one.
proof fn lemma_entries(list: Seq<Seq<char>>)
    ensures
        list.filter_map(|line: Seq<char>| entry_of(line)) == list.filter(
            |line: Seq<char>| is_entry(line),
        ).map_values(|line: Seq<char>| entry_of(line).unwrap()),
    decreases list.len(),
{
    reveal(Seq::filter);
    let holds = |line: Seq<char>| is_entry(line);
    let entry = |line: Seq<char>| entry_of(line).unwrap();
    let found = list.filter_map(|line: Seq<char>| entry_of(line));
    if list.len() > 0 {
        let rest = list.drop_last();
        lemma_entries(rest);
        if is_entry(list.last()) {
            assert(rest.filter(holds).push(list.last()).map_values(entry) =~= rest.filter(
                holds,
            ).map_values(entry) + seq![entry(list.last())]);
        }
    } else {
        assert(found =~= list.filter(holds).map_values(entry));
    }
}

/// Reading is repeatable: the pairs read from a text depend on the text
/// alone, so a second reading of the same text gives the same pairs as the
/// first.
pub proof fn lemma_parse_again(content: Seq<char>, again: Seq<char>)
    requires
        content == again,
    ensures
        parse(content) == parse(again),
{
}

/// Every character of every line of a text is a character of the text.
proof fn lemma_lines_within(content: Seq<char>, i: int, j: int)
    requires
        0 <= i < lines(content).len(),
        0 <= j < lines(content)[i].len(),
    ensures
        content.contains(lines(content)[i][j]),
    decreases content.len(),
{
    let n = first_index(content, '\n');
    lemma_first_index(content, '\n');
    if i == 0 {
        assert(lines(content)[0] == content.take(n as int));
        assert(content[j] == lines(content)[i][j]);
    } else {
        let rest = if n < content.len() {
            content.skip(n as int + 1)
        } else {
            Seq::empty()
        };
        assert(lines(content) == seq![content.take(n as int)] + lines(rest));
        assert(lines(content)[i] == lines(rest)[i - 1]);
        lemma_lines_within(rest, i - 1, j);
        let c = lines(rest)[i - 1][j];
        let k = choose|k: int| 0 <= k < rest.len() && rest[k] == c;
        assert(content[n + 1 + k] == c);
    }
}

/// A text without a delimiter holds no pair: neither its blank lines nor its
/// lines of plain text are entries.
pub proof fn lemma_no_delimiter_no_pair(content: Seq<char>)
    requires
        !content.contains(SPLIT_DELIMITER),
    ensures
        parse(content) == Seq::<Pair>::empty(),
{
    let list = lines(content);
    assert forall|i: int| 0 <= i < list.len() implies !is_entry(#[trigger] list[i]) by {
        let line = list[i];
        lemma_first_index(line, SPLIT_DELIMITER);
        let k = first_index(line, SPLIT_DELIMITER) as int;
        if k < line.len() {
            lemma_lines_within(content, i, k);
        }
    }
    lemma_no_entries(list);
}

/// Lines none of which holds an entry give no pair.
proof fn lemma_no_entries(list: Seq<Seq<char>>)
    requires
        forall|i: int| 0 <= i < list.len() ==> !is_entry(#[trigger] list[i]),
    ensures
        list.filter_map(|line: Seq<char>| entry_of(line)) == Seq::<Pair>::empty(),
    decreases list.len(),
{
    if list.len() > 0 {
        let rest = list.drop_last();
        assert forall|i: int| 0 <= i < rest.len() implies !is_entry(#[trigger] rest[i]) by {
            assert(rest[i] == list[i]);
        }
        lemma_no_entries(rest);
        assert(!is_entry(list[list.len() - 1]));
    }
}

/// Whether `field` can stand in a file as it is: it is not empty, neither
/// starts nor ends with white space, and holds no line feed.
pub open spec fn is_clean(field: Seq<char>) -> bool {
    &&& field.len() > 0
    &&& is_trimmed(field)
    &&& !field.contains('\n')
}

/// Whether `pair` is read back from the line that stores it: both its texts
/// are clean, and the word holds no delimiter.
pub open spec fn is_storable(pair: Pair) -> bool {
    &&& is_clean(pair.0)
    &&& is_clean(pair.1)
    &&& !pair.0.contains(SPLIT_DELIMITER)
}

/// No line of a text holds a line feed.
pub proof fn lemma_lines_hold_no_line_feed(content: Seq<char>, i: int)
    requires
        0 <= i < lines(content).len(),
    ensures
        !lines(content)[i].contains('\n'),
    decreases content.len(),
{
    let n = first_index(content, '\n');
    lemma_first_index(content, '\n');
    let rest = if n < content.len() {
        content.skip(n as int + 1)
    } else {
        Seq::empty()
    };
    assert(lines(content) == seq![content.take(n as int)] + lines(rest));
    if i > 0 {
        assert(lines(content)[i] == lines(rest)[i - 1]);
        lemma_lines_hold_no_line_feed(rest, i - 1);
    }
}

/// A text followed by a line feed is the first line of what it starts, if it
/// holds no line feed itself.
pub proof fn lemma_first_line(line: Seq<char>, rest: Seq<char>)
    requires
        !line.contains('\n'),
    ensures
        lines(line + seq!['\n'] + rest) == seq![line] + lines(rest),
{
    let content = line + seq!['\n'] + rest;
    let n = line.len() as int;
    assert(content[n] == '\n');
    assert forall|i: int| 0 <= i < n implies content[i] != '\n' by {
        assert(content[i] == line[i]);
        assert(line.contains(line[i]));
    }
    lemma_first_index_is(content, '\n', n);
    assert(content.take(n) =~= line);
    assert(content.skip(n + 1) =~= rest);
}

/// The line made of a word, the delimiter and a definition holds that pair,
/// if the pair is storable.
pub proof fn lemma_entry_of_stored(pair: Pair)
    requires
        is_storable(pair),
    ensures
        entry_of(pair.0 + seq![SPLIT_DELIMITER] + pair.1) == Some(pair),
        !(pair.0 + seq![SPLIT_DELIMITER] + pair.1).contains('\n'),
{
    let line = pair.0 + seq![SPLIT_DELIMITER] + pair.1;
    let k = pair.0.len() as int;
    assert(line[k] == SPLIT_DELIMITER);
    assert forall|i: int| 0 <= i < k implies line[i] != SPLIT_DELIMITER by {
        assert(line[i] == pair.0[i]);
        assert(pair.0.contains(pair.0[i]));
    }
    lemma_first_index_is(line, SPLIT_DELIMITER, k);
    assert(line.take(k) =~= pair.0);
    assert(line.skip(k + 1) =~= pair.1);
    lemma_trim_is(pair.0, 0, pair.0.len() as int);
    lemma_trim_is(pair.1, 0, pair.1.len() as int);
    assert(pair.0.subrange(0, pair.0.len() as int) =~= pair.0);
    assert(pair.1.subrange(0, pair.1.len() as int) =~= pair.1);
    assert forall|i: int| 0 <= i < line.len() implies line[i] != '\n' by {
        if i < k {
            assert(line[i] == pair.0[i]);
            assert(pair.0.contains(pair.0[i]));
        } else if i > k {
            assert(line[i] == pair.1[i - k - 1]);
            assert(pair.1.contains(pair.1[i - k - 1]));
        }
    }
}

/// The entry of a line without line feed is storable.
pub proof fn lemma_entry_is_storable(line: Seq<char>)
    requires
        !line.contains('\n'),
        is_entry(line),
    ensures
        is_storable(entry_of(line).unwrap()),
{
    let k = first_index(line, SPLIT_DELIMITER) as int;
    lemma_first_index(line, SPLIT_DELIMITER);
    let left = line.take(k);
    let right = line.skip(k + 1);
    let pair = entry_of(line).unwrap();
    let (a, b) = lemma_trim(left);
    let (c, d) = lemma_trim(right);
    assert forall|i: int| 0 <= i < pair.0.len() implies pair.0[i] != '\n' && pair.0[i]
        != SPLIT_DELIMITER by {
        assert(pair.0[i] == line[a + i]);
        assert(line.contains(line[a + i]));
    }
    assert forall|i: int| 0 <= i < pair.1.len() implies pair.1[i] != '\n' by {
        assert(pair.1[i] == line[k + 1 + c + i]);
        assert(line.contains(line[k + 1 + c + i]));
    }
}

/// Every pair read from a text is storable.
pub proof fn lemma_parsed_is_storable(content: Seq<char>, i: int)
    requires
        0 <= i < parse(content).len(),
    ensures
        is_storable(parse(content)[i]),
{
    let list = lines(content);
    let pair = parse(content)[i];
    assert(parse(content).contains(pair));
    list.lemma_filter_map_contains(|line: Seq<char>| entry_of(line), pair);
    let line = choose|line: Seq<char>|
        #[trigger] list.contains(line) && entry_of(line) == Some(pair);
    let j = choose|j: int| 0 <= j < list.len() && list[j] == line;
    lemma_lines_hold_no_line_feed(content, j);
    lemma_entry_is_storable(line);
}

} // verus!
