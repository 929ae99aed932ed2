//! What may be stored in a practice-set file, and the text that stores it.

use crate::parser::{
    entry_of, is_storable, lemma_entry_of_stored, lemma_first_line, lemma_parsed_is_storable, lines,
    parse, Pair,
};
use crate::text::find;
use crate::SPLIT_DELIMITER;
use vstd::prelude::*;
use vstd::string::StringExecFns;

verus! {

/// What the check of a word or a definition found.
#[derive(Clone, Copy, Debug, PartialEq, Eq, Structural)]
pub enum FieldCheck {
    /// The text can be stored.
    Valid,
    /// There is no text.
    Empty,
    /// The text holds the delimiter, which would cut it in two when read.
    HasDelimiter,
}

/// The finding on `input`.
pub open spec fn check_of(input: Seq<char>) -> FieldCheck {
    if input.contains(SPLIT_DELIMITER) {
        FieldCheck::HasDelimiter
    } else if input.len() == 0 {
        FieldCheck::Empty
    } else {
        FieldCheck::Valid
    }
}

/// Checks whether `input` can be stored as a word or a definition.
pub fn check_field(input: &str) -> (check: FieldCheck)
    ensures
        check == check_of(input@),
{
    let chars = crate::text::chars_of(input);
    let n = chars.len();
    let k = find(&chars, 0, n, SPLIT_DELIMITER);
    proof {
        assert(chars@.subrange(0, n as int) =~= chars@);
        crate::text::lemma_first_index(chars@, SPLIT_DELIMITER);
    }
    if k < n {
        FieldCheck::HasDelimiter
    } else if n == 0 {
        FieldCheck::Empty
    } else {
        FieldCheck::Valid
    }
}

/// The line that stores `pair`: the word, the delimiter, the definition, and
/// a line feed.
pub open spec fn render_pair(pair: Pair) -> Seq<char> {
    pair.0 + seq![SPLIT_DELIMITER] + pair.1 + seq!['\n']
}

/// The text that stores `pairs`: their lines, one after the other.
pub open spec fn render(pairs: Seq<Pair>) -> Seq<char>
    decreases pairs.len(),
{
    if pairs.len() == 0 {
        Seq::empty()
    } else {
        render(pairs.drop_last()) + render_pair(pairs.last())
    }
}

/// Writes the text that stores `pairs`.
pub fn encode(pairs: &Vec<(String, String)>) -> (text: String)
    ensures
        text@ == render(pairs.deep_view()),
{
    let mut text = String::new();
    let ghost all = pairs.deep_view();
    let mut i: usize = 0;
    while i < pairs.len()
        invariant
            i <= pairs.len(),
            all == pairs.deep_view(),
            text@ == render(all.take(i as int)),
        decreases pairs.len() - i,
    {
        let ghost before = text@;
        assert(all.take(i + 1).drop_last() =~= all.take(i as int));
        assert(all.take(i + 1).last() == pairs@[i as int].deep_view());
        text.append(pairs[i].0.as_str());
        text.push(SPLIT_DELIMITER);
        text.append(pairs[i].1.as_str());
        text.push('\n');
        assert(text@ =~= before + render_pair(all[i as int]));
        i += 1;
    }
    assert(all.take(pairs.len() as int) =~= all);
    text
}

/// The text that stores a list of pairs starts with the line of the first.
proof fn lemma_render_first(pairs: Seq<Pair>)
    requires
        pairs.len() > 0,
    ensures
        render(pairs) == render_pair(pairs.first()) + render(pairs.drop_first()),
    decreases pairs.len(),
{
    if pairs.len() == 1 {
        assert(pairs.drop_last() =~= Seq::empty());
        assert(pairs.drop_first() =~= Seq::empty());
        assert(render(pairs) =~= render_pair(pairs.first()) + render(pairs.drop_first()));
    } else {
        let init = pairs.drop_last();
        lemma_render_first(init);
        assert(init.drop_first() =~= pairs.drop_first().drop_last());
        assert(pairs.drop_first().last() == pairs.last());
        assert(render(pairs) =~= render_pair(pairs.first()) + render(pairs.drop_first()));
    }
}

/// The entries of a list of lines are the entry of the first, if it holds
/// one, and then the entries of the others.
proof fn lemma_entries_first(line: Seq<char>, others: Seq<Seq<char>>)
    ensures
        (seq![line] + others).filter_map(|l: Seq<char>| entry_of(l)) == (match entry_of(line) {
            Some(pair) => seq![pair],
            None => Seq::empty(),
        }) + others.filter_map(|l: Seq<char>| entry_of(l)),
    decreases others.len(),
{
    let entry = |l: Seq<char>| entry_of(l);
    let all = seq![line] + others;
    let head = match entry_of(line) {
        Some(pair) => seq![pair],
        None => Seq::empty(),
    };
    if others.len() == 0 {
        assert(all.drop_last() =~= others);
        assert(others.filter_map(entry) =~= Seq::<Pair>::empty());
        assert(all.last() == line);
        assert(all.filter_map(entry) =~= head + others.filter_map(entry));
    } else {
        lemma_entries_first(line, others.drop_last());
        assert(all.drop_last() =~= seq![line] + others.drop_last());
        assert(all.last() == others.last());
        assert(all.filter_map(entry) =~= head + others.filter_map(entry));
    }
}

/// What is stored is read back: the text that stores a list of storable
/// pairs holds exactly these pairs, in their order.
pub proof fn lemma_stored_is_read_back(pairs: Seq<Pair>)
    requires
        forall|i: int| 0 <= i < pairs.len() ==> is_storable(#[trigger] pairs[i]),
    ensures
        parse(render(pairs)) == pairs,
    decreases pairs.len(),
{
    if pairs.len() == 0 {
        assert(parse(render(pairs)) =~= pairs);
    } else {
        let first = pairs.first();
        let rest = pairs.drop_first();
        let line = first.0 + seq![SPLIT_DELIMITER] + first.1;
        assert forall|i: int| 0 <= i < rest.len() implies is_storable(#[trigger] rest[i]) by {
            assert(rest[i] == pairs[i + 1]);
        }
        lemma_stored_is_read_back(rest);
        lemma_render_first(pairs);
        assert(is_storable(pairs[0]));
        lemma_entry_of_stored(first);
        assert(render(pairs) =~= line + seq!['\n'] + render(rest));
        lemma_first_line(line, render(rest));
        lemma_entries_first(line, lines(render(rest)));
        assert(parse(render(pairs)) =~= seq![first] + parse(render(rest)));
        assert(seq![first] + rest =~= pairs);
    }
}

/// Reading is idempotent: the pairs read from a text, stored and read again,
/// are the same pairs.
pub proof fn lemma_reading_is_idempotent(content: Seq<char>)
    ensures
        parse(render(parse(content))) == parse(content),
{
    let pairs = parse(content);
    assert forall|i: int| 0 <= i < pairs.len() implies is_storable(#[trigger] pairs[i]) by {
        lemma_parsed_is_storable(content, i);
    }
    lemma_stored_is_read_back(pairs);
}

} // verus!
