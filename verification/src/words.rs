//! Word lists: texts with one word on each line.

use vstd::prelude::*;

verus! {

/// The byte that ends a line.
pub const NEWLINE: u8 = 10;

/// The words of a list as sequences of bytes.
pub open spec fn word_views(words: Seq<Vec<u8>>) -> Seq<Seq<u8>> {
    Seq::new(words.len(), |i: int| words[i]@)
}

/// The lines of a text: a newline byte ends a line and starts the next, and
/// any other byte extends the last line. A text without a newline is one
/// line, and a text that ends in a newline has an empty last line.
pub open spec fn lines(text: Seq<u8>) -> Seq<Seq<u8>>
    decreases text.len(),
{
    if text.len() == 0 {
        seq![Seq::<u8>::empty()]
    } else {
        let before = lines(text.drop_last());
        if text.last() == NEWLINE {
            before.push(Seq::<u8>::empty())
        } else {
            before.update(before.len() - 1, before.last().push(text.last()))
        }
    }
}

/// The lines of a list put together again, with a newline byte between each
/// two of them.
pub open spec fn joined(list: Seq<Seq<u8>>) -> Seq<u8>
    decreases list.len(),
{
    if list.len() == 0 {
        Seq::empty()
    } else if list.len() == 1 {
        list[0]
    } else {
        joined(list.drop_last()) + seq![NEWLINE] + list.last()
    }
}

/// A text has at least one line, no line holds a newline byte, and the lines
/// joined by newline bytes are the text.
pub proof fn lemma_lines_rejoin(text: Seq<u8>)
    ensures
        lines(text).len() >= 1,
        forall|i: int, j: int|
            0 <= i < lines(text).len() && 0 <= j < lines(text)[i].len() ==> lines(text)[i][j]
                != NEWLINE,
        joined(lines(text)) == text,
    decreases text.len(),
{
    if text.len() == 0 {
        assert(joined(lines(text)) =~= text);
    } else {
        let shorter = text.drop_last();
        let byte = text.last();
        let before = lines(shorter);
        let after = lines(text);
        lemma_lines_rejoin(shorter);
        assert(text =~= shorter.push(byte));
        if byte == NEWLINE {
            assert(after.drop_last() =~= before);
            assert(joined(after) =~= text);
        } else if before.len() == 1 {
            assert(joined(after) =~= text);
        } else {
            assert(after.drop_last() =~= before.drop_last());
            assert(joined(after) =~= joined(before).push(byte));
        }
    }
}

/// Splits a text into its lines.
pub fn split_lines(text: &[u8]) -> (list: Vec<Vec<u8>>)
    ensures
        word_views(list@) == lines(text@),
{
    let mut list: Vec<Vec<u8>> = Vec::new();
    let mut current: Vec<u8> = Vec::new();
    let mut index: usize = 0;
    assert(text@.take(0) =~= Seq::<u8>::empty());
    while index < text.len()
        invariant
            index <= text@.len(),
            word_views(list@).push(current@) == lines(text@.take(index as int)),
        decreases text@.len() - index,
    {
        let byte = text[index];
        let ghost shorter = text@.take(index as int);
        let ghost longer = text@.take(index + 1);
        let ghost before = word_views(list@);
        let ghost last = current@;
        proof {
            assert(longer.drop_last() =~= shorter);
            assert(longer.last() == byte);
            assert(lines(shorter).last() == last);
            assert(lines(shorter).len() == before.len() + 1);
        }
        if byte == NEWLINE {
            list.push(current);
            current = Vec::new();
            assert(word_views(list@) =~= before.push(last));
            assert(word_views(list@).push(current@) =~= lines(longer));
        } else {
            current.push(byte);
            assert(word_views(list@).push(current@) =~= lines(longer));
        }
        index += 1;
    }
    assert(text@.take(index as int) =~= text@);
    let ghost before = word_views(list@);
    let ghost last = current@;
    list.push(current);
    assert(word_views(list@) =~= before.push(last));
    list
}

} // verus!
