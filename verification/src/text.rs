//! Texts cut at a separator, and put together again.

use vstd::prelude::*;

verus! {

/// The segments of `text` between the occurrences of `separator`, in order.
/// A text without the separator is one segment, the empty text too.
pub open spec fn split(text: Seq<char>, separator: char) -> Seq<Seq<char>>
    decreases text.len(),
{
    if text.len() == 0 {
        seq![Seq::empty()]
    } else {
        let before = split(text.drop_last(), separator);
        if text.last() == separator {
            before.push(Seq::empty())
        } else {
            before.drop_last().push(before.last().push(text.last()))
        }
    }
}

/// The segments with the separator between each two of them.
pub open spec fn joined(segments: Seq<Seq<char>>, separator: char) -> Seq<char>
    decreases segments.len(),
{
    if segments.len() == 0 {
        Seq::empty()
    } else if segments.len() == 1 {
        segments[0]
    } else {
        joined(segments.drop_last(), separator) + seq![separator] + segments.last()
    }
}

/// What each of the texts holds.
pub open spec fn texts(parts: Seq<&str>) -> Seq<Seq<char>> {
    Seq::new(parts.len(), |i: int| parts[i]@)
}

/// A text is split into at least one segment.
pub proof fn lemma_split_nonempty(text: Seq<char>, separator: char)
    ensures
        split(text, separator).len() >= 1,
    decreases text.len(),
{
    if text.len() > 0 {
        lemma_split_nonempty(text.drop_last(), separator);
    }
}

/// A text without the separator, put behind another text, only makes the
/// last segment of that text longer.
pub proof fn lemma_split_append(text: Seq<char>, more: Seq<char>, separator: char)
    requires
        !more.contains(separator),
    ensures
        split(text, separator).len() > 0,
        split(text + more, separator) == split(text, separator).drop_last().push(
            split(text, separator).last() + more,
        ),
    decreases more.len(),
{
    let segments = split(text, separator);
    lemma_split_nonempty(text, separator);
    if more.len() == 0 {
        assert(text + more =~= text);
        assert(segments.last() + more =~= segments.last());
        assert(segments.drop_last().push(segments.last()) =~= segments);
    } else {
        let shorter = more.drop_last();
        assert(more[more.len() - 1] == more.last());
        assert(!shorter.contains(separator)) by {
            if shorter.contains(separator) {
                let i = choose|i: int| 0 <= i < shorter.len() && shorter[i] == separator;
                assert(more[i] == separator);
            }
        }
        lemma_split_append(text, shorter, separator);
        assert((text + more).drop_last() =~= text + shorter);
        assert((text + more).last() == more.last());
        let before = split(text + shorter, separator);
        assert(before.drop_last() =~= segments.drop_last());
        assert(before.last().push(more.last()) =~= segments.last() + more);
    }
}

/// Segments without the separator, joined by it, are split into the same
/// segments.
pub proof fn lemma_split_joined(segments: Seq<Seq<char>>, separator: char)
    requires
        segments.len() > 0,
        forall|i: int| 0 <= i < segments.len() ==> !(#[trigger] segments[i]).contains(separator),
    ensures
        split(joined(segments, separator), separator) == segments,
    decreases segments.len(),
{
    if segments.len() == 1 {
        lemma_split_append(Seq::empty(), segments[0], separator);
        assert(Seq::<char>::empty() + segments[0] =~= segments[0]);
        assert(split(Seq::<char>::empty(), separator) =~= seq![Seq::<char>::empty()]);
        assert(split(joined(segments, separator), separator) =~= segments);
    } else {
        let front = segments.drop_last();
        assert forall|i: int| 0 <= i < front.len() implies !(#[trigger] front[i]).contains(
            separator,
        ) by {
            assert(front[i] == segments[i]);
        }
        lemma_split_joined(front, separator);
        let head = joined(front, separator) + seq![separator];
        assert(head.drop_last() =~= joined(front, separator));
        assert(head.last() == separator);
        assert(split(head, separator) == front.push(Seq::empty()));
        lemma_split_append(head, segments.last(), separator);
        assert(Seq::<char>::empty() + segments.last() =~= segments.last());
        assert(split(joined(segments, separator), separator) =~= segments);
    }
}

/// The segments of a text, joined by the separator, are the text.
pub proof fn lemma_joined_split(text: Seq<char>, separator: char)
    ensures
        joined(split(text, separator), separator) == text,
    decreases text.len(),
{
    if text.len() == 0 {
        assert(joined(seq![Seq::<char>::empty()], separator) =~= text);
    } else {
        let front = text.drop_last();
        let before = split(front, separator);
        lemma_split_nonempty(front, separator);
        lemma_joined_split(front, separator);
        if text.last() == separator {
            let after = before.push(Seq::empty());
            assert(after.drop_last() =~= before);
            assert(joined(after, separator) =~= front.push(separator));
        } else {
            let after = before.drop_last().push(before.last().push(text.last()));
            if before.len() == 1 {
                assert(joined(after, separator) =~= front.push(text.last()));
            } else {
                assert(after.drop_last() =~= before.drop_last());
                assert(joined(after, separator) =~= front.push(text.last()));
            }
        }
        assert(front.push(text.last()) =~= text);
    }
}

/// The segments of `text` between the occurrences of `separator`, in order
/// (see [`split`]).
pub fn split_text<'a>(text: &'a str, separator: char) -> (r: Vec<&'a str>)
    ensures
        texts(r@) == split(text@, separator),
{
    let total = text.unicode_len();
    let mut out: Vec<&'a str> = Vec::new();
    let mut start: usize = 0;
    let mut at: usize = 0;
    proof {
        assert(text@.take(0) =~= Seq::<char>::empty());
        assert(split(Seq::<char>::empty(), separator) =~= texts(out@).push(text@.subrange(0, 0)));
    }
    for c in it: text.chars()
        invariant
            it.seq() == text@,
            total == text@.len(),
            at == it.index(),
            start <= at <= total,
            split(text@.take(at as int), separator) == texts(out@).push(
                text@.subrange(start as int, at as int),
            ),
    {
        let ghost done = texts(out@);
        let ghost open = text@.subrange(start as int, at as int);
        proof {
            assert(text@.take(at + 1).drop_last() =~= text@.take(at as int));
            assert(text@.take(at + 1).last() == c);
        }
        if c == separator {
            out.push(text.substring_char(start, at));
            proof {
                assert(texts(out@) =~= done.push(open));
                assert(text@.subrange(at + 1, at + 1) =~= Seq::<char>::empty());
            }
            start = at + 1;
        } else {
            proof {
                assert(done.push(open).drop_last() =~= done);
                assert(text@.subrange(start as int, at + 1) =~= open.push(c));
            }
        }
        at = at + 1;
    }
    let ghost done = texts(out@);
    out.push(text.substring_char(start, at));
    proof {
        assert(text@.take(total as int) =~= text@);
        assert(texts(out@) =~= done.push(text@.subrange(start as int, at as int)));
    }
    out
}

} // verus!
