//! Character sequences as they are laid out in a sink that indents.

use vstd::prelude::*;

verus! {

/// `width` blanks.
pub open spec fn pad(width: nat) -> Seq<char> {
    Seq::new(width, |i: int| ' ')
}

/// Whether a sink that holds `text` stands at the start of a line: nothing
/// has been written yet, or the last character written is a line feed.
pub open spec fn starts_line(text: Seq<char>) -> bool {
    text.len() == 0 || text.last() == '\n'
}

/// Whether the character that follows `text` opens a line, given whether
/// `text` itself began at the start of one.
pub open spec fn opens_line(text: Seq<char>, at_start: bool) -> bool {
    if text.len() == 0 {
        at_start
    } else {
        text.last() == '\n'
    }
}

/// `text` as an indenting sink lays it out: every character that opens a line
/// and is not itself a line feed is preceded by `width` blanks.  Empty lines
/// stay empty.  `at_start` says whether the first character opens a line.
pub open spec fn indented(text: Seq<char>, width: nat, at_start: bool) -> Seq<char>
    decreases text.len(),
{
    if text.len() == 0 {
        Seq::empty()
    } else {
        let head = text.drop_last();
        let lead = if opens_line(head, at_start) && text.last() != '\n' {
            pad(width)
        } else {
            Seq::empty()
        };
        indented(head, width, at_start) + lead + seq![text.last()]
    }
}

/// Laying out one more character appends its indentation and the character.
pub proof fn lemma_indented_push(text: Seq<char>, c: char, width: nat, at_start: bool)
    ensures
        indented(text.push(c), width, at_start) == indented(text, width, at_start) + (if opens_line(
            text,
            at_start,
        ) && c != '\n' {
            pad(width)
        } else {
            Seq::empty()
        }) + seq![c],
{
    assert(text.push(c).drop_last() =~= text);
}

/// Layout goes through concatenation: the second part is laid out from the
/// line state that the first part leaves behind.
pub proof fn lemma_indented_concat(a: Seq<char>, b: Seq<char>, width: nat, at_start: bool)
    ensures
        indented(a + b, width, at_start) == indented(a, width, at_start) + indented(
            b,
            width,
            opens_line(a, at_start),
        ),
        opens_line(a + b, at_start) == opens_line(b, opens_line(a, at_start)),
    decreases b.len(),
{
    if b.len() == 0 {
        assert(a + b =~= a);
        assert(indented(a, width, at_start) + Seq::<char>::empty() =~= indented(
            a,
            width,
            at_start,
        ));
    } else {
        let b0 = b.drop_last();
        lemma_indented_concat(a, b0, width, at_start);
        assert((a + b).drop_last() =~= a + b0);
        assert((a + b).last() == b.last());
        let lead = if opens_line(b0, opens_line(a, at_start)) && b.last() != '\n' {
            pad(width)
        } else {
            Seq::empty()
        };
        assert(indented(a + b, width, at_start) == indented(a + b0, width, at_start) + lead
            + seq![b.last()]);
        assert(indented(a + b, width, at_start) =~= indented(a, width, at_start) + (indented(
            b0,
            width,
            opens_line(a, at_start),
        ) + lead + seq![b.last()]));
    }
}

/// Without indentation the layout is the text itself.
pub proof fn lemma_indented_plain(text: Seq<char>, at_start: bool)
    ensures
        indented(text, 0, at_start) == text,
    decreases text.len(),
{
    if text.len() > 0 {
        lemma_indented_plain(text.drop_last(), at_start);
        assert(pad(0) =~= Seq::<char>::empty());
        assert(text.drop_last() + Seq::<char>::empty() + seq![text.last()] =~= text);
    }
}

/// Layout only inserts: it ends with the text's last character, and is empty
/// only for the empty text.
pub proof fn lemma_indented_last(text: Seq<char>, width: nat, at_start: bool)
    ensures
        indented(text, width, at_start).len() >= text.len(),
        text.len() > 0 ==> indented(text, width, at_start).last() == text.last(),
    decreases text.len(),
{
    if text.len() > 0 {
        lemma_indented_last(text.drop_last(), width, at_start);
    }
}

/// A prefix stays one when the same text is put before both and anything
/// after the longer.
pub proof fn lemma_prefix_within(p: Seq<char>, t: Seq<char>, before: Seq<char>, after: Seq<char>)
    requires
        p.is_prefix_of(t),
    ensures
        (before + p).is_prefix_of(before + t + after),
        (before + p).is_prefix_of(before + t),
{
    assert(before + p =~= (before + t + after).subrange(0, (before + p).len() as int));
    assert(before + p =~= (before + t).subrange(0, (before + p).len() as int));
}

/// Being a prefix is transitive.
pub proof fn lemma_prefix_trans(a: Seq<char>, b: Seq<char>, c: Seq<char>)
    requires
        a.is_prefix_of(b),
        b.is_prefix_of(c),
    ensures
        a.is_prefix_of(c),
{
    assert(a =~= c.subrange(0, a.len() as int));
}

} // verus!
