//! Documentation blocks: a text, rendered as one doc-comment line for each
//! of its lines.

use crate::formatter::{lemma_write_step, lemma_written_nothing, FormatError, Formatter};
use crate::text::starts_line;
use vstd::prelude::*;

verus! {

/// The number of characters before the first line feed of `text`, or the
/// length of `text` where it holds none.
pub open spec fn first_line_len(text: Seq<char>) -> nat
    decreases text.len(),
{
    if text.len() == 0 || text[0] == '\n' {
        0
    } else {
        1 + first_line_len(text.drop_first())
    }
}

/// Whether no character of `text` is a line feed.
pub open spec fn is_one_line(text: Seq<char>) -> bool {
    forall|i: int| 0 <= i < text.len() ==> text[i] != '\n'
}

/// `text` as a block of doc comments.  Each line of `text` becomes `"/// "`,
/// the line, and a line feed.  A line ends at a line feed or at the end of
/// the text; a line feed at the very end opens no further line, and the empty
/// text has no lines.
pub open spec fn doc_comment(text: Seq<char>) -> Seq<char>
    decreases text.len(),
{
    if text.len() == 0 {
        Seq::empty()
    } else {
        let n = first_line_len(text) as int;
        let rest = if n < text.len() {
            doc_comment(text.skip(n + 1))
        } else {
            Seq::empty()
        };
        "/// "@ + text.take(n) + "\n"@ + rest
    }
}

/// `first_line_len` is the one position that no line feed precedes and at
/// which the text ends or holds a line feed.
pub proof fn lemma_first_line_len(text: Seq<char>, n: int)
    requires
        0 <= n <= text.len(),
        is_one_line(text.take(n)),
        n == text.len() || text[n] == '\n',
    ensures
        first_line_len(text) == n,
    decreases n,
{
    if n > 0 {
        assert(text.take(n)[0] == text[0]);
        let tail = text.drop_first();
        let short = tail.take(n - 1);
        assert forall|i: int| 0 <= i < short.len() implies #[trigger] short[i] != '\n' by {
            assert(short[i] == text.take(n)[i + 1]);
        }
        lemma_first_line_len(tail, n - 1);
    }
}

/// The first line ends within the text, and holds no line feed.
pub proof fn lemma_first_line_bounds(text: Seq<char>)
    ensures
        first_line_len(text) <= text.len(),
        is_one_line(text.take(first_line_len(text) as int)),
        first_line_len(text) < text.len() ==> text[first_line_len(text) as int] == '\n',
    decreases text.len(),
{
    if !(text.len() == 0 || text[0] == '\n') {
        let tail = text.drop_first();
        lemma_first_line_bounds(tail);
        let n = first_line_len(text) as int;
        let first = text.take(n);
        assert forall|i: int| 0 <= i < first.len() implies #[trigger] first[i] != '\n' by {
            if i > 0 {
                assert(first[i] == tail.take(n - 1)[i - 1]);
            }
        }
    }
}

/// A single line, with or without the line feed that ends it, is one doc
/// comment.
pub proof fn lemma_doc_comment_line(line: Seq<char>)
    requires
        is_one_line(line),
    ensures
        doc_comment(line + "\n"@) == "/// "@ + line + "\n"@,
        line.len() > 0 ==> doc_comment(line) == "/// "@ + line + "\n"@,
{
    reveal_strlit("\n");
    let ended = line + "\n"@;
    let n = line.len() as int;
    assert(ended.take(n) =~= line);
    lemma_first_line_len(ended, n);
    assert(ended.skip(n + 1) =~= Seq::<char>::empty());
    assert(doc_comment(ended.skip(n + 1)) =~= Seq::<char>::empty());
    assert(doc_comment(ended) =~= "/// "@ + line + "\n"@);
    if line.len() > 0 {
        assert(line.take(n) =~= line);
        lemma_first_line_len(line, n);
        assert(doc_comment(line) =~= "/// "@ + line + "\n"@);
    }
}

/// Where a text ends with a line feed, or is empty, the comments of what
/// follows it simply follow its own.
pub proof fn lemma_doc_comment_concat(a: Seq<char>, b: Seq<char>)
    requires
        starts_line(a),
    ensures
        doc_comment(a + b) == doc_comment(a) + doc_comment(b),
    decreases a.len(),
{
    if a.len() == 0 {
        assert(a + b =~= b);
        assert(doc_comment(a) + doc_comment(b) =~= doc_comment(b));
    } else {
        let n = first_line_len(a) as int;
        lemma_first_line_bounds(a);
        assert(n < a.len()) by {
            if n == a.len() {
                assert(a.take(n)[n - 1] == a.last());
            }
        }
        let whole = a + b;
        assert(whole.take(n) =~= a.take(n));
        assert(whole[n] == a[n]);
        lemma_first_line_len(whole, n);
        let a_rest = a.skip(n + 1);
        assert(whole.skip(n + 1) =~= a_rest + b);
        assert(starts_line(a_rest)) by {
            if a_rest.len() > 0 {
                assert(a_rest.last() == a.last());
            }
        }
        lemma_doc_comment_concat(a_rest, b);
        assert(doc_comment(whole) =~= "/// "@ + a.take(n) + "\n"@ + doc_comment(a_rest)
            + doc_comment(b));
    }
}

/// The comments of what a text holds up to a line boundary begin the
/// comments of the whole text.
pub proof fn lemma_doc_comment_prefix(text: Seq<char>, k: int)
    requires
        0 <= k <= text.len(),
        starts_line(text.take(k)),
    ensures
        doc_comment(text.take(k)).is_prefix_of(doc_comment(text)),
{
    assert(text =~= text.take(k) + text.skip(k));
    lemma_doc_comment_concat(text.take(k), text.skip(k));
}

/// A documentation block.
#[derive(Debug)]
pub struct Docs {
    docs: String,
}

impl Clone for Docs {
    fn clone(&self) -> (copy: Self)
        ensures
            copy@ == self@,
    {
        Docs { docs: self.docs.clone() }
    }
}

impl View for Docs {
    type V = Seq<char>;

    closed spec fn view(&self) -> Seq<char> {
        self.docs@
    }
}

impl Docs {
    /// The documentation that reads `docs`.
    pub fn new(docs: &str) -> (d: Docs)
        ensures
            d@ == docs@,
    {
        Docs { docs: docs.to_string() }
    }

    /// Writes the block, one doc comment for each line of the text.
    ///
    /// Fails exactly when the formatter has no room for all of it; the
    /// formatter then holds as much of it as fits.
    pub fn fmt(&self, fmt: &mut Formatter) -> (r: Result<(), FormatError>)
        ensures
            final(fmt)@ == old(fmt)@.written(doc_comment(self@)),
            r is Ok <==> old(fmt)@.accepts(doc_comment(self@)),
    {
        let ghost start = fmt@;
        let ghost text = self.docs@;
        let ghost total = doc_comment(text);
        let ghost mut from: int = 0;
        let mut line = String::new();
        let mut open = false;
        proof {
            reveal_strlit("\n");
            lemma_written_nothing(start);
            assert(text.take(0) =~= Seq::<char>::empty());
        }
        for c in it: self.docs.chars()
            invariant
                it.seq() == text,
                text == self.docs@,
                start == old(fmt)@,
                total == doc_comment(text),
                "\n"@ == seq!['\n'],
                0 <= from <= it.index(),
                starts_line(text.take(from)),
                is_one_line(text.subrange(from, it.index())),
                open ==> line@ == "/// "@ + text.subrange(from, it.index()),
                open <==> from < it.index(),
                fmt@ == start.written(doc_comment(text.take(from))),
                start.accepts(doc_comment(text.take(from))),
        {
            let ghost i = it.index();
            let ghost seen = text.subrange(from, i);
            if !open {
                line = "/// ".to_string();
                open = true;
                proof {
                    assert(seen =~= Seq::<char>::empty());
                    assert(line@ =~= "/// "@ + seen);
                }
            }
            line.push(c);
            if c == '\n' {
                let ghost done = doc_comment(text.take(from));
                proof {
                    assert(text.take(i + 1) =~= text.take(from) + (seen + "\n"@));
                    lemma_doc_comment_line(seen);
                    lemma_doc_comment_concat(text.take(from), seen + "\n"@);
                    assert(line@ =~= "/// "@ + seen + "\n"@);
                    assert(done + line@ == doc_comment(text.take(i + 1)));
                    assert(text.take(i + 1).last() == '\n');
                    lemma_doc_comment_prefix(text, i + 1);
                    lemma_write_step(start, done, line@, total);
                }
                if fmt.write(line.as_str()).is_err() {
                    return Err(FormatError);
                }
                open = false;
                proof {
                    from = i + 1;
                    assert(text.subrange(from, i + 1) =~= Seq::<char>::empty());
                }
            } else {
                proof {
                    assert(text.subrange(from, i + 1) =~= seen.push(c));
                    assert(line@ =~= "/// "@ + text.subrange(from, i + 1));
                }
            }
        }
        if open {
            let ghost done = doc_comment(text.take(from));
            let ghost last = text.subrange(from, text.len() as int);
            proof {
                assert(text =~= text.take(from) + last);
                lemma_doc_comment_line(last);
                lemma_doc_comment_concat(text.take(from), last);
                assert(total == done + ("/// "@ + last + "\n"@));
            }
            line.push('\n');
            proof {
                assert(line@ =~= "/// "@ + last + "\n"@);
                assert((done + line@).is_prefix_of(total));
                lemma_write_step(start, done, line@, total);
            }
            fmt.write(line.as_str())
        } else {
            proof {
                assert(text.take(text.len() as int) =~= text);
            }
            Ok(())
        }
    }
}

} // verus!
