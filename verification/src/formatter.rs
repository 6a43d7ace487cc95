//! The sink that renderers write into: a text buffer with a current
//! indentation and a bound on how much more it takes.

use crate::text::{
    indented, lemma_indented_concat, lemma_indented_last, lemma_indented_plain,
    lemma_indented_push, opens_line, pad, starts_line,
};
use vstd::prelude::*;

verus! {

/// `String::push` appends the character to the end of the string and changes
/// nothing else of it.
pub assume_specification[ String::push ](s: &mut String, ch: char)
    ensures
        final(s)@ == old(s)@.push(ch),
;

/// `str::ends_with` with a character as its pattern: whether `s` is not
/// empty and its last character is `c`.
#[verifier::external_body]
fn ends_with_char(s: &str, c: char) -> (b: bool)
    ensures
        b == (s@.len() > 0 && s@.last() == c),
{
    s.ends_with(c)
}

/// Blanks that one level of indentation adds.
pub const INDENT: usize = 4;

/// The sink has no room for the text it was asked to take.
#[derive(Debug, Clone, Copy, PartialEq, Eq)]
pub struct FormatError;

/// What a [`Formatter`] stands for: the text it holds, the blanks it puts
/// before each line, and the number of characters it still takes.
pub struct FormatterView {
    pub text: Seq<char>,
    pub spaces: nat,
    pub room: nat,
}

impl FormatterView {
    /// An empty sink without indentation that takes `room` characters.
    pub open spec fn fresh(room: nat) -> FormatterView {
        FormatterView { text: Seq::empty(), spaces: 0, room }
    }

    /// `text` as this sink would lay it out after what it already holds.
    pub open spec fn layout(self, text: Seq<char>) -> Seq<char> {
        indented(text, self.spaces, starts_line(self.text))
    }

    /// Whether the sink has room for all of `text`, indentation included.
    #[verifier::opaque]
    pub open spec fn accepts(self, text: Seq<char>) -> bool {
        self.layout(text).len() <= self.room
    }

    /// The sink after `text` was written to it.  Text that does not fit is cut
    /// where the room ends, and the sink is then full.
    #[verifier::opaque]
    pub open spec fn written(self, text: Seq<char>) -> FormatterView {
        let full = self.layout(text);
        let out = if full.len() <= self.room {
            full
        } else {
            full.take(self.room as int)
        };
        FormatterView {
            text: self.text + out,
            spaces: self.spaces,
            room: (self.room - out.len()) as nat,
        }
    }

    /// The sink one level of indentation deeper; the depth stops growing at
    /// the largest width the machine can count.
    pub open spec fn deeper(self) -> FormatterView {
        FormatterView {
            text: self.text,
            spaces: if self.spaces + INDENT <= usize::MAX {
                (self.spaces + INDENT) as nat
            } else {
                usize::MAX as nat
            },
            room: self.room,
        }
    }

    /// The sink one level of indentation shallower, or without indentation
    /// where it had less than one level.
    pub open spec fn shallower(self) -> FormatterView {
        FormatterView {
            text: self.text,
            spaces: if self.spaces >= INDENT {
                (self.spaces - INDENT) as nat
            } else {
                0
            },
            room: self.room,
        }
    }
}

/// Writing two texts in turn is writing their concatenation, also where the
/// sink runs full on the way; and the concatenation fits exactly when the
/// first text fits and the second fits after it.
pub proof fn lemma_written_concat(v: FormatterView, a: Seq<char>, b: Seq<char>)
    ensures
        v.written(a).written(b) == v.written(a + b),
        v.accepts(a + b) <==> v.accepts(a) && v.written(a).accepts(b),
{
    reveal(FormatterView::written);
    reveal(FormatterView::accepts);
    let st = starts_line(v.text);
    let fa = indented(a, v.spaces, st);
    let fb = indented(b, v.spaces, opens_line(a, st));
    lemma_indented_concat(a, b, v.spaces, st);
    lemma_indented_last(a, v.spaces, st);
    assert(v.layout(a + b) == fa + fb);
    if fa.len() <= v.room {
        let mid = v.written(a);
        assert(mid.text == v.text + fa);
        assert(starts_line(mid.text) == opens_line(a, st)) by {
            if a.len() > 0 {
                assert(mid.text.last() == fa.last());
            } else {
                assert(mid.text =~= v.text);
            }
        }
        assert(mid.layout(b) == fb);
        if fb.len() <= mid.room {
            assert(v.written(a + b).text =~= mid.written(b).text);
        } else {
            assert((fa + fb).take(v.room as int) =~= fa + fb.take(mid.room as int));
            assert(v.written(a + b).text =~= mid.written(b).text);
        }
    } else {
        let mid = v.written(a);
        assert(mid.room == 0);
        assert((fa + fb).take(v.room as int) =~= fa.take(v.room as int));
        assert(mid.written(b).text =~= mid.text);
    }
}

/// The one step that every renderer repeats.  With `done` written to `start`
/// and `next` written after it, the sink is as if `done + next` had been
/// written at once.  The step succeeds exactly when `done + next` fits.  When
/// it does not, the sink is already as the whole of `total` would leave it,
/// for every `total` that begins with `done + next`.
pub proof fn lemma_write_step(
    start: FormatterView,
    done: Seq<char>,
    next: Seq<char>,
    total: Seq<char>,
)
    requires
        (done + next).is_prefix_of(total),
    ensures
        start.written(done).written(next) == start.written(done + next),
        start.accepts(done) ==> (start.written(done).accepts(next) <==> start.accepts(done + next)),
        !start.accepts(done + next) ==> start.written(total) == start.written(done + next)
            && !start.accepts(total),
{
    reveal(FormatterView::written);
    reveal(FormatterView::accepts);
    let rest = total.skip((done + next).len() as int);
    assert(total =~= done + next + rest);
    lemma_written_concat(start, done, next);
    lemma_written_concat(start, done + next, rest);
    let mid = start.written(done + next);
    if !start.accepts(done + next) {
        assert(mid.room == 0);
        assert(mid.written(rest).text =~= mid.text);
    }
}

/// An empty text changes no sink and always fits.
pub proof fn lemma_written_nothing(v: FormatterView)
    ensures
        v.written(Seq::empty()) == v,
        v.accepts(Seq::empty()),
{
    reveal(FormatterView::written);
    reveal(FormatterView::accepts);
    assert(v.written(Seq::empty()).text =~= v.text);
}

/// A fresh sink holds what was written to it, unchanged, as far as it fits.
pub proof fn lemma_fresh_written(room: nat, text: Seq<char>)
    ensures
        FormatterView::fresh(room).accepts(text) <==> text.len() <= room,
        text.len() <= room ==> FormatterView::fresh(room).written(text).text == text,
{
    reveal(FormatterView::written);
    reveal(FormatterView::accepts);
    lemma_indented_plain(text, true);
    assert(Seq::<char>::empty() + text =~= text);
}

/// A text sink with indentation.
///
/// Text is written at the end.  Where a line begins with something other
/// than a line feed, the current indentation is put before it.  The sink
/// takes a bounded number of characters; a write that needs more fills the
/// sink and fails.
pub struct Formatter {
    dst: String,
    spaces: usize,
    room: usize,
}

impl View for Formatter {
    type V = FormatterView;

    closed spec fn view(&self) -> FormatterView {
        FormatterView { text: self.dst@, spaces: self.spaces as nat, room: self.room as nat }
    }
}

impl Formatter {
    /// An empty formatter without indentation that takes as many characters
    /// as the machine can count.
    pub fn new() -> (f: Formatter)
        ensures
            f@ == FormatterView::fresh(usize::MAX as nat),
    {
        Formatter { dst: String::new(), spaces: 0, room: usize::MAX }
    }

    /// An empty formatter without indentation that takes `room` characters.
    pub fn with_room(room: usize) -> (f: Formatter)
        ensures
            f@ == FormatterView::fresh(room as nat),
    {
        Formatter { dst: String::new(), spaces: 0, room }
    }

    /// Goes one level of indentation deeper.
    pub fn indent(&mut self)
        ensures
            final(self)@ == old(self)@.deeper(),
    {
        if self.spaces <= usize::MAX - INDENT {
            self.spaces = self.spaces + INDENT;
        } else {
            self.spaces = usize::MAX;
        }
    }

    /// Goes one level of indentation back.
    pub fn dedent(&mut self)
        ensures
            final(self)@ == old(self)@.shallower(),
    {
        if self.spaces >= INDENT {
            self.spaces = self.spaces - INDENT;
        } else {
            self.spaces = 0;
        }
    }

    /// Whether the next character written opens a line.
    pub fn is_start_of_line(&self) -> (b: bool)
        ensures
            b == starts_line(self@.text),
    {
        self.dst.as_str().is_empty() || ends_with_char(self.dst.as_str(), '\n')
    }

    /// The text written so far.
    pub fn as_str(&self) -> (s: &str)
        ensures
            s@ == self@.text,
    {
        self.dst.as_str()
    }

    /// Puts one character at the end if there is room for it.
    fn put(&mut self, c: char) -> (ok: bool)
        ensures
            ok == (old(self).room > 0),
            ok ==> final(self).dst@ == old(self).dst@.push(c) && final(self).room == old(self).room - 1,
            !ok ==> final(self).dst@ == old(self).dst@ && final(self).room == 0,
            final(self).spaces == old(self).spaces,
    {
        if self.room == 0 {
            return false;
        }
        self.dst.push(c);
        self.room = self.room - 1;
        true
    }

    /// Puts the current indentation at the end, or as much of it as fits.
    fn put_pad(&mut self) -> (ok: bool)
        ensures
            ok == (old(self).spaces <= old(self).room),
            ok ==> final(self).dst@ == old(self).dst@ + pad(old(self).spaces as nat) && final(self).room == old(self).room - old(self).spaces,
            !ok ==> final(self).dst@ == old(self).dst@ + pad(old(self).room as nat) && final(self).room == 0,
            final(self).spaces == old(self).spaces,
    {
        let mut k: usize = 0;
        while k < self.spaces
            invariant
                k <= self.spaces,
                self.spaces == old(self).spaces,
                self.dst@ == old(self).dst@ + pad(k as nat),
                self.room + k == old(self).room,
            decreases self.spaces - k,
        {
            if !self.put(' ') {
                return false;
            }
            k = k + 1;
            assert(pad(k as nat) =~= pad((k - 1) as nat).push(' '));
        }
        true
    }

    /// Writes `s` at the end, indenting each line of it that is not empty.
    ///
    /// Fails exactly when `s`, laid out, is longer than the room that is
    /// left.  The sink then holds as much of the layout as fits and takes
    /// nothing more.
    pub fn write(&mut self, s: &str) -> (r: Result<(), FormatError>)
        ensures
            final(self)@ == old(self)@.written(s@),
            r is Ok <==> old(self)@.accepts(s@),
    {
        proof {
            reveal(FormatterView::written);
            reveal(FormatterView::accepts);
        }
        let mut at_start = self.is_start_of_line();
        let ghost st0 = at_start;
        let ghost w = self.spaces as nat;
        let ghost full = indented(s@, w, st0);
        for c in it: s.chars()
            invariant
                it.seq() == s@,
                w == old(self).spaces,
                full == indented(s@, w, st0),
                st0 == starts_line(old(self).dst@),
                self.spaces == old(self).spaces,
                at_start == opens_line(s@.take(it.index()), st0),
                self.dst@ == old(self).dst@ + indented(s@.take(it.index()), w, st0),
                self.room + indented(s@.take(it.index()), w, st0).len() == old(self).room,
        {
            let ghost i = it.index();
            let ghost before = indented(s@.take(i), w, st0);
            let ghost lead = if at_start && c != '\n' {
                pad(w)
            } else {
                Seq::<char>::empty()
            };
            proof {
                reveal(FormatterView::written);
                reveal(FormatterView::accepts);
                assert(s@.take(i + 1) =~= s@.take(i).push(c));
                lemma_indented_push(s@.take(i), c, w, st0);
                assert(s@ =~= s@.take(i + 1) + s@.skip(i + 1));
                lemma_indented_concat(s@.take(i + 1), s@.skip(i + 1), w, st0);
                assert(full == before + lead + seq![c] + indented(
                    s@.skip(i + 1),
                    w,
                    opens_line(s@.take(i + 1), st0),
                ));
            }
            if at_start && c != '\n' {
                if !self.put_pad() {
                    proof {
                        assert(full.take(old(self).room as int) =~= before + pad(
                            (old(self).room - before.len()) as nat,
                        ));
                        assert(self.dst@ =~= old(self).dst@ + full.take(old(self).room as int));
                    }
                    return Err(FormatError);
                }
            }
            if !self.put(c) {
                proof {
                    assert(full.take(old(self).room as int) =~= before + lead);
                    assert(self.dst@ =~= old(self).dst@ + full.take(old(self).room as int));
                }
                return Err(FormatError);
            }
            at_start = c == '\n';
            proof {
                assert(self.dst@ =~= old(self).dst@ + (before + lead + seq![c]));
            }
        }
        proof {
            assert(s@.take(s@.len() as int) =~= s@);
        }
        Ok(())
    }
}

} // verus!
