//! One variant of an enumerated type, built up call by call and rendered as
//! one entry of the enum's body.

use crate::docs::{doc_comment, Docs};
use crate::fields::{field_list, FieldView, Fields, FieldsView};
use crate::formatter::{
    lemma_fresh_written, lemma_write_step, lemma_written_nothing, FormatError, Formatter,
    FormatterView,
};
use crate::text::{lemma_prefix_trans, lemma_prefix_within};
use crate::ty::{type_list, IntoType, TypeView};
use vstd::prelude::*;

verus! {

/// Each of `annotations`, in order, on a line of its own.
pub open spec fn annotation_lines(annotations: Seq<Seq<char>>) -> Seq<char>
    decreases annotations.len(),
{
    if annotations.len() == 0 {
        Seq::empty()
    } else {
        annotation_lines(annotations.drop_last()) + annotations.last() + "\n"@
    }
}

/// What a [`Variant`] stands for.
pub struct VariantView {
    pub name: Seq<char>,
    pub fields: FieldsView,
    pub annotations: Seq<Seq<char>>,
    pub doc: Option<Seq<char>>,
}

impl VariantView {
    /// The variant of the given name: no fields, no annotations, no
    /// documentation.
    pub open spec fn new(name: Seq<char>) -> VariantView {
        VariantView {
            name,
            fields: FieldsView::Empty,
            annotations: Seq::empty(),
            doc: None,
        }
    }

    /// Whether the variant takes a named field: it has no positional ones.
    pub open spec fn takes_named(self) -> bool {
        !(self.fields is Tuple)
    }

    /// Whether the variant takes a positional field: it has no named ones.
    pub open spec fn takes_tuple(self) -> bool {
        !(self.fields is Named)
    }

    /// The variant with one more named field.
    pub open spec fn with_named(self, name: Seq<char>, ty: TypeView) -> VariantView {
        VariantView { fields: self.fields.with_named(name, ty), ..self }
    }

    /// The variant with one more positional field.
    pub open spec fn with_tuple(self, ty: TypeView) -> VariantView {
        VariantView { fields: self.fields.with_tuple(ty), ..self }
    }

    /// The variant with `doc` as its documentation, in place of any it had.
    pub open spec fn with_doc(self, doc: Seq<char>) -> VariantView {
        VariantView { doc: Some(doc), ..self }
    }

    /// The variant with one more annotation, after those it has.
    pub open spec fn with_annotation(self, annotation: Seq<char>) -> VariantView {
        VariantView { annotations: self.annotations.push(annotation), ..self }
    }

    /// The variant after each of `more` was added as an annotation, in order.
    pub open spec fn with_annotations(self, more: Seq<Seq<char>>) -> VariantView
        decreases more.len(),
    {
        if more.len() == 0 {
            self
        } else {
            self.with_annotations(more.drop_last()).with_annotation(more.last())
        }
    }

    /// The documentation as doc comments; nothing where there is none.
    pub open spec fn doc_text(self) -> Seq<char> {
        match self.doc {
            Some(doc) => doc_comment(doc),
            None => Seq::empty(),
        }
    }

    /// The entry itself: the name, the fields right after it, then a comma
    /// and a line feed, whatever the fields are.
    pub open spec fn declaration(self) -> Seq<char> {
        self.name + self.fields.text() + ",\n"@
    }

    /// The variant as source text: the annotations, each on its line, then
    /// the documentation, then the entry.
    pub open spec fn text(self) -> Seq<char> {
        annotation_lines(self.annotations) + self.doc_text() + self.declaration()
    }
}

/// The lines of the first `k` annotations begin the lines of all of them.
pub proof fn lemma_annotation_lines_prefix(annotations: Seq<Seq<char>>, k: int)
    requires
        0 <= k <= annotations.len(),
    ensures
        annotation_lines(annotations.take(k)).is_prefix_of(annotation_lines(annotations)),
    decreases annotations.len(),
{
    if k == annotations.len() {
        assert(annotations.take(k) =~= annotations);
    } else {
        let shorter = annotations.drop_last();
        lemma_annotation_lines_prefix(shorter, k);
        assert(shorter.take(k) =~= annotations.take(k));
        assert(annotation_lines(shorter).is_prefix_of(annotation_lines(annotations)));
        lemma_prefix_trans(
            annotation_lines(annotations.take(k)),
            annotation_lines(shorter),
            annotation_lines(annotations),
        );
    }
}

/// Where the `i`-th annotation stands in a text that begins with the lines of
/// `annotations`: right after the lines of those before it.
pub proof fn lemma_annotation_parts(annotations: Seq<Seq<char>>, i: int, tail: Seq<char>)
    requires
        0 <= i < annotations.len(),
    ensures
        ({
            let total = annotation_lines(annotations) + tail;
            let done = annotation_lines(annotations.take(i));
            &&& done + annotations[i] + "\n"@ == annotation_lines(annotations.take(i + 1))
            &&& (done + annotations[i]).is_prefix_of(total)
            &&& (done + annotations[i] + "\n"@).is_prefix_of(total)
        }),
{
    let total = annotation_lines(annotations) + tail;
    let done = annotation_lines(annotations.take(i));
    let upto = annotations.take(i + 1);
    let none = Seq::<char>::empty();
    assert(upto.drop_last() =~= annotations.take(i));
    assert(upto.last() == annotations[i]);
    lemma_annotation_lines_prefix(annotations, i + 1);
    lemma_prefix_within(annotation_lines(upto), annotation_lines(annotations), none, tail);
    assert(none + annotation_lines(upto) =~= annotation_lines(upto));
    assert(none + annotation_lines(annotations) + tail =~= total);
    assert((done + annotations[i]).is_prefix_of(annotation_lines(upto)));
    lemma_prefix_trans(done + annotations[i], annotation_lines(upto), total);
}

/// The lines of two runs of annotations, one after the other, are the lines
/// of the runs put together.
pub proof fn lemma_annotation_lines_concat(a: Seq<Seq<char>>, b: Seq<Seq<char>>)
    ensures
        annotation_lines(a + b) == annotation_lines(a) + annotation_lines(b),
    decreases b.len(),
{
    if b.len() == 0 {
        assert(a + b =~= a);
        assert(annotation_lines(a) + annotation_lines(b) =~= annotation_lines(a));
    } else {
        lemma_annotation_lines_concat(a, b.drop_last());
        assert((a + b).drop_last() =~= a + b.drop_last());
        assert((a + b).last() == b.last());
        assert(annotation_lines(a + b) =~= annotation_lines(a) + (annotation_lines(b.drop_last())
            + b.last() + "\n"@));
    }
}

/// Annotations come first and in the order in which they were added.
/// However many are added, each gets a line of its own, after the lines of
/// those that were there and before the documentation and the entry, which
/// stay as they were.
pub proof fn lemma_annotation_order(v: VariantView, more: Seq<Seq<char>>)
    ensures
        v.with_annotations(more).annotations == v.annotations + more,
        v.with_annotations(more).text() == annotation_lines(v.annotations) + annotation_lines(more)
            + v.doc_text() + v.declaration(),
        v.with_annotations(more).doc_text() == v.doc_text(),
        v.with_annotations(more).declaration() == v.declaration(),
    decreases more.len(),
{
    if more.len() == 0 {
        assert(v.annotations + more =~= v.annotations);
        assert(annotation_lines(v.annotations) + annotation_lines(more) =~= annotation_lines(
            v.annotations,
        ));
    } else {
        lemma_annotation_order(v, more.drop_last());
        assert((v.annotations + more.drop_last()).push(more.last()) =~= v.annotations + more);
        lemma_annotation_lines_concat(v.annotations, more);
    }
}

/// Documentation set again replaces what was set before: only the text set
/// last is rendered.
pub proof fn lemma_doc_replaces(v: VariantView, first: Seq<char>, second: Seq<char>)
    ensures
        v.with_doc(first).with_doc(second) == v.with_doc(second),
        v.with_doc(first).with_doc(second).text() == annotation_lines(v.annotations) + doc_comment(
            second,
        ) + v.declaration(),
{
}

/// A variant without fields is its name, a comma and a line feed, after its
/// annotations and documentation; a newly made one is just that entry.
pub proof fn lemma_unit_text(v: VariantView, name: Seq<char>)
    ensures
        v.fields is Empty ==> v.text() == annotation_lines(v.annotations) + v.doc_text() + v.name
            + ",\n"@,
        VariantView::new(name).text() == name + ",\n"@,
{
    if v.fields is Empty {
        assert(v.name + Seq::<char>::empty() + ",\n"@ =~= v.name + ",\n"@);
        assert(v.text() =~= annotation_lines(v.annotations) + v.doc_text() + v.name + ",\n"@);
    }
    let fresh = VariantView::new(name);
    assert(annotation_lines(fresh.annotations) =~= Seq::<char>::empty());
    assert(fresh.text() =~= name + ",\n"@);
}

/// Named fields render in braces after the name, in the order in which they
/// were added, as `name: type` with `", "` between them.
pub proof fn lemma_named_text(
    name: Seq<char>,
    a: Seq<char>,
    ta: TypeView,
    b: Seq<char>,
    tb: TypeView,
)
    ensures
        VariantView::new(name).with_named(a, ta).text() == name + " { "@ + a + ": "@ + ta.text()
            + " }"@ + ",\n"@,
        VariantView::new(name).with_named(a, ta).with_named(b, tb).text() == name + " { "@ + a
            + ": "@ + ta.text() + ", "@ + b + ": "@ + tb.text() + " }"@ + ",\n"@,
{
    let fa = FieldView { name: a, ty: ta };
    let fb = FieldView { name: b, ty: tb };
    let one = VariantView::new(name).with_named(a, ta);
    let two = one.with_named(b, tb);
    let none = Seq::<char>::empty();
    assert(annotation_lines(one.annotations) == none);
    assert(one.fields == FieldsView::Named(seq![fa]));
    assert(two.fields == FieldsView::Named(seq![fa].push(fb)));
    assert(field_list(seq![fa]) == a + ": "@ + ta.text());
    assert(field_list(seq![fa].push(fb)) == a + ": "@ + ta.text() + ", "@ + (b + ": "@
        + tb.text())) by {
        assert(seq![fa].push(fb).drop_last() =~= seq![fa]);
    }
    lemma_named_declaration(one);
    lemma_named_declaration(two);
    assert(one.text() =~= one.declaration());
    assert(two.text() =~= two.declaration());
    assert(name + " { "@ + (a + ": "@ + ta.text()) + " }"@ + ",\n"@ =~= name + " { "@ + a + ": "@
        + ta.text() + " }"@ + ",\n"@);
    assert(name + " { "@ + (a + ": "@ + ta.text() + ", "@ + (b + ": "@ + tb.text())) + " }"@
        + ",\n"@ =~= name + " { "@ + a + ": "@ + ta.text() + ", "@ + b + ": "@ + tb.text() + " }"@
        + ",\n"@);
}

/// The entry of a variant with named fields is its name, a blank, and the
/// fields in braces with blanks inside.
pub proof fn lemma_named_declaration(v: VariantView)
    ensures
        v.fields matches FieldsView::Named(fields) ==> v.declaration() == v.name + " { "@
            + field_list(fields) + " }"@ + ",\n"@,
{
    if let FieldsView::Named(fields) = v.fields {
        assert(v.name + (" { "@ + field_list(fields) + " }"@) + ",\n"@ =~= v.name + " { "@
            + field_list(fields) + " }"@ + ",\n"@);
    }
}

/// A further named field goes to the end of the list, after a separator.
pub proof fn lemma_named_appends(fields: Seq<FieldView>, name: Seq<char>, ty: TypeView)
    requires
        fields.len() > 0,
    ensures
        FieldsView::Named(fields).with_named(name, ty) == FieldsView::Named(
            fields.push(FieldView { name, ty }),
        ),
        field_list(fields.push(FieldView { name, ty })) == field_list(fields) + ", "@ + (name
            + ": "@ + ty.text()),
{
    assert(fields.push(FieldView { name, ty }).drop_last() =~= fields);
}

/// Positional fields render in parentheses right after the name, in the
/// order in which they were added, with `", "` between them.
pub proof fn lemma_tuple_text(name: Seq<char>, ta: TypeView, tb: TypeView)
    ensures
        VariantView::new(name).with_tuple(ta).text() == name + "("@ + ta.text() + ")"@ + ",\n"@,
        VariantView::new(name).with_tuple(ta).with_tuple(tb).text() == name + "("@ + ta.text()
            + ", "@ + tb.text() + ")"@ + ",\n"@,
{
    let one = VariantView::new(name).with_tuple(ta);
    let two = one.with_tuple(tb);
    let none = Seq::<char>::empty();
    assert(annotation_lines(one.annotations) == none);
    assert(one.fields == FieldsView::Tuple(seq![ta]));
    assert(two.fields == FieldsView::Tuple(seq![ta].push(tb)));
    assert(type_list(seq![ta]) == ta.text()) by {
        assert(type_list(seq![ta]) == seq![ta][0].text());
    }
    assert(type_list(seq![ta].push(tb)) == ta.text() + ", "@ + tb.text()) by {
        lemma_tuple_appends(seq![ta], tb);
    }
    lemma_tuple_declaration(one);
    lemma_tuple_declaration(two);
    assert(one.text() =~= one.declaration());
    assert(two.text() =~= two.declaration());
    assert(name + "("@ + (ta.text() + ", "@ + tb.text()) + ")"@ + ",\n"@ =~= name + "("@
        + ta.text() + ", "@ + tb.text() + ")"@ + ",\n"@);
}

/// The entry of a variant with positional fields is its name and, right
/// after it, the types in parentheses.
pub proof fn lemma_tuple_declaration(v: VariantView)
    ensures
        v.fields matches FieldsView::Tuple(types) ==> v.declaration() == v.name + "("@ + type_list(
            types,
        ) + ")"@ + ",\n"@,
{
    if let FieldsView::Tuple(types) = v.fields {
        assert(v.name + ("("@ + type_list(types) + ")"@) + ",\n"@ =~= v.name + "("@ + type_list(
            types,
        ) + ")"@ + ",\n"@);
    }
}

/// A further positional field goes to the end of the list, after a
/// separator.
pub proof fn lemma_tuple_appends(types: Seq<TypeView>, ty: TypeView)
    requires
        types.len() > 0,
    ensures
        FieldsView::Tuple(types).with_tuple(ty) == FieldsView::Tuple(types.push(ty)),
        type_list(types.push(ty)) == type_list(types) + ", "@ + ty.text(),
{
    let more = types.push(ty);
    assert(more.drop_last() =~= types);
    assert(type_list(more) == type_list(more.drop_last()) + ", "@ + more.last().text());
}

/// The two shapes of fields never mix.  A variant that took a named field
/// takes no positional one from then on, and the other way round; and a
/// field of the shape it takes leaves it in that shape.
pub proof fn lemma_shapes_never_mix(v: VariantView, name: Seq<char>, ty: TypeView)
    ensures
        v.takes_named() ==> v.with_named(name, ty).fields is Named && !v.with_named(
            name,
            ty,
        ).takes_tuple() && v.with_named(name, ty).takes_named(),
        v.takes_tuple() ==> v.with_tuple(ty).fields is Tuple && !v.with_tuple(ty).takes_named()
            && v.with_tuple(ty).takes_tuple(),
{
}

/// Rendering depends on nothing but the variant and the formatter it is
/// given.  Into a fresh formatter it puts exactly the variant's text, so
/// rendering the same variant again gives the same output.
pub proof fn lemma_render_repeats(v: VariantView, room: nat, other: nat)
    ensures
        FormatterView::fresh(room).accepts(v.text()) <==> v.text().len() <= room,
        v.text().len() <= room ==> FormatterView::fresh(room).written(v.text()).text == v.text(),
        v.text().len() <= room && v.text().len() <= other ==> FormatterView::fresh(room).written(
            v.text(),
        ).text == FormatterView::fresh(other).written(v.text()).text,
{
    lemma_fresh_written(room, v.text());
    lemma_fresh_written(other, v.text());
}

/// One variant of an enumerated type.
#[derive(Debug)]
pub struct Variant {
    name: String,
    fields: Fields,
    annotations: Vec<String>,
    doc: Option<Docs>,
}

impl View for Variant {
    type V = VariantView;

    closed spec fn view(&self) -> VariantView {
        VariantView {
            name: self.name@,
            fields: self.fields@,
            annotations: self.annotations@.map_values(|a: String| a@),
            doc: match self.doc {
                Some(doc) => Some(doc@),
                None => None,
            },
        }
    }
}

impl Clone for Variant {
    fn clone(&self) -> (copy: Self)
        ensures
            copy@ == self@,
    {
        let mut annotations: Vec<String> = Vec::new();
        let mut i: usize = 0;
        while i < self.annotations.len()
            invariant
                i <= self.annotations.len(),
                annotations@.len() == i,
                forall|j: int| 0 <= j < i ==> annotations@[j]@ == self.annotations@[j]@,
            decreases self.annotations.len() - i,
        {
            annotations.push(self.annotations[i].clone());
            i = i + 1;
        }
        let doc = match &self.doc {
            Some(doc) => Some(doc.clone()),
            None => None,
        };
        let copy = Variant {
            name: self.name.clone(),
            fields: self.fields.clone(),
            annotations,
            doc,
        };
        proof {
            assert(copy@.annotations =~= self@.annotations);
        }
        copy
    }
}

impl Variant {
    /// A new variant of the given name, taken as it is.
    pub fn new(name: &str) -> (v: Variant)
        ensures
            v@ == VariantView::new(name@),
    {
        let v = Variant {
            name: name.to_string(),
            fields: Fields::Empty,
            annotations: Vec::new(),
            doc: None,
        };
        proof {
            assert(v@.annotations =~= Seq::<Seq<char>>::empty());
        }
        v
    }

    /// Adds a named field to the variant.
    ///
    /// A variant with positional fields takes no named one; such a call is
    /// ruled out.
    pub fn named<T: IntoType>(&mut self, name: &str, ty: T) -> (ret: &mut Self)
        requires
            old(self)@.takes_named(),
        ensures
            ret@ == old(self)@.with_named(name@, ty.type_view()),
            *final(self) == *final(ret),
    {
        self.fields.named(name, ty);
        self
    }

    /// Adds a positional field of the named type to the variant.
    ///
    /// A variant with named fields takes no positional one; such a call is
    /// ruled out.
    pub fn tuple(&mut self, ty: &str) -> (ret: &mut Self)
        requires
            old(self)@.takes_tuple(),
        ensures
            ret@ == old(self)@.with_tuple(TypeView::bare(ty@)),
            *final(self) == *final(ret),
    {
        self.fields.tuple(ty);
        self
    }

    /// Sets the variant's documentation, in place of any it had.
    pub fn doc(&mut self, docs: &str) -> (ret: &mut Self)
        ensures
            ret@ == old(self)@.with_doc(docs@),
            *final(self) == *final(ret),
    {
        self.doc = Some(Docs::new(docs));
        self
    }

    /// Adds an annotation to the variant, after those it has.
    pub fn annotation(&mut self, annotation: &str) -> (ret: &mut Self)
        ensures
            ret@ == old(self)@.with_annotation(annotation@),
            *final(self) == *final(ret),
    {
        let line = annotation.to_string();
        proof {
            assert(self.annotations@.push(line).map_values(|a: String| a@)
                =~= self.annotations@.map_values(|a: String| a@).push(annotation@));
        }
        self.annotations.push(line);
        self
    }

    /// The variant's fields.
    pub fn fields(&self) -> (fields: &Fields)
        ensures
            fields@ == self@.fields,
    {
        &self.fields
    }

    /// Writes the variant: the annotations in the order in which they were
    /// added, each on its line; the documentation, if there is one; the name
    /// with the fields right after it; a comma and a line feed.
    ///
    /// Fails exactly when the formatter has no room for all of that; the
    /// formatter then holds as much of it as fits.
    pub fn fmt(&self, fmt: &mut Formatter) -> (r: Result<(), FormatError>)
        ensures
            final(fmt)@ == old(fmt)@.written(self@.text()),
            r is Ok <==> old(fmt)@.accepts(self@.text()),
    {
        let ghost start = fmt@;
        let ghost total = self@.text();
        let ghost notes = self@.annotations;
        let ghost tail = self@.doc_text() + self@.declaration();
        proof {
            lemma_written_nothing(start);
            assert(annotation_lines(notes.take(0)) =~= Seq::<char>::empty());
            assert(total =~= annotation_lines(notes) + tail);
        }
        let mut i: usize = 0;
        while i < self.annotations.len()
            invariant
                i <= self.annotations.len(),
                start == old(fmt)@,
                total == self@.text(),
                total == annotation_lines(notes) + tail,
                notes.len() == self.annotations.len(),
                forall|j: int| 0 <= j < notes.len() ==> notes[j] == self.annotations@[j]@,
                fmt@ == start.written(annotation_lines(notes.take(i as int))),
                start.accepts(annotation_lines(notes.take(i as int))),
            decreases self.annotations.len() - i,
        {
            let ghost done = annotation_lines(notes.take(i as int));
            proof {
                lemma_annotation_parts(notes, i as int, tail);
                lemma_write_step(start, done, notes[i as int], total);
                lemma_write_step(start, done + notes[i as int], "\n"@, total);
            }
            if fmt.write(self.annotations[i].as_str()).is_err() {
                return Err(FormatError);
            }
            if fmt.write("\n").is_err() {
                return Err(FormatError);
            }
            i = i + 1;
        }
        let ghost a = annotation_lines(notes);
        let ghost d = self@.doc_text();
        let ghost n = self.name@;
        let ghost f = self@.fields.text();
        proof {
            assert(notes.take(i as int) =~= notes);
            assert(total =~= a + d + n + f + ",\n"@);
            assert((a + d).is_prefix_of(total));
            assert((a + d + n).is_prefix_of(total));
            assert((a + d + n + f).is_prefix_of(total));
            lemma_write_step(start, a, d, total);
            lemma_write_step(start, a + d, n, total);
            lemma_write_step(start, a + d + n, f, total);
            lemma_write_step(start, a + d + n + f, ",\n"@, total);
        }
        match &self.doc {
            Some(doc) => {
                if doc.fmt(fmt).is_err() {
                    return Err(FormatError);
                }
            },
            None => {
                proof {
                    assert(a + d =~= a);
                }
            },
        }
        if fmt.write(self.name.as_str()).is_err() {
            return Err(FormatError);
        }
        if self.fields.fmt(fmt).is_err() {
            return Err(FormatError);
        }
        fmt.write(",\n")
    }
}

} // verus!
