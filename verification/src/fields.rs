//! The fields of a variant: none, positional ones, or named ones, and never
//! a mixture.

use crate::formatter::{lemma_write_step, lemma_written_nothing, FormatError, Formatter};
use crate::text::{lemma_prefix_trans, lemma_prefix_within};
use crate::ty::{
    lemma_type_list_parts, lemma_views, lemma_views_push, type_list, views, IntoType, Type,
    TypeView,
};
use vstd::pervasive::unreached;
use vstd::prelude::*;

verus! {

/// What a [`Field`] stands for.
pub struct FieldView {
    pub name: Seq<char>,
    pub ty: TypeView,
}

impl FieldView {
    /// The field as source text: name, colon, type.
    pub open spec fn text(self) -> Seq<char> {
        self.name + ": "@ + self.ty.text()
    }
}

/// The texts of `fields`, in order, with `", "` between neighbours.
pub open spec fn field_list(fields: Seq<FieldView>) -> Seq<char>
    decreases fields.len(),
{
    if fields.len() == 0 {
        Seq::empty()
    } else if fields.len() == 1 {
        fields[0].text()
    } else {
        field_list(fields.drop_last()) + ", "@ + fields.last().text()
    }
}

/// A list grows by its separator and the next text, but for the first.
pub proof fn lemma_field_list_step(fields: Seq<FieldView>, i: int)
    requires
        0 <= i < fields.len(),
    ensures
        field_list(fields.take(i + 1)) == if i == 0 {
            fields[i].text()
        } else {
            field_list(fields.take(i)) + ", "@ + fields[i].text()
        },
{
    let upto = fields.take(i + 1);
    assert(upto.drop_last() =~= fields.take(i));
    assert(upto.last() == fields[i]);
}

/// The list of the first `k` fields begins the list of all of them.
pub proof fn lemma_field_list_prefix(fields: Seq<FieldView>, k: int)
    requires
        0 <= k <= fields.len(),
    ensures
        field_list(fields.take(k)).is_prefix_of(field_list(fields)),
    decreases fields.len(),
{
    if k == fields.len() {
        assert(fields.take(k) =~= fields);
    } else {
        let shorter = fields.drop_last();
        lemma_field_list_prefix(shorter, k);
        assert(shorter.take(k) =~= fields.take(k));
        if fields.len() > 1 {
            assert(field_list(shorter).is_prefix_of(field_list(fields)));
            lemma_prefix_trans(field_list(fields.take(k)), field_list(shorter), field_list(fields));
        }
    }
}

/// Where the text of the `i`-th field stands in a text that holds the list of
/// `fields` between `head` and `tail`: right after the list of the fields
/// before it and, but for the first, a separator.  Each part of the field's
/// text, put after what precedes it, begins the whole.
pub proof fn lemma_field_list_parts(
    fields: Seq<FieldView>,
    i: int,
    head: Seq<char>,
    tail: Seq<char>,
)
    requires
        0 <= i < fields.len(),
    ensures
        ({
            let total = head + field_list(fields) + tail;
            let done = head + field_list(fields.take(i));
            let sep = if i == 0 {
                Seq::<char>::empty()
            } else {
                ", "@
            };
            let name = fields[i].name;
            let ty = fields[i].ty.text();
            &&& done + sep + name + ": "@ + ty == head + field_list(fields.take(i + 1))
            &&& (done + sep).is_prefix_of(total)
            &&& (done + sep + name).is_prefix_of(total)
            &&& (done + sep + name + ": "@).is_prefix_of(total)
            &&& (done + sep + name + ": "@ + ty).is_prefix_of(total)
        }),
{
    let total = head + field_list(fields) + tail;
    let done = head + field_list(fields.take(i));
    let sep = if i == 0 {
        Seq::<char>::empty()
    } else {
        ", "@
    };
    let name = fields[i].name;
    let ty = fields[i].ty.text();
    let upto = done + sep + name + ": "@ + ty;
    lemma_field_list_step(fields, i);
    lemma_field_list_prefix(fields, i + 1);
    lemma_prefix_within(field_list(fields.take(i + 1)), field_list(fields), head, tail);
    if i == 0 {
        assert(field_list(fields.take(0)) =~= Seq::<char>::empty());
    }
    assert(upto =~= head + field_list(fields.take(i + 1)));
    assert((done + sep).is_prefix_of(upto));
    assert((done + sep + name).is_prefix_of(upto));
    assert((done + sep + name + ": "@).is_prefix_of(upto));
    lemma_prefix_trans(done + sep, upto, total);
    lemma_prefix_trans(done + sep + name, upto, total);
    lemma_prefix_trans(done + sep + name + ": "@, upto, total);
}

/// What a [`Fields`] stands for.
pub enum FieldsView {
    Empty,
    Tuple(Seq<TypeView>),
    Named(Seq<FieldView>),
}

impl FieldsView {
    /// The fields with one more named field at the end.  Positional fields
    /// take no named one: they stay as they are.
    pub open spec fn with_named(self, name: Seq<char>, ty: TypeView) -> FieldsView {
        match self {
            FieldsView::Empty => FieldsView::Named(seq![FieldView { name, ty }]),
            FieldsView::Named(fields) => FieldsView::Named(fields.push(FieldView { name, ty })),
            FieldsView::Tuple(_) => self,
        }
    }

    /// The fields with one more positional field at the end.  Named fields
    /// take no positional one: they stay as they are.
    pub open spec fn with_tuple(self, ty: TypeView) -> FieldsView {
        match self {
            FieldsView::Empty => FieldsView::Tuple(seq![ty]),
            FieldsView::Tuple(types) => FieldsView::Tuple(types.push(ty)),
            FieldsView::Named(_) => self,
        }
    }

    /// The fields as source text, as they follow a variant's name: nothing
    /// where there are none, the types in parentheses where they are
    /// positional, a blank and the fields in braces where they are named.
    pub open spec fn text(self) -> Seq<char> {
        match self {
            FieldsView::Empty => Seq::empty(),
            FieldsView::Tuple(types) => "("@ + type_list(types) + ")"@,
            FieldsView::Named(fields) => " { "@ + field_list(fields) + " }"@,
        }
    }
}

/// A named field.
#[derive(Debug)]
pub struct Field {
    pub name: String,
    pub ty: Type,
}

impl Clone for Field {
    fn clone(&self) -> (copy: Self)
        ensures
            copy@ == self@,
    {
        Field { name: self.name.clone(), ty: self.ty.clone() }
    }
}

impl View for Field {
    type V = FieldView;

    open spec fn view(&self) -> FieldView {
        FieldView { name: self.name@, ty: self.ty@ }
    }
}

/// The fields of a variant, in one of three shapes.
#[derive(Debug)]
pub enum Fields {
    Empty,
    Tuple(Vec<Type>),
    Named(Vec<Field>),
}

impl View for Fields {
    type V = FieldsView;

    open spec fn view(&self) -> FieldsView {
        match self {
            Fields::Empty => FieldsView::Empty,
            Fields::Tuple(types) => FieldsView::Tuple(views(types@)),
            Fields::Named(fields) => FieldsView::Named(fields@.map_values(|f: Field| f@)),
        }
    }
}

impl Clone for Fields {
    fn clone(&self) -> (copy: Self)
        ensures
            copy@ == self@,
    {
        match self {
            Fields::Empty => Fields::Empty,
            Fields::Tuple(types) => {
                let mut copies: Vec<Type> = Vec::new();
                let mut i: usize = 0;
                while i < types.len()
                    invariant
                        i <= types.len(),
                        copies@.len() == i,
                        forall|j: int| 0 <= j < i ==> copies@[j]@ == types@[j]@,
                    decreases types.len() - i,
                {
                    copies.push(types[i].clone());
                    i = i + 1;
                }
                proof {
                    lemma_views(copies@);
                    lemma_views(types@);
                    assert(views(copies@) =~= views(types@));
                }
                Fields::Tuple(copies)
            },
            Fields::Named(fields) => {
                let mut copies: Vec<Field> = Vec::new();
                let mut i: usize = 0;
                while i < fields.len()
                    invariant
                        i <= fields.len(),
                        copies@.len() == i,
                        forall|j: int| 0 <= j < i ==> copies@[j]@ == fields@[j]@,
                    decreases fields.len() - i,
                {
                    copies.push(fields[i].clone());
                    i = i + 1;
                }
                proof {
                    assert(copies@.map_values(|f: Field| f@) =~= fields@.map_values(
                        |f: Field| f@,
                    ));
                }
                Fields::Named(copies)
            },
        }
    }
}

impl Fields {
    /// Adds a named field after those that are there.
    ///
    /// Positional fields take no named one; such a call is ruled out.
    pub fn named<T: IntoType>(&mut self, name: &str, ty: T) -> (ret: &mut Self)
        requires
            !(old(self)@ is Tuple),
        ensures
            ret@ == old(self)@.with_named(name@, ty.type_view()),
            ret@ is Named,
            *final(self) == *final(ret),
    {
        let field = Field { name: name.to_string(), ty: ty.into_type() };
        match self {
            Fields::Empty => {
                let mut fields: Vec<Field> = Vec::new();
                fields.push(field);
                proof {
                    assert(fields@.map_values(|f: Field| f@) =~= seq![field@]);
                }
                *self = Fields::Named(fields);
            },
            Fields::Named(fields) => {
                proof {
                    assert(fields@.push(field).map_values(|f: Field| f@) =~= fields@.map_values(
                        |f: Field| f@,
                    ).push(field@));
                }
                fields.push(field);
            },
            Fields::Tuple(_) => {
                unreached()
            },
        }
        self
    }

    /// Adds a positional field after those that are there.
    ///
    /// Named fields take no positional one; such a call is ruled out.
    pub fn tuple<T: IntoType>(&mut self, ty: T) -> (ret: &mut Self)
        requires
            !(old(self)@ is Named),
        ensures
            ret@ == old(self)@.with_tuple(ty.type_view()),
            ret@ is Tuple,
            *final(self) == *final(ret),
    {
        let ty = ty.into_type();
        match self {
            Fields::Empty => {
                let mut types: Vec<Type> = Vec::new();
                proof {
                    lemma_views_push(types@, ty);
                    assert(views(types@) =~= Seq::<TypeView>::empty());
                    assert(Seq::<TypeView>::empty().push(ty@) =~= seq![ty@]);
                }
                types.push(ty);
                *self = Fields::Tuple(types);
            },
            Fields::Tuple(types) => {
                proof {
                    lemma_views_push(types@, ty);
                }
                types.push(ty);
            },
            Fields::Named(_) => {
                unreached()
            },
        }
        self
    }

    /// Writes the fields as they follow a variant's name.
    ///
    /// Fails exactly when the formatter has no room for all of the text; the
    /// formatter then holds as much of it as fits.
    pub fn fmt(&self, fmt: &mut Formatter) -> (r: Result<(), FormatError>)
        ensures
            final(fmt)@ == old(fmt)@.written(self@.text()),
            r is Ok <==> old(fmt)@.accepts(self@.text()),
    {
        let ghost start = fmt@;
        let ghost total = self@.text();
        let ghost none = Seq::<char>::empty();
        proof {
            lemma_written_nothing(start);
        }
        match self {
            Fields::Empty => Ok(()),
            Fields::Tuple(types) => {
                let ghost items = views(types@);
                let ghost head = "("@;
                proof {
                    lemma_views(types@);
                    assert(none + head =~= head);
                    assert(head.is_prefix_of(total));
                    lemma_write_step(start, none, head, total);
                    assert(type_list(items.take(0)) =~= none);
                    assert(head + type_list(items.take(0)) =~= head);
                }
                if fmt.write("(").is_err() {
                    return Err(FormatError);
                }
                let mut i: usize = 0;
                while i < types.len()
                    invariant
                        i <= types.len(),
                        start == old(fmt)@,
                        total == self@.text(),
                        total == head + type_list(items) + ")"@,
                        items.len() == types.len(),
                        none == Seq::<char>::empty(),
                        forall|j: int| 0 <= j < items.len() ==> items[j] == types@[j]@,
                        fmt@ == start.written(head + type_list(items.take(i as int))),
                        start.accepts(head + type_list(items.take(i as int))),
                    decreases types.len() - i,
                {
                    let ghost done = head + type_list(items.take(i as int));
                    let ghost item = items[i as int].text();
                    let ghost sep = if i == 0 {
                        none
                    } else {
                        ", "@
                    };
                    proof {
                        lemma_type_list_parts(items, i as int, head, ")"@);
                        lemma_write_step(start, done, sep, total);
                        lemma_write_step(start, done + sep, item, total);
                        assert(done + none =~= done);
                    }
                    if i != 0 {
                        if fmt.write(", ").is_err() {
                            return Err(FormatError);
                        }
                    }
                    if types[i].fmt(fmt).is_err() {
                        return Err(FormatError);
                    }
                    i = i + 1;
                }
                proof {
                    assert(items.take(i as int) =~= items);
                    lemma_write_step(start, head + type_list(items), ")"@, total);
                }
                fmt.write(")")
            },
            Fields::Named(fields) => {
                let ghost items = fields@.map_values(|f: Field| f@);
                let ghost head = " { "@;
                proof {
                    assert(none + head =~= head);
                    assert(head.is_prefix_of(total));
                    lemma_write_step(start, none, head, total);
                    assert(field_list(items.take(0)) =~= none);
                    assert(head + field_list(items.take(0)) =~= head);
                }
                if fmt.write(" { ").is_err() {
                    return Err(FormatError);
                }
                let mut i: usize = 0;
                while i < fields.len()
                    invariant
                        i <= fields.len(),
                        start == old(fmt)@,
                        total == self@.text(),
                        total == head + field_list(items) + " }"@,
                        items.len() == fields.len(),
                        none == Seq::<char>::empty(),
                        forall|j: int| 0 <= j < items.len() ==> items[j] == fields@[j]@,
                        fmt@ == start.written(head + field_list(items.take(i as int))),
                        start.accepts(head + field_list(items.take(i as int))),
                    decreases fields.len() - i,
                {
                    let ghost done = head + field_list(items.take(i as int));
                    let ghost name = items[i as int].name;
                    let ghost ty = items[i as int].ty.text();
                    let ghost sep = if i == 0 {
                        none
                    } else {
                        ", "@
                    };
                    proof {
                        lemma_field_list_parts(items, i as int, head, " }"@);
                        lemma_write_step(start, done, sep, total);
                        lemma_write_step(start, done + sep, name, total);
                        lemma_write_step(start, done + sep + name, ": "@, total);
                        lemma_write_step(start, done + sep + name + ": "@, ty, total);
                        assert(done + none =~= done);
                    }
                    if i != 0 {
                        if fmt.write(", ").is_err() {
                            return Err(FormatError);
                        }
                    }
                    if fmt.write(fields[i].name.as_str()).is_err() {
                        return Err(FormatError);
                    }
                    if fmt.write(": ").is_err() {
                        return Err(FormatError);
                    }
                    if fields[i].ty.fmt(fmt).is_err() {
                        return Err(FormatError);
                    }
                    i = i + 1;
                }
                proof {
                    assert(items.take(i as int) =~= items);
                    lemma_write_step(start, head + field_list(items), " }"@, total);
                }
                fmt.write(" }")
            },
        }
    }
}

} // verus!
