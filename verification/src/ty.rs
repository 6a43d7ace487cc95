//! References to types: a name and the types it is applied to.

use crate::formatter::{lemma_write_step, lemma_written_nothing, FormatError, Formatter};
use crate::text::{lemma_prefix_trans, lemma_prefix_within};
use vstd::prelude::*;

verus! {

/// What a [`Type`] stands for.
pub struct TypeView {
    pub name: Seq<char>,
    pub generics: Seq<TypeView>,
}

/// The texts of `types`, in order, with `", "` between neighbours.
pub open spec fn type_list(types: Seq<TypeView>) -> Seq<char>
    decreases types, 0nat,
{
    if types.len() == 0 {
        Seq::empty()
    } else if types.len() == 1 {
        types[0].text()
    } else {
        type_list(types.drop_last()) + ", "@ + types.last().text()
    }
}

impl TypeView {
    /// A type without arguments.
    pub open spec fn bare(name: Seq<char>) -> TypeView {
        TypeView { name, generics: Seq::empty() }
    }

    /// This type with `arg` as one more argument, after those it has.
    pub open spec fn with_generic(self, arg: TypeView) -> TypeView {
        TypeView { name: self.name, generics: self.generics.push(arg) }
    }

    /// The type as source text: the name, and, where there are arguments,
    /// their list in angle brackets.
    pub open spec fn text(self) -> Seq<char>
        decreases self, 1nat,
    {
        if self.generics.len() == 0 {
            self.name
        } else {
            self.name + "<"@ + type_list(self.generics) + ">"@
        }
    }
}

/// A list grows by its separator and the next text, but for the first.
pub proof fn lemma_type_list_step(types: Seq<TypeView>, i: int)
    requires
        0 <= i < types.len(),
    ensures
        type_list(types.take(i + 1)) == if i == 0 {
            types[i].text()
        } else {
            type_list(types.take(i)) + ", "@ + types[i].text()
        },
{
    let upto = types.take(i + 1);
    assert(upto.drop_last() =~= types.take(i));
    assert(upto.last() == types[i]);
    if i == 0 {
        assert(type_list(upto) == upto[0].text());
    } else {
        assert(type_list(upto) == type_list(upto.drop_last()) + ", "@ + upto.last().text());
    }
}

/// The list of the first `k` types begins the list of all of them.
pub proof fn lemma_type_list_prefix(types: Seq<TypeView>, k: int)
    requires
        0 <= k <= types.len(),
    ensures
        type_list(types.take(k)).is_prefix_of(type_list(types)),
    decreases types.len(),
{
    if k == types.len() {
        assert(types.take(k) =~= types);
    } else {
        let shorter = types.drop_last();
        lemma_type_list_prefix(shorter, k);
        assert(shorter.take(k) =~= types.take(k));
        if types.len() == 1 {
            assert(type_list(shorter) =~= Seq::<char>::empty());
            assert(type_list(types.take(k)) =~= Seq::<char>::empty());
        } else {
            assert(type_list(types) == type_list(shorter) + ", "@ + types.last().text());
            assert(type_list(shorter).is_prefix_of(type_list(types)));
            lemma_prefix_trans(type_list(types.take(k)), type_list(shorter), type_list(types));
        }
    }
}

/// Where the text of the `i`-th type stands in a text that holds the list of
/// `types` between `head` and `tail`: right after the list of the types
/// before it and, but for the first, a separator.  What ends with the
/// separator, and what ends with the type's text, each begins the whole.
pub proof fn lemma_type_list_parts(types: Seq<TypeView>, i: int, head: Seq<char>, tail: Seq<char>)
    requires
        0 <= i < types.len(),
    ensures
        ({
            let total = head + type_list(types) + tail;
            let done = head + type_list(types.take(i));
            let sep = if i == 0 {
                Seq::<char>::empty()
            } else {
                ", "@
            };
            &&& done + sep + types[i].text() == head + type_list(types.take(i + 1))
            &&& (done + sep).is_prefix_of(total)
            &&& (done + sep + types[i].text()).is_prefix_of(total)
        }),
{
    let total = head + type_list(types) + tail;
    let done = head + type_list(types.take(i));
    let sep = if i == 0 {
        Seq::<char>::empty()
    } else {
        ", "@
    };
    let upto = done + sep + types[i].text();
    lemma_type_list_step(types, i);
    lemma_type_list_prefix(types, i + 1);
    lemma_prefix_within(type_list(types.take(i + 1)), type_list(types), head, tail);
    if i == 0 {
        assert(type_list(types.take(0)) =~= Seq::<char>::empty());
    }
    assert(upto =~= head + type_list(types.take(i + 1)));
    assert((done + sep).is_prefix_of(upto));
    lemma_prefix_trans(done + sep, upto, total);
}

/// A reference to a type.
#[derive(Debug)]
pub struct Type {
    name: String,
    generics: Vec<Type>,
}

/// The views of `types`, one for one.
pub open spec fn views(types: Seq<Type>) -> Seq<TypeView>
    decreases types, 0nat,
{
    if types.len() == 0 {
        Seq::empty()
    } else {
        views(types.drop_last()).push(types.last().view())
    }
}

impl View for Type {
    type V = TypeView;

    closed spec fn view(&self) -> TypeView
        decreases self, 1nat,
    {
        TypeView { name: self.name@, generics: views(self.generics@) }
    }
}

/// `views` keeps length and positions.
pub proof fn lemma_views(types: Seq<Type>)
    ensures
        views(types).len() == types.len(),
        forall|i: int| 0 <= i < types.len() ==> #[trigger] views(types)[i] == types[i]@,
    decreases types.len(),
{
    if types.len() > 0 {
        lemma_views(types.drop_last());
        assert(views(types) == views(types.drop_last()).push(types.last().view()));
    } else {
        assert(views(types) == Seq::<TypeView>::empty());
    }
}

/// `views` of one more type is one more view.
pub proof fn lemma_views_push(types: Seq<Type>, last: Type)
    ensures
        views(types.push(last)) == views(types).push(last@),
{
    assert(types.push(last).drop_last() =~= types);
    assert(views(types.push(last)) == views(types.push(last).drop_last()).push(
        types.push(last).last().view(),
    ));
}

impl Clone for Type {
    fn clone(&self) -> (copy: Self)
        ensures
            copy@ == self@,
        decreases self,
    {
        let mut generics: Vec<Type> = Vec::new();
        let mut i: usize = 0;
        while i < self.generics.len()
            invariant
                i <= self.generics.len(),
                generics@.len() == i,
                forall|j: int| 0 <= j < i ==> generics@[j]@ == self.generics@[j]@,
            decreases self.generics.len() - i,
        {
            let arg = self.generics[i].clone();
            generics.push(arg);
            i = i + 1;
        }
        let copy = Type { name: self.name.clone(), generics };
        proof {
            lemma_views(copy.generics@);
            lemma_views(self.generics@);
            assert(copy@.generics =~= self@.generics);
        }
        copy
    }
}

impl Type {
    /// The type of the given name, without arguments.
    pub fn new(name: &str) -> (ty: Type)
        ensures
            ty@ == TypeView::bare(name@),
    {
        Type { name: name.to_string(), generics: Vec::new() }
    }

    /// Applies the type to one more argument.
    pub fn generic<T: IntoType>(&mut self, ty: T) -> (ret: &mut Self)
        ensures
            ret@ == old(self)@.with_generic(ty.type_view()),
            *final(self) == *final(ret),
    {
        let arg = ty.into_type();
        proof {
            lemma_views_push(self.generics@, arg);
        }
        self.generics.push(arg);
        self
    }

    /// Writes the type as source text.
    ///
    /// Fails exactly when the formatter has no room for all of it; the
    /// formatter then holds as much of it as fits.
    pub fn fmt(&self, fmt: &mut Formatter) -> (r: Result<(), FormatError>)
        ensures
            final(fmt)@ == old(fmt)@.written(self@.text()),
            r is Ok <==> old(fmt)@.accepts(self@.text()),
        decreases self,
    {
        let ghost start = fmt@;
        let ghost total = self@.text();
        let ghost args = self@.generics;
        let ghost none = Seq::<char>::empty();
        proof {
            lemma_views(self.generics@);
            lemma_written_nothing(start);
            assert(none + self.name@ =~= self.name@);
            if args.len() > 0 {
                assert(self.name@.is_prefix_of(total));
            }
            lemma_write_step(start, none, self.name@, total);
        }
        if fmt.write(self.name.as_str()).is_err() {
            return Err(FormatError);
        }
        if self.generics.len() == 0 {
            return Ok(());
        }
        let ghost head = self.name@ + "<"@;
        proof {
            assert(head.is_prefix_of(total));
            lemma_write_step(start, self.name@, "<"@, total);
        }
        if fmt.write("<").is_err() {
            return Err(FormatError);
        }
        let mut i: usize = 0;
        while i < self.generics.len()
            invariant
                i <= self.generics.len(),
                start == old(fmt)@,
                total == self@.text(),
                args == self@.generics,
                args.len() == self.generics.len(),
                args.len() > 0,
                head == self.name@ + "<"@,
                none == Seq::<char>::empty(),
                forall|j: int| 0 <= j < args.len() ==> args[j] == self.generics@[j]@,
                fmt@ == start.written(head + type_list(args.take(i as int))),
                start.accepts(head + type_list(args.take(i as int))),
            decreases self.generics.len() - i,
        {
            let ghost done = head + type_list(args.take(i as int));
            let ghost item = args[i as int].text();
            let ghost sep = if i == 0 {
                none
            } else {
                ", "@
            };
            proof {
                lemma_type_list_parts(args, i as int, head, ">"@);
                lemma_write_step(start, done, sep, total);
                lemma_write_step(start, done + sep, item, total);
                assert(done + none =~= done);
            }
            if i != 0 {
                if fmt.write(", ").is_err() {
                    return Err(FormatError);
                }
            }
            if self.generics[i].fmt(fmt).is_err() {
                return Err(FormatError);
            }
            i = i + 1;
        }
        proof {
            assert(args.take(i as int) =~= args);
            lemma_write_step(start, head + type_list(args), ">"@, total);
        }
        fmt.write(">")
    }
}

/// What can stand where a type is expected: a bare name, or a type, owned or
/// borrowed.
pub trait IntoType: Sized {
    /// The type that this value is taken for.
    spec fn type_view(self) -> TypeView;

    /// Turns the value into that type.
    fn into_type(self) -> (ty: Type)
        ensures
            ty@ == self.type_view(),
    ;
}

impl IntoType for Type {
    open spec fn type_view(self) -> TypeView {
        self@
    }

    fn into_type(self) -> (ty: Type) {
        self
    }
}

impl<'a> IntoType for &'a Type {
    open spec fn type_view(self) -> TypeView {
        self@
    }

    fn into_type(self) -> (ty: Type) {
        self.clone()
    }
}

impl<'a> IntoType for &'a str {
    open spec fn type_view(self) -> TypeView {
        TypeView::bare(self@)
    }

    fn into_type(self) -> (ty: Type) {
        Type::new(self)
    }
}

impl IntoType for String {
    open spec fn type_view(self) -> TypeView {
        TypeView::bare(self@)
    }

    fn into_type(self) -> (ty: Type) {
        Type { name: self, generics: Vec::new() }
    }
}

impl<'a> IntoType for &'a String {
    open spec fn type_view(self) -> TypeView {
        TypeView::bare(self@)
    }

    fn into_type(self) -> (ty: Type) {
        Type::new(self.as_str())
    }
}

} // verus!
