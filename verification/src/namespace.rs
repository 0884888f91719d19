//! Names and the namespaces that hold them.

use std::rc::Rc;
use vstd::prelude::*;
use vstd::string::StringSliceAdditionalSpecFns;

verus! {

/// A name as it stands in the file, without the null at its end; `None` where there is
/// none.
pub type Name<'input> = Option<&'input [u8]>;

/// What bytes that are not valid UTF-8 say, with a replacement character in place of each
/// part that is not.
pub uninterp spec fn repaired(bytes: Seq<u8>) -> Seq<char>;

/// What bytes say when they are read as UTF-8.
pub open spec fn lossy(bytes: Seq<u8>) -> Seq<char> {
    if vstd::utf8::valid_utf8(bytes) {
        vstd::utf8::decode_utf8(bytes)
    } else {
        repaired(bytes)
    }
}

/// Calls `String::from_utf8_lossy`.
///
/// Bytes that are valid UTF-8 come out as the characters that they encode. What comes out
/// of other bytes depends on them alone and is called [`repaired`].
#[verifier::external_body]
fn to_string_lossy(bytes: &[u8]) -> (text: String)
    ensures
        text@ == (if vstd::utf8::valid_utf8(bytes@) {
            vstd::utf8::decode_utf8(bytes@)
        } else {
            repaired(bytes@)
        }),
{
    String::from_utf8_lossy(bytes).into_owned()
}

/// A name as text, or a stand-in where there is no name.
pub open spec fn name_text(name: Name, missing: Seq<char>) -> Seq<char> {
    match name {
        Some(bytes) => lossy(bytes@),
        None => missing,
    }
}

/// Appends bytes as text.
pub fn write_lossy(w: &mut String, bytes: &[u8])
    ensures
        final(w)@ == old(w)@ + lossy(bytes@),
{
    let text = to_string_lossy(bytes);
    w.append(text.as_str());
}

/// Appends a name, or a stand-in where there is no name.
pub fn write_name(w: &mut String, name: Name, missing: &str)
    ensures
        final(w)@ == old(w)@ + name_text(name, missing@),
{
    match name {
        Some(bytes) => write_lossy(w, bytes),
        None => w.append(missing),
    }
}

/// Whether a name is there and is spelled like the filter.
pub open spec fn name_passes(name: Name, filter: &str) -> bool {
    match name {
        Some(bytes) => bytes@ == filter.spec_bytes(),
        None => false,
    }
}

fn same_bytes(a: &[u8], b: &[u8]) -> (same: bool)
    ensures
        same == (a@ == b@),
{
    if a.len() != b.len() {
        return false;
    }
    let mut i: usize = 0;
    while i < a.len()
        invariant
            i <= a.len(),
            a.len() == b.len(),
            forall|j: int| 0 <= j < i ==> a@[j] == b@[j],
        decreases a.len() - i,
    {
        if a[i] != b[i] {
            return false;
        }
        i = i + 1;
    }
    assert(a@ =~= b@);
    true
}

/// Whether a name is there and is spelled like the filter.
pub fn filter_name(name: Name, filter: &str) -> (passes: bool)
    ensures
        passes == name_passes(name, filter),
{
    match name {
        Some(bytes) => same_bytes(bytes, filter.as_bytes()),
        None => false,
    }
}

/// A namespace: a name inside another namespace. The outermost namespace has no parent and
/// counts for nothing in a path.
#[derive(Debug)]
pub struct Namespace<'input> {
    /// The namespace that holds this one.
    pub parent: Option<Rc<Namespace<'input>>>,
    /// The name of this one.
    pub name: Name<'input>,
}

impl<'input> Namespace<'input> {
    /// The names from the outermost namespace down to this one.
    pub open spec fn path(self) -> Seq<Name<'input>>
        decreases self,
    {
        match self.parent {
            Some(parent) => parent.path().push(self.name),
            None => seq![],
        }
    }

    /// Whether the path begins with the names of the filter.
    pub open spec fn passes(self, filter: Seq<&str>) -> bool {
        &&& filter.len() <= self.path().len()
        &&& forall|i: int| 0 <= i < filter.len() ==> name_passes(#[trigger] self.path()[i], filter[i])
    }

    /// The path as text, with `::` behind each name.
    pub open spec fn text(self) -> Seq<char> {
        path_text(self.path())
    }

    /// The outermost namespace.
    pub fn root() -> (namespace: Rc<Namespace<'input>>)
        ensures
            namespace.path() == Seq::<Name<'input>>::empty(),
            *namespace == (Namespace { parent: None, name: None }),
    {
        Rc::new(Namespace { parent: None, name: None })
    }

    /// A namespace inside another.
    pub fn new(parent: &Rc<Namespace<'input>>, name: Name<'input>) -> (namespace: Rc<
        Namespace<'input>,
    >)
        ensures
            namespace.path() == parent.path().push(name),
            *namespace == (Namespace { parent: Some(*parent), name }),
    {
        Rc::new(Namespace { parent: Some(parent.clone()), name })
    }

    /// Appends the path, with `::` behind each name.
    pub fn print(&self, w: &mut String)
        ensures
            final(w)@ == old(w)@ + self.text(),
        decreases self,
    {
        if let Some(parent) = &self.parent {
            parent.print(w);
            write_name(w, self.name, "<anon>");
            w.append("::");
            assert(self.path().drop_last() =~= parent.path());
        }
    }

    fn filter_prefix(&self, namespace: &[&str]) -> (result: (bool, usize))
        ensures
            result.0 <==> (forall|i: int|
                0 <= i < namespace@.len() && i < self.path().len() ==> name_passes(
                    #[trigger] self.path()[i],
                    namespace@[i],
                )),
            result.0 ==> result.1 <= namespace@.len() && result.1 <= self.path().len() && (
            result.1 == namespace@.len() || result.1 == self.path().len()),
        decreases self,
    {
        match &self.parent {
            Some(parent) => {
                let ghost path = self.path();
                assert(path.drop_last() =~= parent.path());
                assert(forall|i: int| 0 <= i < parent.path().len() ==> parent.path()[i] == path[i]);
                let (passes, offset) = parent.filter_prefix(namespace);
                if !passes {
                    let ghost i = choose|i: int|
                        0 <= i < namespace@.len() && i < parent.path().len() && !name_passes(
                            #[trigger] parent.path()[i],
                            namespace@[i],
                        );
                    assert(!name_passes(path[i], namespace@[i]));
                    return (false, 0);
                }
                if offset < namespace.len() {
                    let last = filter_name(self.name, namespace[offset]);
                    assert(path[offset as int] == self.name);
                    (last, offset + 1)
                } else {
                    (true, offset)
                }
            },
            None => (true, 0),
        }
    }

    /// Whether the path begins with the names of the filter.
    pub fn filter(&self, namespace: &[&str]) -> (passes: bool)
        ensures
            passes == self.passes(namespace@),
    {
        let (passes, offset) = self.filter_prefix(namespace);
        passes && offset == namespace.len()
    }
}

/// A path as text, with `::` behind each name.
pub open spec fn path_text(path: Seq<Name>) -> Seq<char>
    decreases path.len(),
{
    if path.len() == 0 {
        seq![]
    } else {
        path_text(path.drop_last()) + name_text(path.last(), "<anon>"@) + "::"@
    }
}

/// An empty filter lets every namespace pass.
pub proof fn lemma_empty_filter_passes(namespace: Namespace)
    ensures
        namespace.passes(seq![]),
{
}

/// What passes a filter passes every filter that the first begins with, and everything
/// inside a namespace that passes, passes too.
pub proof fn lemma_filter_is_a_prefix<'input>(
    namespace: Namespace<'input>,
    inner: Namespace<'input>,
    filter: Seq<&str>,
    count: int,
)
    requires
        namespace.passes(filter),
        0 <= count <= filter.len(),
        inner.parent == Some(std::rc::Rc::new(namespace)),
    ensures
        namespace.passes(filter.take(count)),
        inner.passes(filter),
{
    assert(inner.path() == namespace.path().push(inner.name));
    assert forall|i: int| 0 <= i < filter.len() implies name_passes(
        #[trigger] inner.path()[i],
        filter[i],
    ) by {
        assert(inner.path()[i] == namespace.path()[i]);
    }
}

/// A name is printed as the text that its bytes spell in UTF-8, and where there is no name the
/// stand-in is printed.
pub proof fn lemma_names_say_what_they_spell<'input>(
    name: &'input [u8],
    chars: Seq<char>,
    missing: Seq<char>,
)
    requires
        name@ == vstd::utf8::encode_utf8(chars),
    ensures
        lossy(name@) == chars,
        name_text(Some(name), missing) == chars,
        name_text(None, missing) == missing,
{
    vstd::utf8::encode_utf8_valid_utf8(chars);
    vstd::utf8::encode_utf8_decode_utf8(chars);
}

} // verus!
