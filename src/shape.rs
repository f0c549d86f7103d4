use vstd::prelude::*;

verus! {

/// How a matcher recognises its span of the input.
pub enum ExtensionShape {
    /// The identifier itself, nothing more.
    Tag(String),
    /// The identifier, then a run of characters other than the separator,
    /// then optionally one separator.
    Prefix(String),
    /// The identifier itself; the tokens come from the matcher's expansion.
    Multi(String),
}

impl ExtensionShape {
    pub open spec fn id_view(&self) -> Seq<char> {
        match self {
            ExtensionShape::Tag(i) => i@,
            ExtensionShape::Prefix(i) => i@,
            ExtensionShape::Multi(i) => i@,
        }
    }

    /// The identifier that the shape carries.
    pub fn identifier(&self) -> (r: &str)
        ensures
            r@ == self.id_view(),
    {
        match self {
            ExtensionShape::Tag(i) => i.as_str(),
            ExtensionShape::Prefix(i) => i.as_str(),
            ExtensionShape::Multi(i) => i.as_str(),
        }
    }
}

/// One recognised token.
#[derive(Debug, PartialEq, Eq)]
pub struct Extension(pub String);

impl View for Extension {
    type V = Seq<char>;

    open spec fn view(&self) -> Seq<char> {
        self.0@
    }
}

impl Clone for Extension {
    fn clone(&self) -> (r: Self)
        ensures
            r@ == self@,
    {
        Extension(self.0.clone())
    }
}

/// The text of each token, in order.
pub open spec fn ext_views(v: Seq<Extension>) -> Seq<Seq<char>> {
    v.map_values(|e: Extension| e@)
}

/// A matcher whose shape is a tag of one fixed character.
pub trait SingleCharShape {
    const NAME: char;
}

/// What a caller supplies to be matched: a shape and, for `Multi`, the tokens
/// that it expands to.
pub trait IntoExtensionShape {
    fn as_shape(&self) -> ExtensionShape;

    /// Only asked of matchers whose shape is `Multi`.
    fn generate(&self) -> (r: Vec<Extension>)
        default_ensures
            r@.len() == 0,
    {
        Vec::new()
    }
}

impl<T: SingleCharShape> IntoExtensionShape for T {
    fn as_shape(&self) -> (r: ExtensionShape)
        ensures
            r is Tag,
            r.id_view() == seq![T::NAME],
    {
        ExtensionShape::Tag(string_of_char(T::NAME))
    }
}

/// Relies on `String::from(char)`: a string holding that one character.
#[verifier::external_body]
fn string_of_char(c: char) -> (r: String)
    ensures
        r@ == seq![c],
{
    String::from(c)
}

/// A matcher as the scanner uses it: its shape, and the expansion that a
/// `Multi` shape produces (empty for the other shapes).
pub struct Matcher {
    pub shape: ExtensionShape,
    pub expansion: Vec<Extension>,
}

impl Matcher {
    /// Every shape carries a non-empty identifier.
    pub open spec fn wf(&self) -> bool {
        self.shape.id_view().len() > 0
    }

    /// Takes the shape of `ext`, and its expansion only where the shape is `Multi`.
    pub fn new<E: IntoExtensionShape>(ext: &E) -> (r: Matcher)
        ensures
            !(r.shape is Multi) ==> r.expansion@.len() == 0,
    {
        let shape = ext.as_shape();
        let expansion = match &shape {
            ExtensionShape::Multi(_) => ext.generate(),
            _ => Vec::new(),
        };
        Matcher { shape, expansion }
    }
}

} // verus!
