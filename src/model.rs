use vstd::prelude::*;

verus! {

/// The value of one attribute: a scalar or a homogeneous array of scalars. A
/// floating-point value is carried by its IEEE-754 bit pattern, so that equality
/// of values is equality of bits.
#[derive(Clone, Debug)]
pub enum AttrValue {
    Bool(bool),
    Int(i64),
    DoubleBits(u64),
    Str(String),
    BoolArray(Vec<bool>),
    IntArray(Vec<i64>),
    DoubleBitsArray(Vec<u64>),
    StrArray(Vec<String>),
}

pub ghost enum AttrValueView {
    Bool(bool),
    Int(i64),
    DoubleBits(u64),
    Str(Seq<char>),
    BoolArray(Seq<bool>),
    IntArray(Seq<i64>),
    DoubleBitsArray(Seq<u64>),
    StrArray(Seq<Seq<char>>),
}

pub open spec fn strs_view(v: Seq<String>) -> Seq<Seq<char>> {
    v.map_values(|s: String| s@)
}

impl View for AttrValue {
    type V = AttrValueView;

    open spec fn view(&self) -> AttrValueView {
        match self {
            AttrValue::Bool(b) => AttrValueView::Bool(*b),
            AttrValue::Int(i) => AttrValueView::Int(*i),
            AttrValue::DoubleBits(d) => AttrValueView::DoubleBits(*d),
            AttrValue::Str(s) => AttrValueView::Str(s@),
            AttrValue::BoolArray(v) => AttrValueView::BoolArray(v@),
            AttrValue::IntArray(v) => AttrValueView::IntArray(v@),
            AttrValue::DoubleBitsArray(v) => AttrValueView::DoubleBitsArray(v@),
            AttrValue::StrArray(v) => AttrValueView::StrArray(strs_view(v@)),
        }
    }
}

/// One key/value attribute of a resource.
#[derive(Clone, Debug)]
pub struct Attribute {
    pub key: String,
    pub value: AttrValue,
}

pub ghost struct AttributeView {
    pub key: Seq<char>,
    pub value: AttrValueView,
}

impl View for Attribute {
    type V = AttributeView;

    open spec fn view(&self) -> AttributeView {
        AttributeView { key: self.key@, value: self.value@ }
    }
}

/// The entity that produced spans: a set of attributes and an optional schema URL.
#[derive(Clone, Debug)]
pub struct Resource {
    pub attributes: Vec<Attribute>,
    pub schema_url: Option<String>,
}

pub ghost struct ResourceView {
    pub attributes: Seq<AttributeView>,
    pub schema_url: Option<Seq<char>>,
}

pub open spec fn attrs_view(v: Seq<Attribute>) -> Seq<AttributeView> {
    v.map_values(|a: Attribute| a@)
}

pub open spec fn opt_str_view(o: Option<String>) -> Option<Seq<char>> {
    match o {
        Some(s) => Some(s@),
        None => None,
    }
}

impl View for Resource {
    type V = ResourceView;

    open spec fn view(&self) -> ResourceView {
        ResourceView { attributes: attrs_view(self.attributes@), schema_url: opt_str_view(self.schema_url) }
    }
}

/// The library or module that created a span.
#[derive(Clone, Debug)]
pub struct Scope {
    pub name: String,
    pub version: Option<String>,
    pub schema_url: Option<String>,
}

pub ghost struct ScopeView {
    pub name: Seq<char>,
    pub version: Option<Seq<char>>,
    pub schema_url: Option<Seq<char>>,
}

impl View for Scope {
    type V = ScopeView;

    open spec fn view(&self) -> ScopeView {
        ScopeView {
            name: self.name@,
            version: opt_str_view(self.version),
            schema_url: opt_str_view(self.schema_url),
        }
    }
}

/// What grouping reads of a finished span: the resource it carries, if any, and its
/// instrumentation scope. The span's own payload is identified by its position in
/// the batch.
#[derive(Clone, Debug)]
pub struct Span {
    pub resource: Option<Resource>,
    pub scope: Scope,
}

pub ghost struct SpanView {
    pub resource: Option<ResourceView>,
    pub scope: ScopeView,
}

impl View for Span {
    type V = SpanView;

    open spec fn view(&self) -> SpanView {
        SpanView {
            resource: match self.resource {
                Some(r) => Some(r@),
                None => None,
            },
            scope: self.scope@,
        }
    }
}

pub open spec fn spans_view(v: Seq<Span>) -> Seq<SpanView> {
    v.map_values(|s: Span| s@)
}

/// Two resources are the same when their schema URLs are equal and their attribute
/// sets hold the same attributes, in whatever order and with whatever repetition.
pub open spec fn same_resource(a: ResourceView, b: ResourceView) -> bool {
    &&& a.schema_url == b.schema_url
    &&& within(a.attributes, b.attributes)
    &&& within(b.attributes, a.attributes)
}

/// Every attribute of `a` occurs in `b`.
pub open spec fn within(a: Seq<AttributeView>, b: Seq<AttributeView>) -> bool {
    forall|i: int| 0 <= i < a.len() ==> b.contains(#[trigger] a[i])
}

/// The resource under which a span is grouped: its own, or the fallback where it
/// carries none.
pub open spec fn effective_resource(s: SpanView, fallback: ResourceView) -> ResourceView {
    match s.resource {
        Some(r) => r,
        None => fallback,
    }
}

pub proof fn lemma_same_resource_equivalence(a: ResourceView, b: ResourceView, c: ResourceView)
    ensures
        same_resource(a, a),
        same_resource(a, b) ==> same_resource(b, a),
        same_resource(a, b) && same_resource(b, c) ==> same_resource(a, c),
{
    assert forall|i: int| 0 <= i < a.attributes.len() implies a.attributes.contains(#[trigger] a.attributes[i]) by {}
    if same_resource(a, b) && same_resource(b, c) {
        assert forall|i: int| 0 <= i < a.attributes.len() implies c.attributes.contains(#[trigger] a.attributes[i]) by {
            let j = choose|j: int| 0 <= j < b.attributes.len() && b.attributes[j] == a.attributes[i];
            assert(c.attributes.contains(b.attributes[j]));
        }
        assert forall|i: int| 0 <= i < c.attributes.len() implies a.attributes.contains(#[trigger] c.attributes[i]) by {
            let j = choose|j: int| 0 <= j < b.attributes.len() && b.attributes[j] == c.attributes[i];
            assert(a.attributes.contains(b.attributes[j]));
        }
    }
}

fn opt_str_eq(a: &Option<String>, b: &Option<String>) -> (r: bool)
    ensures
        r == (opt_str_view(*a) == opt_str_view(*b)),
{
    match (a, b) {
        (Some(x), Some(y)) => x.eq(y),
        (None, None) => true,
        _ => false,
    }
}

fn opt_str_copy(a: &Option<String>) -> (r: Option<String>)
    ensures
        opt_str_view(r) == opt_str_view(*a),
{
    match a {
        Some(x) => Some(x.clone()),
        None => None,
    }
}

fn bools_eq(a: &Vec<bool>, b: &Vec<bool>) -> (r: bool)
    ensures
        r == (a@ == b@),
{
    if a.len() != b.len() {
        return false;
    }
    let mut i: usize = 0;
    while i < a.len()
        invariant
            i <= a@.len(),
            a@.len() == b@.len(),
            forall|k: int| 0 <= k < i ==> a@[k] == b@[k],
        decreases a@.len() - i,
    {
        if a[i] != b[i] {
            return false;
        }
        i = i + 1;
    }
    assert(a@ =~= b@);
    true
}

fn ints_eq(a: &Vec<i64>, b: &Vec<i64>) -> (r: bool)
    ensures
        r == (a@ == b@),
{
    if a.len() != b.len() {
        return false;
    }
    let mut i: usize = 0;
    while i < a.len()
        invariant
            i <= a@.len(),
            a@.len() == b@.len(),
            forall|k: int| 0 <= k < i ==> a@[k] == b@[k],
        decreases a@.len() - i,
    {
        if a[i] != b[i] {
            return false;
        }
        i = i + 1;
    }
    assert(a@ =~= b@);
    true
}

fn bits_eq(a: &Vec<u64>, b: &Vec<u64>) -> (r: bool)
    ensures
        r == (a@ == b@),
{
    if a.len() != b.len() {
        return false;
    }
    let mut i: usize = 0;
    while i < a.len()
        invariant
            i <= a@.len(),
            a@.len() == b@.len(),
            forall|k: int| 0 <= k < i ==> a@[k] == b@[k],
        decreases a@.len() - i,
    {
        if a[i] != b[i] {
            return false;
        }
        i = i + 1;
    }
    assert(a@ =~= b@);
    true
}

fn strs_eq(a: &Vec<String>, b: &Vec<String>) -> (r: bool)
    ensures
        r == (strs_view(a@) == strs_view(b@)),
{
    if a.len() != b.len() {
        assert(strs_view(a@).len() != strs_view(b@).len());
        return false;
    }
    let mut i: usize = 0;
    while i < a.len()
        invariant
            i <= a@.len(),
            a@.len() == b@.len(),
            forall|k: int| 0 <= k < i ==> a@[k]@ == b@[k]@,
        decreases a@.len() - i,
    {
        if !a[i].eq(&b[i]) {
            assert(strs_view(a@)[i as int] != strs_view(b@)[i as int]);
            return false;
        }
        i = i + 1;
    }
    assert(strs_view(a@) =~= strs_view(b@));
    true
}

fn copy_scalars<T: Copy>(a: &Vec<T>) -> (r: Vec<T>)
    ensures
        r@ == a@,
{
    let mut r: Vec<T> = Vec::new();
    let mut i: usize = 0;
    while i < a.len()
        invariant
            i <= a@.len(),
            r@ == a@.subrange(0, i as int),
        decreases a@.len() - i,
    {
        r.push(a[i]);
        i = i + 1;
        assert(r@ =~= a@.subrange(0, i as int));
    }
    assert(a@.subrange(0, a@.len() as int) =~= a@);
    r
}

fn copy_strs(a: &Vec<String>) -> (r: Vec<String>)
    ensures
        strs_view(r@) == strs_view(a@),
{
    let mut r: Vec<String> = Vec::new();
    let mut i: usize = 0;
    while i < a.len()
        invariant
            i <= a@.len(),
            r@.len() == i,
            forall|k: int| 0 <= k < i ==> #[trigger] r@[k]@ == a@[k]@,
        decreases a@.len() - i,
    {
        r.push(a[i].clone());
        i = i + 1;
    }
    assert(strs_view(r@) =~= strs_view(a@));
    r
}

impl AttrValue {
    /// Equality of two values, variant and content.
    pub fn equals(&self, other: &AttrValue) -> (r: bool)
        ensures
            r == (self@ == other@),
    {
        match (self, other) {
            (AttrValue::Bool(x), AttrValue::Bool(y)) => *x == *y,
            (AttrValue::Int(x), AttrValue::Int(y)) => *x == *y,
            (AttrValue::DoubleBits(x), AttrValue::DoubleBits(y)) => *x == *y,
            (AttrValue::Str(x), AttrValue::Str(y)) => x.eq(y),
            (AttrValue::BoolArray(x), AttrValue::BoolArray(y)) => bools_eq(x, y),
            (AttrValue::IntArray(x), AttrValue::IntArray(y)) => ints_eq(x, y),
            (AttrValue::DoubleBitsArray(x), AttrValue::DoubleBitsArray(y)) => bits_eq(x, y),
            (AttrValue::StrArray(x), AttrValue::StrArray(y)) => strs_eq(x, y),
            _ => false,
        }
    }

    pub fn copy(&self) -> (r: AttrValue)
        ensures
            r@ == self@,
    {
        match self {
            AttrValue::Bool(x) => AttrValue::Bool(*x),
            AttrValue::Int(x) => AttrValue::Int(*x),
            AttrValue::DoubleBits(x) => AttrValue::DoubleBits(*x),
            AttrValue::Str(x) => AttrValue::Str(x.clone()),
            AttrValue::BoolArray(x) => AttrValue::BoolArray(copy_scalars(x)),
            AttrValue::IntArray(x) => AttrValue::IntArray(copy_scalars(x)),
            AttrValue::DoubleBitsArray(x) => AttrValue::DoubleBitsArray(copy_scalars(x)),
            AttrValue::StrArray(x) => AttrValue::StrArray(copy_strs(x)),
        }
    }
}

impl Attribute {
    pub fn equals(&self, other: &Attribute) -> (r: bool)
        ensures
            r == (self@ == other@),
    {
        self.key == other.key && self.value.equals(&other.value)
    }

    pub fn copy(&self) -> (r: Attribute)
        ensures
            r@ == self@,
    {
        Attribute { key: self.key.clone(), value: self.value.copy() }
    }
}

fn contains_attribute(attrs: &Vec<Attribute>, x: &Attribute) -> (r: bool)
    ensures
        r == attrs_view(attrs@).contains(x@),
{
    let mut i: usize = 0;
    while i < attrs.len()
        invariant
            i <= attrs@.len(),
            forall|k: int| 0 <= k < i ==> attrs@[k]@ != x@,
        decreases attrs@.len() - i,
    {
        if attrs[i].equals(x) {
            assert(attrs_view(attrs@)[i as int] == x@);
            return true;
        }
        i = i + 1;
    }
    assert forall|k: int| 0 <= k < attrs_view(attrs@).len() implies attrs_view(attrs@)[k] != x@ by {
        assert(attrs@[k]@ != x@);
    }
    false
}

/// Whether every attribute of `a` occurs in `b`.
fn attributes_within(a: &Vec<Attribute>, b: &Vec<Attribute>) -> (r: bool)
    ensures
        r == within(attrs_view(a@), attrs_view(b@)),
{
    let mut i: usize = 0;
    while i < a.len()
        invariant
            i <= a@.len(),
            forall|k: int| 0 <= k < i ==> attrs_view(b@).contains(#[trigger] attrs_view(a@)[k]),
        decreases a@.len() - i,
    {
        if !contains_attribute(b, &a[i]) {
            assert(!attrs_view(b@).contains(attrs_view(a@)[i as int]));
            return false;
        }
        i = i + 1;
    }
    true
}

impl Resource {
    /// The resource with no attributes and no schema URL.
    pub fn empty() -> (r: Resource)
        ensures
            r@.attributes.len() == 0,
            r@.schema_url is None,
    {
        Resource { attributes: Vec::new(), schema_url: None }
    }

    /// Equality by value: same schema URL and the same set of attributes.
    pub fn same_as(&self, other: &Resource) -> (r: bool)
        ensures
            r == same_resource(self@, other@),
    {
        if !opt_str_eq(&self.schema_url, &other.schema_url) {
            return false;
        }
        attributes_within(&self.attributes, &other.attributes) && attributes_within(
            &other.attributes,
            &self.attributes,
        )
    }

    pub fn copy(&self) -> (r: Resource)
        ensures
            r@ == self@,
    {
        let mut attributes: Vec<Attribute> = Vec::new();
        let mut i: usize = 0;
        while i < self.attributes.len()
            invariant
                i <= self.attributes@.len(),
                attributes@.len() == i,
                forall|k: int| 0 <= k < i ==> #[trigger] attributes@[k]@ == self.attributes@[k]@,
            decreases self.attributes@.len() - i,
        {
            attributes.push(self.attributes[i].copy());
            i = i + 1;
        }
        assert(attrs_view(attributes@) =~= attrs_view(self.attributes@));
        Resource { attributes, schema_url: opt_str_copy(&self.schema_url) }
    }
}

impl Scope {
    /// Equality by value of name, version and schema URL.
    pub fn same_as(&self, other: &Scope) -> (r: bool)
        ensures
            r == (self@ == other@),
    {
        self.name == other.name && opt_str_eq(&self.version, &other.version) && opt_str_eq(
            &self.schema_url,
            &other.schema_url,
        )
    }

    pub fn copy(&self) -> (r: Scope)
        ensures
            r@ == self@,
    {
        Scope {
            name: self.name.clone(),
            version: opt_str_copy(&self.version),
            schema_url: opt_str_copy(&self.schema_url),
        }
    }
}

} // verus!
