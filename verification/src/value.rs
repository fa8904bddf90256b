//! The values that the cells of a row hold.

use vstd::prelude::*;

verus! {

/// The kind of a value.
#[derive(Debug, Copy, Clone, PartialEq, Eq, Structural)]
pub enum Kind {
    Null,
    Bool,
    Int,
    Text,
    Bytes,
}

impl Kind {
    /// The name of the kind.
    pub open spec fn name(self) -> Seq<char> {
        match self {
            Kind::Null => "null"@,
            Kind::Bool => "bool"@,
            Kind::Int => "int"@,
            Kind::Text => "text"@,
            Kind::Bytes => "bytes"@,
        }
    }

    /// The name of the kind; see [`Kind::name`].
    pub fn as_str(self) -> (name: &'static str)
        ensures
            name@ == self.name(),
    {
        match self {
            Kind::Null => "null",
            Kind::Bool => "bool",
            Kind::Int => "int",
            Kind::Text => "text",
            Kind::Bytes => "bytes",
        }
    }
}

/// The value of one cell of a row.
#[derive(Debug, PartialEq, Eq)]
pub enum Value {
    /// SQL `NULL`.
    Null,
    Bool(bool),
    Int(i64),
    Text(String),
    Bytes(Vec<u8>),
}

/// The mathematical value of a [`Value`].
pub enum ValueView {
    Null,
    Bool(bool),
    Int(i64),
    Text(Seq<char>),
    Bytes(Seq<u8>),
}

impl ValueView {
    /// The kind of the value.
    pub open spec fn kind(self) -> Kind {
        match self {
            ValueView::Null => Kind::Null,
            ValueView::Bool(_) => Kind::Bool,
            ValueView::Int(_) => Kind::Int,
            ValueView::Text(_) => Kind::Text,
            ValueView::Bytes(_) => Kind::Bytes,
        }
    }
}

impl View for Value {
    type V = ValueView;

    open spec fn view(&self) -> ValueView {
        match self {
            Value::Null => ValueView::Null,
            Value::Bool(b) => ValueView::Bool(*b),
            Value::Int(i) => ValueView::Int(*i),
            Value::Text(s) => ValueView::Text(s@),
            Value::Bytes(b) => ValueView::Bytes(b@),
        }
    }
}

impl DeepView for Value {
    type V = ValueView;

    open spec fn deep_view(&self) -> ValueView {
        self@
    }
}

/// The type that a field asks of a cell: a kind other than `Null`, and
/// whether `NULL` is taken too.
#[derive(Debug, Copy, Clone, PartialEq, Eq, Structural)]
pub struct Type {
    pub kind: Kind,
    pub nullable: bool,
}

impl Type {
    /// The type of the values of kind `kind`, without `NULL`.
    pub fn new(kind: Kind) -> (ty: Type)
        ensures
            ty == (Type { kind, nullable: false }),
    {
        Type { kind, nullable: false }
    }

    /// The type of the values of kind `kind` and of `NULL`.
    pub fn nullable(kind: Kind) -> (ty: Type)
        ensures
            ty == (Type { kind, nullable: true }),
    {
        Type { kind, nullable: true }
    }

    /// Whether a value of kind `kind` is of this type: it has the type's
    /// kind, or it is `NULL` and the type is nullable.
    pub open spec fn accepts(self, kind: Kind) -> bool {
        if kind == Kind::Null {
            self.nullable
        } else {
            kind == self.kind
        }
    }

    /// Decides [`accepts`](Type::accepts).
    pub fn takes(&self, kind: Kind) -> (b: bool)
        ensures
            b == self.accepts(kind),
    {
        if kind == Kind::Null {
            self.nullable
        } else {
            kind == self.kind
        }
    }
}

/// Whether the two slices hold the same bytes.
fn same_bytes(a: &[u8], b: &[u8]) -> (same: bool)
    ensures
        same == (a@ == b@),
{
    if a.len() != b.len() {
        assert(a@.len() != b@.len());
        return false;
    }
    let mut i: usize = 0;
    while i < a.len()
        invariant
            i <= a.len(),
            a.len() == b.len(),
            a@.take(i as int) == b@.take(i as int),
        decreases a.len() - i,
    {
        if a[i] != b[i] {
            assert(a@[i as int] != b@[i as int]);
            return false;
        }
        assert(a@.take(i + 1) =~= a@.take(i as int).push(a@[i as int]));
        assert(b@.take(i + 1) =~= b@.take(i as int).push(b@[i as int]));
        i = i + 1;
    }
    assert(a@.take(a.len() as int) =~= a@);
    assert(b@.take(b.len() as int) =~= b@);
    true
}

impl Value {
    /// The kind of the value.
    pub fn kind(&self) -> (kind: Kind)
        ensures
            kind == self@.kind(),
    {
        match self {
            Value::Null => Kind::Null,
            Value::Bool(_) => Kind::Bool,
            Value::Int(_) => Kind::Int,
            Value::Text(_) => Kind::Text,
            Value::Bytes(_) => Kind::Bytes,
        }
    }

    /// Whether the value is `NULL`.
    pub fn is_null(&self) -> (b: bool)
        ensures
            b == (self@ is Null),
    {
        match self {
            Value::Null => true,
            _ => false,
        }
    }

    /// Whether the two values are the same value.
    pub fn same(&self, other: &Value) -> (b: bool)
        ensures
            b == (self@ == other@),
    {
        match (self, other) {
            (Value::Null, Value::Null) => true,
            (Value::Bool(a), Value::Bool(b)) => *a == *b,
            (Value::Int(a), Value::Int(b)) => *a == *b,
            (Value::Text(a), Value::Text(b)) => *a == *b,
            (Value::Bytes(a), Value::Bytes(b)) => same_bytes(a.as_slice(), b.as_slice()),
            _ => false,
        }
    }
}

impl Clone for Value {
    fn clone(&self) -> (copy: Value)
        ensures
            copy@ == self@,
    {
        match self {
            Value::Null => Value::Null,
            Value::Bool(b) => Value::Bool(*b),
            Value::Int(i) => Value::Int(*i),
            Value::Text(s) => Value::Text(s.clone()),
            Value::Bytes(b) => {
                let copy = b.clone();
                assert(copy@ =~= b@);
                Value::Bytes(copy)
            },
        }
    }
}

} // verus!
