//! How a shape asks for its rows to be read: the attributes of a container
//! and of its fields.

use crate::text::str_eq;
use vstd::prelude::*;

verus! {

/// How the columns of a row are divided among the fields of a container.
#[derive(Debug, Copy, Clone, PartialEq, Eq, Structural)]
pub enum PartitionKind {
    /// By the number of columns that each group of fields takes.
    Exact,
    /// At the columns that the fields name as split points.
    Split,
}

/// Which rows are merged into one object.
#[derive(Debug, Copy, Clone, PartialEq, Eq, Structural)]
pub enum MergeKind {
    /// Adjacent rows with equal keys.
    Group,
    /// All rows with equal keys, wherever they stand.
    Hash,
}

/// The attributes of a container.
#[derive(Debug, Copy, Clone, PartialEq, Eq, Structural)]
pub struct ContainerAttributes {
    pub partition: Option<PartitionKind>,
    pub merge: Option<MergeKind>,
}

/// The attributes of a field.
#[derive(Debug, PartialEq, Eq)]
pub struct FieldAttributes {
    /// The field holds a record that is read from the columns of its container.
    pub flatten: bool,
    /// The name of the column, where it is not the name of the field.
    pub rename: Option<String>,
    /// The names of the columns at which new partitions begin before this field.
    pub splits: Vec<String>,
    /// The number of columns of the partition that this field takes for itself.
    pub stride: Option<usize>,
    /// The field is part of the key by which rows are merged.
    pub key: bool,
    /// The field collects the records of the rows that are merged.
    pub merge: bool,
}

impl FieldAttributes {
    /// Whether these are the attributes of a field that has none.
    pub open spec fn is_empty(&self) -> bool {
        &&& !self.flatten
        &&& self.rename is None
        &&& self.splits@.len() == 0
        &&& self.stride is None
        &&& !self.key
        &&& !self.merge
    }

    /// The attributes of a field that has none.
    pub fn new() -> (attrs: FieldAttributes)
        ensures
            attrs.is_empty(),
    {
        FieldAttributes {
            flatten: false,
            rename: None,
            splits: Vec::new(),
            stride: None,
            key: false,
            merge: false,
        }
    }
}

/// A literal of an attribute.
#[derive(Debug, PartialEq, Eq)]
pub enum Lit {
    /// A string, without its quotes.
    Str(String),
    /// An integer, as its decimal digits.
    Int(String),
    /// Any other literal.
    Other,
}

/// One item of an attribute list.
#[derive(Debug, PartialEq, Eq)]
pub enum Meta {
    /// A name alone, as in `flatten`.
    Path { name: String },
    /// A name with a value, as in `rename = "..."`.
    NameValue { name: String, lit: Lit },
    /// A name with a list, as in `split(...)`.
    List { name: String },
}

/// What is wrong with an item of an attribute list.
#[derive(Debug, Copy, Clone, PartialEq, Eq, Structural)]
pub enum AttrFault {
    /// The attribute is not known.
    UnknownAttribute,
    /// The attribute is a name alone, and the item is not.
    ExpectedPath,
    /// The attribute is a name with a value, and the item is not.
    ExpectedNameValue,
    /// The attribute was given before.
    DuplicateAttribute,
    /// A second partitioning, or a second merging, of a container.
    MultiplePartition,
    /// The value is not a string.
    ExpectedString,
    /// The value is not an integer, or not one that fits.
    ExpectedInteger,
}

/// An error in an attribute list: what is wrong, and with which item.
#[derive(Debug, Copy, Clone, PartialEq, Eq, Structural)]
pub struct AttrError {
    pub fault: AttrFault,
    pub item: usize,
}

/// The mathematical value of a [`Lit`].
pub enum LitView {
    Str(Seq<char>),
    Int(Seq<char>),
    Other,
}

/// The mathematical value of a [`Meta`].
pub enum MetaView {
    Path { name: Seq<char> },
    NameValue { name: Seq<char>, lit: LitView },
    List { name: Seq<char> },
}

impl View for Lit {
    type V = LitView;

    open spec fn view(&self) -> LitView {
        match self {
            Lit::Str(text) => LitView::Str(text@),
            Lit::Int(digits) => LitView::Int(digits@),
            Lit::Other => LitView::Other,
        }
    }
}

impl View for Meta {
    type V = MetaView;

    open spec fn view(&self) -> MetaView {
        match self {
            Meta::Path { name } => MetaView::Path { name: name@ },
            Meta::NameValue { name, lit } => MetaView::NameValue { name: name@, lit: lit@ },
            Meta::List { name } => MetaView::List { name: name@ },
        }
    }
}

impl DeepView for Meta {
    type V = MetaView;

    open spec fn deep_view(&self) -> MetaView {
        self@
    }
}

impl MetaView {
    /// The name of the item.
    pub open spec fn name(self) -> Seq<char> {
        match self {
            MetaView::Path { name } => name,
            MetaView::NameValue { name, .. } => name,
            MetaView::List { name } => name,
        }
    }
}

impl Meta {
    /// The name of the item.
    pub fn name(&self) -> (name: &str)
        ensures
            name@ == self@.name(),
    {
        match self {
            Meta::Path { name } => name.as_str(),
            Meta::NameValue { name, .. } => name.as_str(),
            Meta::List { name } => name.as_str(),
        }
    }
}

/// The number that the decimal digits `digits` stand for; `None` where
/// `digits` is empty or holds another character.
pub open spec fn number(digits: Seq<char>) -> Option<nat>
    decreases digits.len(),
{
    if digits.len() == 0 {
        None
    } else {
        let last = digits.last();
        if '0' <= last <= '9' {
            let units = (last as u8 - '0' as u8) as nat;
            if digits.len() == 1 {
                Some(units)
            } else {
                match number(digits.drop_last()) {
                    Some(tens) => Some(tens * 10 + units),
                    None => None,
                }
            }
        } else {
            None
        }
    }
}

/// The string that `lit` holds.
///
/// # Errors
///
/// `ExpectedString` where `lit` is no string.
pub fn lit_string(lit: &Lit) -> (result: Result<String, AttrFault>)
    ensures
        match lit@ {
            LitView::Str(text) => result matches Ok(found) && found@ == text,
            _ => result == Err::<String, AttrFault>(AttrFault::ExpectedString),
        },
{
    match lit {
        Lit::Str(text) => Ok(text.clone()),
        _ => Err(AttrFault::ExpectedString),
    }
}

/// The integer that `lit` holds.
///
/// # Errors
///
/// `ExpectedInteger` where `lit` is no integer, where its digits are not
/// decimal digits, and where the number is beyond `usize::MAX`.
pub fn lit_int(lit: &Lit) -> (result: Result<usize, AttrFault>)
    ensures
        match lit@ {
            LitView::Int(digits) => match number(digits) {
                Some(n) if n <= usize::MAX => result == Ok::<usize, AttrFault>(n as usize),
                _ => result == Err::<usize, AttrFault>(AttrFault::ExpectedInteger),
            },
            _ => result == Err::<usize, AttrFault>(AttrFault::ExpectedInteger),
        },
{
    match lit {
        Lit::Int(digits) => {
            let mut value: usize = 0;
            let mut any = false;
            let ghost all = digits@;
            for c in it: digits.as_str().chars()
                invariant
                    it.seq() == all,
                    lit@ == LitView::Int(all),
                    any == (it.index() > 0),
                    any ==> number(all.take(it.index() as int)) == Some(value as nat),
                    !any ==> value == 0,
            {
                let ghost count = it.index() as int;
                proof {
                    let taken = all.take(count + 1);
                    assert(taken.drop_last() =~= all.take(count));
                    assert(taken.last() == c);
                    if !('0' <= c <= '9') {
                        lemma_number_none(all, count + 1);
                    }
                }
                if !('0' <= c && c <= '9') {
                    return Err(AttrFault::ExpectedInteger);
                }
                let units = (c as u8 - 48u8) as usize;
                let next = match value.checked_mul(10) {
                    Some(tens) => tens.checked_add(units),
                    None => None,
                };
                match next {
                    Some(next) => {
                        value = next;
                    },
                    None => {
                        proof {
                            lemma_number_grows(all, count + 1);
                        }
                        return Err(AttrFault::ExpectedInteger);
                    },
                }
                any = true;
            }
            proof {
                assert(all.take(all.len() as int) =~= all);
            }
            if any {
                Ok(value)
            } else {
                Err(AttrFault::ExpectedInteger)
            }
        },
        _ => Err(AttrFault::ExpectedInteger),
    }
}

/// Digits that stand for no number stand for none with more digits after them.
pub proof fn lemma_number_none(digits: Seq<char>, upto: int)
    requires
        0 < upto <= digits.len(),
        number(digits.take(upto)) is None,
    ensures
        number(digits) is None,
    decreases digits.len() - upto,
{
    if upto < digits.len() {
        assert(digits.take(upto + 1).drop_last() =~= digits.take(upto));
        lemma_number_none(digits, upto + 1);
    } else {
        assert(digits.take(upto) =~= digits);
    }
}

/// More digits stand for no smaller number.
pub proof fn lemma_number_grows(digits: Seq<char>, upto: int)
    requires
        0 < upto <= digits.len(),
    ensures
        match (number(digits.take(upto)), number(digits)) {
            (Some(front), Some(all)) => front <= all,
            _ => true,
        },
    decreases digits.len() - upto,
{
    if upto < digits.len() {
        assert(digits.take(upto + 1).drop_last() =~= digits.take(upto));
        lemma_number_grows(digits, upto + 1);
        if number(digits.take(upto + 1)) is None {
            lemma_number_none(digits, upto + 1);
        }
    } else {
        assert(digits.take(upto) =~= digits);
    }
}

impl ContainerAttributes {
    /// The attributes after `item`, or what is wrong with it.
    ///
    /// `exact` and `split` set the partitioning, `group` and `hash` the
    /// merging; each of the two may be set once. Each of the four is a name
    /// alone.
    pub open spec fn step(self, item: MetaView) -> Result<ContainerAttributes, AttrFault> {
        let name = item.name();
        if name == "exact"@ || name == "split"@ {
            if !(item is Path) {
                Err(AttrFault::ExpectedPath)
            } else if self.partition is Some {
                Err(AttrFault::MultiplePartition)
            } else {
                Ok(
                    ContainerAttributes {
                        partition: Some(
                            if name == "exact"@ {
                                PartitionKind::Exact
                            } else {
                                PartitionKind::Split
                            },
                        ),
                        merge: self.merge,
                    },
                )
            }
        } else if name == "group"@ || name == "hash"@ {
            if !(item is Path) {
                Err(AttrFault::ExpectedPath)
            } else if self.merge is Some {
                Err(AttrFault::MultiplePartition)
            } else {
                Ok(
                    ContainerAttributes {
                        partition: self.partition,
                        merge: Some(
                            if name == "group"@ {
                                MergeKind::Group
                            } else {
                                MergeKind::Hash
                            },
                        ),
                    },
                )
            }
        } else {
            Err(AttrFault::UnknownAttribute)
        }
    }

    /// The attributes that the items before `upto` give, taken in order;
    /// or the error of the first item that is at fault.
    pub open spec fn folded(items: Seq<MetaView>, upto: int) -> Result<
        ContainerAttributes,
        AttrError,
    >
        decreases upto,
    {
        if upto <= 0 || upto > items.len() {
            Ok(ContainerAttributes { partition: None, merge: None })
        } else {
            match Self::folded(items, upto - 1) {
                Err(e) => Err(e),
                Ok(attrs) => match attrs.step(items[upto - 1]) {
                    Ok(next) => Ok(next),
                    Err(fault) => Err(AttrError { fault, item: (upto - 1) as usize }),
                },
            }
        }
    }

    /// The attributes of a container from the items of its attribute lists.
    ///
    /// # Errors
    ///
    /// The error of the first item that is at fault; see
    /// [`ContainerAttributes::step`].
    pub fn from_attrs(items: &[Meta]) -> (result: Result<ContainerAttributes, AttrError>)
        ensures
            result == Self::folded(items.deep_view(), items.len() as int),
    {
        let mut attrs = ContainerAttributes { partition: None, merge: None };
        let mut i: usize = 0;
        while i < items.len()
            invariant
                i <= items.len(),
                Self::folded(items.deep_view(), i as int) == Ok::<ContainerAttributes, AttrError>(
                    attrs,
                ),
            decreases items.len() - i,
        {
            let item = &items[i];
            let name = item.name();
            let is_path = match item {
                Meta::Path { .. } => true,
                _ => false,
            };
            let ghost view = items.deep_view();
            assert(view[i as int] == item@);
            let exact = str_eq(name, "exact");
            let group = str_eq(name, "group");
            let step: Result<ContainerAttributes, AttrFault> = if exact || str_eq(name, "split") {
                if !is_path {
                    Err(AttrFault::ExpectedPath)
                } else if attrs.partition.is_some() {
                    Err(AttrFault::MultiplePartition)
                } else {
                    let kind = if exact {
                        PartitionKind::Exact
                    } else {
                        PartitionKind::Split
                    };
                    Ok(ContainerAttributes { partition: Some(kind), merge: attrs.merge })
                }
            } else if group || str_eq(name, "hash") {
                if !is_path {
                    Err(AttrFault::ExpectedPath)
                } else if attrs.merge.is_some() {
                    Err(AttrFault::MultiplePartition)
                } else {
                    let kind = if group {
                        MergeKind::Group
                    } else {
                        MergeKind::Hash
                    };
                    Ok(ContainerAttributes { partition: attrs.partition, merge: Some(kind) })
                }
            } else {
                Err(AttrFault::UnknownAttribute)
            };
            assert(step == attrs.step(item@));
            match step {
                Ok(next) => {
                    attrs = next;
                },
                Err(fault) => {
                    proof {
                        lemma_container_error(view, i + 1, items.len() as int);
                    }
                    return Err(AttrError { fault, item: i });
                },
            }
            i = i + 1;
        }
        Ok(attrs)
    }
}

/// The first error is the error of the whole list.
pub proof fn lemma_container_error(items: Seq<MetaView>, upto: int, more: int)
    requires
        0 <= upto <= more <= items.len(),
        ContainerAttributes::folded(items, upto) is Err,
    ensures
        ContainerAttributes::folded(items, more) == ContainerAttributes::folded(items, upto),
    decreases more - upto,
{
    if upto < more {
        lemma_container_error(items, upto, more - 1);
    }
}

/// The mathematical value of [`FieldAttributes`].
pub struct FieldAttributesView {
    pub flatten: bool,
    pub rename: Option<Seq<char>>,
    pub splits: Seq<Seq<char>>,
    pub stride: Option<usize>,
    pub key: bool,
    pub merge: bool,
}

impl View for FieldAttributes {
    type V = FieldAttributesView;

    open spec fn view(&self) -> FieldAttributesView {
        FieldAttributesView {
            flatten: self.flatten,
            rename: match self.rename {
                Some(name) => Some(name@),
                None => None,
            },
            splits: self.splits.deep_view(),
            stride: self.stride,
            key: self.key,
            merge: self.merge,
        }
    }
}

impl FieldAttributesView {
    /// The attributes of a field that has none.
    pub open spec fn none() -> FieldAttributesView {
        FieldAttributesView {
            flatten: false,
            rename: None,
            splits: Seq::empty(),
            stride: None,
            key: false,
            merge: false,
        }
    }

    /// The attributes after `item`, or what is wrong with it.
    ///
    /// `flatten`, `key` and `merge` are names alone; `rename` and `split`
    /// take a string, `stride` an integer. Each may be given once, but for
    /// `split`, which adds a split point each time.
    pub open spec fn step(self, item: MetaView) -> Result<FieldAttributesView, AttrFault> {
        let name = item.name();
        if name == "flatten"@ || name == "key"@ || name == "merge"@ {
            if !(item is Path) {
                Err(AttrFault::ExpectedPath)
            } else if name == "flatten"@ {
                if self.flatten {
                    Err(AttrFault::DuplicateAttribute)
                } else {
                    Ok(FieldAttributesView { flatten: true, ..self })
                }
            } else if name == "key"@ {
                if self.key {
                    Err(AttrFault::DuplicateAttribute)
                } else {
                    Ok(FieldAttributesView { key: true, ..self })
                }
            } else {
                if self.merge {
                    Err(AttrFault::DuplicateAttribute)
                } else {
                    Ok(FieldAttributesView { merge: true, ..self })
                }
            }
        } else if name == "rename"@ {
            match item {
                MetaView::NameValue { lit: LitView::Str(text), .. } => if self.rename is Some {
                    Err(AttrFault::DuplicateAttribute)
                } else {
                    Ok(FieldAttributesView { rename: Some(text), ..self })
                },
                MetaView::NameValue { .. } => Err(AttrFault::ExpectedString),
                _ => Err(AttrFault::ExpectedNameValue),
            }
        } else if name == "split"@ {
            match item {
                MetaView::NameValue { lit: LitView::Str(text), .. } => Ok(
                    FieldAttributesView { splits: self.splits.push(text), ..self },
                ),
                MetaView::NameValue { .. } => Err(AttrFault::ExpectedString),
                _ => Err(AttrFault::ExpectedNameValue),
            }
        } else if name == "stride"@ {
            match item {
                MetaView::NameValue { lit: LitView::Int(digits), .. } => match number(digits) {
                    Some(n) if n <= usize::MAX => if self.stride is Some {
                        Err(AttrFault::DuplicateAttribute)
                    } else {
                        Ok(FieldAttributesView { stride: Some(n as usize), ..self })
                    },
                    _ => Err(AttrFault::ExpectedInteger),
                },
                MetaView::NameValue { .. } => Err(AttrFault::ExpectedInteger),
                _ => Err(AttrFault::ExpectedNameValue),
            }
        } else {
            Err(AttrFault::UnknownAttribute)
        }
    }

    /// The attributes that the items before `upto` give, taken in order;
    /// or the error of the first item that is at fault.
    pub open spec fn folded(items: Seq<MetaView>, upto: int) -> Result<
        FieldAttributesView,
        AttrError,
    >
        decreases upto,
    {
        if upto <= 0 || upto > items.len() {
            Ok(Self::none())
        } else {
            match Self::folded(items, upto - 1) {
                Err(e) => Err(e),
                Ok(attrs) => match attrs.step(items[upto - 1]) {
                    Ok(next) => Ok(next),
                    Err(fault) => Err(AttrError { fault, item: (upto - 1) as usize }),
                },
            }
        }
    }
}

/// The first error is the error of the whole list.
pub proof fn lemma_field_error(items: Seq<MetaView>, upto: int, more: int)
    requires
        0 <= upto <= more <= items.len(),
        FieldAttributesView::folded(items, upto) is Err,
    ensures
        FieldAttributesView::folded(items, more) == FieldAttributesView::folded(items, upto),
    decreases more - upto,
{
    if upto < more {
        lemma_field_error(items, upto, more - 1);
    }
}

impl FieldAttributes {
    /// Takes one more item; see [`FieldAttributesView::step`].
    fn apply(&mut self, item: &Meta) -> (result: Result<(), AttrFault>)
        ensures
            match old(self)@.step(item@) {
                Ok(next) => result is Ok && final(self)@ == next,
                Err(fault) => result == Err::<(), AttrFault>(fault),
            },
    {
        let name = item.name();
        let flatten = str_eq(name, "flatten");
        let key = str_eq(name, "key");
        if flatten || key || str_eq(name, "merge") {
            match item {
                Meta::Path { .. } => {},
                _ => {
                    return Err(AttrFault::ExpectedPath);
                },
            }
            if flatten {
                if self.flatten {
                    return Err(AttrFault::DuplicateAttribute);
                }
                self.flatten = true;
            } else if key {
                if self.key {
                    return Err(AttrFault::DuplicateAttribute);
                }
                self.key = true;
            } else {
                if self.merge {
                    return Err(AttrFault::DuplicateAttribute);
                }
                self.merge = true;
            }
            Ok(())
        } else if str_eq(name, "rename") {
            match item {
                Meta::NameValue { lit, .. } => {
                    let text = lit_string(lit)?;
                    if self.rename.is_some() {
                        return Err(AttrFault::DuplicateAttribute);
                    }
                    self.rename = Some(text);
                    Ok(())
                },
                _ => Err(AttrFault::ExpectedNameValue),
            }
        } else if str_eq(name, "split") {
            match item {
                Meta::NameValue { lit, .. } => {
                    let text = lit_string(lit)?;
                    let ghost before = self.splits.deep_view();
                    self.splits.push(text);
                    assert(self.splits.deep_view() =~= before.push(text@));
                    Ok(())
                },
                _ => Err(AttrFault::ExpectedNameValue),
            }
        } else if str_eq(name, "stride") {
            match item {
                Meta::NameValue { lit, .. } => {
                    let step = lit_int(lit)?;
                    if self.stride.is_some() {
                        return Err(AttrFault::DuplicateAttribute);
                    }
                    self.stride = Some(step);
                    Ok(())
                },
                _ => Err(AttrFault::ExpectedNameValue),
            }
        } else {
            Err(AttrFault::UnknownAttribute)
        }
    }

    /// The attributes of a field from the items of its attribute lists.
    ///
    /// # Errors
    ///
    /// The error of the first item that is at fault; see
    /// [`FieldAttributesView::step`].
    pub fn from_attrs(items: &[Meta]) -> (result: Result<FieldAttributes, AttrError>)
        ensures
            match FieldAttributesView::folded(items.deep_view(), items.len() as int) {
                Ok(attrs) => result matches Ok(found) && found@ == attrs,
                Err(e) => result == Err::<FieldAttributes, AttrError>(e),
            },
    {
        let mut attrs = FieldAttributes::new();
        let ghost view = items.deep_view();
        assert(attrs@.splits =~= Seq::<Seq<char>>::empty());
        let mut i: usize = 0;
        while i < items.len()
            invariant
                i <= items.len(),
                view == items.deep_view(),
                FieldAttributesView::folded(view, i as int) == Ok::<
                    FieldAttributesView,
                    AttrError,
                >(attrs@),
            decreases items.len() - i,
        {
            assert(view[i as int] == items[i as int]@);
            match attrs.apply(&items[i]) {
                Ok(()) => {},
                Err(fault) => {
                    proof {
                        lemma_field_error(view, i + 1, items.len() as int);
                    }
                    return Err(AttrError { fault, item: i });
                },
            }
            i = i + 1;
        }
        Ok(attrs)
    }
}

} // verus!
