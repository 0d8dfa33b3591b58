//! Parser for a constrained wiki markup dialect: a single top-level
//! `{{Infobox ... }}` envelope holding a type tag and a sequence of
//! `|key = value` fields, where a value is either a free-text scalar line or
//! a brace-delimited array of bracketed items.
//!
//! The grammar is recursive descent and single pass: each rule consumes a
//! prefix of its input and never re-scans consumed text. Every parsing
//! function carries a contract that pins its result to the specification
//! functions in [`parser`].

use vstd::prelude::*;

pub mod laws;
pub mod lex;
pub mod parser;

verus! {

/// One bracketed token inside an array value.
///
/// `[text]` is `Single`, `[name|value]` is `Named`, and `[]` is `Empty`.
#[derive(Debug, Clone)]
pub enum Item {
    Single(String),
    Named(String, String),
    Empty,
}

/// A field's value: either a brace-delimited array of items or one scalar
/// line of free text.
#[derive(Debug, Clone)]
pub enum Data {
    Array(Vec<Item>),
    Scalar(String),
}

/// Mathematical model of an [`Item`]: the same three variants over
/// character sequences.
#[verifier::ext_equal]
pub enum ItemModel {
    Single(Seq<char>),
    Named(Seq<char>, Seq<char>),
    Empty,
}

/// Mathematical model of a [`Data`] value.
#[verifier::ext_equal]
pub enum DataModel {
    Array(Seq<ItemModel>),
    Scalar(Seq<char>),
}

impl View for Item {
    type V = ItemModel;

    open spec fn view(&self) -> ItemModel {
        match self {
            Item::Single(v) => ItemModel::Single(v@),
            Item::Named(n, v) => ItemModel::Named(n@, v@),
            Item::Empty => ItemModel::Empty,
        }
    }
}

/// The model of a sequence of items: each item replaced by its view.
pub open spec fn items_view(items: Seq<Item>) -> Seq<ItemModel> {
    items.map_values(|it: Item| it@)
}

impl View for Data {
    type V = DataModel;

    open spec fn view(&self) -> DataModel {
        match self {
            Data::Array(items) => DataModel::Array(items_view(items@)),
            Data::Scalar(s) => DataModel::Scalar(s@),
        }
    }
}

/// Mathematical model of a [`Wiki`] document: the type tag and a mapping
/// from field name to field value.
#[verifier::ext_equal]
pub struct WikiModel {
    pub kind: Seq<char>,
    pub fields: Map<Seq<char>, DataModel>,
}

/// The mapping a field list denotes: each pair inserted in order, so a
/// later occurrence of a key overwrites an earlier one.
pub open spec fn fields_map(fs: Seq<(Seq<char>, DataModel)>) -> Map<Seq<char>, DataModel>
    decreases fs.len(),
{
    if fs.len() == 0 {
        Map::empty()
    } else {
        fields_map(fs.drop_last()).insert(fs.last().0, fs.last().1)
    }
}

/// The model of a field list held as executable pairs.
pub open spec fn pairs_view(d: Seq<(String, Data)>) -> Seq<(Seq<char>, DataModel)> {
    d.map_values(|p: (String, Data)| (p.0@, p.1@))
}

/// A parsed document: its type tag (`kind`, possibly empty) and its fields.
///
/// The fields are held as key/value pairs whose keys are unique (see
/// [`Wiki::wf`]); the view collapses them to the mapping they denote.
#[derive(Debug, Clone)]
pub struct Wiki {
    pub kind: String,
    pub data: Vec<(String, Data)>,
}

impl View for Wiki {
    type V = WikiModel;

    open spec fn view(&self) -> WikiModel {
        WikiModel {
            kind: self.kind@,
            fields: fields_map(pairs_view(self.data@)),
        }
    }
}

impl Wiki {
    /// Well-formed: no two entries share a key.
    pub open spec fn wf(&self) -> bool {
        forall|i: int, j: int|
            0 <= i < j < self.data@.len() ==> self.data@[i].0@ != self.data@[j].0@
    }

    /// Builds a document from a type tag and a field list.
    pub fn new(kind: String, data: Vec<(String, Data)>) -> (r: Wiki)
        ensures
            r.kind == kind,
            r.data == data,
    {
        Wiki { kind, data }
    }

    /// Looks a field up by name: the value the document's mapping holds
    /// under the key, or nothing when the key is absent.
    pub fn get(&self, field: &str) -> (r: Option<&Data>)
        ensures
            match r {
                Option::Some(d) => self@.fields.contains_key(field@) && d@
                    == self@.fields[field@],
                Option::None => !self@.fields.contains_key(field@),
            },
    {
        let len = self.data.len();
        let mut i = len;
        while i > 0
            invariant
                i <= len,
                len == self.data@.len(),
                forall|k: int| i <= k < len ==> self.data@[k].0@ != field@,
            decreases i,
        {
            if crate::lex::str_eq(self.data[i - 1].0.as_str(), field) {
                proof {
                    assert(forall|j: int| 0 <= j < len ==> pairs_view(self.data@)[j]
                        == (self.data@[j].0@, self.data@[j].1@));
                    crate::laws::lemma_later_field_wins(pairs_view(self.data@), i - 1);
                }
                return Option::Some(&self.data[i - 1].1);
            }
            i = i - 1;
        }
        proof {
            assert(forall|j: int| 0 <= j < len ==> pairs_view(self.data@)[j]
                == (self.data@[j].0@, self.data@[j].1@));
            crate::laws::lemma_absent_field(pairs_view(self.data@), field@);
        }
        Option::None
    }

    /// Mutable access to a field's value. Writing through the returned
    /// reference replaces the value the document's mapping holds under the
    /// key; the type tag and all other fields are unchanged.
    pub fn get_mut(&mut self, field: &str) -> (r: Option<&mut Data>)
        ensures
            match r {
                Option::Some(d) => old(self)@.fields.contains_key(field@) && (*d)@
                    == old(self)@.fields[field@] && (*final(self))@.kind == old(self)@.kind
                    && (*final(self))@.fields == old(self)@.fields.insert(
                    field@,
                    (*final(d))@,
                ) && (old(self).wf() ==> final(self).wf()),
                Option::None => !old(self)@.fields.contains_key(field@) && *final(self)
                    == *old(self),
            },
    {
        let len = self.data.len();
        let mut i = len;
        while i > 0
            invariant
                i <= len,
                *self == *old(self),
                len == self.data@.len(),
                forall|k: int| i <= k < len ==> self.data@[k].0@ != field@,
            decreases i,
        {
            if crate::lex::str_eq(self.data[i - 1].0.as_str(), field) {
                let ghost prev = self.data@;
                proof {
                    assert(forall|j: int| 0 <= j < len ==> pairs_view(prev)[j]
                        == (prev[j].0@, prev[j].1@));
                    crate::laws::lemma_later_field_wins(pairs_view(prev), i - 1);
                }
                let d = &mut self.data[i - 1].1;
                proof {
                    assert(pairs_view(prev.update(i - 1, (prev[i - 1].0, *final(d))))
                        =~= pairs_view(prev).update(i - 1, (field@, (*final(d))@)));
                    crate::parser::lemma_fields_map_update(
                        pairs_view(prev),
                        i - 1,
                        (field@, (*final(d))@),
                    );
                }
                return Option::Some(d);
            }
            i = i - 1;
        }
        proof {
            assert(forall|j: int| 0 <= j < len ==> pairs_view(self.data@)[j]
                == (self.data@[j].0@, self.data@[j].1@));
            crate::laws::lemma_absent_field(pairs_view(self.data@), field@);
        }
        Option::None
    }
}

impl Default for Wiki {
    /// The empty document: empty type tag, no fields.
    fn default() -> (r: Wiki)
        ensures
            r.kind@ == Seq::<char>::empty(),
            r.data@ == Seq::<(String, Data)>::empty(),
            r@.kind == Seq::<char>::empty(),
            r@.fields == Map::<Seq<char>, DataModel>::empty(),
            r.wf(),
    {
        let r = Wiki { kind: String::new(), data: Vec::new() };
        proof {
            assert(pairs_view(r.data@) =~= Seq::<(Seq<char>, DataModel)>::empty());
        }
        r
    }
}

impl Item {
    /// The textual payload of the item: the text of a `Single`, the value of
    /// a `Named`, and nothing for `Empty`.
    pub fn value(&self) -> (r: Option<&str>)
        ensures
            match r {
                Option::Some(s) => (self@ matches ItemModel::Single(v) && s@ == v)
                    || (self@ matches ItemModel::Named(_, v) && s@ == v),
                Option::None => self@ is Empty,
            },
    {
        match self {
            Item::Single(v) => Option::Some(v.as_str()),
            Item::Named(_, v) => Option::Some(v.as_str()),
            Item::Empty => Option::None,
        }
    }

    /// Mutable access to the textual payload: writing through the returned
    /// reference rewrites the text of a `Single` or the value of a `Named`,
    /// and leaves the variant and any name unchanged.
    pub fn value_mut(&mut self) -> (r: Option<&mut String>)
        ensures
            match r {
                Option::Some(v) => ((*old(self))@ matches ItemModel::Single(x) && (*v)@ == x
                    && (*final(self))@ == ItemModel::Single((*final(v))@)) || ((*old(self))@
                    matches ItemModel::Named(n, x) && (*v)@ == x && (*final(self))@
                    == ItemModel::Named(n, (*final(v))@)),
                Option::None => (*old(self))@ is Empty && *final(self) == *old(self),
            },
    {
        match self {
            Item::Single(v) => Option::Some(v),
            Item::Named(_, v) => Option::Some(v),
            Item::Empty => Option::None,
        }
    }
}

impl Data {
    /// True exactly when the value is an item array.
    pub fn is_array(&self) -> (r: bool)
        ensures
            r == (self@ is Array),
    {
        match self {
            Data::Array(_) => true,
            Data::Scalar(_) => false,
        }
    }

    /// True exactly when the value is a scalar line.
    pub fn is_scalar(&self) -> (r: bool)
        ensures
            r == (self@ is Scalar),
    {
        match self {
            Data::Array(_) => false,
            Data::Scalar(_) => true,
        }
    }
}

impl PartialEq for Item {
    /// Two items are equal when they are the same variant with the same
    /// text.
    fn eq(&self, other: &Item) -> (r: bool) {
        match (self, other) {
            (Item::Single(a), Item::Single(b)) => crate::lex::str_eq(a.as_str(), b.as_str()),
            (Item::Named(an, av), Item::Named(bn, bv)) => crate::lex::str_eq(
                an.as_str(),
                bn.as_str(),
            ) && crate::lex::str_eq(av.as_str(), bv.as_str()),
            (Item::Empty, Item::Empty) => true,
            _ => false,
        }
    }
}

impl vstd::std_specs::cmp::PartialEqSpecImpl for Item {
    open spec fn obeys_eq_spec() -> bool {
        true
    }

    open spec fn eq_spec(&self, other: &Item) -> bool {
        self@ == other@
    }
}

impl PartialEq for Data {
    /// Two values are equal when both are scalars with the same text, or
    /// both are arrays of equal items in the same order.
    #[verifier::loop_isolation(false)]
    fn eq(&self, other: &Data) -> (r: bool) {
        match (self, other) {
            (Data::Scalar(a), Data::Scalar(b)) => crate::lex::str_eq(a.as_str(), b.as_str()),
            (Data::Array(va), Data::Array(vb)) => {
                if va.len() != vb.len() {
                    proof {
                        assert(items_view(va@).len() != items_view(vb@).len());
                    }
                    return false;
                }
                let n = va.len();
                let mut i: usize = 0;
                while i < n
                    invariant
                        0 <= i <= n,
                        n == va@.len() == vb@.len(),
                        forall|k: int| 0 <= k < i ==> va@[k]@ == vb@[k]@,
                    decreases n - i,
                {
                    if !(va[i] == vb[i]) {
                        proof {
                            assert(items_view(va@)[i as int] != items_view(vb@)[i as int]);
                        }
                        return false;
                    }
                    i = i + 1;
                }
                proof {
                    assert(items_view(va@) =~= items_view(vb@));
                }
                true
            },
            _ => false,
        }
    }
}

impl vstd::std_specs::cmp::PartialEqSpecImpl for Data {
    open spec fn obeys_eq_spec() -> bool {
        true
    }

    open spec fn eq_spec(&self, other: &Data) -> bool {
        self@ == other@
    }
}

impl PartialEq for Wiki {
    /// Two documents are equal when their type tags agree and their field
    /// lists agree entry by entry.
    #[verifier::loop_isolation(false)]
    fn eq(&self, other: &Wiki) -> (r: bool) {
        if !crate::lex::str_eq(self.kind.as_str(), other.kind.as_str()) {
            return false;
        }
        if self.data.len() != other.data.len() {
            proof {
                assert(pairs_view(self.data@).len() != pairs_view(other.data@).len());
            }
            return false;
        }
        let n = self.data.len();
        let mut i: usize = 0;
        while i < n
            invariant
                0 <= i <= n,
                n == self.data@.len() == other.data@.len(),
                forall|k: int|
                    0 <= k < i ==> self.data@[k].0@ == other.data@[k].0@ && self.data@[k].1@
                        == other.data@[k].1@,
            decreases n - i,
        {
            let same_key = crate::lex::str_eq(
                self.data[i].0.as_str(),
                other.data[i].0.as_str(),
            );
            if !same_key || !(self.data[i].1 == other.data[i].1) {
                proof {
                    let gi = i as int;
                    assert(pairs_view(self.data@)[gi] != pairs_view(other.data@)[gi]);
                }
                return false;
            }
            i = i + 1;
        }
        proof {
            assert(pairs_view(self.data@) =~= pairs_view(other.data@));
        }
        true
    }
}

impl vstd::std_specs::cmp::PartialEqSpecImpl for Wiki {
    open spec fn obeys_eq_spec() -> bool {
        true
    }

    open spec fn eq_spec(&self, other: &Wiki) -> bool {
        self.kind@ == other.kind@ && pairs_view(self.data@) == pairs_view(other.data@)
    }
}

} // verus!
