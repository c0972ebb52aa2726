//! Structures: the named, typed fields that objects of a tag must use.

use vstd::prelude::*;
use crate::lex::push_char;
use crate::parser::str_eq;
use crate::registry::NameMap;

verus! {

/// `s` between double quotes.
pub open spec fn quoted(s: Seq<char>) -> Seq<char> {
    seq!['"'] + s + seq!['"']
}

/// `"k": v`.
pub open spec fn entry_text(k: Seq<char>, v: Seq<char>) -> Seq<char> {
    quoted(k) + seq![':', ' '] + v
}

/// The items one after another, separated by `, `.
pub open spec fn join(items: Seq<Seq<char>>) -> Seq<char>
    decreases items.len(),
{
    if items.len() == 0 {
        seq![]
    } else if items.len() == 1 {
        items[0]
    } else {
        join(items.drop_last()) + seq![',', ' '] + items.last()
    }
}

/// Joining one more item adds a separator, where one is needed, and the item.
pub proof fn lemma_join_push(items: Seq<Seq<char>>, i: int)
    requires
        0 <= i < items.len(),
    ensures
        join(items.subrange(0, i + 1)) == join(items.subrange(0, i)) + (if i > 0 {
            seq![',', ' ']
        } else {
            seq![]
        }) + items[i],
{
    let a = items.subrange(0, i + 1);
    assert(a.drop_last() =~= items.subrange(0, i));
    assert(a.last() == items[i]);
    if i == 0 {
        assert(join(items.subrange(0, 0)) + seq![] + items[0] =~= items[0]);
    }
}

/// Appends `, ` unless `first`, then `item`.
pub(crate) fn push_item(s: &mut String, first: bool, item: &str)
    ensures
        final(s)@ == old(s)@ + (if first {
            seq![]
        } else {
            seq![',', ' ']
        }) + item@,
{
    if !first {
        push_char(s, ',');
        push_char(s, ' ');
    }
    s.append(item);
    assert(final(s)@ =~= old(s)@ + (if first {
        seq![]
    } else {
        seq![',', ' ']
    }) + item@);
}

/// `"k": v` as text.
pub(crate) fn entry_string(k: &str, v: &str) -> (r: String)
    ensures
        r@ == entry_text(k@, v@),
{
    let mut s = String::new();
    push_char(&mut s, '"');
    s.append(k);
    push_char(&mut s, '"');
    push_char(&mut s, ':');
    push_char(&mut s, ' ');
    s.append(v);
    assert(s@ =~= entry_text(k@, v@));
    s
}

/// `s` between double quotes, as text.
pub(crate) fn quoted_string(k: &str) -> (r: String)
    ensures
        r@ == quoted(k@),
{
    let mut s = String::new();
    push_char(&mut s, '"');
    s.append(k);
    push_char(&mut s, '"');
    assert(s@ =~= quoted(k@));
    s
}

/// The name of the type of a field, a function argument or a function result.
#[derive(Debug)]
pub struct TypeTag {
    name: String,
}

/// The name of the type of text, the type of string literals.
pub open spec fn string_type() -> Seq<char> {
    seq!['S', 't', 'r', 'i', 'n', 'g']
}

impl View for TypeTag {
    type V = Seq<char>;

    closed spec fn view(&self) -> Seq<char> {
        self.name@
    }
}

impl TypeTag {
    /// The type named `name`.
    pub fn new(name: &str) -> (r: TypeTag)
        ensures
            r@ == name@,
    {
        TypeTag { name: name.to_owned() }
    }

    /// The type of text.
    pub fn string() -> (r: TypeTag)
        ensures
            r@ == string_type(),
    {
        let name = String::from_str("String");
        proof {
            reveal_strlit("String");
        }
        TypeTag { name }
    }

    pub fn name(&self) -> (r: &str)
        ensures
            r@ == self@,
    {
        self.name.as_str()
    }

    /// Whether the two tags name the same type.
    pub fn same(&self, other: &TypeTag) -> (r: bool)
        ensures
            r == (self@ == other@),
    {
        str_eq(self.name.as_str(), other.name.as_str())
    }

    /// A tag naming the same type.
    pub fn duplicate(&self) -> (r: TypeTag)
        ensures
            r@ == self@,
    {
        TypeTag { name: self.name.clone() }
    }
}

/// `Structure { fields: {"name": Type, ...} }` for the fields named in
/// `order`, in that order, with their types from `types`.
pub open spec fn structure_text(order: Seq<Seq<char>>, types: Map<Seq<char>, Seq<char>>) -> Seq<char> {
    "Structure { fields: {"@ + join(
        Seq::new(order.len(), |i: int| entry_text(order[i], types[order[i]])),
    ) + "} }"@
}

/// Builds a [`Structure`] one field at a time.
#[derive(Debug)]
pub struct StructureBuilder {
    fields: NameMap<TypeTag>,
}

/// The fields of a structure, each with the name of its type.
#[derive(Debug)]
pub struct Structure {
    fields: NameMap<TypeTag>,
}

impl Structure {
    #[verifier::type_invariant]
    spec fn inv(self) -> bool {
        self.fields.wf()
    }

    /// The type of each field, by field name.
    pub closed spec fn field_types(&self) -> Map<Seq<char>, Seq<char>> {
        self.fields.map().map_values(|t: TypeTag| t@)
    }

    /// The names of the fields, in the order they were first added.
    pub closed spec fn field_order(&self) -> Seq<Seq<char>> {
        self.fields.keys()
    }

    /// The fields as `"name": Type` entries, in the order they were first added.
    pub open spec fn text(&self) -> Seq<char> {
        structure_text(self.field_order(), self.field_types())
    }

    /// A description of the structure:
    /// `Structure { fields: {"name": Type, ...} }`.
    pub fn describe(&self) -> (r: String)
        ensures
            r@ == self.text(),
    {
        proof {
            use_type_invariant(self);
            self.fields.lemma_keys();
        }
        let ghost ks = self.fields.keys();
        let ghost items = Seq::new(
            ks.len(),
            |i: int| entry_text(ks[i], self.field_types()[ks[i]]),
        );
        let n = self.fields.len();
        let mut s = String::from_str("Structure { fields: {");
        let mut i: usize = 0;
        assert(items.subrange(0, 0) =~= Seq::<Seq<char>>::empty());
        while i < n
            invariant
                n == ks.len(),
                ks == self.fields.keys(),
                self.fields.wf(),
                items == Seq::new(ks.len(), |i: int| entry_text(ks[i], self.field_types()[ks[i]])),
                i <= n,
                s@ == "Structure { fields: {"@ + join(items.subrange(0, i as int)),
            decreases n - i,
        {
            let k = self.fields.key_at(i);
            let t = self.fields.value_at(i);
            let e = entry_string(k, t.name());
            proof {
                lemma_join_push(items, i as int);
            }
            push_item(&mut s, i == 0, e.as_str());
            assert(s@ =~= "Structure { fields: {"@ + join(items.subrange(0, i + 1)));
            i = i + 1;
        }
        assert(items.subrange(0, n as int) =~= items);
        let ghost before = s@;
        s.append("} }");
        assert(s@ =~= before + "} }"@);
        s
    }

    pub fn builder() -> (r: StructureBuilder)
        ensures
            r.wf(),
            r.field_types() == Map::<Seq<char>, Seq<char>>::empty(),
            r.field_order() == Seq::<Seq<char>>::empty(),
    {
        StructureBuilder::new()
    }

    /// The names of the declared fields.
    pub fn field_names(&self) -> (r: Vec<String>)
        ensures
            forall|k: Seq<char>| #[trigger]
                self.field_types().dom().contains(k) <==> exists|j: int|
                    0 <= j < r.len() && #[trigger] r@[j]@ == k,
    {
        proof {
            use_type_invariant(self);
            self.fields.lemma_keys();
        }
        let ghost ks = self.fields.keys();
        let n = self.fields.len();
        let mut r: Vec<String> = Vec::new();
        let mut i: usize = 0;
        while i < n
            invariant
                n == ks.len(),
                ks == self.fields.keys(),
                i <= n,
                r.len() == i,
                forall|j: int| 0 <= j < i ==> #[trigger] r@[j]@ == ks[j],
            decreases n - i,
        {
            r.push(self.fields.key_at(i).to_owned());
            i = i + 1;
        }
        proof {
            assert forall|k: Seq<char>| #[trigger]
                self.field_types().dom().contains(k) <==> exists|j: int|
                    0 <= j < r.len() && #[trigger] r@[j]@ == k by {
                if self.field_types().dom().contains(k) {
                    assert(ks.contains(k));
                    let j = choose|j: int| 0 <= j < ks.len() && ks[j] == k;
                    assert(r@[j]@ == k);
                }
                if exists|j: int| 0 <= j < r.len() && #[trigger] r@[j]@ == k {
                    let j = choose|j: int| 0 <= j < r.len() && #[trigger] r@[j]@ == k;
                    assert(ks[j] == k);
                }
            }
        }
        r
    }

    /// The type of the field `name`.
    pub fn get_field(&self, name: &str) -> (r: Option<TypeTag>)
        ensures
            match r {
                Some(t) => self.field_types().dom().contains(name@) && t@
                    == self.field_types()[name@],
                None => !self.field_types().dom().contains(name@),
            },
    {
        proof {
            use_type_invariant(self);
        }
        match self.fields.get(name) {
            Some(t) => Some(t.duplicate()),
            None => None,
        }
    }
}

impl StructureBuilder {
    pub closed spec fn wf(&self) -> bool {
        self.fields.wf()
    }

    /// The fields added so far.
    pub closed spec fn field_types(&self) -> Map<Seq<char>, Seq<char>> {
        self.fields.map().map_values(|t: TypeTag| t@)
    }

    /// The names of the fields added so far, in the order first added.
    pub closed spec fn field_order(&self) -> Seq<Seq<char>> {
        self.fields.keys()
    }

    pub fn new() -> (r: StructureBuilder)
        ensures
            r.wf(),
            r.field_types() == Map::<Seq<char>, Seq<char>>::empty(),
            r.field_order() == Seq::<Seq<char>>::empty(),
    {
        let r = StructureBuilder { fields: NameMap::new() };
        assert(r.field_types() =~= Map::<Seq<char>, Seq<char>>::empty());
        r
    }

    /// Adds the field `name` of type `ty`; a field of that name already
    /// added gets the new type.
    pub fn field(self, name: &str, ty: TypeTag) -> (r: StructureBuilder)
        requires
            self.wf(),
        ensures
            r.wf(),
            r.field_types() == self.field_types().insert(name@, ty@),
            r.field_order() == if self.field_types().dom().contains(name@) {
                self.field_order()
            } else {
                self.field_order().push(name@)
            },
    {
        let ghost before = self.field_types();
        let ghost t = ty@;
        let mut fields = self.fields;
        fields.insert(name.to_owned(), ty);
        let r = StructureBuilder { fields };
        assert(r.field_types() =~= before.insert(name@, t));
        r
    }

    /// The structure with the fields added.
    pub fn build(self) -> (r: Structure)
        requires
            self.wf(),
        ensures
            r.field_types() == self.field_types(),
            r.field_order() == self.field_order(),
    {
        Structure { fields: self.fields }
    }
}

} // verus!
