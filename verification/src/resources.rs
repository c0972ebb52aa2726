//! The two kinds of object of the sample configuration: namespaces and
//! deployments, each built from the resolved fields of a loaded object.

use vstd::prelude::*;
use crate::engine::{ResolvedObject, StructureType};
use crate::structure::{string_type, Structure, TypeTag};

verus! {

/// The text of field `name` among `values`, or empty text where there is no such field.
pub open spec fn field_text(values: Map<Seq<char>, Seq<char>>, name: Seq<char>) -> Seq<char> {
    if values.dom().contains(name) {
        values[name]
    } else {
        Seq::empty()
    }
}

/// The text of field `name`, or empty text where the object has no such field.
fn text_of(fields: &ResolvedObject, name: &str) -> (r: String)
    requires
        fields.wf(),
    ensures
        r@ == field_text(fields.values(), name@),
{
    match fields.get(name) {
        Some(s) => s,
        None => String::new(),
    }
}

/// A namespace, tagged `namespace`, with a `String` field `name`.
#[derive(Debug, Clone, PartialEq, Eq)]
pub struct Namespace {
    pub name: String,
}

impl StructureType for Namespace {
    open spec fn tag_view() -> Seq<char> {
        seq!['n', 'a', 'm', 'e', 's', 'p', 'a', 'c', 'e']
    }

    fn tag() -> (r: &'static str) {
        let r = "namespace";
        proof {
            reveal_strlit("namespace");
        }
        r
    }

    open spec fn structure_view() -> Map<Seq<char>, Seq<char>> {
        map![seq!['n', 'a', 'm', 'e'] => string_type()]
    }

    open spec fn field_order_view() -> Seq<Seq<char>> {
        seq![seq!['n', 'a', 'm', 'e']]
    }

    fn get_structure() -> (r: Structure) {
        let name = "name";
        proof {
            reveal_strlit("name");
            assert(name@ =~= seq!['n', 'a', 'm', 'e']);
        }
        let r = Structure::builder().field(name, TypeTag::string()).build();
        assert(r.field_types() =~= map![seq!['n', 'a', 'm', 'e'] => string_type()]);
        r
    }

    /// The name is the text of field `name`, or empty text where there is none.
    open spec fn made_from(value: Namespace, values: Map<Seq<char>, Seq<char>>) -> bool {
        value.name@ == field_text(values, seq!['n', 'a', 'm', 'e'])
    }

    fn make(fields: &ResolvedObject) -> (r: Namespace) {
        let name = "name";
        proof {
            reveal_strlit("name");
            assert(name@ =~= seq!['n', 'a', 'm', 'e']);
        }
        Namespace { name: text_of(fields, name) }
    }
}

/// A deployment, tagged `v1.deployment`, with `String` fields `name` and
/// `namespace`.
#[derive(Debug, Clone, PartialEq, Eq)]
pub struct Deployment {
    pub name: String,
    pub namespace: String,
}

impl StructureType for Deployment {
    open spec fn tag_view() -> Seq<char> {
        seq!['v', '1', '.', 'd', 'e', 'p', 'l', 'o', 'y', 'm', 'e', 'n', 't']
    }

    fn tag() -> (r: &'static str) {
        let r = "v1.deployment";
        proof {
            reveal_strlit("v1.deployment");
        }
        r
    }

    open spec fn structure_view() -> Map<Seq<char>, Seq<char>> {
        map![
            seq!['n', 'a', 'm', 'e'] => string_type(),
            seq!['n', 'a', 'm', 'e', 's', 'p', 'a', 'c', 'e'] => string_type(),
        ]
    }

    open spec fn field_order_view() -> Seq<Seq<char>> {
        seq![seq!['n', 'a', 'm', 'e'], seq!['n', 'a', 'm', 'e', 's', 'p', 'a', 'c', 'e']]
    }

    fn get_structure() -> (r: Structure) {
        let name = "name";
        let namespace = "namespace";
        proof {
            reveal_strlit("name");
            reveal_strlit("namespace");
            assert(name@ =~= seq!['n', 'a', 'm', 'e']);
            assert(namespace@ =~= seq!['n', 'a', 'm', 'e', 's', 'p', 'a', 'c', 'e']);
        }
        let r = Structure::builder().field(name, TypeTag::string()).field(
            namespace,
            TypeTag::string(),
        ).build();
        assert(r.field_types() =~= map![
            seq!['n', 'a', 'm', 'e'] => string_type(),
            seq!['n', 'a', 'm', 'e', 's', 'p', 'a', 'c', 'e'] => string_type(),
        ]);
        r
    }

    /// The name and the namespace are the texts of fields `name` and
    /// `namespace`, or empty text where there is none.
    open spec fn made_from(value: Deployment, values: Map<Seq<char>, Seq<char>>) -> bool {
        &&& value.name@ == field_text(values, seq!['n', 'a', 'm', 'e'])
        &&& value.namespace@ == field_text(
            values,
            seq!['n', 'a', 'm', 'e', 's', 'p', 'a', 'c', 'e'],
        )
    }

    fn make(fields: &ResolvedObject) -> (r: Deployment) {
        let name = "name";
        let namespace = "namespace";
        proof {
            reveal_strlit("name");
            reveal_strlit("namespace");
            assert(name@ =~= seq!['n', 'a', 'm', 'e']);
            assert(namespace@ =~= seq!['n', 'a', 'm', 'e', 's', 'p', 'a', 'c', 'e']);
        }
        Deployment { name: text_of(fields, name), namespace: text_of(fields, namespace) }
    }
}

} // verus!
