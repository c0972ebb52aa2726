//! What loading objects and resolving their field values mean, stated over
//! the views of parsed values.
//!
//! Loading runs in two passes over the parsed objects. The first pass maps
//! each object name to the tag of the first object of that name whose tag is
//! registered; an object with an unregistered tag, or whose name is already
//! mapped, is reported. The second pass checks every object whose name is
//! mapped against the structure of the mapped tag: each field must be
//! declared by the structure, and its value must have the declared type. An
//! object that passes is kept under its name, replacing an object kept
//! earlier under the same name.
//!
//! Resolving a value gives text: a string literal is its own text, a query
//! `?object.field` is the resolution of that field of that loaded object,
//! and a call is the registered function's result on the resolved
//! arguments. A value that names something missing, or whose queries run in
//! a circle, does not resolve.

use vstd::prelude::*;
use crate::parser::{key_index, IdentView, ObjectView, ValueKind, ValueView};
use crate::structure::string_type;

verus! {

/// A registered function: the types of its arguments and of its result,
/// and its result on each argument list.
pub struct FnView {
    pub params: Seq<Seq<char>>,
    pub ret: Seq<char>,
    pub result: spec_fn(Seq<Seq<char>>) -> Seq<char>,
}

/// A loaded object: the tag it was loaded under and its field values.
pub struct ObjectProxyView {
    pub tag: Seq<char>,
    pub fields: Map<Seq<char>, ValueView>,
}

/// A problem found while loading, with where it was found.
pub enum IssueView {
    /// An object's tag names no registered structure.
    Unregistered { line: nat, col: nat, tag: Seq<char> },
    /// An object's name is already taken in the same source.
    DuplicateObject { line: nat, col: nat, name: Seq<char> },
    /// A field is not declared by the object's structure.
    UnknownField { line: nat, col: nat },
    /// A string literal where the declared type is not `String`.
    NotAString,
    /// A call of a function that is not registered.
    UnknownFunction { line: nat, col: nat, name: Seq<char> },
    /// A call of a function whose result has another type.
    WrongReturnType { line: nat, col: nat, name: Seq<char> },
    /// A call with another number of arguments than the function takes.
    WrongArgCount { line: nat, col: nat, name: Seq<char>, expected: nat, given: nat },
    /// The argument at `index` of a call failed its check.
    WrongArgument { line: nat, col: nat, index: nat, name: Seq<char> },
    /// A query whose path does not have two parts.
    QueryLength { line: nat, col: nat },
    /// A query of an object that is not in the source.
    UnknownObject { line: nat, col: nat, name: Seq<char> },
    /// A query of a field that the queried object's structure does not declare.
    MissingField { line: nat, col: nat, tag: Seq<char>, field: Seq<char> },
    /// A query of a field of another type.
    WrongFieldType { line: nat, col: nat, field: Seq<char> },
    /// An object that passes its checks but does not set every field its
    /// structure declares.
    IncompleteObject { line: nat, col: nat, name: Seq<char> },
}

/// The fields `data` set every field that `ft` declares.
pub open spec fn declares_all(data: Seq<(IdentView, ValueView)>, ft: Map<Seq<char>, Seq<char>>) -> bool {
    forall|f: Seq<char>| #[trigger] ft.dom().contains(f) ==> data_map(data).dom().contains(f)
}

/// The fields of a parsed object by name; of two fields with one name the later counts.
pub open spec fn data_map(d: Seq<(IdentView, ValueView)>) -> Map<Seq<char>, ValueView>
    decreases d.len(),
{
    if d.len() == 0 {
        Map::empty()
    } else {
        data_map(d.drop_last()).insert(d.last().0.value, d.last().1)
    }
}

/// The first pass: object name to tag, and the problems reported.
pub open spec fn tag_pass(
    structs: Map<Seq<char>, Map<Seq<char>, Seq<char>>>,
    objs: Seq<ObjectView>,
) -> (Map<Seq<char>, Seq<char>>, Seq<IssueView>)
    decreases objs.len(),
{
    if objs.len() == 0 {
        (Map::empty(), seq![])
    } else {
        let (tm, is) = tag_pass(structs, objs.drop_last());
        let o = objs.last();
        if !structs.dom().contains(o.tag.value) {
            (tm, is.push(IssueView::Unregistered { line: o.line, col: o.col, tag: o.tag.value }))
        } else if tm.dom().contains(o.name.value) {
            (
                tm,
                is.push(
                    IssueView::DuplicateObject {
                        line: o.name.line,
                        col: o.name.col,
                        name: o.name.value,
                    },
                ),
            )
        } else {
            (tm.insert(o.name.value, o.tag.value), is)
        }
    }
}

/// Whether the value `v` may stand where type `t` is declared, and the
/// problems reported on the way. `tm` maps the names of the objects of the
/// source to their tags.
pub open spec fn check_value(
    fns: Map<Seq<char>, FnView>,
    structs: Map<Seq<char>, Map<Seq<char>, Seq<char>>>,
    tm: Map<Seq<char>, Seq<char>>,
    t: Seq<char>,
    v: ValueView,
) -> (bool, Seq<IssueView>)
    decreases v, 0int,
{
    match v.value {
        ValueKind::Str(_) => if t != string_type() {
            (false, seq![IssueView::NotAString])
        } else {
            (true, seq![])
        },
        ValueKind::Invoke(name, args) => if !fns.dom().contains(name) {
            (false, seq![IssueView::UnknownFunction { line: v.line, col: v.col, name }])
        } else if fns[name].ret != t {
            (false, seq![IssueView::WrongReturnType { line: v.line, col: v.col, name }])
        } else if fns[name].params.len() != args.len() {
            (
                false,
                seq![
                    IssueView::WrongArgCount {
                        line: v.line,
                        col: v.col,
                        name,
                        expected: fns[name].params.len(),
                        given: args.len(),
                    },
                ],
            )
        } else {
            check_args(fns, structs, tm, v.line, v.col, name, fns[name].params, args, 0)
        },
        ValueKind::Query(items) => if items.len() != 2 {
            (false, seq![IssueView::QueryLength { line: v.line, col: v.col }])
        } else if !tm.dom().contains(items[0]) {
            (false, seq![IssueView::UnknownObject { line: v.line, col: v.col, name: items[0] }])
        } else if !structs[tm[items[0]]].dom().contains(items[1]) {
            (
                false,
                seq![
                    IssueView::MissingField {
                        line: v.line,
                        col: v.col,
                        tag: tm[items[0]],
                        field: items[1],
                    },
                ],
            )
        } else if structs[tm[items[0]]][items[1]] != t {
            (false, seq![IssueView::WrongFieldType { line: v.line, col: v.col, field: items[1] }])
        } else {
            (true, seq![])
        },
    }
}

/// The check of the arguments of a call from the one at `i` on; the first
/// argument that fails ends it, with a report that names its position.
pub open spec fn check_args(
    fns: Map<Seq<char>, FnView>,
    structs: Map<Seq<char>, Map<Seq<char>, Seq<char>>>,
    tm: Map<Seq<char>, Seq<char>>,
    line: nat,
    col: nat,
    name: Seq<char>,
    params: Seq<Seq<char>>,
    args: Seq<ValueView>,
    i: int,
) -> (bool, Seq<IssueView>)
    decreases args, args.len() - i,
{
    if i < 0 || i >= args.len() {
        (true, seq![])
    } else {
        let (ok, is) = check_value(fns, structs, tm, params[i], args[i]);
        if !ok {
            (false, is.push(IssueView::WrongArgument { line, col, index: i as nat, name }))
        } else {
            let (ok2, is2) = check_args(fns, structs, tm, line, col, name, params, args, i + 1);
            (ok2, is + is2)
        }
    }
}

/// The check of the fields of an object from the one at `i` on, against
/// the field types `ft`; the first field that fails ends it.
pub open spec fn check_fields(
    fns: Map<Seq<char>, FnView>,
    structs: Map<Seq<char>, Map<Seq<char>, Seq<char>>>,
    tm: Map<Seq<char>, Seq<char>>,
    ft: Map<Seq<char>, Seq<char>>,
    data: Seq<(IdentView, ValueView)>,
    i: int,
) -> (bool, Seq<IssueView>)
    decreases data.len() - i,
{
    if i < 0 || i >= data.len() {
        (true, seq![])
    } else if !ft.dom().contains(data[i].0.value) {
        (false, seq![IssueView::UnknownField { line: data[i].0.line, col: data[i].0.col }])
    } else {
        let (ok, is) = check_value(fns, structs, tm, ft[data[i].0.value], data[i].1);
        if !ok {
            (false, is)
        } else {
            let (ok2, is2) = check_fields(fns, structs, tm, ft, data, i + 1);
            (ok2, is + is2)
        }
    }
}

/// The second pass: the objects kept, starting from `init`, and the
/// problems reported.
pub open spec fn load_pass(
    fns: Map<Seq<char>, FnView>,
    structs: Map<Seq<char>, Map<Seq<char>, Seq<char>>>,
    tm: Map<Seq<char>, Seq<char>>,
    objs: Seq<ObjectView>,
    init: Map<Seq<char>, ObjectProxyView>,
) -> (Map<Seq<char>, ObjectProxyView>, Seq<IssueView>)
    decreases objs.len(),
{
    if objs.len() == 0 {
        (init, seq![])
    } else {
        let (m, is) = load_pass(fns, structs, tm, objs.drop_last(), init);
        let o = objs.last();
        if !tm.dom().contains(o.name.value) {
            (m, is)
        } else {
            let tag = tm[o.name.value];
            let (ok, is2) = check_fields(fns, structs, tm, structs[tag], o.data, 0);
            if !ok {
                (m, is + is2)
            } else if declares_all(o.data, structs[tag]) {
                (
                    m.insert(o.name.value, ObjectProxyView { tag, fields: data_map(o.data) }),
                    is + is2,
                )
            } else {
                (
                    m,
                    (is + is2).push(
                        IssueView::IncompleteObject { line: o.line, col: o.col, name: o.name.value },
                    ),
                )
            }
        }
    }
}

/// Loading the parsed objects `parsed` into an engine holding `objects`:
/// the objects held afterwards and the problems reported, first pass first.
pub open spec fn load_spec(
    objects: Map<Seq<char>, ObjectProxyView>,
    fns: Map<Seq<char>, FnView>,
    structs: Map<Seq<char>, Map<Seq<char>, Seq<char>>>,
    parsed: Seq<ObjectView>,
) -> (Map<Seq<char>, ObjectProxyView>, Seq<IssueView>) {
    let (tm, is1) = tag_pass(structs, parsed);
    let (m, is2) = load_pass(fns, structs, tm, parsed, objects);
    (m, is1 + is2)
}

/// Every call in `v`, its arguments' calls included, names a registered function.
pub open spec fn calls_known(fns: Map<Seq<char>, FnView>, v: ValueView) -> bool
    decreases v,
{
    match v.value {
        ValueKind::Invoke(f, args) => fns.dom().contains(f) && forall|i: int|
            0 <= i < args.len() ==> calls_known(fns, #[trigger] args[i]),
        _ => true,
    }
}

/// The text of `v` when at most `fuel` queries are followed in a row.
pub open spec fn eval(
    objs: Map<Seq<char>, ObjectProxyView>,
    fns: Map<Seq<char>, FnView>,
    v: ValueView,
    fuel: nat,
) -> Option<Seq<char>>
    decreases fuel, v,
{
    match v.value {
        ValueKind::Str(s) => Some(s),
        ValueKind::Query(path) => if fuel > 0 && path.len() == 2 && objs.dom().contains(path[0])
            && objs[path[0]].fields.dom().contains(path[1]) {
            eval(objs, fns, objs[path[0]].fields[path[1]], (fuel - 1) as nat)
        } else {
            None
        },
        ValueKind::Invoke(f, args) => if fns.dom().contains(f) {
            match eval_args(objs, fns, args, fuel) {
                Some(rs) => Some((fns[f].result)(rs)),
                None => None,
            }
        } else {
            None
        },
    }
}

/// The texts of the values `args`, as [`eval`] gives them.
pub open spec fn eval_args(
    objs: Map<Seq<char>, ObjectProxyView>,
    fns: Map<Seq<char>, FnView>,
    args: Seq<ValueView>,
    fuel: nat,
) -> Option<Seq<Seq<char>>>
    decreases fuel, args,
{
    if args.len() == 0 {
        Some(seq![])
    } else {
        match eval_args(objs, fns, args.drop_last(), fuel) {
            Some(rs) => match eval(objs, fns, args.last(), fuel) {
                Some(r) => Some(rs.push(r)),
                None => None,
            },
            None => None,
        }
    }
}

/// Whether `v` resolves.
pub open spec fn evaluable(
    objs: Map<Seq<char>, ObjectProxyView>,
    fns: Map<Seq<char>, FnView>,
    v: ValueView,
) -> bool {
    exists|fuel: nat| #[trigger] eval(objs, fns, v, fuel) is Some
}

/// The text `v` resolves to.
pub open spec fn value_of(
    objs: Map<Seq<char>, ObjectProxyView>,
    fns: Map<Seq<char>, FnView>,
    v: ValueView,
) -> Seq<char> {
    eval(objs, fns, v, choose|fuel: nat| #[trigger] eval(objs, fns, v, fuel) is Some).unwrap()
}

/// Whether every value of `fields` resolves.
pub open spec fn fields_evaluable(
    objs: Map<Seq<char>, ObjectProxyView>,
    fns: Map<Seq<char>, FnView>,
    fields: Map<Seq<char>, ValueView>,
) -> bool {
    forall|k: Seq<char>| #[trigger] fields.dom().contains(k) ==> evaluable(objs, fns, fields[k])
}

/// More fuel resolves a value to the same text.
pub proof fn lemma_eval_fuel(
    objs: Map<Seq<char>, ObjectProxyView>,
    fns: Map<Seq<char>, FnView>,
    v: ValueView,
    f1: nat,
    f2: nat,
)
    requires
        f1 <= f2,
        eval(objs, fns, v, f1) is Some,
    ensures
        eval(objs, fns, v, f2) == eval(objs, fns, v, f1),
    decreases f1, v,
{
    match v.value {
        ValueKind::Str(_) => {},
        ValueKind::Query(path) => {
            lemma_eval_fuel(
                objs,
                fns,
                objs[path[0]].fields[path[1]],
                (f1 - 1) as nat,
                (f2 - 1) as nat,
            );
        },
        ValueKind::Invoke(f, args) => {
            lemma_eval_args_fuel(objs, fns, args, f1, f2);
        },
    }
}

proof fn lemma_eval_args_fuel(
    objs: Map<Seq<char>, ObjectProxyView>,
    fns: Map<Seq<char>, FnView>,
    args: Seq<ValueView>,
    f1: nat,
    f2: nat,
)
    requires
        f1 <= f2,
        eval_args(objs, fns, args, f1) is Some,
    ensures
        eval_args(objs, fns, args, f2) == eval_args(objs, fns, args, f1),
    decreases f1, args,
{
    if args.len() > 0 {
        lemma_eval_args_fuel(objs, fns, args.drop_last(), f1, f2);
        lemma_eval_fuel(objs, fns, args.last(), f1, f2);
    }
}

/// Any fuel with which a value resolves gives the text it resolves to.
pub proof fn lemma_value_of(
    objs: Map<Seq<char>, ObjectProxyView>,
    fns: Map<Seq<char>, FnView>,
    v: ValueView,
    fuel: nat,
)
    requires
        eval(objs, fns, v, fuel) is Some,
    ensures
        evaluable(objs, fns, v),
        eval(objs, fns, v, fuel) == Some(value_of(objs, fns, v)),
{
    let c = choose|f: nat| #[trigger] eval(objs, fns, v, f) is Some;
    if c <= fuel {
        lemma_eval_fuel(objs, fns, v, c, fuel);
    } else {
        lemma_eval_fuel(objs, fns, v, fuel, c);
    }
}

/// Every prefix of a list of arguments that resolves resolves too, and so
/// does each argument.
pub proof fn lemma_eval_args_parts(
    objs: Map<Seq<char>, ObjectProxyView>,
    fns: Map<Seq<char>, FnView>,
    args: Seq<ValueView>,
    fuel: nat,
)
    requires
        eval_args(objs, fns, args, fuel) is Some,
    ensures
        eval_args(objs, fns, args, fuel).unwrap().len() == args.len(),
        forall|i: int|
            0 <= i < args.len() ==> #[trigger] eval(objs, fns, args[i], fuel) == Some(
                eval_args(objs, fns, args, fuel).unwrap()[i],
            ),
    decreases args.len(),
{
    if args.len() > 0 {
        let init = args.drop_last();
        lemma_eval_args_parts(objs, fns, init, fuel);
        assert forall|i: int| 0 <= i < args.len() implies #[trigger] eval(objs, fns, args[i], fuel)
            == Some(eval_args(objs, fns, args, fuel).unwrap()[i]) by {
            if i < args.len() - 1 {
                assert(args[i] == init[i]);
            }
        }
    }
}

/// Every name that the first pass maps goes to a registered tag.
pub proof fn lemma_tag_pass_registered(
    structs: Map<Seq<char>, Map<Seq<char>, Seq<char>>>,
    objs: Seq<ObjectView>,
)
    ensures
        forall|k: Seq<char>| #[trigger]
            tag_pass(structs, objs).0.dom().contains(k) ==> structs.dom().contains(
                tag_pass(structs, objs).0[k],
            ),
    decreases objs.len(),
{
    if objs.len() > 0 {
        let init = objs.drop_last();
        lemma_tag_pass_registered(structs, init);
        let prev = tag_pass(structs, init).0;
        let o = objs.last();
        assert forall|k: Seq<char>| #[trigger]
            tag_pass(structs, objs).0.dom().contains(k) implies structs.dom().contains(
                tag_pass(structs, objs).0[k],
            ) by {
            if k != o.name.value || !structs.dom().contains(o.tag.value) || prev.dom().contains(
                o.name.value,
            ) {
                assert(prev.dom().contains(k));
            }
        }
    }
}

/// Every object of `objects` is loaded under a registered tag, sets exactly
/// the fields that tag's structure declares, and holds string literals only
/// in fields declared `String`.
pub open spec fn conforms(
    objects: Map<Seq<char>, ObjectProxyView>,
    structs: Map<Seq<char>, Map<Seq<char>, Seq<char>>>,
) -> bool {
    forall|k: Seq<char>| #[trigger]
        objects.dom().contains(k) ==> fields_conform(objects[k].fields, structs, objects[k].tag)
}

/// The fields are those declared by the structure of `tag`, and string
/// literals stand only in fields declared `String`.
pub open spec fn fields_conform(
    fields: Map<Seq<char>, ValueView>,
    structs: Map<Seq<char>, Map<Seq<char>, Seq<char>>>,
    tag: Seq<char>,
) -> bool {
    &&& structs.dom().contains(tag)
    &&& forall|f: Seq<char>| #[trigger]
        fields.dom().contains(f) ==> structs[tag].dom().contains(f) && (fields[f].value is Str
            ==> structs[tag][f] == string_type())
    &&& forall|f: Seq<char>| #[trigger] structs[tag].dom().contains(f) ==> fields.dom().contains(f)
}

proof fn lemma_check_fields_conform(
    fns: Map<Seq<char>, FnView>,
    structs: Map<Seq<char>, Map<Seq<char>, Seq<char>>>,
    tm: Map<Seq<char>, Seq<char>>,
    ft: Map<Seq<char>, Seq<char>>,
    data: Seq<(IdentView, ValueView)>,
    i: int,
)
    requires
        0 <= i <= data.len(),
        check_fields(fns, structs, tm, ft, data, i).0,
    ensures
        forall|j: int|
            i <= j < data.len() ==> ft.dom().contains(#[trigger] data[j].0.value) && (
            data[j].1.value is Str ==> ft[data[j].0.value] == string_type()),
    decreases data.len() - i,
{
    if i < data.len() {
        lemma_check_fields_conform(fns, structs, tm, ft, data, i + 1);
    }
}

proof fn lemma_data_map_from(d: Seq<(IdentView, ValueView)>)
    ensures
        forall|k: Seq<char>| #[trigger]
            data_map(d).dom().contains(k) ==> exists|j: int|
                0 <= j < d.len() && #[trigger] d[j] == (d[j].0, data_map(d)[k]) && d[j].0.value == k,
    decreases d.len(),
{
    if d.len() > 0 {
        let init = d.drop_last();
        lemma_data_map_from(init);
        assert forall|k: Seq<char>| #[trigger] data_map(d).dom().contains(k) implies exists|j: int|
            0 <= j < d.len() && #[trigger] d[j] == (d[j].0, data_map(d)[k]) && d[j].0.value == k by {
            if k == d.last().0.value {
                assert(d[d.len() - 1] == (d[d.len() - 1].0, data_map(d)[k]));
            } else {
                let j = choose|j: int|
                    0 <= j < init.len() && #[trigger] init[j] == (init[j].0, data_map(init)[k])
                        && init[j].0.value == k;
                assert(d[j] == init[j]);
            }
        }
    }
}

/// Loading keeps every object loaded under a registered tag, setting exactly
/// the declared fields, with string literals only in `String` fields.
pub proof fn lemma_load_conforms(
    objects: Map<Seq<char>, ObjectProxyView>,
    fns: Map<Seq<char>, FnView>,
    structs: Map<Seq<char>, Map<Seq<char>, Seq<char>>>,
    parsed: Seq<ObjectView>,
)
    requires
        conforms(objects, structs),
    ensures
        conforms(load_spec(objects, fns, structs, parsed).0, structs),
{
    let tm = tag_pass(structs, parsed).0;
    lemma_tag_pass_registered(structs, parsed);
    lemma_load_pass_conforms(fns, structs, tm, parsed, objects);
}

/// The second pass keeps every object conforming to its structure.
pub proof fn lemma_load_pass_conforms(
    fns: Map<Seq<char>, FnView>,
    structs: Map<Seq<char>, Map<Seq<char>, Seq<char>>>,
    tm: Map<Seq<char>, Seq<char>>,
    objs: Seq<ObjectView>,
    init: Map<Seq<char>, ObjectProxyView>,
)
    requires
        conforms(init, structs),
        forall|k: Seq<char>| #[trigger] tm.dom().contains(k) ==> structs.dom().contains(tm[k]),
    ensures
        conforms(load_pass(fns, structs, tm, objs, init).0, structs),
    decreases objs.len(),
{
    if objs.len() > 0 {
        let prev = objs.drop_last();
        lemma_load_pass_conforms(fns, structs, tm, prev, init);
        let m = load_pass(fns, structs, tm, prev, init).0;
        let o = objs.last();
        if tm.dom().contains(o.name.value) {
            let tag = tm[o.name.value];
            if check_fields(fns, structs, tm, structs[tag], o.data, 0).0 {
                lemma_check_fields_conform(fns, structs, tm, structs[tag], o.data, 0);
                lemma_data_map_from(o.data);
                let fields = data_map(o.data);
                assert forall|f: Seq<char>| #[trigger] fields.dom().contains(f) implies structs[tag].dom().contains(f)
                    && (fields[f].value is Str ==> structs[tag][f] == string_type()) by {
                    let j = choose|j: int|
                        0 <= j < o.data.len() && #[trigger] o.data[j] == (o.data[j].0, data_map(
                            o.data,
                        )[f]) && o.data[j].0.value == f;
                    assert(structs[tag].dom().contains(o.data[j].0.value));
                }
                let r = load_pass(fns, structs, tm, objs, init).0;
                assert forall|k: Seq<char>| #[trigger] r.dom().contains(k) implies fields_conform(
                    r[k].fields,
                    structs,
                    r[k].tag,
                ) by {
                    if k != o.name.value {
                        assert(m.dom().contains(k));
                    }
                }
            }
        }
    }
}

/// Loading removes no object, and leaves alone each object whose name no
/// object of the source has.
pub proof fn lemma_load_keeps_others(
    objects: Map<Seq<char>, ObjectProxyView>,
    fns: Map<Seq<char>, FnView>,
    structs: Map<Seq<char>, Map<Seq<char>, Seq<char>>>,
    parsed: Seq<ObjectView>,
)
    ensures
        forall|k: Seq<char>| #[trigger]
            objects.dom().contains(k) ==> load_spec(objects, fns, structs, parsed).0.dom().contains(k),
        forall|k: Seq<char>|
            objects.dom().contains(k) && (forall|i: int|
                0 <= i < parsed.len() ==> #[trigger] parsed[i].name.value != k) ==> #[trigger] load_spec(
                objects,
                fns,
                structs,
                parsed,
            ).0[k] == objects[k],
{
    let tm = tag_pass(structs, parsed).0;
    lemma_load_pass_keeps(fns, structs, tm, parsed, objects);
}

proof fn lemma_load_pass_keeps(
    fns: Map<Seq<char>, FnView>,
    structs: Map<Seq<char>, Map<Seq<char>, Seq<char>>>,
    tm: Map<Seq<char>, Seq<char>>,
    objs: Seq<ObjectView>,
    init: Map<Seq<char>, ObjectProxyView>,
)
    ensures
        forall|k: Seq<char>| #[trigger]
            init.dom().contains(k) ==> load_pass(fns, structs, tm, objs, init).0.dom().contains(k),
        forall|k: Seq<char>|
            init.dom().contains(k) && (forall|i: int|
                0 <= i < objs.len() ==> #[trigger] objs[i].name.value != k) ==> #[trigger] load_pass(
                fns,
                structs,
                tm,
                objs,
                init,
            ).0[k] == init[k],
    decreases objs.len(),
{
    if objs.len() > 0 {
        let prev = objs.drop_last();
        lemma_load_pass_keeps(fns, structs, tm, prev, init);
        assert forall|k: Seq<char>|
            init.dom().contains(k) && (forall|i: int|
                0 <= i < objs.len() ==> #[trigger] objs[i].name.value != k) implies #[trigger] load_pass(
                fns,
                structs,
                tm,
                objs,
                init,
            ).0[k] == init[k] by {
            assert(objs[objs.len() - 1].name.value != k);
            assert forall|i: int| 0 <= i < prev.len() implies #[trigger] prev[i].name.value != k by {
                assert(prev[i] == objs[i]);
            }
        }
    }
}

/// Every object held after loading was held before or is an object of the source.
pub proof fn lemma_load_from_source(
    objects: Map<Seq<char>, ObjectProxyView>,
    fns: Map<Seq<char>, FnView>,
    structs: Map<Seq<char>, Map<Seq<char>, Seq<char>>>,
    parsed: Seq<ObjectView>,
)
    ensures
        forall|k: Seq<char>| #[trigger]
            load_spec(objects, fns, structs, parsed).0.dom().contains(k) ==> objects.dom().contains(k)
                || exists|i: int| 0 <= i < parsed.len() && #[trigger] parsed[i].name.value == k,
{
    let tm = tag_pass(structs, parsed).0;
    lemma_load_pass_from(fns, structs, tm, parsed, objects);
}

proof fn lemma_load_pass_from(
    fns: Map<Seq<char>, FnView>,
    structs: Map<Seq<char>, Map<Seq<char>, Seq<char>>>,
    tm: Map<Seq<char>, Seq<char>>,
    objs: Seq<ObjectView>,
    init: Map<Seq<char>, ObjectProxyView>,
)
    ensures
        forall|k: Seq<char>| #[trigger]
            load_pass(fns, structs, tm, objs, init).0.dom().contains(k) ==> init.dom().contains(k)
                || exists|i: int| 0 <= i < objs.len() && #[trigger] objs[i].name.value == k,
    decreases objs.len(),
{
    if objs.len() > 0 {
        let prev = objs.drop_last();
        lemma_load_pass_from(fns, structs, tm, prev, init);
        assert forall|k: Seq<char>| #[trigger]
            load_pass(fns, structs, tm, objs, init).0.dom().contains(k) implies init.dom().contains(k)
            || exists|i: int| 0 <= i < objs.len() && #[trigger] objs[i].name.value == k by {
            if k == objs.last().name.value {
                assert(objs[objs.len() - 1].name.value == k);
            } else if !init.dom().contains(k) {
                assert(load_pass(fns, structs, tm, prev, init).0.dom().contains(k));
                let i = choose|i: int| 0 <= i < prev.len() && #[trigger] prev[i].name.value == k;
                assert(objs[i] == prev[i]);
            }
        }
    }
}

/// A query of a field of a loaded object resolves exactly when the field
/// does, and to the same text.
pub proof fn lemma_query_resolves(
    objs: Map<Seq<char>, ObjectProxyView>,
    fns: Map<Seq<char>, FnView>,
    v: ValueView,
)
    requires
        v.value is Query,
        v.value->Query_0.len() == 2,
        objs.dom().contains(v.value->Query_0[0]),
        objs[v.value->Query_0[0]].fields.dom().contains(v.value->Query_0[1]),
    ensures
        ({
            let target = objs[v.value->Query_0[0]].fields[v.value->Query_0[1]];
            &&& evaluable(objs, fns, v) <==> evaluable(objs, fns, target)
            &&& evaluable(objs, fns, v) ==> value_of(objs, fns, v) == value_of(objs, fns, target)
        }),
{
    let path = v.value->Query_0;
    let target = objs[path[0]].fields[path[1]];
    if evaluable(objs, fns, v) {
        let f = choose|fuel: nat| #[trigger] eval(objs, fns, v, fuel) is Some;
        lemma_value_of(objs, fns, v, f);
        lemma_value_of(objs, fns, target, (f - 1) as nat);
    }
    if evaluable(objs, fns, target) {
        let f = choose|fuel: nat| #[trigger] eval(objs, fns, target, fuel) is Some;
        assert(eval(objs, fns, v, f + 1) == eval(objs, fns, target, f));
    }
}

/// A string literal resolves to its own text.
pub proof fn lemma_literal_resolves(
    objs: Map<Seq<char>, ObjectProxyView>,
    fns: Map<Seq<char>, FnView>,
    v: ValueView,
)
    requires
        v.value is Str,
    ensures
        evaluable(objs, fns, v),
        value_of(objs, fns, v) == v.value->Str_0,
{
    lemma_value_of(objs, fns, v, 0);
}

/// The least fuel with which each of `args` resolves, where they all do.
pub open spec fn args_fuel(
    objs: Map<Seq<char>, ObjectProxyView>,
    fns: Map<Seq<char>, FnView>,
    args: Seq<ValueView>,
) -> nat
    decreases args.len(),
{
    if args.len() == 0 {
        0
    } else {
        let a = args_fuel(objs, fns, args.drop_last());
        let b = choose|fuel: nat| #[trigger] eval(objs, fns, args.last(), fuel) is Some;
        if a < b {
            b
        } else {
            a
        }
    }
}

proof fn lemma_args_fuel(
    objs: Map<Seq<char>, ObjectProxyView>,
    fns: Map<Seq<char>, FnView>,
    args: Seq<ValueView>,
)
    requires
        forall|i: int| 0 <= i < args.len() ==> evaluable(objs, fns, #[trigger] args[i]),
    ensures
        eval_args(objs, fns, args, args_fuel(objs, fns, args)) == Some(
            Seq::new(args.len(), |i: int| value_of(objs, fns, args[i])),
        ),
    decreases args.len(),
{
    if args.len() > 0 {
        let init = args.drop_last();
        assert forall|i: int| 0 <= i < init.len() implies evaluable(objs, fns, #[trigger] init[i]) by {
            assert(init[i] == args[i]);
        }
        lemma_args_fuel(objs, fns, init);
        let a = args_fuel(objs, fns, init);
        let last = args.last();
        assert(evaluable(objs, fns, args[args.len() - 1]));
        let b = choose|fuel: nat| #[trigger] eval(objs, fns, last, fuel) is Some;
        let m = args_fuel(objs, fns, args);
        lemma_eval_args_fuel(objs, fns, init, a, m);
        lemma_value_of(objs, fns, last, b);
        lemma_eval_fuel(objs, fns, last, b, m);
        assert(Seq::new(init.len(), |i: int| value_of(objs, fns, init[i])).push(value_of(objs, fns, last))
            =~= Seq::new(args.len(), |i: int| value_of(objs, fns, args[i])));
    }
}

/// A call of a registered function resolves exactly when its arguments
/// resolve, and then to the function's result on their texts.
pub proof fn lemma_call_resolves(
    objs: Map<Seq<char>, ObjectProxyView>,
    fns: Map<Seq<char>, FnView>,
    v: ValueView,
)
    requires
        v.value is Invoke,
        fns.dom().contains(v.value->Invoke_0),
    ensures
        ({
            let f = fns[v.value->Invoke_0];
            let args = v.value->Invoke_1;
            let vals = Seq::new(args.len(), |i: int| value_of(objs, fns, args[i]));
            &&& evaluable(objs, fns, v) <==> (forall|i: int|
                0 <= i < args.len() ==> evaluable(objs, fns, #[trigger] args[i]))
            &&& evaluable(objs, fns, v) ==> value_of(objs, fns, v) == (f.result)(vals)
        }),
{
    let f = fns[v.value->Invoke_0];
    let args = v.value->Invoke_1;
    let vals = Seq::new(args.len(), |i: int| value_of(objs, fns, args[i]));
    if evaluable(objs, fns, v) {
        let fuel = choose|fuel: nat| #[trigger] eval(objs, fns, v, fuel) is Some;
        lemma_value_of(objs, fns, v, fuel);
        lemma_eval_args_parts(objs, fns, args, fuel);
        let rs = eval_args(objs, fns, args, fuel).unwrap();
        assert forall|i: int| 0 <= i < args.len() implies evaluable(objs, fns, #[trigger] args[i]) by {
            lemma_value_of(objs, fns, args[i], fuel);
        }
        assert forall|i: int| 0 <= i < args.len() implies #[trigger] rs[i] == vals[i] by {
            lemma_value_of(objs, fns, args[i], fuel);
        }
        assert(rs =~= vals);
    }
    if forall|i: int| 0 <= i < args.len() ==> evaluable(objs, fns, #[trigger] args[i]) {
        lemma_args_fuel(objs, fns, args);
        let fuel = args_fuel(objs, fns, args);
        assert(eval(objs, fns, v, fuel) is Some);
    }
}

/// The fields of the objects, as pairs of object name and field name.
pub open spec fn field_pairs(objs: Map<Seq<char>, ObjectProxyView>) -> Set<(Seq<char>, Seq<char>)> {
    Set::new(
        |p: (Seq<char>, Seq<char>)| objs.dom().contains(p.0) && objs[p.0].fields.dom().contains(p.1),
    )
}

/// `m` is the least fuel with which `v` resolves.
spec fn least_fuel(
    objs: Map<Seq<char>, ObjectProxyView>,
    fns: Map<Seq<char>, FnView>,
    v: ValueView,
    m: nat,
) -> bool {
    &&& eval(objs, fns, v, m) is Some
    &&& (m == 0 || eval(objs, fns, v, (m - 1) as nat) is None)
}

proof fn lemma_eval_args_none(
    objs: Map<Seq<char>, ObjectProxyView>,
    fns: Map<Seq<char>, FnView>,
    args: Seq<ValueView>,
    fuel: nat,
)
    requires
        eval_args(objs, fns, args, fuel) is None,
    ensures
        exists|i: int| 0 <= i < args.len() && #[trigger] eval(objs, fns, args[i], fuel) is None,
    decreases args.len(),
{
    let init = args.drop_last();
    if eval_args(objs, fns, init, fuel) is None {
        lemma_eval_args_none(objs, fns, init, fuel);
        let i = choose|i: int| 0 <= i < init.len() && #[trigger] eval(objs, fns, init[i], fuel) is None;
        assert(args[i] == init[i]);
    } else {
        assert(eval(objs, fns, args[args.len() - 1], fuel) is None);
    }
}

/// A value whose least fuel is `m > 0` follows a query to a field whose
/// least fuel is `m - 1`.
proof fn lemma_least_fuel_step(
    objs: Map<Seq<char>, ObjectProxyView>,
    fns: Map<Seq<char>, FnView>,
    v: ValueView,
    m: nat,
)
    requires
        least_fuel(objs, fns, v, m),
        m >= 1,
    ensures
        exists|p: (Seq<char>, Seq<char>)| #[trigger]
            field_pairs(objs).contains(p) && least_fuel(objs, fns, objs[p.0].fields[p.1], (m - 1) as nat),
    decreases v,
{
    match v.value {
        ValueKind::Str(_) => {},
        ValueKind::Query(path) => {
            let p = (path[0], path[1]);
            assert(field_pairs(objs).contains(p));
            assert(least_fuel(objs, fns, objs[p.0].fields[p.1], (m - 1) as nat));
        },
        ValueKind::Invoke(f, args) => {
            lemma_eval_args_parts(objs, fns, args, m);
            lemma_eval_args_none(objs, fns, args, (m - 1) as nat);
            let i = choose|i: int| 0 <= i < args.len() && #[trigger] eval(objs, fns, args[i], (m - 1) as nat) is None;
            assert(eval(objs, fns, args[i], m) is Some);
            lemma_least_fuel_step(objs, fns, args[i], m);
        },
    }
}

/// Some field has least fuel `k`.
spec fn some_field_needs(
    objs: Map<Seq<char>, ObjectProxyView>,
    fns: Map<Seq<char>, FnView>,
    k: nat,
) -> bool {
    exists|p: (Seq<char>, Seq<char>)| #[trigger]
        field_pairs(objs).contains(p) && least_fuel(objs, fns, objs[p.0].fields[p.1], k)
}

/// Below the least fuel of a value, each fuel is the least fuel of some field.
proof fn lemma_least_fuel_chain(
    objs: Map<Seq<char>, ObjectProxyView>,
    fns: Map<Seq<char>, FnView>,
    v: ValueView,
    m: nat,
)
    requires
        least_fuel(objs, fns, v, m),
    ensures
        forall|k: nat| k < m ==> #[trigger] some_field_needs(objs, fns, k),
    decreases m,
{
    if m >= 1 {
        lemma_least_fuel_step(objs, fns, v, m);
        let p = choose|p: (Seq<char>, Seq<char>)| #[trigger]
            field_pairs(objs).contains(p) && least_fuel(objs, fns, objs[p.0].fields[p.1], (m - 1) as nat);
        lemma_least_fuel_chain(objs, fns, objs[p.0].fields[p.1], (m - 1) as nat);
        assert(some_field_needs(objs, fns, (m - 1) as nat));
    }
}

proof fn lemma_least_fuel_unique(
    objs: Map<Seq<char>, ObjectProxyView>,
    fns: Map<Seq<char>, FnView>,
    v: ValueView,
    k1: nat,
    k2: nat,
)
    requires
        least_fuel(objs, fns, v, k1),
        least_fuel(objs, fns, v, k2),
    ensures
        k1 == k2,
{
    if k1 < k2 {
        lemma_eval_fuel(objs, fns, v, k1, (k2 - 1) as nat);
    } else if k2 < k1 {
        lemma_eval_fuel(objs, fns, v, k2, (k1 - 1) as nat);
    }
}

proof fn lemma_least_fuel_exists(
    objs: Map<Seq<char>, ObjectProxyView>,
    fns: Map<Seq<char>, FnView>,
    v: ValueView,
    f: nat,
) -> (m: nat)
    requires
        eval(objs, fns, v, f) is Some,
    ensures
        m <= f,
        least_fuel(objs, fns, v, m),
    decreases f,
{
    if f > 0 && eval(objs, fns, v, (f - 1) as nat) is Some {
        lemma_least_fuel_exists(objs, fns, v, (f - 1) as nat)
    } else {
        f
    }
}

/// A value that resolves at all resolves following at most as many
/// queries in a row as there are fields: a query chain that does not end
/// within that many steps goes round in a circle and never ends.
pub proof fn lemma_resolves_within_field_count(
    objs: Map<Seq<char>, ObjectProxyView>,
    fns: Map<Seq<char>, FnView>,
    v: ValueView,
)
    requires
        field_pairs(objs).finite(),
        evaluable(objs, fns, v),
    ensures
        eval(objs, fns, v, field_pairs(objs).len()) is Some,
{
    let pairs = field_pairs(objs);
    let f = choose|fuel: nat| #[trigger] eval(objs, fns, v, fuel) is Some;
    let m = lemma_least_fuel_exists(objs, fns, v, f);
    lemma_least_fuel_chain(objs, fns, v, m);
    let ks = vstd::set_lib::set_int_range(0, m as int);
    let pick = |k: int|
        choose|p: (Seq<char>, Seq<char>)| #[trigger]
            field_pairs(objs).contains(p) && least_fuel(objs, fns, objs[p.0].fields[p.1], k as nat);
    assert forall|k: int| #[trigger] ks.contains(k) implies pairs.contains(pick(k)) && least_fuel(
        objs,
        fns,
        objs[pick(k).0].fields[pick(k).1],
        k as nat,
    ) by {
        assert((k as nat) < m);
        assert(some_field_needs(objs, fns, k as nat));
    }
    assert forall|k1: int, k2: int|
        ks.contains(k1) && ks.contains(k2) && #[trigger] pick(k1) == #[trigger] pick(k2) implies k1
        == k2 by {
        let p = pick(k1);
        lemma_least_fuel_unique(objs, fns, objs[p.0].fields[p.1], k1 as nat, k2 as nat);
    }
    vstd::set_lib::lemma_int_range(0, m as int);
    vstd::set_lib::lemma_map_size(ks, ks.map(pick), pick);
    assert(ks.map(pick).subset_of(pairs));
    vstd::set_lib::lemma_len_subset(ks.map(pick), pairs);
    lemma_eval_fuel(objs, fns, v, m, pairs.len());
}

/// The fields of those objects whose names are among `names`.
pub open spec fn pairs_among(
    objs: Map<Seq<char>, ObjectProxyView>,
    names: Seq<Seq<char>>,
) -> Set<(Seq<char>, Seq<char>)> {
    Set::new(
        |p: (Seq<char>, Seq<char>)|
            names.contains(p.0) && objs.dom().contains(p.0) && objs[p.0].fields.dom().contains(p.1),
    )
}

/// Adding the name of an object adds its fields.
pub proof fn lemma_pairs_among_push(
    objs: Map<Seq<char>, ObjectProxyView>,
    names: Seq<Seq<char>>,
    k: Seq<char>,
)
    requires
        !names.contains(k),
        objs.dom().contains(k),
        objs[k].fields.dom().finite(),
        pairs_among(objs, names).finite(),
    ensures
        pairs_among(objs, names.push(k)).finite(),
        pairs_among(objs, names.push(k)).len() == pairs_among(objs, names).len() + objs[k].fields.dom().len(),
{
    let a = pairs_among(objs, names);
    let dom = objs[k].fields.dom();
    let f = |fname: Seq<char>| (k, fname);
    let b = dom.map(f);
    assert forall|x: Seq<char>, y: Seq<char>|
        dom.contains(x) && dom.contains(y) && #[trigger] f(x) == #[trigger] f(y) implies x == y by {
        assert(f(x).1 == x && f(y).1 == y);
    }
    vstd::set_lib::lemma_map_size(dom, b, f);
    assert forall|p: (Seq<char>, Seq<char>)| #[trigger]
        pairs_among(objs, names.push(k)).contains(p) <==> (a + b).contains(p) by {
        if names.push(k).contains(p.0) && p.0 != k {
            let i = choose|i: int| 0 <= i < names.push(k).len() && names.push(k)[i] == p.0;
            assert(names[i] == p.0);
        }
        if names.contains(p.0) {
            let i = choose|i: int| 0 <= i < names.len() && names[i] == p.0;
            assert(names.push(k)[i] == p.0);
        }
        if p.0 == k {
            assert(names.push(k)[names.len() as int] == k);
            if dom.contains(p.1) {
                assert(f(p.1) == p);
            }
        }
    }
    assert(pairs_among(objs, names.push(k)) =~= a + b);
    assert(a.disjoint(b));
    vstd::set_lib::lemma_set_disjoint_lens(a, b);
}

/// A field name is set in an object's data exactly when the parser's field
/// lookup finds it.
pub proof fn lemma_data_map_key_index(d: Seq<(IdentView, ValueView)>, k: Seq<char>)
    ensures
        data_map(d).dom().contains(k) <==> key_index(d, k) >= 0,
    decreases d.len(),
{
    if d.len() > 0 {
        lemma_data_map_key_index(d.drop_last(), k);
    }
}

/// A value that passes its check reports no problem.
pub proof fn lemma_check_pass_silent(
    fns: Map<Seq<char>, FnView>,
    structs: Map<Seq<char>, Map<Seq<char>, Seq<char>>>,
    tm: Map<Seq<char>, Seq<char>>,
    t: Seq<char>,
    v: ValueView,
)
    ensures
        check_value(fns, structs, tm, t, v).0 ==> check_value(fns, structs, tm, t, v).1 == Seq::<IssueView>::empty(),
    decreases v, 0int,
{
    if let ValueKind::Invoke(name, args) = v.value {
        if fns.dom().contains(name) && fns[name].ret == t && fns[name].params.len() == args.len() {
            lemma_check_args_parts(fns, structs, tm, v.line, v.col, name, fns[name].params, args, 0);
        }
    }
}

/// The arguments from position `i` on pass exactly when each of them passes
/// its check against the parameter type at its position; then nothing is
/// reported, and otherwise the report is that of the first argument that
/// fails, followed by a report naming its position.
proof fn lemma_check_args_parts(
    fns: Map<Seq<char>, FnView>,
    structs: Map<Seq<char>, Map<Seq<char>, Seq<char>>>,
    tm: Map<Seq<char>, Seq<char>>,
    line: nat,
    col: nat,
    name: Seq<char>,
    params: Seq<Seq<char>>,
    args: Seq<ValueView>,
    i: int,
)
    requires
        0 <= i <= args.len(),
        params.len() == args.len(),
    ensures
        check_args(fns, structs, tm, line, col, name, params, args, i).0 <==> forall|j: int|
            i <= j < args.len() ==> #[trigger] check_value(fns, structs, tm, params[j], args[j]).0,
        check_args(fns, structs, tm, line, col, name, params, args, i).0 ==> check_args(
            fns,
            structs,
            tm,
            line,
            col,
            name,
            params,
            args,
            i,
        ).1 == Seq::<IssueView>::empty(),
        forall|k: int|
            i <= k < args.len() && !(#[trigger] check_value(fns, structs, tm, params[k], args[k]).0)
                && (forall|j: int| i <= j < k ==> check_value(fns, structs, tm, params[j], args[j]).0)
                ==> check_args(fns, structs, tm, line, col, name, params, args, i).1 == check_value(
                fns,
                structs,
                tm,
                params[k],
                args[k],
            ).1.push(IssueView::WrongArgument { line, col, index: k as nat, name }),
    decreases args, args.len() - i,
{
    if i < args.len() {
        lemma_check_pass_silent(fns, structs, tm, params[i], args[i]);
        lemma_check_args_parts(fns, structs, tm, line, col, name, params, args, i + 1);
        let cv = check_value(fns, structs, tm, params[i], args[i]);
        if cv.0 {
            let rest = check_args(fns, structs, tm, line, col, name, params, args, i + 1);
            assert(cv.1 + rest.1 =~= rest.1);
            assert forall|k: int|
                i <= k < args.len() && !(#[trigger] check_value(fns, structs, tm, params[k], args[k]).0)
                    && (forall|j: int| i <= j < k ==> check_value(fns, structs, tm, params[j], args[j]).0)
                implies check_args(fns, structs, tm, line, col, name, params, args, i).1 == check_value(
                fns,
                structs,
                tm,
                params[k],
                args[k],
            ).1.push(IssueView::WrongArgument { line, col, index: k as nat, name }) by {
                assert(k != i);
                assert forall|j: int| i + 1 <= j < k implies check_value(fns, structs, tm, params[j], args[j]).0 by {
                    assert(i <= j < k);
                }
            }
        } else {
            assert forall|k: int|
                i <= k < args.len() && !(#[trigger] check_value(fns, structs, tm, params[k], args[k]).0)
                    && (forall|j: int| i <= j < k ==> check_value(fns, structs, tm, params[j], args[j]).0)
                implies k == i by {
                if k > i {
                    assert(check_value(fns, structs, tm, params[i], args[i]).0);
                }
            }
        }
    }
}

/// A call passes its check where type `t` is declared exactly when its
/// function is registered, returns `t`, takes as many arguments as are
/// given, and each argument passes its check against the parameter type at
/// its position. A call that gets through the first three tests with the
/// wrong number of arguments reports just that; one with an argument that
/// fails reports what the first such argument reports, then its position;
/// one that passes reports nothing.
pub proof fn lemma_check_call(
    fns: Map<Seq<char>, FnView>,
    structs: Map<Seq<char>, Map<Seq<char>, Seq<char>>>,
    tm: Map<Seq<char>, Seq<char>>,
    t: Seq<char>,
    v: ValueView,
    name: Seq<char>,
    args: Seq<ValueView>,
)
    requires
        v.value == ValueKind::Invoke(name, args),
    ensures
        check_value(fns, structs, tm, t, v).0 <==> {
            &&& fns.dom().contains(name)
            &&& fns[name].ret == t
            &&& fns[name].params.len() == args.len()
            &&& forall|i: int|
                0 <= i < args.len() ==> #[trigger] check_value(fns, structs, tm, fns[name].params[i], args[i]).0
        },
        check_value(fns, structs, tm, t, v).0 ==> check_value(fns, structs, tm, t, v).1 == Seq::<IssueView>::empty(),
        fns.dom().contains(name) && fns[name].ret == t && fns[name].params.len() != args.len()
            ==> check_value(fns, structs, tm, t, v).1 == seq![
            IssueView::WrongArgCount {
                line: v.line,
                col: v.col,
                name,
                expected: fns[name].params.len(),
                given: args.len(),
            },
        ],
        forall|k: int|
            fns.dom().contains(name) && fns[name].ret == t && fns[name].params.len() == args.len()
                && 0 <= k < args.len()
                && !(#[trigger] check_value(fns, structs, tm, fns[name].params[k], args[k]).0)
                && (forall|j: int| 0 <= j < k ==> check_value(fns, structs, tm, fns[name].params[j], args[j]).0)
                ==> check_value(fns, structs, tm, t, v).1 == check_value(
                fns,
                structs,
                tm,
                fns[name].params[k],
                args[k],
            ).1.push(IssueView::WrongArgument { line: v.line, col: v.col, index: k as nat, name }),
{
    lemma_check_pass_silent(fns, structs, tm, t, v);
    if fns.dom().contains(name) && fns[name].ret == t && fns[name].params.len() == args.len() {
        lemma_check_args_parts(fns, structs, tm, v.line, v.col, name, fns[name].params, args, 0);
    }
}

/// Every call in `v`, at every depth, names a registered function and
/// gives it as many arguments as it takes.
pub open spec fn calls_agree(fns: Map<Seq<char>, FnView>, v: ValueView) -> bool
    decreases v,
{
    match v.value {
        ValueKind::Invoke(f, args) => fns.dom().contains(f) && fns[f].params.len() == args.len()
            && forall|i: int| 0 <= i < args.len() ==> calls_agree(fns, #[trigger] args[i]),
        _ => true,
    }
}

/// Every field value of every object of `objects` has only calls that agree
/// with the registered functions.
pub open spec fn objects_calls_agree(
    objects: Map<Seq<char>, ObjectProxyView>,
    fns: Map<Seq<char>, FnView>,
) -> bool {
    forall|k: Seq<char>, f: Seq<char>|
        #![trigger objects[k].fields[f]]
        objects.dom().contains(k) && objects[k].fields.dom().contains(f) ==> calls_agree(
            fns,
            objects[k].fields[f],
        )
}

/// A value that passes its check has only calls that agree with the
/// registered functions.
pub proof fn lemma_check_calls_agree(
    fns: Map<Seq<char>, FnView>,
    structs: Map<Seq<char>, Map<Seq<char>, Seq<char>>>,
    tm: Map<Seq<char>, Seq<char>>,
    t: Seq<char>,
    v: ValueView,
)
    requires
        check_value(fns, structs, tm, t, v).0,
    ensures
        calls_agree(fns, v),
    decreases v,
{
    if let ValueKind::Invoke(name, args) = v.value {
        lemma_check_call(fns, structs, tm, t, v, name, args);
        assert forall|i: int| 0 <= i < args.len() implies calls_agree(fns, #[trigger] args[i]) by {
            lemma_check_calls_agree(fns, structs, tm, fns[name].params[i], args[i]);
        }
    }
}

proof fn lemma_check_fields_calls_agree(
    fns: Map<Seq<char>, FnView>,
    structs: Map<Seq<char>, Map<Seq<char>, Seq<char>>>,
    tm: Map<Seq<char>, Seq<char>>,
    ft: Map<Seq<char>, Seq<char>>,
    data: Seq<(IdentView, ValueView)>,
    i: int,
)
    requires
        0 <= i <= data.len(),
        check_fields(fns, structs, tm, ft, data, i).0,
    ensures
        forall|j: int| i <= j < data.len() ==> calls_agree(fns, #[trigger] data[j].1),
    decreases data.len() - i,
{
    if i < data.len() {
        lemma_check_fields_calls_agree(fns, structs, tm, ft, data, i + 1);
        lemma_check_calls_agree(fns, structs, tm, ft[data[i].0.value], data[i].1);
    }
}

/// Loading keeps only objects whose calls, at every depth, name registered
/// functions and give them as many arguments as they take: where the
/// objects held before agree, so do those held after.
pub proof fn lemma_load_calls_agree(
    objects: Map<Seq<char>, ObjectProxyView>,
    fns: Map<Seq<char>, FnView>,
    structs: Map<Seq<char>, Map<Seq<char>, Seq<char>>>,
    parsed: Seq<ObjectView>,
)
    requires
        objects_calls_agree(objects, fns),
    ensures
        objects_calls_agree(load_spec(objects, fns, structs, parsed).0, fns),
{
    let tm = tag_pass(structs, parsed).0;
    lemma_load_pass_calls_agree(fns, structs, tm, parsed, objects);
}

proof fn lemma_load_pass_calls_agree(
    fns: Map<Seq<char>, FnView>,
    structs: Map<Seq<char>, Map<Seq<char>, Seq<char>>>,
    tm: Map<Seq<char>, Seq<char>>,
    objs: Seq<ObjectView>,
    init: Map<Seq<char>, ObjectProxyView>,
)
    requires
        objects_calls_agree(init, fns),
    ensures
        objects_calls_agree(load_pass(fns, structs, tm, objs, init).0, fns),
    decreases objs.len(),
{
    if objs.len() > 0 {
        let prev = objs.drop_last();
        lemma_load_pass_calls_agree(fns, structs, tm, prev, init);
        let m = load_pass(fns, structs, tm, prev, init).0;
        let o = objs.last();
        if tm.dom().contains(o.name.value) {
            let tag = tm[o.name.value];
            if check_fields(fns, structs, tm, structs[tag], o.data, 0).0 {
                lemma_check_fields_calls_agree(fns, structs, tm, structs[tag], o.data, 0);
                lemma_data_map_from(o.data);
                let r = load_pass(fns, structs, tm, objs, init).0;
                assert forall|k: Seq<char>, f: Seq<char>|
                    r.dom().contains(k) && r[k].fields.dom().contains(f) implies calls_agree(
                    fns,
                    #[trigger] r[k].fields[f],
                ) by {
                    if k != o.name.value {
                        assert(m.dom().contains(k));
                        assert(r[k] == m[k]);
                        assert(calls_agree(fns, m[k].fields[f]));
                    } else if declares_all(o.data, structs[tag]) {
                        let j = choose|j: int|
                            0 <= j < o.data.len() && #[trigger] o.data[j] == (o.data[j].0, data_map(
                                o.data,
                            )[f]) && o.data[j].0.value == f;
                        assert(calls_agree(fns, o.data[j].1));
                    } else {
                        assert(m.dom().contains(k));
                        assert(calls_agree(fns, m[k].fields[f]));
                    }
                }
            }
        }
    }
}

} // verus!
