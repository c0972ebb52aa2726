//! The engine: registered structures and functions, loaded objects, and the
//! resolution of object fields.
//!
//! What loading and resolving mean is stated in [`crate::semantics`].

use vstd::prelude::*;
use crate::lex::Lexer;
use crate::parser::{
    objects_view, parse, parse_source, str_eq, strings_view, try_parse, Object, Value, ValueKind,
    ValueVariant, ValueView,
};
use crate::registry::NameMap;
use crate::semantics::{
    calls_known, declares_all, lemma_data_map_key_index, check_args, check_fields, check_value, conforms, data_map, eval, eval_args,
    evaluable, field_pairs, fields_evaluable, lemma_eval_args_parts, lemma_load_pass_conforms,
    lemma_pairs_among_push, lemma_resolves_within_field_count, lemma_tag_pass_registered,
    lemma_value_of, load_pass, load_spec, pairs_among, tag_pass, value_of, FnView, IssueView,
    ObjectProxyView,
};
use crate::structure::{
    entry_string, entry_text, join, lemma_join_push, push_item, quoted, quoted_string, structure_text, Structure,
    TypeTag,
};

verus! {

/// A function that object fields can call, written `.name argument ...`.
/// Its arguments and its result are text; `sig` names their types.
pub trait Function {
    /// The name under which the function is called, as text.
    spec fn name_view() -> Seq<char> where Self: Sized;

    /// The name under which the function is called.
    fn name() -> (r: &'static str) where Self: Sized
        ensures
            r@ == Self::name_view(),
    ;

    /// The types of the arguments.
    spec fn params_view(&self) -> Seq<Seq<char>>;

    /// The type of the result.
    spec fn ret_view(&self) -> Seq<char>;

    /// The types of the arguments and the type of the result.
    fn sig(&self) -> (r: (Vec<TypeTag>, TypeTag))
        ensures
            tags_view(r.0@) == self.params_view(),
            r.1@ == self.ret_view(),
    ;

    /// The result for an argument list.
    spec fn result(&self, args: Seq<Seq<char>>) -> Seq<char>;

    /// The result for the given arguments.
    fn call(&self, args: Vec<String>) -> (r: String)
        ensures
            r@ == self.result(strings_view(args@)),
    ;
}

/// A function made into an object the engine can keep beside functions of
/// other types.
pub struct Boxed<F> {
    pub function: F,
}

/// A [`Function`] that the engine can register: it gives itself as a
/// function object with the same results and signature.
pub trait IntoFunction: Function + Sized {
    /// This function as a function object.
    fn into_function(self) -> (r: Boxed<Box<dyn Function>>)
        ensures
            forall|a: Seq<Seq<char>>| #[trigger] r.function.result(a) == self.result(a),
            r.function.params_view() == self.params_view(),
            r.function.ret_view() == self.ret_view(),
    ;
}

/// A type whose values are built from loaded objects of one tag.
pub trait StructureType: Sized {
    /// The tag of the objects this type is built from, as text.
    spec fn tag_view() -> Seq<char>;

    /// The tag of the objects this type is built from.
    fn tag() -> (r: &'static str)
        ensures
            r@ == Self::tag_view(),
    ;

    /// The type of each field such objects may declare, by field name.
    spec fn structure_view() -> Map<Seq<char>, Seq<char>>;

    /// The names of the fields such objects may declare, in the order the
    /// structure lists them.
    spec fn field_order_view() -> Seq<Seq<char>>;

    /// The fields such objects may declare.
    fn get_structure() -> (r: Structure)
        ensures
            r.field_types() == Self::structure_view(),
            r.field_order() == Self::field_order_view(),
    ;

    /// Whether `value` is the value built from the resolved field texts `values`.
    spec fn made_from(value: Self, values: Map<Seq<char>, Seq<char>>) -> bool;

    /// A value built from the resolved fields of an object.
    fn make(fields: &ResolvedObject) -> (r: Self)
        requires
            fields.wf(),
        ensures
            Self::made_from(r, fields.values()),
    ;
}

/// A field value waiting to be resolved: text, a query of another object's
/// field, or a call of a function on further such values.
#[derive(Debug)]
pub struct Proxy {
    pub line: usize,
    pub col: usize,
    pub value: ProxyValue,
}

#[derive(Debug)]
pub enum ProxyValue {
    Value(String),
    Query(Vec<String>),
    Expression(String, Vec<Proxy>),
}

/// A proxy in the terms of the parsed value it stands for.
pub open spec fn proxy_view(p: Proxy) -> ValueView
    decreases p,
{
    ValueView {
        line: p.line as nat,
        col: p.col as nat,
        value: match p.value {
            ProxyValue::Value(s) => ValueKind::Str(s@),
            ProxyValue::Query(q) => ValueKind::Query(strings_view(q@)),
            ProxyValue::Expression(f, args) => ValueKind::Invoke(
                f@,
                Seq::new(
                    args@.len(),
                    |i: int|
                        if 0 <= i < args@.len() {
                            proxy_view(args@[i])
                        } else {
                            ValueView { line: 0, col: 0, value: ValueKind::Str(seq![]) }
                        },
                ),
            ),
        },
    }
}

impl View for Proxy {
    type V = ValueView;

    open spec fn view(&self) -> ValueView {
        proxy_view(*self)
    }
}

/// The proxy standing for `v`.
fn proxy_of(v: &Value) -> (r: Proxy)
    ensures
        r@ == v@,
    decreases v,
{
    let value = match &v.value {
        ValueVariant::String(s) => ProxyValue::Value(s.clone()),
        ValueVariant::Query(items) => {
            let mut path: Vec<String> = Vec::new();
            let mut i: usize = 0;
            while i < items.len()
                invariant
                    i <= items.len(),
                    path.len() == i,
                    forall|j: int| 0 <= j < i ==> path@[j]@ == items@[j]@,
                decreases items.len() - i,
            {
                path.push(items[i].clone());
                i = i + 1;
            }
            assert(strings_view(path@) =~= strings_view(items@));
            ProxyValue::Query(path)
        },
        ValueVariant::Invoke(f, args) => {
            let mut out: Vec<Proxy> = Vec::new();
            let mut i: usize = 0;
            while i < args.len()
                invariant
                    i <= args.len(),
                    out.len() == i,
                    forall|j: int| 0 <= j < i ==> out@[j]@ == args@[j]@,
                    v.value is Invoke && v.value->Invoke_1 == *args,
                decreases args.len() - i,
            {
                proof {
                    assert(decreases_to!(*v => v.value));
                    assert(decreases_to!(v.value => v.value->Invoke_1));
                    assert(decreases_to!(*args => args@));
                    assert(decreases_to!(args@ => args@[i as int]));
                }
                out.push(proxy_of(&args[i]));
                i = i + 1;
            }
            ProxyValue::Expression(f.clone(), out)
        },
    };
    let r = Proxy { line: v.line, col: v.col, value };
    proof {
        match (&v.value, &r.value) {
            (ValueVariant::Invoke(_, args), ProxyValue::Expression(_, out)) => {
                let a = r@.value->Invoke_1;
                let b = v@.value->Invoke_1;
                assert(a =~= b);
            },
            _ => {},
        }
    }
    r
}

/// The proxies of a loaded object, under the tag it was loaded as.
#[derive(Debug)]
pub struct ObjectProxy {
    tag: String,
    fields: NameMap<Proxy>,
}

impl ObjectProxy {
    pub closed spec fn wf(&self) -> bool {
        self.fields.wf()
    }

    pub closed spec fn view(&self) -> ObjectProxyView {
        ObjectProxyView { tag: self.tag@, fields: self.fields.map().map_values(|p: Proxy| p@) }
    }
}

/// The resolved fields of an object.
#[derive(Debug)]
pub struct ResolvedObject {
    fields: NameMap<String>,
}

impl ResolvedObject {
    pub closed spec fn wf(&self) -> bool {
        self.fields.wf()
    }

    /// The resolved text of each field, by field name.
    pub closed spec fn values(&self) -> Map<Seq<char>, Seq<char>> {
        self.fields.map().map_values(|s: String| s@)
    }

    /// The resolved text of the field `name`.
    pub fn get(&self, name: &str) -> (r: Option<String>)
        requires
            self.wf(),
        ensures
            match r {
                Some(s) => self.values().dom().contains(name@) && s@ == self.values()[name@],
                None => !self.values().dom().contains(name@),
            },
    {
        match self.fields.get(name) {
            Some(s) => Some(s.clone()),
            None => None,
        }
    }
}

/// The types of a list of type tags.
pub open spec fn tags_view(ts: Seq<TypeTag>) -> Seq<Seq<char>> {
    Seq::new(ts.len(), |i: int| ts[i]@)
}

/// A registered function with the signature it gave when registered.
pub struct FunctionEntry<F> {
    params: Vec<TypeTag>,
    ret: TypeTag,
    function: F,
}

impl FunctionEntry<Box<dyn Function>> {
    pub closed spec fn view(&self) -> FnView {
        FnView {
            params: tags_view(self.params@),
            ret: self.ret@,
            result: |a: Seq<Seq<char>>| self.function.result(a),
        }
    }
}

/// Collects functions and structures for an [`Engine`].
pub struct EngineBuilder {
    functions: NameMap<FunctionEntry<Box<dyn Function>>>,
    structures: NameMap<Structure>,
}

/// Registered functions and structures, and the objects loaded so far.
pub struct Engine {
    functions: NameMap<FunctionEntry<Box<dyn Function>>>,
    structures: NameMap<Structure>,
    objects: NameMap<ObjectProxy>,
}

pub closed spec fn functions_of(m: &NameMap<FunctionEntry<Box<dyn Function>>>) -> Map<Seq<char>, FnView> {
    m.map().map_values(|e: FunctionEntry<Box<dyn Function>>| e.view())
}

pub closed spec fn structures_of(m: &NameMap<Structure>) -> Map<
    Seq<char>,
    Map<Seq<char>, Seq<char>>,
> {
    m.map().map_values(|s: Structure| s.field_types())
}

impl EngineBuilder {
    pub closed spec fn wf(&self) -> bool {
        &&& self.functions.wf()
        &&& self.structures.wf()
    }

    /// Each registered function, by name.
    pub closed spec fn functions(&self) -> Map<Seq<char>, FnView> {
        functions_of(&self.functions)
    }

    /// The fields of each registered structure, by tag.
    pub closed spec fn structures(&self) -> Map<Seq<char>, Map<Seq<char>, Seq<char>>> {
        structures_of(&self.structures)
    }

    /// The names of the registered functions, in the order first registered.
    pub closed spec fn function_names(&self) -> Seq<Seq<char>> {
        self.functions.keys()
    }

    /// The tags of the registered structures, in the order first registered.
    pub closed spec fn structure_tags(&self) -> Seq<Seq<char>> {
        self.structures.keys()
    }

    /// The description of each registered structure, by tag.
    pub closed spec fn structure_texts(&self) -> Map<Seq<char>, Seq<char>> {
        self.structures.map().map_values(|s: Structure| s.text())
    }

    pub fn new() -> (r: EngineBuilder)
        ensures
            r.wf(),
            r.functions() == Map::<Seq<char>, FnView>::empty(),
            r.structures() == Map::<Seq<char>, Map<Seq<char>, Seq<char>>>::empty(),
            r.function_names() == Seq::<Seq<char>>::empty(),
            r.structure_tags() == Seq::<Seq<char>>::empty(),
            r.structure_texts() == Map::<Seq<char>, Seq<char>>::empty(),
    {
        let r = EngineBuilder { functions: NameMap::new(), structures: NameMap::new() };
        assert(r.structure_texts() =~= Map::<Seq<char>, Seq<char>>::empty());
        assert(r.functions() =~= Map::<Seq<char>, FnView>::empty());
        assert(r.structures() =~= Map::<Seq<char>, Map<Seq<char>, Seq<char>>>::empty());
        r
    }

    /// Registers `function` under `name` with the given signature,
    /// replacing a function registered under the same name.
    pub fn register_function(
        self,
        name: &str,
        params: Vec<TypeTag>,
        ret: TypeTag,
        function: Box<dyn Function>,
    ) -> (r: EngineBuilder)
        requires
            self.wf(),
        ensures
            r.wf(),
            r.functions().dom() == self.functions().dom().insert(name@),
            forall|k: Seq<char>| k != name@ ==> #[trigger] r.functions()[k] == self.functions()[k],
            r.functions()[name@].params == tags_view(params@),
            r.functions()[name@].ret == ret@,
            forall|a: Seq<Seq<char>>| #[trigger] (r.functions()[name@].result)(a) == function.result(a),
            r.structures() == self.structures(),
            r.function_names() == if self.functions().dom().contains(name@) {
                self.function_names()
            } else {
                self.function_names().push(name@)
            },
            r.structure_tags() == self.structure_tags(),
            r.structure_texts() == self.structure_texts(),
    {
        let ghost before = self.functions();
        let ghost fv = FnView {
            params: tags_view(params@),
            ret: ret@,
            result: |a: Seq<Seq<char>>| function.result(a),
        };
        let entry = FunctionEntry { params, ret, function };
        assert(entry.view() == fv) by {
            assert(entry.view().params =~= fv.params);
            assert(entry.view().result =~= fv.result);
        }
        let EngineBuilder { mut functions, structures } = self;
        functions.insert(name.to_owned(), entry);
        let r = EngineBuilder { functions, structures };
        assert(r.functions() =~= before.insert(name@, fv));
        assert(r.functions()[name@] == fv);
        r
    }

    /// Registers a function under the name and with the signature it gives;
    /// calls of that name then give its results.
    pub fn function<T: IntoFunction + 'static>(self, function: T) -> (r: EngineBuilder)
        requires
            self.wf(),
        ensures
            r.wf(),
            r.structures() == self.structures(),
            r.functions().dom() == self.functions().dom().insert(T::name_view()),
            forall|k: Seq<char>|
                k != T::name_view() ==> #[trigger] r.functions()[k] == self.functions()[k],
            r.functions()[T::name_view()].params == function.params_view(),
            r.functions()[T::name_view()].ret == function.ret_view(),
            forall|a: Seq<Seq<char>>|
                #[trigger] (r.functions()[T::name_view()].result)(a) == function.result(a),
            r.function_names() == if self.functions().dom().contains(T::name_view()) {
                self.function_names()
            } else {
                self.function_names().push(T::name_view())
            },
            r.structure_tags() == self.structure_tags(),
            r.structure_texts() == self.structure_texts(),
    {
        let ghost g = function;
        let ghost before = self.functions();
        let name = T::name();
        let (params, ret) = function.sig();
        let boxed = function.into_function();
        let entry = FunctionEntry { params, ret, function: boxed.function };
        let ghost fv = FnView {
            params: g.params_view(),
            ret: g.ret_view(),
            result: |a: Seq<Seq<char>>| g.result(a),
        };
        assert(entry.view() == fv) by {
            assert(entry.view().params =~= fv.params);
            assert forall|a: Seq<Seq<char>>| #[trigger] (entry.view().result)(a) == (fv.result)(a) by {
                assert(boxed.function.result(a) == g.result(a));
            }
            assert(entry.view().result =~= fv.result);
        }
        let EngineBuilder { mut functions, structures } = self;
        functions.insert(name.to_owned(), entry);
        let r = EngineBuilder { functions, structures };
        assert(r.functions() =~= before.insert(name@, fv));
        assert(r.functions()[name@] == fv);
        r
    }

    /// Registers `structure` under `tag`, replacing a structure registered
    /// under the same tag.
    pub fn register_structure(self, tag: &str, structure: Structure) -> (r: EngineBuilder)
        requires
            self.wf(),
        ensures
            r.wf(),
            r.functions() == self.functions(),
            r.structures() == self.structures().insert(tag@, structure.field_types()),
            r.function_names() == self.function_names(),
            r.structure_tags() == if self.structures().dom().contains(tag@) {
                self.structure_tags()
            } else {
                self.structure_tags().push(tag@)
            },
            r.structure_texts() == self.structure_texts().insert(tag@, structure.text()),
    {
        let ghost before = self.structures();
        let ghost fields = structure.field_types();
        let EngineBuilder { functions, mut structures } = self;
        structures.insert(tag.to_owned(), structure);
        let r = EngineBuilder { functions, structures };
        assert(r.structures() =~= before.insert(tag@, fields));
        r
    }

    /// Registers the structure of `T` under the tag of `T`.
    pub fn structure<T: StructureType>(self) -> (r: EngineBuilder)
        requires
            self.wf(),
        ensures
            r.wf(),
            r.functions() == self.functions(),
            r.structures() == self.structures().insert(T::tag_view(), T::structure_view()),
            r.function_names() == self.function_names(),
            r.structure_tags() == if self.structures().dom().contains(T::tag_view()) {
                self.structure_tags()
            } else {
                self.structure_tags().push(T::tag_view())
            },
            r.structure_texts() == self.structure_texts().insert(
                T::tag_view(),
                structure_text(T::field_order_view(), T::structure_view()),
            ),
    {
        let tag = T::tag();
        let structure = T::get_structure();
        self.register_structure(tag, structure)
    }

    /// An engine with the registered functions and structures and no objects.
    pub fn build(self) -> (r: Engine)
        requires
            self.wf(),
        ensures
            r.wf(),
            r.functions() == self.functions(),
            r.structures() == self.structures(),
            r.function_names() == self.function_names(),
            r.structure_tags() == self.structure_tags(),
            r.structure_texts() == self.structure_texts(),
            r.objects() == Map::<Seq<char>, ObjectProxyView>::empty(),
    {
        let r = Engine {
            functions: self.functions,
            structures: self.structures,
            objects: NameMap::new(),
        };
        assert(r.objects() =~= Map::<Seq<char>, ObjectProxyView>::empty());
        r
    }
}

impl Engine {
    pub closed spec fn wf(&self) -> bool {
        &&& self.functions.wf()
        &&& self.structures.wf()
        &&& self.objects.wf()
        &&& forall|k: Seq<char>| #[trigger]
            self.objects.map().dom().contains(k) ==> self.objects.map()[k].wf()
        &&& conforms(self.objects(), self.structures())
    }

    /// Every loaded object is loaded under a registered tag, sets exactly
    /// the fields that tag's structure declares, and holds string literals
    /// only in fields declared `String`.
    pub proof fn lemma_conforms(&self)
        requires
            self.wf(),
        ensures
            conforms(self.objects(), self.structures()),
    {
    }

    /// Each registered function, by name.
    pub closed spec fn functions(&self) -> Map<Seq<char>, FnView> {
        functions_of(&self.functions)
    }

    /// The fields of each registered structure, by tag.
    pub closed spec fn structures(&self) -> Map<Seq<char>, Map<Seq<char>, Seq<char>>> {
        structures_of(&self.structures)
    }

    /// The names of the registered functions, in the order first registered.
    pub closed spec fn function_names(&self) -> Seq<Seq<char>> {
        self.functions.keys()
    }

    /// The tags of the registered structures, in the order first registered.
    pub closed spec fn structure_tags(&self) -> Seq<Seq<char>> {
        self.structures.keys()
    }

    /// The description of each registered structure, by tag.
    pub closed spec fn structure_texts(&self) -> Map<Seq<char>, Seq<char>> {
        self.structures.map().map_values(|s: Structure| s.text())
    }

    /// The loaded objects, by name.
    pub closed spec fn objects(&self) -> Map<Seq<char>, ObjectProxyView> {
        self.objects.map().map_values(|o: ObjectProxy| o.view())
    }

    /// The registered functions by name and structures by tag, each in the
    /// order first registered:
    /// `Engine { functions: ["name", ...], structures: {"tag": Structure { ... }, ...} }`.
    pub open spec fn text(&self) -> Seq<char> {
        let fk = self.function_names();
        let sk = self.structure_tags();
        "Engine { functions: ["@ + join(Seq::new(fk.len(), |i: int| quoted(fk[i])))
            + "], structures: {"@ + join(
            Seq::new(sk.len(), |i: int| entry_text(sk[i], self.structure_texts()[sk[i]])),
        ) + "} }"@
    }

    /// A description of the registered functions and structures.
    pub fn describe(&self) -> (r: String)
        requires
            self.wf(),
        ensures
            r@ == self.text(),
    {
        proof {
            self.functions.lemma_keys();
            self.structures.lemma_keys();
        }
        let ghost fk = self.functions.keys();
        let ghost sk = self.structures.keys();
        let ghost fitems = Seq::new(fk.len(), |i: int| quoted(fk[i]));
        let ghost sitems = Seq::new(
            sk.len(),
            |i: int| entry_text(sk[i], self.structure_texts()[sk[i]]),
        );
        let mut s = String::from_str("Engine { functions: [");
        let nf = self.functions.len();
        let mut i: usize = 0;
        assert(fitems.subrange(0, 0) =~= Seq::<Seq<char>>::empty());
        while i < nf
            invariant
                nf == fk.len(),
                fk == self.functions.keys(),
                fitems == Seq::new(fk.len(), |i: int| quoted(fk[i])),
                i <= nf,
                s@ == "Engine { functions: ["@ + join(fitems.subrange(0, i as int)),
            decreases nf - i,
        {
            let q = quoted_string(self.functions.key_at(i));
            proof {
                lemma_join_push(fitems, i as int);
            }
            push_item(&mut s, i == 0, q.as_str());
            assert(s@ =~= "Engine { functions: ["@ + join(fitems.subrange(0, i + 1)));
            i = i + 1;
        }
        assert(fitems.subrange(0, nf as int) =~= fitems);
        let ghost head = s@ + "], structures: {"@;
        s.append("], structures: {");
        assert(s@ =~= head);
        let ns = self.structures.len();
        let mut j: usize = 0;
        assert(sitems.subrange(0, 0) =~= Seq::<Seq<char>>::empty());
        assert(s@ =~= head + join(sitems.subrange(0, 0)));
        while j < ns
            invariant
                self.wf(),
                ns == sk.len(),
                sk == self.structures.keys(),
                sitems == Seq::new(
                    sk.len(),
                    |i: int| entry_text(sk[i], self.structure_texts()[sk[i]]),
                ),
                j <= ns,
                s@ == head + join(sitems.subrange(0, j as int)),
            decreases ns - j,
        {
            let d = self.structures.value_at(j).describe();
            let e = entry_string(self.structures.key_at(j), d.as_str());
            proof {
                lemma_join_push(sitems, j as int);
            }
            push_item(&mut s, j == 0, e.as_str());
            assert(s@ =~= head + join(sitems.subrange(0, j + 1)));
            j = j + 1;
        }
        assert(sitems.subrange(0, ns as int) =~= sitems);
        let ghost before = s@;
        s.append("} }");
        assert(s@ =~= before + "} }"@);
        s
    }

    pub fn builder() -> (r: EngineBuilder)
        ensures
            r.wf(),
            r.functions() == Map::<Seq<char>, FnView>::empty(),
            r.structures() == Map::<Seq<char>, Map<Seq<char>, Seq<char>>>::empty(),
            r.function_names() == Seq::<Seq<char>>::empty(),
            r.structure_tags() == Seq::<Seq<char>>::empty(),
            r.structure_texts() == Map::<Seq<char>, Seq<char>>::empty(),
    {
        EngineBuilder::new()
    }
}

impl Proxy {
    /// The text this proxy resolves to.
    pub fn get_value(&self, engine: &Engine) -> (r: String)
        requires
            engine.wf(),
            evaluable(engine.objects(), engine.functions(), self@),
        ensures
            r@ == value_of(engine.objects(), engine.functions(), self@),
    {
        let fuel = engine.field_count();
        proof {
            lemma_resolves_within_field_count(engine.objects(), engine.functions(), self@);
            lemma_value_of(engine.objects(), engine.functions(), self@, fuel as nat);
        }
        match engine.eval_within(self, fuel) {
            Some(s) => s,
            None => {
                proof {
                    assert(false);
                }
                String::new()
            },
        }
    }
}

impl Engine {
    /// The text of `p` when at most `fuel` queries are followed in a row,
    /// or `None` where it does not resolve so.
    fn eval_within(&self, p: &Proxy, fuel: u128) -> (r: Option<String>)
        requires
            self.wf(),
        ensures
            match r {
                Some(s) => eval(self.objects(), self.functions(), p@, fuel as nat) == Some(s@),
                None => eval(self.objects(), self.functions(), p@, fuel as nat) is None,
            },
        decreases fuel, p,
    {
        let ghost objs = self.objects();
        let ghost fns = self.functions();
        match &p.value {
            ProxyValue::Value(s) => Some(s.clone()),
            ProxyValue::Query(path) => {
                if fuel == 0 || path.len() != 2 {
                    return None;
                }
                let ghost pv = strings_view(path@);
                assert(pv[0] == path@[0]@ && pv[1] == path@[1]@);
                let o = match self.objects.get(path[0].as_str()) {
                    Some(o) => o,
                    None => {
                        return None;
                    },
                };
                assert(self.objects.map().dom().contains(path@[0]@));
                let q = match o.fields.get(path[1].as_str()) {
                    Some(q) => q,
                    None => {
                        return None;
                    },
                };
                self.eval_within(q, fuel - 1)
            },
            ProxyValue::Expression(f, args) => {
                let entry = match self.functions.get(f.as_str()) {
                    Some(e) => e,
                    None => {
                        return None;
                    },
                };
                let ghost sv = p@.value->Invoke_1;
                let mut vals: Vec<String> = Vec::new();
                let mut i: usize = 0;
                assert(sv.subrange(0, 0) =~= Seq::<ValueView>::empty());
                assert(strings_view(vals@) =~= Seq::<Seq<char>>::empty());
                while i < args.len()
                    invariant
                        self.wf(),
                        objs == self.objects(),
                        fns == self.functions(),
                        i <= args.len(),
                        sv.len() == args.len(),
                        sv == p@.value->Invoke_1,
                        p.value is Expression && p.value->Expression_1 == *args,
                        forall|j: int| 0 <= j < args.len() ==> #[trigger] sv[j] == args@[j]@,
                        eval_args(objs, fns, sv.subrange(0, i as int), fuel as nat) == Some(
                            strings_view(vals@),
                        ),
                    decreases args.len() - i,
                {
                    proof {
                        assert(decreases_to!(*p => p.value));
                        assert(decreases_to!(p.value => p.value->Expression_1));
                        assert(decreases_to!(*args => args@));
                        assert(decreases_to!(args@ => args@[i as int]));
                    }
                    match self.eval_within(&args[i], fuel) {
                        Some(v) => {
                            proof {
                                let sub = sv.subrange(0, i + 1);
                                assert(sub.drop_last() =~= sv.subrange(0, i as int));
                                assert(sub.last() == sv[i as int]);
                                assert(strings_view(vals@.push(v)) =~= strings_view(vals@).push(v@));
                            }
                            vals.push(v);
                        },
                        None => {
                            proof {
                                if eval_args(objs, fns, sv, fuel as nat) is Some {
                                    lemma_eval_args_parts(objs, fns, sv, fuel as nat);
                                    assert(eval(objs, fns, sv[i as int], fuel as nat) is Some);
                                }
                            }
                            return None;
                        },
                    }
                    i = i + 1;
                }
                assert(sv.subrange(0, args.len() as int) =~= sv);
                Some(entry.function.call(vals))
            },
        }
    }

    /// The text of field `path[1]` of the loaded object `path[0]`.
    pub fn query(&self, path: &[String]) -> (r: String)
        requires
            self.wf(),
            path@.len() == 2,
            self.objects().dom().contains(path@[0]@),
            self.objects()[path@[0]@].fields.dom().contains(path@[1]@),
            evaluable(
                self.objects(),
                self.functions(),
                self.objects()[path@[0]@].fields[path@[1]@],
            ),
        ensures
            r@ == value_of(
                self.objects(),
                self.functions(),
                self.objects()[path@[0]@].fields[path@[1]@],
            ),
    {
        let o = match self.objects.get(path[0].as_str()) {
            Some(o) => o,
            None => {
                proof {
                    assert(false);
                }
                return String::new();
            },
        };
        assert(self.objects.map().dom().contains(path@[0]@));
        let q = match o.fields.get(path[1].as_str()) {
            Some(q) => q,
            None => {
                proof {
                    assert(false);
                }
                return String::new();
            },
        };
        q.get_value(self)
    }

    /// The result of the function registered as `function` on the texts of `args`.
    pub fn call(&self, function: &str, args: &Vec<Proxy>) -> (r: String)
        requires
            self.wf(),
            self.functions().dom().contains(function@),
            forall|i: int|
                0 <= i < args@.len() ==> evaluable(self.objects(), self.functions(), #[trigger] args@[i]@),
        ensures
            r@ == (self.functions()[function@].result)(
                Seq::new(args@.len(), |i: int| value_of(self.objects(), self.functions(), args@[i]@)),
            ),
    {
        let ghost want = Seq::new(
            args@.len(),
            |i: int| value_of(self.objects(), self.functions(), args@[i]@),
        );
        let entry = match self.functions.get(function) {
            Some(e) => e,
            None => {
                proof {
                    assert(false);
                }
                return String::new();
            },
        };
        let mut vals: Vec<String> = Vec::new();
        let mut i: usize = 0;
        while i < args.len()
            invariant
                self.wf(),
                i <= args.len(),
                vals.len() == i,
                want.len() == args.len(),
                forall|j: int|
                    0 <= j < args@.len() ==> evaluable(self.objects(), self.functions(), #[trigger] args@[j]@),
                forall|j: int| 0 <= j < args@.len() ==> #[trigger] want[j] == value_of(self.objects(), self.functions(), args@[j]@),
                forall|j: int| 0 <= j < i ==> #[trigger] vals@[j]@ == want[j],
            decreases args.len() - i,
        {
            let v = args[i].get_value(self);
            vals.push(v);
            i = i + 1;
        }
        assert(strings_view(vals@) =~= want);
        entry.function.call(vals)
    }

    /// The proxy standing for `value`.
    pub fn make_value_string(&self, value: &Value) -> (r: Proxy)
        requires
            calls_known(self.functions(), value@),
        ensures
            r@ == value@,
    {
        proxy_of(value)
    }

    /// The proxy standing for a query or a call.
    pub fn make_value(&self, value: &Value) -> (r: Proxy)
        requires
            !(value@.value is Str),
            calls_known(self.functions(), value@),
        ensures
            r@ == value@,
    {
        proxy_of(value)
    }

    /// The resolved fields of the loaded object `name`, if it was loaded
    /// under `tag`.
    pub fn resolve(&self, name: &str, tag: &str) -> (r: Option<ResolvedObject>)
        requires
            self.wf(),
            self.objects().dom().contains(name@) && self.objects()[name@].tag == tag@
                ==> fields_evaluable(self.objects(), self.functions(), self.objects()[name@].fields),
        ensures
            r is Some <==> (self.objects().dom().contains(name@) && self.objects()[name@].tag
                == tag@),
            r matches Some(ro) ==> ro.wf() && ro.values() == self.objects()[name@].fields.map_values(
                |v: ValueView| value_of(self.objects(), self.functions(), v),
            ),
    {
        match self.try_resolve(name, tag) {
            Ok(r) => r,
            Err(_) => {
                proof {
                    assert(false);
                }
                None
            },
        }
    }

    /// The number of fields of the loaded objects.
    fn field_count(&self) -> (r: u128)
        requires
            self.wf(),
        ensures
            field_pairs(self.objects()).finite(),
            r as int == field_pairs(self.objects()).len(),
    {
        let ghost objs = self.objects();
        let ghost ks = self.objects.keys();
        proof {
            self.objects.lemma_keys();
            assert(pairs_among(objs, ks.subrange(0, 0)) =~= Set::<(Seq<char>, Seq<char>)>::empty());
        }
        let count = self.objects.len();
        let mut total: u128 = 0;
        let mut i: usize = 0;
        while i < count
            invariant
                self.wf(),
                objs == self.objects(),
                ks == self.objects.keys(),
                ks.no_duplicates(),
                forall|k: Seq<char>| #[trigger] self.objects.map().dom().contains(k) <==> ks.contains(k),
                i <= ks.len(),
                count == ks.len(),
                pairs_among(objs, ks.subrange(0, i as int)).finite(),
                total as int == pairs_among(objs, ks.subrange(0, i as int)).len(),
                total <= i * usize::MAX,
            decreases ks.len() - i,
        {
            let o = self.objects.value_at(i);
            let n = o.fields.len();
            proof {
                assert(self.objects.map().dom().contains(ks[i as int]));
                assert(o.wf());
                o.fields.lemma_keys();
                let fkeys = o.fields.keys();
                let dom = objs[ks[i as int]].fields.dom();
                assert(dom =~= fkeys.to_set());
                fkeys.unique_seq_to_set();
                let names = ks.subrange(0, i as int);
                assert(ks.subrange(0, i + 1) =~= names.push(ks[i as int]));
                if names.contains(ks[i as int]) {
                    let j = choose|j: int| 0 <= j < names.len() && names[j] == ks[i as int];
                    assert(ks[j] == ks[i as int]);
                }
                lemma_pairs_among_push(objs, names, ks[i as int]);
                assert(total + n <= (i + 1) * usize::MAX) by (nonlinear_arith)
                    requires
                        total <= i * usize::MAX,
                        n <= usize::MAX,
                ;
                assert((i + 1) * usize::MAX <= usize::MAX * usize::MAX) by (nonlinear_arith)
                    requires
                        i + 1 <= usize::MAX,
                ;
                assert(usize::MAX * usize::MAX < u128::MAX) by (nonlinear_arith)
                    requires
                        usize::MAX <= u64::MAX,
                ;
            }
            total = total + n as u128;
            i = i + 1;
        }
        proof {
            assert(ks.subrange(0, i as int) =~= ks);
            assert(pairs_among(objs, ks) =~= field_pairs(objs));
        }
        total
    }

    /// The resolved fields of the loaded object `name`, if it was loaded
    /// under `tag`, or `Err` where one of its fields does not resolve.
    pub fn try_resolve(&self, name: &str, tag: &str) -> (r: Result<Option<ResolvedObject>, ()>)
        requires
            self.wf(),
        ensures
            match r {
                Err(_) => self.objects().dom().contains(name@) && self.objects()[name@].tag == tag@
                    && !fields_evaluable(
                    self.objects(),
                    self.functions(),
                    self.objects()[name@].fields,
                ),
                Ok(None) => !(self.objects().dom().contains(name@) && self.objects()[name@].tag
                    == tag@),
                Ok(Some(ro)) => self.objects().dom().contains(name@) && self.objects()[name@].tag
                    == tag@ && fields_evaluable(
                    self.objects(),
                    self.functions(),
                    self.objects()[name@].fields,
                ) && ro.wf() && ro.values() == self.objects()[name@].fields.map_values(
                    |v: ValueView| value_of(self.objects(), self.functions(), v),
                ),
            },
    {
        let fuel = self.field_count();
        let o = match self.objects.get(name) {
            Some(o) => o,
            None => {
                return Ok(None);
            },
        };
        if !str_eq(o.tag.as_str(), tag) {
            return Ok(None);
        }
        let ghost fv = o.view().fields;
        let ghost objs = self.objects();
        let ghost fns = self.functions();
        assert(self.objects.map().dom().contains(name@));
        assert(o.wf());
        let mut out: NameMap<String> = NameMap::new();
        let mut i: usize = 0;
        while i < o.fields.len()
            invariant
                self.wf(),
                o.wf(),
                objs == self.objects(),
                fns == self.functions(),
                fv == o.view().fields,
                objs.dom().contains(name@),
                objs[name@].tag == tag@,
                fv == objs[name@].fields,
                field_pairs(objs).finite(),
                fuel as int == field_pairs(objs).len(),
                i <= o.fields.keys().len(),
                out.wf(),
                forall|k: Seq<char>| #[trigger]
                    out.map().dom().contains(k) <==> o.fields.keys().subrange(0, i as int).contains(k),
                forall|k: Seq<char>| #[trigger]
                    out.map().dom().contains(k) ==> fv.dom().contains(k) && evaluable(objs, fns, fv[k])
                        && out.map()[k]@ == value_of(objs, fns, fv[k]),
            decreases o.fields.keys().len() - i,
        {
            let key = o.fields.key_at(i);
            let p = o.fields.value_at(i);
            assert(fv.dom().contains(key@));
            assert(fv[key@] == p@);
            let s = match self.eval_within(p, fuel) {
                Some(s) => s,
                None => {
                    proof {
                        if evaluable(objs, fns, fv[key@]) {
                            lemma_resolves_within_field_count(objs, fns, fv[key@]);
                        }
                        assert(!evaluable(objs, fns, fv[key@]));
                    }
                    return Err(());
                },
            };
            proof {
                lemma_value_of(objs, fns, p@, fuel as nat);
            }
            out.insert(key.to_owned(), s);
            proof {
                let ks = o.fields.keys();
                assert forall|k: Seq<char>| #[trigger]
                    out.map().dom().contains(k) <==> ks.subrange(0, i + 1).contains(k) by {
                    if ks.subrange(0, i as int).contains(k) {
                        let j = choose|j: int| 0 <= j < i && #[trigger] ks.subrange(0, i as int)[j] == k;
                        assert(ks.subrange(0, i + 1)[j] == k);
                    }
                    if ks.subrange(0, i + 1).contains(k) && k != key@ {
                        let j = choose|j: int| 0 <= j < i + 1 && #[trigger] ks.subrange(0, i + 1)[j] == k;
                        assert(j != i);
                        assert(ks.subrange(0, i as int)[j] == k);
                    }
                    assert(ks.subrange(0, i + 1)[i as int] == key@);
                }
            }
            i = i + 1;
        }
        proof {
            o.fields.lemma_keys();
            assert(o.fields.keys().subrange(0, i as int) =~= o.fields.keys());
            assert forall|k: Seq<char>| #[trigger] fv.dom().contains(k) implies evaluable(
                objs,
                fns,
                fv[k],
            ) by {
                assert(out.map().dom().contains(k));
            }
        }
        let ro = ResolvedObject { fields: out };
        assert(ro.values() =~= fv.map_values(|v: ValueView| value_of(objs, fns, v)));
        Ok(Some(ro))
    }

    /// As [`Engine::get`], or `Err` where the object is loaded under the
    /// tag of `T` and one of its fields does not resolve.
    pub fn try_get<T: StructureType>(&self, object: &str) -> (r: Result<Option<T>, ()>)
        requires
            self.wf(),
        ensures
            match r {
                Ok(Some(x)) => self.objects().dom().contains(object@)
                    && self.objects()[object@].tag == T::tag_view() && fields_evaluable(
                    self.objects(),
                    self.functions(),
                    self.objects()[object@].fields,
                ) && T::made_from(
                    x,
                    self.objects()[object@].fields.map_values(
                        |v: ValueView| value_of(self.objects(), self.functions(), v),
                    ),
                ),
                Ok(None) => !(self.objects().dom().contains(object@)
                    && self.objects()[object@].tag == T::tag_view()),
                Err(_) => self.objects().dom().contains(object@)
                    && self.objects()[object@].tag == T::tag_view() && !fields_evaluable(
                    self.objects(),
                    self.functions(),
                    self.objects()[object@].fields,
                ),
            },
    {
        let tag = T::tag();
        match self.try_resolve(object, tag) {
            Ok(Some(ro)) => Ok(Some(T::make(&ro))),
            Ok(None) => Ok(None),
            Err(e) => Err(e),
        }
    }

    /// The value of type `T` built from the loaded object `object`, if it
    /// was loaded under the tag of `T`.
    pub fn get<T: StructureType>(&self, object: &str) -> (r: Option<T>)
        requires
            self.wf(),
            self.objects().dom().contains(object@) && self.objects()[object@].tag == T::tag_view()
                ==> fields_evaluable(
                self.objects(),
                self.functions(),
                self.objects()[object@].fields,
            ),
        ensures
            r is Some <==> (self.objects().dom().contains(object@)
                && self.objects()[object@].tag == T::tag_view()),
            r matches Some(x) ==> T::made_from(
                x,
                self.objects()[object@].fields.map_values(
                    |v: ValueView| value_of(self.objects(), self.functions(), v),
                ),
            ),
    {
        let tag = T::tag();
        match self.resolve(object, tag) {
            Some(ro) => Some(T::make(&ro)),
            None => None,
        }
    }
}

/// A problem found while loading; see [`IssueView`] for each kind.
#[derive(Debug, Clone, PartialEq, Eq)]
pub enum LoadIssue {
    Unregistered { line: usize, col: usize, tag: String },
    DuplicateObject { line: usize, col: usize, name: String },
    UnknownField { line: usize, col: usize },
    NotAString,
    UnknownFunction { line: usize, col: usize, name: String },
    WrongReturnType { line: usize, col: usize, name: String },
    WrongArgCount { line: usize, col: usize, name: String, expected: usize, given: usize },
    WrongArgument { line: usize, col: usize, index: usize, name: String },
    QueryLength { line: usize, col: usize },
    UnknownObject { line: usize, col: usize, name: String },
    MissingField { line: usize, col: usize, tag: String, field: String },
    WrongFieldType { line: usize, col: usize, field: String },
    IncompleteObject { line: usize, col: usize, name: String },
}

impl View for LoadIssue {
    type V = IssueView;

    open spec fn view(&self) -> IssueView {
        match self {
            LoadIssue::Unregistered { line, col, tag } => IssueView::Unregistered {
                line: *line as nat,
                col: *col as nat,
                tag: tag@,
            },
            LoadIssue::DuplicateObject { line, col, name } => IssueView::DuplicateObject {
                line: *line as nat,
                col: *col as nat,
                name: name@,
            },
            LoadIssue::UnknownField { line, col } => IssueView::UnknownField {
                line: *line as nat,
                col: *col as nat,
            },
            LoadIssue::NotAString => IssueView::NotAString,
            LoadIssue::UnknownFunction { line, col, name } => IssueView::UnknownFunction {
                line: *line as nat,
                col: *col as nat,
                name: name@,
            },
            LoadIssue::WrongReturnType { line, col, name } => IssueView::WrongReturnType {
                line: *line as nat,
                col: *col as nat,
                name: name@,
            },
            LoadIssue::WrongArgCount { line, col, name, expected, given } => IssueView::WrongArgCount {
                line: *line as nat,
                col: *col as nat,
                name: name@,
                expected: *expected as nat,
                given: *given as nat,
            },
            LoadIssue::WrongArgument { line, col, index, name } => IssueView::WrongArgument {
                line: *line as nat,
                col: *col as nat,
                index: *index as nat,
                name: name@,
            },
            LoadIssue::QueryLength { line, col } => IssueView::QueryLength {
                line: *line as nat,
                col: *col as nat,
            },
            LoadIssue::UnknownObject { line, col, name } => IssueView::UnknownObject {
                line: *line as nat,
                col: *col as nat,
                name: name@,
            },
            LoadIssue::MissingField { line, col, tag, field } => IssueView::MissingField {
                line: *line as nat,
                col: *col as nat,
                tag: tag@,
                field: field@,
            },
            LoadIssue::WrongFieldType { line, col, field } => IssueView::WrongFieldType {
                line: *line as nat,
                col: *col as nat,
                field: field@,
            },
            LoadIssue::IncompleteObject { line, col, name } => IssueView::IncompleteObject {
                line: *line as nat,
                col: *col as nat,
                name: name@,
            },
        }
    }
}

/// The views of a list of problems.
pub open spec fn issues_view(is: Seq<LoadIssue>) -> Seq<IssueView> {
    Seq::new(is.len(), |i: int| is[i]@)
}

proof fn lemma_issues_push(is: Seq<LoadIssue>, x: LoadIssue)
    ensures
        issues_view(is.push(x)) == issues_view(is).push(x@),
{
    assert(issues_view(is.push(x)) =~= issues_view(is).push(x@));
}

/// Appends `x` to `issues`.
fn report(issues: &mut Vec<LoadIssue>, x: LoadIssue)
    ensures
        issues_view(final(issues)@) == issues_view(old(issues)@).push(x@),
{
    proof {
        lemma_issues_push(issues@, x);
    }
    issues.push(x);
}

/// The tags of the objects of one source, by object name.
pub open spec fn tags_of(tm: &NameMap<String>) -> Map<Seq<char>, Seq<char>> {
    tm.map().map_values(|s: String| s@)
}

impl Engine {
    /// Whether `value` may stand where type `t` is declared; the problems
    /// found are appended to `issues`.
    fn check_type(
        &self,
        t: &str,
        value: &Value,
        tm: &NameMap<String>,
        issues: &mut Vec<LoadIssue>,
    ) -> (r: bool)
        requires
            self.wf(),
            tm.wf(),
            forall|k: Seq<char>| #[trigger]
                tags_of(tm).dom().contains(k) ==> self.structures().dom().contains(tags_of(tm)[k]),
        ensures
            r == check_value(self.functions(), self.structures(), tags_of(tm), t@, value@).0,
            issues_view(final(issues)@) == issues_view(old(issues)@) + check_value(
                self.functions(),
                self.structures(),
                tags_of(tm),
                t@,
                value@,
            ).1,
        decreases value,
    {
        let ghost fns = self.functions();
        let ghost structs = self.structures();
        let ghost tmv = tags_of(tm);
        let ghost old_is = issues_view(issues@);
        let line = value.line;
        let col = value.col;
        match &value.value {
            ValueVariant::String(_) => {
                let st = TypeTag::string();
                if !str_eq(t, st.name()) {
                    report(issues, LoadIssue::NotAString);
                    return false;
                }
                assert(old_is + seq![] =~= old_is);
                true
            },
            ValueVariant::Invoke(name, args) => {
                let entry = match self.functions.get(name.as_str()) {
                    Some(e) => e,
                    None => {
                        report(issues, LoadIssue::UnknownFunction { line, col, name: name.clone() });
                        return false;
                    },
                };
                if !str_eq(entry.ret.name(), t) {
                    report(issues, LoadIssue::WrongReturnType { line, col, name: name.clone() });
                    return false;
                }
                if entry.params.len() != args.len() {
                    report(
                        issues,
                        LoadIssue::WrongArgCount {
                            line,
                            col,
                            name: name.clone(),
                            expected: entry.params.len(),
                            given: args.len(),
                        },
                    );
                    return false;
                }
                let ghost params = fns[name@].params;
                let ghost av = value@.value->Invoke_1;
                let mut i: usize = 0;
                while i < args.len()
                    invariant
                        self.wf(),
                        tm.wf(),
                        fns == self.functions(),
                        structs == self.structures(),
                        tmv == tags_of(tm),
                        forall|k: Seq<char>| #[trigger]
                            tags_of(tm).dom().contains(k) ==> self.structures().dom().contains(
                                tags_of(tm)[k],
                            ),
                        i <= args.len(),
                        av.len() == args.len(),
                        params.len() == args.len(),
                        params == tags_view(entry.params@),
                        entry.params.len() == args.len(),
                        value.value is Invoke && value.value->Invoke_1 == *args,
                        value@.value == ValueKind::Invoke(name@, av),
                        line == value.line && col == value.col,
                        fns.dom().contains(name@),
                        fns[name@].ret == t@,
                        fns[name@].params == params,
                        old_is == issues_view(old(issues)@),
                        forall|j: int| 0 <= j < args.len() ==> #[trigger] av[j] == args@[j]@,
                        check_args(fns, structs, tmv, line as nat, col as nat, name@, params, av, i as int).0
                            == check_args(fns, structs, tmv, line as nat, col as nat, name@, params, av, 0).0,
                        issues_view(issues@) + check_args(fns, structs, tmv, line as nat, col as nat, name@, params, av, i as int).1
                            == old_is + check_args(fns, structs, tmv, line as nat, col as nat, name@, params, av, 0).1,
                    decreases args.len() - i,
                {
                    proof {
                        assert(decreases_to!(*value => value.value));
                        assert(decreases_to!(value.value => value.value->Invoke_1));
                        assert(decreases_to!(*args => args@));
                        assert(decreases_to!(args@ => args@[i as int]));
                    }
                    let ghost before = issues_view(issues@);
                    let ghost rest = check_args(fns, structs, tmv, line as nat, col as nat, name@, params, av, i + 1);
                    let ok = self.check_type(entry.params[i].name(), &args[i], tm, issues);
                    if !ok {
                        report(issues, LoadIssue::WrongArgument { line, col, index: i, name: name.clone() });
                        proof {
                            let cv = check_value(fns, structs, tmv, params[i as int], av[i as int]);
                            assert(issues_view(issues@) =~= before + cv.1.push(
                                IssueView::WrongArgument { line: line as nat, col: col as nat, index: i as nat, name: name@ },
                            ));
                        }
                        return false;
                    }
                    proof {
                        let cv = check_value(fns, structs, tmv, params[i as int], av[i as int]);
                        assert(issues_view(issues@) + rest.1 =~= before + (cv.1 + rest.1));
                    }
                    i = i + 1;
                }
                assert(issues_view(issues@) + seq![] =~= issues_view(issues@));
                true
            },
            ValueVariant::Query(items) => {
                let ghost iv = strings_view(items@);
                if items.len() != 2 {
                    report(issues, LoadIssue::QueryLength { line, col });
                    return false;
                }
                assert(iv[0] == items@[0]@ && iv[1] == items@[1]@);
                let tag = match tm.get(items[0].as_str()) {
                    Some(tag) => tag,
                    None => {
                        report(
                            issues,
                            LoadIssue::UnknownObject { line, col, name: items[0].clone() },
                        );
                        return false;
                    },
                };
                assert(tmv[iv[0]] == tag@);
                let s = match self.structures.get(tag.as_str()) {
                    Some(s) => s,
                    None => {
                        proof {
                            assert(false);
                        }
                        return false;
                    },
                };
                let ft = match s.get_field(items[1].as_str()) {
                    Some(ft) => ft,
                    None => {
                        report(
                            issues,
                            LoadIssue::MissingField {
                                line,
                                col,
                                tag: tag.clone(),
                                field: items[1].clone(),
                            },
                        );
                        return false;
                    },
                };
                if !str_eq(ft.name(), t) {
                    report(
                        issues,
                        LoadIssue::WrongFieldType { line, col, field: items[1].clone() },
                    );
                    return false;
                }
                assert(old_is + seq![] =~= old_is);
                true
            },
        }
    }
}

/// Whether `o` sets every field that `s` declares.
fn declares_every_field(o: &Object, s: &Structure) -> (r: bool)
    ensures
        r == declares_all(o@.data, s.field_types()),
{
    let names = s.field_names();
    let mut i: usize = 0;
    while i < names.len()
        invariant
            i <= names.len(),
            forall|k: Seq<char>| #[trigger]
                s.field_types().dom().contains(k) <==> exists|j: int|
                    0 <= j < names.len() && #[trigger] names@[j]@ == k,
            forall|j: int| 0 <= j < i ==> data_map(o@.data).dom().contains(#[trigger] names@[j]@),
        decreases names.len() - i,
    {
        proof {
            lemma_data_map_key_index(o@.data, names@[i as int]@);
            assert(s.field_types().dom().contains(names@[i as int]@));
        }
        if o.get_field(names[i].as_str()).is_none() {
            return false;
        }
        i = i + 1;
    }
    proof {
        assert forall|f: Seq<char>| #[trigger] s.field_types().dom().contains(f) implies data_map(
            o@.data,
        ).dom().contains(f) by {
            let j = choose|j: int| 0 <= j < names.len() && #[trigger] names@[j]@ == f;
        }
    }
    true
}

/// The proxy of an object loaded under `tag`, with a proxy for each field.
fn object_proxy(tag: String, o: &Object) -> (r: ObjectProxy)
    ensures
        r.wf(),
        r.view() == (ObjectProxyView { tag: tag@, fields: data_map(o@.data) }),
{
    let ghost dv = o@.data;
    let mut fields: NameMap<Proxy> = NameMap::new();
    let mut i: usize = 0;
    assert(fields.map().map_values(|p: Proxy| p@) =~= data_map(dv.subrange(0, 0)));
    while i < o.data.len()
        invariant
            i <= o.data.len(),
            dv == o@.data,
            dv.len() == o.data.len(),
            fields.wf(),
            fields.map().map_values(|p: Proxy| p@) == data_map(dv.subrange(0, i as int)),
        decreases o.data.len() - i,
    {
        let key = o.data[i].0.value.clone();
        let p = proxy_of(&o.data[i].1);
        let ghost before = fields.map();
        fields.insert(key, p);
        proof {
            let d = dv.subrange(0, i + 1);
            assert(d.drop_last() =~= dv.subrange(0, i as int));
            assert(d.last() == dv[i as int]);
            assert(fields.map().map_values(|p: Proxy| p@) =~= data_map(d));
        }
        i = i + 1;
    }
    assert(dv.subrange(0, o.data.len() as int) =~= dv);
    ObjectProxy { tag, fields }
}

impl Engine {
    /// Whether every field of `o` is declared by `s` and holds a value of
    /// the declared type; the problems found are appended to `issues`.
    fn check_object(
        &self,
        o: &Object,
        s: &Structure,
        tm: &NameMap<String>,
        issues: &mut Vec<LoadIssue>,
    ) -> (r: bool)
        requires
            self.wf(),
            tm.wf(),
            forall|k: Seq<char>| #[trigger]
                tags_of(tm).dom().contains(k) ==> self.structures().dom().contains(tags_of(tm)[k]),
        ensures
            r == check_fields(
                self.functions(),
                self.structures(),
                tags_of(tm),
                s.field_types(),
                o@.data,
                0,
            ).0,
            issues_view(final(issues)@) == issues_view(old(issues)@) + check_fields(
                self.functions(),
                self.structures(),
                tags_of(tm),
                s.field_types(),
                o@.data,
                0,
            ).1,
    {
        let ghost fns = self.functions();
        let ghost structs = self.structures();
        let ghost tmv = tags_of(tm);
        let ghost ft = s.field_types();
        let ghost dv = o@.data;
        let ghost old_is = issues_view(issues@);
        let mut i: usize = 0;
        while i < o.data.len()
            invariant
                self.wf(),
                tm.wf(),
                fns == self.functions(),
                structs == self.structures(),
                tmv == tags_of(tm),
                ft == s.field_types(),
                dv == o@.data,
                dv.len() == o.data.len(),
                forall|k: Seq<char>| #[trigger]
                    tags_of(tm).dom().contains(k) ==> self.structures().dom().contains(
                        tags_of(tm)[k],
                    ),
                i <= o.data.len(),
                old_is == issues_view(old(issues)@),
                check_fields(fns, structs, tmv, ft, dv, i as int).0 == check_fields(
                    fns,
                    structs,
                    tmv,
                    ft,
                    dv,
                    0,
                ).0,
                issues_view(issues@) + check_fields(fns, structs, tmv, ft, dv, i as int).1
                    == old_is + check_fields(fns, structs, tmv, ft, dv, 0).1,
            decreases o.data.len() - i,
        {
            let key = &o.data[i].0;
            let ghost before = issues_view(issues@);
            let ghost rest = check_fields(fns, structs, tmv, ft, dv, i + 1);
            assert(dv[i as int].0 == key@);
            let t = match s.get_field(key.value.as_str()) {
                Some(t) => t,
                None => {
                    report(issues, LoadIssue::UnknownField { line: key.line, col: key.col });
                    return false;
                },
            };
            let ok = self.check_type(t.name(), &o.data[i].1, tm, issues);
            if !ok {
                return false;
            }
            proof {
                let cv = check_value(fns, structs, tmv, ft[dv[i as int].0.value], dv[i as int].1);
                assert(issues_view(issues@) + rest.1 =~= before + (cv.1 + rest.1));
            }
            i = i + 1;
        }
        assert(issues_view(issues@) + seq![] =~= issues_view(issues@));
        true
    }

    /// Loads the parsed objects `parsed`; the problems found are returned
    /// in the order they were found.
    pub fn load_objects(&mut self, parsed: &Vec<Object>) -> (issues: Vec<LoadIssue>)
        requires
            old(self).wf(),
        ensures
            final(self).wf(),
            final(self).functions() == old(self).functions(),
            final(self).structures() == old(self).structures(),
            final(self).function_names() == old(self).function_names(),
            final(self).structure_tags() == old(self).structure_tags(),
            final(self).structure_texts() == old(self).structure_texts(),
            (final(self).objects(), issues_view(issues@)) == load_spec(
                old(self).objects(),
                old(self).functions(),
                old(self).structures(),
                objects_view(parsed@),
            ),
    {
        let ghost names0 = self.function_names();
        let ghost tags0 = self.structure_tags();
        let ghost texts0 = self.structure_texts();
        let ghost fns = self.functions();
        let ghost structs = self.structures();
        let ghost os = objects_view(parsed@);
        let ghost init = self.objects();
        let mut issues: Vec<LoadIssue> = Vec::new();
        let mut tm: NameMap<String> = NameMap::new();
        let mut i: usize = 0;
        assert(tags_of(&tm) =~= Map::<Seq<char>, Seq<char>>::empty());
        assert(issues_view(issues@) =~= seq![]);
        while i < parsed.len()
            invariant
                self.wf(),
                fns == self.functions(),
                structs == self.structures(),
                names0 == self.function_names(),
                tags0 == self.structure_tags(),
                texts0 == self.structure_texts(),
                os == objects_view(parsed@),
                i <= parsed.len(),
                tm.wf(),
                (tags_of(&tm), issues_view(issues@)) == tag_pass(structs, os.subrange(0, i as int)),
            decreases parsed.len() - i,
        {
            let o = &parsed[i];
            let ghost sub = os.subrange(0, i + 1);
            proof {
                assert(sub.drop_last() =~= os.subrange(0, i as int));
                assert(sub.last() == o@);
            }
            if !self.structures.contains(o.get_tag()) {
                report(
                    &mut issues,
                    LoadIssue::Unregistered { line: o.line, col: o.col, tag: o.tag.value.clone() },
                );
            } else if tm.contains(o.get_name()) {
                report(
                    &mut issues,
                    LoadIssue::DuplicateObject {
                        line: o.name.line,
                        col: o.name.col,
                        name: o.name.value.clone(),
                    },
                );
            } else {
                let ghost before = tags_of(&tm);
                tm.insert(o.name.value.clone(), o.tag.value.clone());
                assert(tags_of(&tm) =~= before.insert(o@.name.value, o@.tag.value));
            }
            i = i + 1;
        }
        assert(os.subrange(0, parsed.len() as int) =~= os);
        let ghost tmv = tags_of(&tm);
        let ghost is1 = issues_view(issues@);
        proof {
            lemma_tag_pass_registered(structs, os);
            assert forall|k: Seq<char>| #[trigger]
                tags_of(&tm).dom().contains(k) implies self.structures().dom().contains(
                    tags_of(&tm)[k],
                ) by {
                assert(tag_pass(structs, os).0.dom().contains(k));
            }
        }
        assert(load_pass(fns, structs, tmv, os.subrange(0, 0), init) == (init, Seq::<IssueView>::empty()));
        assert(is1 + Seq::<IssueView>::empty() =~= is1);
        let mut i: usize = 0;
        while i < parsed.len()
            invariant
                self.wf(),
                fns == self.functions(),
                structs == self.structures(),
                names0 == self.function_names(),
                tags0 == self.structure_tags(),
                texts0 == self.structure_texts(),
                os == objects_view(parsed@),
                i <= parsed.len(),
                tm.wf(),
                tmv == tags_of(&tm),
                forall|k: Seq<char>| #[trigger]
                    tags_of(&tm).dom().contains(k) ==> self.structures().dom().contains(
                        tags_of(&tm)[k],
                    ),
                self.objects() == load_pass(fns, structs, tmv, os.subrange(0, i as int), init).0,
                conforms(init, structs),
                issues_view(issues@) == is1 + load_pass(
                    fns,
                    structs,
                    tmv,
                    os.subrange(0, i as int),
                    init,
                ).1,
            decreases parsed.len() - i,
        {
            let o = &parsed[i];
            let ghost sub = os.subrange(0, i + 1);
            let ghost prev = load_pass(fns, structs, tmv, os.subrange(0, i as int), init);
            proof {
                assert(sub.drop_last() =~= os.subrange(0, i as int));
                assert(sub.last() == o@);
            }
            match tm.get(o.get_name()) {
                None => {},
                Some(tag) => {
                    assert(tags_of(&tm).dom().contains(o@.name.value));
                    assert(self.structures.map().dom().contains(tag@));
                    let s = match self.structures.get(tag.as_str()) {
                        Some(s) => s,
                        None => {
                            proof {
                                assert(false);
                            }
                            return issues;
                        },
                    };
                    let ghost before = issues_view(issues@);
                    let ok = self.check_object(o, s, &tm, &mut issues);
                    proof {
                        let cf = check_fields(fns, structs, tmv, structs[tag@], o@.data, 0);
                        assert(issues_view(issues@) =~= is1 + (prev.1 + cf.1));
                    }
                    proof {
                        lemma_load_pass_conforms(fns, structs, tmv, sub, init);
                    }
                    if ok && !declares_every_field(o, s) {
                        let ghost before2 = issues_view(issues@);
                        report(
                            &mut issues,
                            LoadIssue::IncompleteObject {
                                line: o.line,
                                col: o.col,
                                name: o.name.value.clone(),
                            },
                        );
                        proof {
                            let cf = check_fields(fns, structs, tmv, structs[tag@], o@.data, 0);
                            assert(issues_view(issues@) =~= is1 + (prev.1 + cf.1).push(
                                IssueView::IncompleteObject {
                                    line: o@.line,
                                    col: o@.col,
                                    name: o@.name.value,
                                },
                            ));
                        }
                    } else if ok {
                        let proxy = object_proxy(tag.clone(), o);
                        let ghost m0 = self.objects.map();
                        self.objects.insert(o.name.value.clone(), proxy);
                        proof {
                            assert forall|k: Seq<char>| #[trigger]
                                self.objects.map().dom().contains(k) implies self.objects.map()[k].wf() by {
                                if k != o@.name.value {
                                    assert(m0.dom().contains(k));
                                }
                            }
                            assert(self.objects() =~= prev.0.insert(
                                o@.name.value,
                                ObjectProxyView { tag: tag@, fields: data_map(o@.data) },
                            ));
                        }
                    }
                },
            }
            i = i + 1;
        }
        assert(os.subrange(0, parsed.len() as int) =~= os);
        issues
    }

    /// Loads the objects of `src`; the problems found are returned in the
    /// order they were found.
    pub fn load(&mut self, src: &str) -> (issues: Vec<LoadIssue>)
        requires
            old(self).wf(),
            parse_source(src@) is Some,
        ensures
            final(self).wf(),
            final(self).functions() == old(self).functions(),
            final(self).structures() == old(self).structures(),
            final(self).text() == old(self).text(),
            (final(self).objects(), issues_view(issues@)) == load_spec(
                old(self).objects(),
                old(self).functions(),
                old(self).structures(),
                parse_source(src@)->0,
            ),
    {
        let lexer = Lexer::new(src);
        let parsed = parse(lexer);
        self.load_objects(&parsed)
    }

    /// Loads the objects of `src` as [`Engine::load`] does, or gives `None`
    /// and leaves the engine as it was where the lexer would hit an
    /// identifier whose slice of `src` fails.
    pub fn try_load(&mut self, src: &str) -> (r: Option<Vec<LoadIssue>>)
        requires
            old(self).wf(),
        ensures
            final(self).wf(),
            final(self).functions() == old(self).functions(),
            final(self).structures() == old(self).structures(),
            final(self).text() == old(self).text(),
            match parse_source(src@) {
                None => r is None && final(self).objects() == old(self).objects(),
                Some(os) => r matches Some(is) && (final(self).objects(), issues_view(is@))
                    == load_spec(old(self).objects(), old(self).functions(), old(self).structures(), os),
            },
    {
        let probe = Lexer::new(src);
        match try_parse(probe) {
            None => None,
            Some(_) => Some(self.load(src)),
        }
    }
}

} // verus!
