//! Objects of skaf source and the parser that reads them from tokens.
//!
//! A source text is a sequence of objects, each written
//! `tag name { field: value ... }`, separated by line feeds. A name is an
//! identifier, or any tokens between braces (`}}` stands for `}` there). A
//! value is a string literal, a query `?object.field`, or a function call
//! `.function argument ...` that runs to the end of the line.

use vstd::prelude::*;
use vstd::utf8::is_ascii_chars;
use crate::lex::{kind_text, push_char, lemma_ascii_clean, lemma_place_advances, lemma_scan_advances, lemma_token_position, place, place_before, token_start, scan, LexOutcome, Lexer, LexicalToken, LexicalTokenVariant, Scan, TokenKind, TokenView};

verus! {

/// A name and where it was written. Two identifiers name the same thing when
/// their texts agree.
#[derive(Debug)]
pub struct Identifier {
    pub line: usize,
    pub col: usize,
    pub value: String,
}

#[derive(Debug)]
pub struct Value {
    pub line: usize,
    pub col: usize,
    pub value: ValueVariant,
}

#[derive(Debug)]
pub enum ValueVariant {
    String(String),
    Invoke(String, Vec<Value>),
    Query(Vec<String>),
}

/// A parsed object. Its fields are kept in the order they were first
/// written, each name once.
#[derive(Debug)]
pub struct Object {
    pub line: usize,
    pub col: usize,
    pub tag: Identifier,
    pub name: Identifier,
    pub data: Vec<(Identifier, Value)>,
}

pub struct IdentView {
    pub line: nat,
    pub col: nat,
    pub value: Seq<char>,
}

pub struct ValueView {
    pub line: nat,
    pub col: nat,
    pub value: ValueKind,
}

pub enum ValueKind {
    Str(Seq<char>),
    Invoke(Seq<char>, Seq<ValueView>),
    Query(Seq<Seq<char>>),
}

pub struct ObjectView {
    pub line: nat,
    pub col: nat,
    pub tag: IdentView,
    pub name: IdentView,
    pub data: Seq<(IdentView, ValueView)>,
}

impl View for Identifier {
    type V = IdentView;

    open spec fn view(&self) -> IdentView {
        IdentView { line: self.line as nat, col: self.col as nat, value: self.value@ }
    }
}

pub open spec fn strings_view(s: Seq<String>) -> Seq<Seq<char>> {
    Seq::new(s.len(), |i: int| s[i]@)
}

pub open spec fn value_view(v: Value) -> ValueView
    decreases v,
{
    ValueView {
        line: v.line as nat,
        col: v.col as nat,
        value: match v.value {
            ValueVariant::String(s) => ValueKind::Str(s@),
            ValueVariant::Invoke(n, args) => ValueKind::Invoke(
                n@,
                Seq::new(
                    args@.len(),
                    |i: int|
                        if 0 <= i < args@.len() {
                            value_view(args@[i])
                        } else {
                            ValueView { line: 0, col: 0, value: ValueKind::Str(seq![]) }
                        },
                ),
            ),
            ValueVariant::Query(p) => ValueKind::Query(strings_view(p@)),
        },
    }
}

impl View for Value {
    type V = ValueView;

    open spec fn view(&self) -> ValueView {
        value_view(*self)
    }
}

pub open spec fn values_view(vs: Seq<Value>) -> Seq<ValueView> {
    Seq::new(vs.len(), |i: int| vs[i]@)
}

pub open spec fn data_view(d: Seq<(Identifier, Value)>) -> Seq<(IdentView, ValueView)> {
    Seq::new(d.len(), |i: int| (d[i].0@, d[i].1@))
}

impl View for Object {
    type V = ObjectView;

    open spec fn view(&self) -> ObjectView {
        ObjectView {
            line: self.line as nat,
            col: self.col as nat,
            tag: self.tag@,
            name: self.name@,
            data: data_view(self.data@),
        }
    }
}

impl PartialEq for Identifier {
    fn eq(&self, other: &Self) -> (r: bool) {
        self.value == other.value
    }
}

impl vstd::std_specs::cmp::PartialEqSpecImpl for Identifier {
    open spec fn obeys_eq_spec() -> bool {
        true
    }

    open spec fn eq_spec(&self, other: &Self) -> bool {
        self.value@ == other.value@
    }
}

impl Eq for Identifier {}

impl core::hash::Hash for Identifier {
    /// Calls std's `Hash::hash` for `String` on the text alone, so that
    /// identifiers equal by `==` hash alike; no contract is claimed of it.
    #[verifier::external_body]
    fn hash<H: core::hash::Hasher>(&self, state: &mut H) {
        self.value.hash(state);
    }
}

impl Clone for Identifier {
    fn clone(&self) -> (r: Self)
        ensures
            r@ == self@,
    {
        Identifier { line: self.line, col: self.col, value: self.value.clone() }
    }
}

/// A copy of `v`.
fn clone_value(v: &Value) -> (r: Value)
    ensures
        r@ == v@,
    decreases v,
{
    let value = match &v.value {
        ValueVariant::String(s) => ValueVariant::String(s.clone()),
        ValueVariant::Invoke(n, args) => {
            let mut out: Vec<Value> = Vec::new();
            let mut i: usize = 0;
            while i < args.len()
                invariant
                    v.value is Invoke,
                    *args == v.value->Invoke_1,
                    i <= args.len(),
                    out.len() == i,
                    forall|k: int| 0 <= k < i ==> #[trigger] out@[k]@ == args@[k]@,
                decreases args.len() - i,
            {
                proof {
                    assert(decreases_to!(*v => args@[i as int]));
                }
                out.push(clone_value(&args[i]));
                i = i + 1;
            }
            let ghost copied = out@;
            let r = Value { line: v.line, col: v.col, value: ValueVariant::Invoke(n.clone(), out) };
            proof {
                assert(r.value->Invoke_1@ == copied);
                assert(r@.value->Invoke_1 =~= v@.value->Invoke_1) by {
                    assert forall|k: int| 0 <= k < copied.len() implies value_view(copied[k])
                        == value_view(args@[k]) by {
                        assert(copied[k]@ == args@[k]@);
                    }
                }
            }
            return r;
        },
        ValueVariant::Query(p) => {
            let mut out: Vec<String> = Vec::new();
            let mut i: usize = 0;
            while i < p.len()
                invariant
                    i <= p.len(),
                    out.len() == i,
                    forall|k: int| 0 <= k < i ==> #[trigger] out@[k]@ == p@[k]@,
                decreases p.len() - i,
            {
                out.push(p[i].clone());
                i = i + 1;
            }
            ValueVariant::Query(out)
        },
    };
    let r = Value { line: v.line, col: v.col, value };
    proof {
        match (&v.value, &r.value) {
            (ValueVariant::Query(a), ValueVariant::Query(b)) => {
                assert(strings_view(b@) =~= strings_view(a@));
            },
            _ => {},
        }
    }
    r
}

impl Clone for Value {
    fn clone(&self) -> (r: Self)
        ensures
            r@ == self@,
    {
        clone_value(self)
    }
}

impl Clone for Object {
    fn clone(&self) -> (r: Self)
        ensures
            r@ == self@,
    {
        let mut data: Vec<(Identifier, Value)> = Vec::new();
        let mut i: usize = 0;
        while i < self.data.len()
            invariant
                i <= self.data.len(),
                data.len() == i,
                forall|k: int| 0 <= k < i ==> #[trigger] data@[k].0@ == self.data@[k].0@
                    && data@[k].1@ == self.data@[k].1@,
            decreases self.data.len() - i,
        {
            let entry = &self.data[i];
            let name = entry.0.clone();
            assert(name@ == self.data@[i as int].0@);
            let value = clone_value(&entry.1);
            data.push((name, value));
            i = i + 1;
        }
        let r = Object {
            line: self.line,
            col: self.col,
            tag: self.tag.clone(),
            name: self.name.clone(),
            data,
        };
        assert(data_view(r.data@) =~= data_view(self.data@));
        r
    }
}

/// The index of the field named `key`, or -1.
pub open spec fn key_index(d: Seq<(IdentView, ValueView)>, key: Seq<char>) -> int
    decreases d.len(),
{
    if d.len() == 0 {
        -1
    } else if d.last().0.value == key {
        d.len() - 1
    } else {
        key_index(d.drop_last(), key)
    }
}

/// Sets field `key` to `v`: a field of the same name keeps its place and its
/// identifier and takes the new value; otherwise the field is appended.
pub open spec fn data_insert(d: Seq<(IdentView, ValueView)>, key: IdentView, v: ValueView) -> Seq<
    (IdentView, ValueView),
> {
    let i = key_index(d, key.value);
    if i >= 0 {
        d.update(i, (d[i].0, v))
    } else {
        d.push((key, v))
    }
}

pub proof fn lemma_key_index(d: Seq<(IdentView, ValueView)>, key: Seq<char>)
    ensures
        -1 <= key_index(d, key) < d.len(),
        key_index(d, key) >= 0 ==> d[key_index(d, key)].0.value == key,
        key_index(d, key) == -1 ==> forall|i: int| 0 <= i < d.len() ==> d[i].0.value != key,
        forall|i: int| key_index(d, key) < i < d.len() ==> d[i].0.value != key,
    decreases d.len(),
{
    if d.len() > 0 && d.last().0.value != key {
        let e = d.drop_last();
        lemma_key_index(e, key);
        assert forall|i: int| key_index(d, key) < i < d.len() implies d[i].0.value != key by {
            if i < d.len() - 1 {
                assert(d[i] == e[i]);
            }
        }
        assert forall|i: int| key_index(d, key) == -1 && 0 <= i < d.len() implies d[i].0.value
            != key by {
            if i < d.len() - 1 {
                assert(d[i] == e[i]);
            }
        }
    }
}

impl Object {
    pub fn get_tag(&self) -> (r: &str)
        ensures
            r@ == self.tag.value@,
    {
        self.tag.value.as_str()
    }

    pub fn get_name(&self) -> (r: &str)
        ensures
            r@ == self.name.value@,
    {
        self.name.value.as_str()
    }

    /// The value of the field named `key`.
    pub fn get_field(&self, key: &str) -> (r: Option<&Value>)
        ensures
            ({
                let i = key_index(self@.data, key@);
                if i >= 0 {
                    r matches Some(v) && v@ == self@.data[i].1
                } else {
                    r is None
                }
            }),
    {
        let ghost d = self@.data;
        let mut i = self.data.len();
        assert(d.subrange(0, i as int) =~= d);
        while i > 0
            invariant
                i <= self.data.len(),
                d == self@.data,
                forall|j: int| i <= j < self.data.len() ==> d[j].0.value != key@,
                key_index(d, key@) == key_index(d.subrange(0, i as int), key@),
            decreases i,
        {
            let k = &self.data[i - 1].0;
            if str_eq(k.value.as_str(), key) {
                assert(d.subrange(0, i as int).last() == d[i - 1]);
                return Some(&self.data[i - 1].1);
            }
            assert(d.subrange(0, i as int).drop_last() =~= d.subrange(0, i - 1));
            i = i - 1;
        }
        None
    }
}

/// Whether two texts are the same.
pub(crate) fn str_eq(a: &str, b: &str) -> (r: bool)
    ensures
        r == (a@ == b@),
{
    let x = a.to_owned();
    let y = b.to_owned();
    x == y
}

/// The tokens a stream has still to give: those it will produce, and
/// whether the lexer then hits an identifier whose slice fails.
#[verifier::ext_equal]
pub struct Feed {
    pub toks: Seq<TokenView>,
    pub dirty: bool,
}

/// The tokens of `cs` from position `p` on.
pub open spec fn feed_from(cs: Seq<char>, p: int) -> Feed
    decreases cs.len() - p,
{
    match scan(cs, p) {
        Scan::Token(t, q) => if p < q <= cs.len() {
            let f = feed_from(cs, q);
            Feed { toks: seq![t] + f.toks, dirty: f.dirty }
        } else {
            Feed { toks: seq![t], dirty: false }
        },
        Scan::Done => Feed { toks: seq![], dirty: false },
        Scan::Dirty => Feed { toks: seq![], dirty: true },
    }
}

/// The tokens of a whole source text.
pub open spec fn source_feed(cs: Seq<char>) -> Feed {
    feed_from(cs, 0)
}

/// The tokens of an ASCII text from position `p` on end without a failing
/// identifier slice, and there are no more of them than characters left.
pub proof fn lemma_ascii_feed(cs: Seq<char>, p: int)
    requires
        is_ascii_chars(cs),
        0 <= p <= cs.len(),
    ensures
        !feed_from(cs, p).dirty,
        feed_from(cs, p).toks.len() <= cs.len() - p,
    decreases cs.len() - p,
{
    lemma_ascii_clean(cs, p);
    lemma_scan_advances(cs, p);
    if let Scan::Token(_, q) = scan(cs, p) {
        lemma_ascii_feed(cs, q);
    }
}

/// What a stream shows next.
pub enum Look {
    Tok(TokenView),
    End,
    Dirty,
}

pub open spec fn look(f: Feed) -> Look {
    if f.toks.len() > 0 {
        Look::Tok(f.toks[0])
    } else if f.dirty {
        Look::Dirty
    } else {
        Look::End
    }
}

/// The stream after its next token is taken (unchanged when there is none).
pub open spec fn adv(f: Feed) -> Feed {
    if f.toks.len() > 0 {
        Feed { toks: f.toks.drop_first(), dirty: f.dirty }
    } else {
        f
    }
}

pub open spec fn next_is(f: Feed, k: TokenKind) -> bool {
    look(f) matches Look::Tok(t) && t.kind == k
}

/// The outcome of a parsing step on a stream.
pub enum Parsed<T> {
    /// A result and what is left of the stream.
    Got(T, Feed),
    /// No result; what is left of the stream (tokens may have been taken).
    Failed(Feed),
    /// The lexer hit an identifier whose slice fails.
    Panic,
}

pub open spec fn parse_identifier_spec(f: Feed) -> Parsed<IdentView> {
    match look(f) {
        Look::Dirty => Parsed::Panic,
        Look::End => Parsed::Failed(f),
        Look::Tok(t) => match t.kind {
            TokenKind::Identifier(v) => Parsed::Got(
                IdentView { line: t.line, col: t.col, value: v },
                adv(f),
            ),
            TokenKind::LeftCurlyBrace => braced_spec(adv(f), t.line, t.col, seq![]),
            _ => Parsed::Failed(f),
        },
    }
}

/// The rest of a braced identifier, `acc` being the text read so far.
pub open spec fn braced_spec(f: Feed, line: nat, col: nat, acc: Seq<char>) -> Parsed<IdentView>
    decreases f.toks.len(),
{
    match look(f) {
        Look::Dirty => Parsed::Panic,
        Look::End => Parsed::Failed(f),
        Look::Tok(t) => if t.kind is RightCurlyBrace {
            let g = adv(f);
            match look(g) {
                Look::Dirty => Parsed::Panic,
                Look::Tok(u) => if u.kind is RightCurlyBrace {
                    braced_spec(adv(g), line, col, acc.push('}'))
                } else {
                    Parsed::Got(IdentView { line, col, value: acc }, g)
                },
                Look::End => Parsed::Got(IdentView { line, col, value: acc }, g),
            }
        } else {
            braced_spec(adv(f), line, col, acc + kind_text(t.kind))
        },
    }
}

pub open spec fn parse_value_spec(f: Feed) -> Parsed<ValueView>
    decreases f.toks.len(), 0nat,
{
    match look(f) {
        Look::Dirty => Parsed::Panic,
        Look::End => Parsed::Failed(f),
        Look::Tok(t) => match t.kind {
            TokenKind::Str(v) => Parsed::Got(
                ValueView { line: t.line, col: t.col, value: ValueKind::Str(v) },
                adv(f),
            ),
            TokenKind::Query => query_spec(adv(f), t.line, t.col, seq![]),
            TokenKind::Dot => match parse_identifier_spec(adv(f)) {
                Parsed::Panic => Parsed::Panic,
                Parsed::Failed(g) => Parsed::Failed(g),
                Parsed::Got(name, g) => if g.toks.len() < f.toks.len() {
                    invoke_spec(g, t.line, t.col, name.value, seq![])
                } else {
                    Parsed::Panic
                },
            },
            _ => Parsed::Failed(f),
        },
    }
}

/// The rest of a query: dot-separated identifiers until one is missing.
pub open spec fn query_spec(f: Feed, line: nat, col: nat, path: Seq<Seq<char>>) -> Parsed<ValueView>
    decreases f.toks.len(),
{
    match parse_identifier_spec(f) {
        Parsed::Panic => Parsed::Panic,
        Parsed::Failed(g) => Parsed::Got(ValueView { line, col, value: ValueKind::Query(path) }, g),
        Parsed::Got(id, g) => if g.toks.len() < f.toks.len() {
            match look(g) {
                Look::Dirty => Parsed::Panic,
                _ => if next_is(g, TokenKind::Dot) {
                    query_spec(adv(g), line, col, path.push(id.value))
                } else {
                    query_spec(g, line, col, path.push(id.value))
                },
            }
        } else {
            Parsed::Panic
        },
    }
}

/// The arguments of a call, read until a line feed or the end of the tokens.
pub open spec fn invoke_spec(
    f: Feed,
    line: nat,
    col: nat,
    name: Seq<char>,
    vals: Seq<ValueView>,
) -> Parsed<ValueView>
    decreases f.toks.len(), 1nat,
{
    match look(f) {
        Look::Dirty => Parsed::Panic,
        Look::End => Parsed::Got(ValueView { line, col, value: ValueKind::Invoke(name, vals) }, f),
        Look::Tok(t) => if t.kind is NewLine {
            Parsed::Got(ValueView { line, col, value: ValueKind::Invoke(name, vals) }, f)
        } else {
            match parse_value_spec(f) {
                Parsed::Panic => Parsed::Panic,
                Parsed::Failed(g) => Parsed::Failed(g),
                Parsed::Got(v, g) => if g.toks.len() < f.toks.len() {
                    invoke_spec(g, line, col, name, vals.push(v))
                } else {
                    Parsed::Panic
                },
            }
        },
    }
}

/// The stream after an optional line feed.
pub open spec fn skip_newline(f: Feed) -> Feed {
    if next_is(f, TokenKind::NewLine) {
        adv(f)
    } else {
        f
    }
}

pub open spec fn parse_object_spec(f: Feed) -> Parsed<ObjectView> {
    match look(f) {
        Look::Dirty => Parsed::Panic,
        Look::End => Parsed::Failed(f),
        Look::Tok(t) => match parse_identifier_spec(f) {
            Parsed::Panic => Parsed::Panic,
            Parsed::Failed(g) => Parsed::Failed(g),
            Parsed::Got(tag, g) => match parse_identifier_spec(g) {
                Parsed::Panic => Parsed::Panic,
                Parsed::Failed(h) => Parsed::Failed(h),
                Parsed::Got(name, h) => match look(h) {
                    Look::Dirty => Parsed::Panic,
                    Look::End => Parsed::Failed(h),
                    Look::Tok(u) => if !(u.kind is LeftCurlyBrace) {
                        Parsed::Failed(h)
                    } else if look(adv(h)) is Dirty {
                        Parsed::Panic
                    } else {
                        fields_spec(skip_newline(adv(h)), t.line, t.col, tag, name, seq![])
                    },
                },
            },
        },
    }
}

/// The fields of an object, read until a closing brace or the end of the tokens.
pub open spec fn fields_spec(
    f: Feed,
    line: nat,
    col: nat,
    tag: IdentView,
    name: IdentView,
    data: Seq<(IdentView, ValueView)>,
) -> Parsed<ObjectView>
    decreases f.toks.len(),
{
    let done = ObjectView { line, col, tag, name, data };
    match look(f) {
        Look::Dirty => Parsed::Panic,
        Look::End => Parsed::Got(done, f),
        Look::Tok(t) => if t.kind is RightCurlyBrace {
            Parsed::Got(done, adv(f))
        } else {
            match parse_identifier_spec(f) {
                Parsed::Panic => Parsed::Panic,
                Parsed::Failed(g) => Parsed::Failed(g),
                Parsed::Got(key, g) => match look(g) {
                    Look::Dirty => Parsed::Panic,
                    Look::End => Parsed::Failed(g),
                    Look::Tok(c) => if !(c.kind is Colon) {
                        Parsed::Failed(adv(g))
                    } else {
                        match parse_value_spec(adv(g)) {
                            Parsed::Panic => Parsed::Panic,
                            Parsed::Failed(h) => Parsed::Failed(h),
                            Parsed::Got(v, h) => if look(h) is Dirty {
                                Parsed::Panic
                            } else if skip_newline(h).toks.len() < f.toks.len() {
                                fields_spec(
                                    skip_newline(h),
                                    line,
                                    col,
                                    tag,
                                    name,
                                    data_insert(data, key, v),
                                )
                            } else {
                                Parsed::Panic
                            },
                        }
                    },
                },
            }
        },
    }
}

/// The objects of a stream, read while objects or line feeds follow. `None`
/// when the lexer hits an identifier whose slice fails on the way.
pub open spec fn parse_spec(f: Feed, objs: Seq<ObjectView>) -> Option<Seq<ObjectView>>
    decreases f.toks.len(),
{
    match parse_object_spec(f) {
        Parsed::Panic => None,
        Parsed::Got(o, g) => if g.toks.len() < f.toks.len() {
            parse_spec(g, objs.push(o))
        } else {
            None
        },
        Parsed::Failed(g) => match look(g) {
            Look::Dirty => None,
            Look::End => Some(objs),
            Look::Tok(t) => if t.kind is NewLine && g.toks.len() <= f.toks.len() {
                parse_spec(adv(g), objs)
            } else {
                Some(objs)
            },
        },
    }
}

/// The objects of a whole source text.
pub open spec fn parse_source(cs: Seq<char>) -> Option<Seq<ObjectView>> {
    parse_spec(source_feed(cs), seq![])
}

/// No two fields of the object have the same name.
pub open spec fn fields_named_once(o: ObjectView) -> bool {
    forall|i: int, j: int|
        0 <= i < j < o.data.len() ==> #[trigger] o.data[i].0.value != #[trigger] o.data[j].0.value
}

proof fn lemma_data_insert_named_once(d: Seq<(IdentView, ValueView)>, key: IdentView, v: ValueView)
    requires
        forall|i: int, j: int| 0 <= i < j < d.len() ==> #[trigger] d[i].0.value != #[trigger] d[j].0.value,
    ensures
        ({
            let e = data_insert(d, key, v);
            forall|i: int, j: int| 0 <= i < j < e.len() ==> #[trigger] e[i].0.value != #[trigger] e[j].0.value
        }),
{
    lemma_key_index(d, key.value);
    let e = data_insert(d, key, v);
    assert forall|i: int, j: int| 0 <= i < j < e.len() implies #[trigger] e[i].0.value
        != #[trigger] e[j].0.value by {
        if key_index(d, key.value) < 0 && j == d.len() {
            assert(e[i] == d[i]);
        } else {
            assert(e[i].0 == d[i].0 && e[j].0 == d[j].0);
        }
    }
}

proof fn lemma_fields_named_once(
    f: Feed,
    line: nat,
    col: nat,
    tag: IdentView,
    name: IdentView,
    data: Seq<(IdentView, ValueView)>,
)
    requires
        forall|i: int, j: int|
            0 <= i < j < data.len() ==> #[trigger] data[i].0.value != #[trigger] data[j].0.value,
    ensures
        fields_spec(f, line, col, tag, name, data) matches Parsed::Got(o, _) ==> fields_named_once(o),
    decreases f.toks.len(),
{
    match look(f) {
        Look::Tok(t) => if !(t.kind is RightCurlyBrace) {
            match parse_identifier_spec(f) {
                Parsed::Got(key, g) => match look(g) {
                    Look::Tok(c) => if c.kind is Colon {
                        match parse_value_spec(adv(g)) {
                            Parsed::Got(v, h) => if !(look(h) is Dirty) && skip_newline(h).toks.len()
                                < f.toks.len() {
                                lemma_data_insert_named_once(data, key, v);
                                lemma_fields_named_once(
                                    skip_newline(h),
                                    line,
                                    col,
                                    tag,
                                    name,
                                    data_insert(data, key, v),
                                );
                            },
                            _ => {},
                        }
                    },
                    _ => {},
                },
                _ => {},
            }
        },
        _ => {},
    }
}

proof fn lemma_parse_spec_named_once(f: Feed, objs: Seq<ObjectView>)
    requires
        forall|k: int| 0 <= k < objs.len() ==> fields_named_once(#[trigger] objs[k]),
    ensures
        parse_spec(f, objs) matches Some(os) ==> forall|k: int|
            0 <= k < os.len() ==> fields_named_once(#[trigger] os[k]),
    decreases f.toks.len(),
{
    match parse_object_spec(f) {
        Parsed::Got(o, g) => {
            if g.toks.len() < f.toks.len() {
                match look(f) {
                    Look::Tok(t) => match parse_identifier_spec(f) {
                        Parsed::Got(tag, g1) => match parse_identifier_spec(g1) {
                            Parsed::Got(name, h) => {
                                lemma_fields_named_once(
                                    skip_newline(adv(h)),
                                    t.line,
                                    t.col,
                                    tag,
                                    name,
                                    seq![],
                                );
                            },
                            _ => {},
                        },
                        _ => {},
                    },
                    _ => {},
                }
                let next = objs.push(o);
                assert forall|k: int| 0 <= k < next.len() implies fields_named_once(#[trigger] next[k]) by {
                    if k < objs.len() {
                        assert(next[k] == objs[k]);
                    }
                }
                lemma_parse_spec_named_once(g, next);
            }
        },
        Parsed::Failed(g) => match look(g) {
            Look::Tok(t) => if t.kind is NewLine && g.toks.len() <= f.toks.len() {
                lemma_parse_spec_named_once(adv(g), objs);
            },
            _ => {},
        },
        Parsed::Panic => {},
    }
}

/// Every object read from a source names each of its fields once.
pub proof fn lemma_parse_source_named_once(cs: Seq<char>)
    ensures
        parse_source(cs) matches Some(os) ==> forall|k: int|
            0 <= k < os.len() ==> fields_named_once(#[trigger] os[k]),
{
    lemma_parse_spec_named_once(source_feed(cs), seq![]);
}

/// Whether a parsing step left no more of the stream than it found (strictly
/// less after a result when `strict`).
pub open spec fn shrinks<T>(p: Parsed<T>, f: Feed, strict: bool) -> bool {
    match p {
        Parsed::Got(_, g) => tail_of(g, f) && if strict {
            g.toks.len() < f.toks.len()
        } else {
            g.toks.len() <= f.toks.len()
        },
        Parsed::Failed(g) => tail_of(g, f) && g.toks.len() <= f.toks.len(),
        Parsed::Panic => true,
    }
}

/// `g` is what is left of `f` after some of its first tokens are taken.
pub open spec fn tail_of(g: Feed, f: Feed) -> bool {
    &&& g.toks.len() <= f.toks.len()
    &&& g.toks == f.toks.subrange(f.toks.len() - g.toks.len(), f.toks.len() as int)
    &&& g.dirty == f.dirty
}

proof fn lemma_tail_of_trans(h: Feed, g: Feed, f: Feed)
    requires
        tail_of(h, g),
        tail_of(g, f),
    ensures
        tail_of(h, f),
{
    assert(h.toks =~= f.toks.subrange(f.toks.len() - h.toks.len(), f.toks.len() as int));
}

broadcast proof fn lemma_tail_of_adv(f: Feed)
    ensures
        #[trigger] tail_of(adv(f), f),
{
    if f.toks.len() > 0 {
        assert(adv(f).toks =~= f.toks.subrange(1, f.toks.len() as int));
    } else {
        assert(f.toks =~= f.toks.subrange(0, 0));
    }
}

broadcast proof fn lemma_tail_of_refl(f: Feed)
    ensures
        #[trigger] tail_of(f, f),
{
    assert(f.toks =~= f.toks.subrange(0, f.toks.len() as int));
}


broadcast group group_tail_of {
    lemma_tail_of_adv,
    lemma_tail_of_refl,
}

proof fn lemma_tail_parsed<T>(p: Parsed<T>, g: Feed, f: Feed)
    requires
        tail_of(g, f),
        p matches Parsed::Got(_, h) ==> tail_of(h, g),
        p matches Parsed::Failed(h) ==> tail_of(h, g),
    ensures
        p matches Parsed::Got(_, h) ==> tail_of(h, f),
        p matches Parsed::Failed(h) ==> tail_of(h, f),
{
    match p {
        Parsed::Got(_, h) => lemma_tail_of_trans(h, g, f),
        Parsed::Failed(h) => lemma_tail_of_trans(h, g, f),
        Parsed::Panic => {},
    }
}

proof fn lemma_tail_skip_newline(f: Feed)
    ensures
        tail_of(skip_newline(f), f),
{
    broadcast use group_tail_of;

}

proof fn lemma_braced_shrinks(f: Feed, line: nat, col: nat, acc: Seq<char>)
    ensures
        shrinks(braced_spec(f, line, col, acc), f, true),
    decreases f.toks.len(),
{
    broadcast use group_tail_of;

    if let Look::Tok(t) = look(f) {
        if t.kind is RightCurlyBrace {
            let g = adv(f);
            if let Look::Tok(u) = look(g) {
                if u.kind is RightCurlyBrace {
                    lemma_braced_shrinks(adv(g), line, col, acc.push('}'));
                    lemma_tail_of_trans(adv(g), g, f);
                    lemma_tail_parsed(braced_spec(adv(g), line, col, acc.push('}')), adv(g), f);
                }
            }
        } else {
            lemma_braced_shrinks(adv(f), line, col, acc + kind_text(t.kind));
            lemma_tail_parsed(braced_spec(adv(f), line, col, acc + kind_text(t.kind)), adv(f), f);
        }
    }
}

proof fn lemma_identifier_shrinks(f: Feed)
    ensures
        shrinks(parse_identifier_spec(f), f, true),
{
    broadcast use group_tail_of;

    if let Look::Tok(t) = look(f) {
        if t.kind is LeftCurlyBrace {
            lemma_braced_shrinks(adv(f), t.line, t.col, seq![]);
            lemma_tail_parsed(braced_spec(adv(f), t.line, t.col, seq![]), adv(f), f);
        }
    }
}

proof fn lemma_query_shrinks(f: Feed, line: nat, col: nat, path: Seq<Seq<char>>)
    ensures
        shrinks(query_spec(f, line, col, path), f, false),
    decreases f.toks.len(),
{
    broadcast use group_tail_of;

    lemma_identifier_shrinks(f);
    if let Parsed::Got(id, g) = parse_identifier_spec(f) {
        if !(look(g) is Dirty) {
            if next_is(g, TokenKind::Dot) {
                lemma_query_shrinks(adv(g), line, col, path.push(id.value));
                lemma_tail_of_trans(adv(g), g, f);
                lemma_tail_parsed(query_spec(adv(g), line, col, path.push(id.value)), adv(g), f);
            } else {
                lemma_query_shrinks(g, line, col, path.push(id.value));
                lemma_tail_parsed(query_spec(g, line, col, path.push(id.value)), g, f);
            }
        }
    }
}

proof fn lemma_value_shrinks(f: Feed)
    ensures
        shrinks(parse_value_spec(f), f, true),
    decreases f.toks.len(), 0nat,
{
    broadcast use group_tail_of;

    if let Look::Tok(t) = look(f) {
        match t.kind {
            TokenKind::Query => {
                lemma_query_shrinks(adv(f), t.line, t.col, seq![]);
                lemma_tail_parsed(query_spec(adv(f), t.line, t.col, seq![]), adv(f), f);
            },
            TokenKind::Dot => {
                lemma_identifier_shrinks(adv(f));
                lemma_tail_parsed(parse_identifier_spec(adv(f)), adv(f), f);
                if let Parsed::Got(name, g) = parse_identifier_spec(adv(f)) {
                    lemma_invoke_shrinks(g, t.line, t.col, name.value, seq![]);
                    lemma_tail_parsed(invoke_spec(g, t.line, t.col, name.value, seq![]), g, f);
                }
            },
            _ => {},
        }
    }
}

proof fn lemma_invoke_shrinks(
    f: Feed,
    line: nat,
    col: nat,
    name: Seq<char>,
    vals: Seq<ValueView>,
)
    ensures
        shrinks(invoke_spec(f, line, col, name, vals), f, false),
    decreases f.toks.len(), 1nat,
{
    broadcast use group_tail_of;

    if let Look::Tok(t) = look(f) {
        if !(t.kind is NewLine) {
            lemma_value_shrinks(f);
            if let Parsed::Got(v, g) = parse_value_spec(f) {
                lemma_invoke_shrinks(g, line, col, name, vals.push(v));
                lemma_tail_parsed(invoke_spec(g, line, col, name, vals.push(v)), g, f);
            }
        }
    }
}

proof fn lemma_fields_shrinks(
    f: Feed,
    line: nat,
    col: nat,
    tag: IdentView,
    name: IdentView,
    data: Seq<(IdentView, ValueView)>,
)
    ensures
        shrinks(fields_spec(f, line, col, tag, name, data), f, false),
    decreases f.toks.len(),
{
    broadcast use group_tail_of;

    if let Look::Tok(t) = look(f) {
        if !(t.kind is RightCurlyBrace) {
            lemma_identifier_shrinks(f);
            if let Parsed::Got(key, g) = parse_identifier_spec(f) {
                if let Look::Tok(c) = look(g) {
                    if c.kind is Colon {
                        lemma_tail_of_trans(adv(g), g, f);
                        lemma_value_shrinks(adv(g));
                        lemma_tail_parsed(parse_value_spec(adv(g)), adv(g), f);
                        if let Parsed::Got(v, h) = parse_value_spec(adv(g)) {
                            if !(look(h) is Dirty) && skip_newline(h).toks.len() < f.toks.len() {
                                lemma_tail_skip_newline(h);
                                lemma_tail_of_trans(skip_newline(h), h, f);
                                lemma_fields_shrinks(
                                    skip_newline(h),
                                    line,
                                    col,
                                    tag,
                                    name,
                                    data_insert(data, key, v),
                                );
                                lemma_tail_parsed(
                                    fields_spec(
                                        skip_newline(h),
                                        line,
                                        col,
                                        tag,
                                        name,
                                        data_insert(data, key, v),
                                    ),
                                    skip_newline(h),
                                    f,
                                );
                            }
                        }
                    } else {
                        lemma_tail_of_trans(adv(g), g, f);
                    }
                }
            }
        }
    }
}

proof fn lemma_object_shrinks(f: Feed)
    ensures
        shrinks(parse_object_spec(f), f, true),
{
    broadcast use group_tail_of;

    if let Look::Tok(t) = look(f) {
        lemma_identifier_shrinks(f);
        if let Parsed::Got(tag, g) = parse_identifier_spec(f) {
            lemma_identifier_shrinks(g);
            lemma_tail_parsed(parse_identifier_spec(g), g, f);
            if let Parsed::Got(name, h) = parse_identifier_spec(g) {
                if let Look::Tok(u) = look(h) {
                    if u.kind is LeftCurlyBrace && !(look(adv(h)) is Dirty) {
                        let k = skip_newline(adv(h));
                        lemma_tail_skip_newline(adv(h));
                        lemma_tail_of_trans(adv(h), h, f);
                        lemma_tail_of_trans(k, adv(h), f);
                        lemma_fields_shrinks(k, t.line, t.col, tag, name, seq![]);
                        lemma_tail_parsed(fields_spec(k, t.line, t.col, tag, name, seq![]), k, f);
                    }
                }
            }
        }
    }
}

/// The line and column of a token.
pub open spec fn tok_place(t: TokenView) -> (nat, nat) {
    (t.line, t.col)
}

/// The line and column of an object: those of its first token.
pub open spec fn object_place(o: ObjectView) -> (nat, nat) {
    (o.line, o.col)
}

/// Each token comes at a later place than the ones before it.
pub open spec fn toks_in_order(toks: Seq<TokenView>) -> bool {
    forall|i: int, j: int|
        0 <= i < j < toks.len() ==> place_before(tok_place(#[trigger] toks[i]), tok_place(#[trigger] toks[j]))
}

/// Each object comes at a later place than the ones before it.
pub open spec fn objects_in_order(os: Seq<ObjectView>) -> bool {
    forall|i: int, j: int|
        0 <= i < j < os.len() ==> place_before(object_place(#[trigger] os[i]), object_place(#[trigger] os[j]))
}

/// The tokens of a text come in the order of their places, each after the
/// place reached at the position they are read from.
pub proof fn lemma_feed_in_order(cs: Seq<char>, p: int)
    requires
        0 <= p <= cs.len(),
    ensures
        toks_in_order(feed_from(cs, p).toks),
        forall|k: int|
            0 <= k < feed_from(cs, p).toks.len() ==> place_before(
                place(cs, p),
                tok_place(#[trigger] feed_from(cs, p).toks[k]),
            ),
    decreases cs.len() - p,
{
    lemma_token_position(cs, p);
    lemma_scan_advances(cs, p);
    if let Scan::Token(t, q) = scan(cs, p) {
        lemma_feed_in_order(cs, q);
        let i = token_start(cs, p);
        let rest = feed_from(cs, q).toks;
        let toks = feed_from(cs, p).toks;
        assert(toks == seq![t] + rest);
        lemma_place_advances(cs, p, i + 1);
        if i + 1 < q {
            lemma_place_advances(cs, i + 1, q);
        }
        assert(tok_place(t) == place(cs, i + 1));
        assert forall|k: int| 0 <= k < toks.len() implies place_before(
            place(cs, p),
            tok_place(#[trigger] toks[k]),
        ) by {
            if k > 0 {
                assert(toks[k] == rest[k - 1]);
            }
        }
        assert forall|a: int, b: int| 0 <= a < b < toks.len() implies place_before(
            tok_place(#[trigger] toks[a]),
            tok_place(#[trigger] toks[b]),
        ) by {
            assert(toks[b] == rest[b - 1]);
            if a > 0 {
                assert(toks[a] == rest[a - 1]);
            }
        }
    }
}

proof fn lemma_fields_place(
    f: Feed,
    line: nat,
    col: nat,
    tag: IdentView,
    name: IdentView,
    data: Seq<(IdentView, ValueView)>,
)
    ensures
        fields_spec(f, line, col, tag, name, data) matches Parsed::Got(o, _) ==> o.line == line
            && o.col == col,
    decreases f.toks.len(),
{
    match look(f) {
        Look::Tok(t) => if !(t.kind is RightCurlyBrace) {
            match parse_identifier_spec(f) {
                Parsed::Got(key, g) => match look(g) {
                    Look::Tok(c) => if c.kind is Colon {
                        match parse_value_spec(adv(g)) {
                            Parsed::Got(v, h) => if !(look(h) is Dirty) && skip_newline(h).toks.len()
                                < f.toks.len() {
                                lemma_fields_place(
                                    skip_newline(h),
                                    line,
                                    col,
                                    tag,
                                    name,
                                    data_insert(data, key, v),
                                );
                            },
                            _ => {},
                        }
                    },
                    _ => {},
                },
                _ => {},
            }
        },
        _ => {},
    }
}

/// An object read from a stream is at the place of the stream's first
/// token, its tag's first token.
pub proof fn lemma_object_place(f: Feed)
    ensures
        parse_object_spec(f) matches Parsed::Got(o, _) ==> f.toks.len() > 0 && object_place(o)
            == tok_place(f.toks[0]),
{
    if let Look::Tok(t) = look(f) {
        if let Parsed::Got(tag, g) = parse_identifier_spec(f) {
            if let Parsed::Got(name, h) = parse_identifier_spec(g) {
                lemma_fields_place(skip_newline(adv(h)), t.line, t.col, tag, name, seq![]);
            }
        }
    }
}

proof fn lemma_parse_spec_order(f: Feed, objs: Seq<ObjectView>)
    requires
        toks_in_order(f.toks),
        objects_in_order(objs),
        forall|k: int, m: int|
            0 <= k < objs.len() && 0 <= m < f.toks.len() ==> place_before(
                object_place(#[trigger] objs[k]),
                tok_place(#[trigger] f.toks[m]),
            ),
    ensures
        parse_spec(f, objs) matches Some(os) ==> objects_in_order(os),
    decreases f.toks.len(),
{
    lemma_object_shrinks(f);
    match parse_object_spec(f) {
        Parsed::Got(o, g) => {
            if g.toks.len() < f.toks.len() {
                lemma_object_place(f);
                let n = f.toks.len() - g.toks.len();
                assert forall|m: int| 0 <= m < g.toks.len() implies #[trigger] g.toks[m] == f.toks[n
                    + m] by {}
                let next = objs.push(o);
                assert forall|a: int, b: int| 0 <= a < b < next.len() implies place_before(
                    object_place(#[trigger] next[a]),
                    object_place(#[trigger] next[b]),
                ) by {
                    assert(next[a] == objs[a]);
                    if b < objs.len() {
                        assert(next[b] == objs[b]);
                    } else {
                        assert(place_before(object_place(objs[a]), tok_place(f.toks[0])));
                    }
                }
                assert forall|a: int, b: int| 0 <= a < b < g.toks.len() implies place_before(
                    tok_place(#[trigger] g.toks[a]),
                    tok_place(#[trigger] g.toks[b]),
                ) by {
                    assert(g.toks[a] == f.toks[n + a] && g.toks[b] == f.toks[n + b]);
                }
                assert forall|k: int, m: int| 0 <= k < next.len() && 0 <= m < g.toks.len() implies place_before(
                    object_place(#[trigger] next[k]),
                    tok_place(#[trigger] g.toks[m]),
                ) by {
                    assert(g.toks[m] == f.toks[n + m]);
                    if k < objs.len() {
                        assert(next[k] == objs[k]);
                    } else {
                        assert(place_before(tok_place(f.toks[0]), tok_place(f.toks[n + m])));
                    }
                }
                lemma_parse_spec_order(g, next);
            }
        },
        Parsed::Failed(g) => match look(g) {
            Look::Tok(t) => if t.kind is NewLine && g.toks.len() <= f.toks.len() {
                let h = adv(g);
                let n = f.toks.len() - h.toks.len();
                assert(h.toks == g.toks.drop_first());
                assert forall|m: int| 0 <= m < h.toks.len() implies #[trigger] h.toks[m] == f.toks[n
                    + m] by {
                    assert(h.toks[m] == g.toks[m + 1]);
                    assert(g.toks[m + 1] == f.toks[f.toks.len() - g.toks.len() + m + 1]);
                }
                assert forall|a: int, b: int| 0 <= a < b < h.toks.len() implies place_before(
                    tok_place(#[trigger] h.toks[a]),
                    tok_place(#[trigger] h.toks[b]),
                ) by {
                    assert(h.toks[a] == f.toks[n + a] && h.toks[b] == f.toks[n + b]);
                }
                assert forall|k: int, m: int| 0 <= k < objs.len() && 0 <= m < h.toks.len() implies place_before(
                    object_place(#[trigger] objs[k]),
                    tok_place(#[trigger] h.toks[m]),
                ) by {
                    assert(h.toks[m] == f.toks[n + m]);
                }
                lemma_parse_spec_order(h, objs);
            },
            _ => {},
        },
        Parsed::Panic => {},
    }
}

/// The objects read from a source come in the order of their places in it.
pub proof fn lemma_parse_source_in_order(cs: Seq<char>)
    ensures
        parse_source(cs) matches Some(os) ==> objects_in_order(os),
{
    lemma_feed_in_order(cs, 0);
    lemma_parse_spec_order(source_feed(cs), seq![]);
}

proof fn lemma_braced_no_panic(f: Feed, line: nat, col: nat, acc: Seq<char>)
    requires
        !f.dirty,
    ensures
        !(braced_spec(f, line, col, acc) is Panic),
    decreases f.toks.len(),
{
    if let Look::Tok(t) = look(f) {
        if t.kind is RightCurlyBrace {
            let g = adv(f);
            if let Look::Tok(u) = look(g) {
                if u.kind is RightCurlyBrace {
                    lemma_braced_no_panic(adv(g), line, col, acc.push('}'));
                }
            }
        } else {
            lemma_braced_no_panic(adv(f), line, col, acc + kind_text(t.kind));
        }
    }
}

proof fn lemma_identifier_no_panic(f: Feed)
    requires
        !f.dirty,
    ensures
        !(parse_identifier_spec(f) is Panic),
{
    if let Look::Tok(t) = look(f) {
        if t.kind is LeftCurlyBrace {
            lemma_braced_no_panic(adv(f), t.line, t.col, seq![]);
        }
    }
}

proof fn lemma_query_no_panic(f: Feed, line: nat, col: nat, path: Seq<Seq<char>>)
    requires
        !f.dirty,
    ensures
        !(query_spec(f, line, col, path) is Panic),
    decreases f.toks.len(),
{
    lemma_identifier_no_panic(f);
    lemma_identifier_shrinks(f);
    if let Parsed::Got(id, g) = parse_identifier_spec(f) {
        if next_is(g, TokenKind::Dot) {
            lemma_query_no_panic(adv(g), line, col, path.push(id.value));
        } else {
            lemma_query_no_panic(g, line, col, path.push(id.value));
        }
    }
}

proof fn lemma_value_no_panic(f: Feed)
    requires
        !f.dirty,
    ensures
        !(parse_value_spec(f) is Panic),
    decreases f.toks.len(), 0nat,
{
    if let Look::Tok(t) = look(f) {
        match t.kind {
            TokenKind::Query => {
                lemma_query_no_panic(adv(f), t.line, t.col, seq![]);
            },
            TokenKind::Dot => {
                lemma_identifier_no_panic(adv(f));
                lemma_identifier_shrinks(adv(f));
                if let Parsed::Got(name, g) = parse_identifier_spec(adv(f)) {
                    lemma_invoke_no_panic(g, t.line, t.col, name.value, seq![]);
                }
            },
            _ => {},
        }
    }
}

proof fn lemma_invoke_no_panic(
    f: Feed,
    line: nat,
    col: nat,
    name: Seq<char>,
    vals: Seq<ValueView>,
)
    requires
        !f.dirty,
    ensures
        !(invoke_spec(f, line, col, name, vals) is Panic),
    decreases f.toks.len(), 1nat,
{
    if let Look::Tok(t) = look(f) {
        if !(t.kind is NewLine) {
            lemma_value_no_panic(f);
            lemma_value_shrinks(f);
            if let Parsed::Got(v, g) = parse_value_spec(f) {
                lemma_invoke_no_panic(g, line, col, name, vals.push(v));
            }
        }
    }
}

proof fn lemma_fields_no_panic(
    f: Feed,
    line: nat,
    col: nat,
    tag: IdentView,
    name: IdentView,
    data: Seq<(IdentView, ValueView)>,
)
    requires
        !f.dirty,
    ensures
        !(fields_spec(f, line, col, tag, name, data) is Panic),
    decreases f.toks.len(),
{
    if let Look::Tok(t) = look(f) {
        if !(t.kind is RightCurlyBrace) {
            lemma_identifier_no_panic(f);
            lemma_identifier_shrinks(f);
            if let Parsed::Got(key, g) = parse_identifier_spec(f) {
                if let Look::Tok(c) = look(g) {
                    if c.kind is Colon {
                        lemma_value_no_panic(adv(g));
                        lemma_value_shrinks(adv(g));
                        if let Parsed::Got(v, h) = parse_value_spec(adv(g)) {
                            lemma_tail_skip_newline(h);
                            lemma_fields_no_panic(
                                skip_newline(h),
                                line,
                                col,
                                tag,
                                name,
                                data_insert(data, key, v),
                            );
                        }
                    }
                }
            }
        }
    }
}

proof fn lemma_object_no_panic(f: Feed)
    requires
        !f.dirty,
    ensures
        !(parse_object_spec(f) is Panic),
{
    if let Look::Tok(t) = look(f) {
        lemma_identifier_no_panic(f);
        lemma_identifier_shrinks(f);
        if let Parsed::Got(tag, g) = parse_identifier_spec(f) {
            lemma_identifier_no_panic(g);
            lemma_identifier_shrinks(g);
            if let Parsed::Got(name, h) = parse_identifier_spec(g) {
                if let Look::Tok(u) = look(h) {
                    if u.kind is LeftCurlyBrace {
                        lemma_tail_skip_newline(adv(h));
                        lemma_fields_no_panic(skip_newline(adv(h)), t.line, t.col, tag, name, seq![]);
                    }
                }
            }
        }
    }
}

proof fn lemma_parse_spec_no_panic(f: Feed, objs: Seq<ObjectView>)
    requires
        !f.dirty,
    ensures
        parse_spec(f, objs) is Some,
    decreases f.toks.len(),
{
    lemma_object_no_panic(f);
    lemma_object_shrinks(f);
    match parse_object_spec(f) {
        Parsed::Got(o, g) => {
            lemma_parse_spec_no_panic(g, objs.push(o));
        },
        Parsed::Failed(g) => match look(g) {
            Look::Tok(t) => if t.kind is NewLine {
                lemma_parse_spec_no_panic(adv(g), objs);
            },
            _ => {},
        },
        Parsed::Panic => {},
    }
}

/// An ASCII source parses cleanly: reading its objects never reaches an
/// identifier whose slice fails.
pub proof fn lemma_ascii_parses(cs: Seq<char>)
    requires
        is_ascii_chars(cs),
    ensures
        parse_source(cs) is Some,
{
    lemma_ascii_feed(cs, 0);
    lemma_parse_spec_no_panic(source_feed(cs), seq![]);
}

/// The objects read from an ASCII source come in the order of their places
/// in it, each at the place of its first token.
pub proof fn lemma_ascii_parse_in_order(cs: Seq<char>)
    requires
        is_ascii_chars(cs),
    ensures
        parse_source(cs) is Some,
        objects_in_order(parse_source(cs)->0),
{
    lemma_ascii_parses(cs);
    lemma_parse_source_in_order(cs);
}

/// A token stream that can show its next token before giving it.
pub struct TokenStream<'a> {
    lexer: Lexer<'a>,
    peeked: Option<Option<LexicalToken>>,
}

impl<'a> TokenStream<'a> {
    pub closed spec fn wf(&self) -> bool {
        self.lexer.wf()
    }

    /// The tokens the stream has still to give.
    pub closed spec fn feed(&self) -> Feed {
        let rest = feed_from(self.lexer.source(), self.lexer.position());
        match self.peeked {
            None => rest,
            Some(None) => Feed { toks: seq![], dirty: false },
            Some(Some(t)) => Feed { toks: seq![t@] + rest.toks, dirty: rest.dirty },
        }
    }

    pub fn new(lexer: Lexer<'a>) -> (r: Self)
        requires
            lexer.wf(),
        ensures
            r.wf(),
            r.feed() == feed_from(lexer.source(), lexer.position()),
    {
        TokenStream { lexer, peeked: None }
    }

    /// Makes sure the next token has been lexed; `false` when lexing it fails.
    fn fill(&mut self) -> (ok: bool)
        requires
            old(self).wf(),
        ensures
            final(self).wf(),
            ok == !(look(old(self).feed()) is Dirty),
            ok ==> final(self).feed() == old(self).feed(),
            ok ==> match final(self).peeked {
                Some(Some(t)) => look(old(self).feed()) == Look::Tok(t@),
                Some(None) => look(old(self).feed()) is End,
                None => false,
            },
    {
        if self.peeked.is_none() {
            let ghost cs = self.lexer.source();
            let ghost p = self.lexer.position();
            proof {
                self.lexer.lemma_position();
                lemma_scan_advances(cs, p);
            }
            match self.lexer.next_step() {
                LexOutcome::Token(t) => {
                    self.peeked = Some(Some(t));
                },
                LexOutcome::Done => {
                    self.peeked = Some(None);
                },
                LexOutcome::Dirty => {
                    return false;
                },
            }
        }
        true
    }

    /// The token lexed ahead, if any.
    fn current(&self) -> (r: Option<&LexicalToken>)
        ensures
            match self.peeked {
                Some(Some(t)) => r == Some(&t),
                _ => r is None,
            },
    {
        match &self.peeked {
            Some(Some(t)) => Some(t),
            _ => None,
        }
    }

    /// Takes the next token. `Err` when lexing it fails.
    pub fn next(&mut self) -> (r: Result<Option<LexicalToken>, ()>)
        requires
            old(self).wf(),
        ensures
            final(self).wf(),
            match look(old(self).feed()) {
                Look::Dirty => r is Err,
                Look::End => r == Ok::<Option<LexicalToken>, ()>(None) && final(self).feed()
                    == old(self).feed(),
                Look::Tok(t) => (r matches Ok(Some(x)) && x@ == t) && final(self).feed() == adv(
                    old(self).feed(),
                ),
            },
    {
        if !self.fill() {
            return Err(());
        }
        let ghost f = self.feed();
        match self.peeked.take() {
            Some(Some(t)) => {
                assert(self.feed() =~= adv(f));
                Ok(Some(t))
            },
            _ => {
                self.peeked = Some(None);
                Ok(None)
            },
        }
    }
}

/// The kind code of the next token (6 at the end); `None` when lexing it fails.
fn peek_code(tokens: &mut TokenStream) -> (r: Option<u8>)
    requires
        old(tokens).wf(),
    ensures
        final(tokens).wf(),
        r is None <==> look(old(tokens).feed()) is Dirty,
        r is Some ==> final(tokens).feed() == old(tokens).feed(),
        r matches Some(c) ==> c == look_code(look(old(tokens).feed())),
{
    if !tokens.fill() {
        return None;
    }
    match tokens.current() {
        None => Some(6),
        Some(t) => Some(code_of(&t.variant)),
    }
}

pub open spec fn look_code(l: Look) -> u8 {
    match l {
        Look::Tok(t) => kind_code(t.kind),
        _ => 6,
    }
}

/// A number for the token kinds the parser tests for.
pub open spec fn kind_code(k: TokenKind) -> u8 {
    match k {
        TokenKind::NewLine => 0,
        TokenKind::Dot => 1,
        TokenKind::RightCurlyBrace => 2,
        TokenKind::LeftCurlyBrace => 3,
        TokenKind::Colon => 4,
        _ => 5,
    }
}

fn code_of(v: &LexicalTokenVariant) -> (r: u8)
    ensures
        r == kind_code(v@),
{
    match v {
        LexicalTokenVariant::NewLine => 0,
        LexicalTokenVariant::Dot => 1,
        LexicalTokenVariant::RightCurlyBrace => 2,
        LexicalTokenVariant::LeftCurlyBrace => 3,
        LexicalTokenVariant::Colon => 4,
        _ => 5,
    }
}

proof fn lemma_kind_code(k: TokenKind)
    ensures
        (kind_code(k) == 0) == (k is NewLine),
        (kind_code(k) == 1) == (k is Dot),
        (kind_code(k) == 2) == (k is RightCurlyBrace),
        (kind_code(k) == 3) == (k is LeftCurlyBrace),
        (kind_code(k) == 4) == (k is Colon),
{
}

/// The views of a sequence of objects.
pub open spec fn objects_view(os: Seq<Object>) -> Seq<ObjectView> {
    Seq::new(os.len(), |i: int| os[i]@)
}

/// Reads an identifier: a plain identifier token, or the tokens between a
/// `{` and the next single `}` (a doubled `}}` stands for `}`), written out
/// as text. `Err` when the lexer hits an identifier whose slice fails.
fn parse_identifier(tokens: &mut TokenStream) -> (r: Result<Option<Identifier>, ()>)
    requires
        old(tokens).wf(),
    ensures
        final(tokens).wf(),
        match parse_identifier_spec(old(tokens).feed()) {
            Parsed::Panic => r is Err,
            Parsed::Failed(g) => r == Ok::<Option<Identifier>, ()>(None) && final(tokens).feed()
                == g,
            Parsed::Got(id, g) => (r matches Ok(Some(x)) && x@ == id) && final(tokens).feed() == g,
        },
{
    let ghost f = tokens.feed();
    if !tokens.fill() {
        return Err(());
    }
    let (is_ident, is_brace) = match tokens.current() {
        None => {
            return Ok(None);
        },
        Some(t) => (
            matches!(t.variant, LexicalTokenVariant::Identifier(_)),
            matches!(t.variant, LexicalTokenVariant::LeftCurlyBrace),
        ),
    };
    if is_ident {
        match tokens.next() {
            Ok(Some(LexicalToken { line, col, variant: LexicalTokenVariant::Identifier(value) })) => {
                return Ok(Some(Identifier { line, col, value }));
            },
            _ => {
                proof {
                    assert(false);
                }
                return Err(());
            },
        }
    }
    if !is_brace {
        return Ok(None);
    }
    let (line, col) = match tokens.next() {
        Ok(Some(t)) => (t.line, t.col),
        _ => {
            proof {
                assert(false);
            }
            return Err(());
        },
    };
    let mut ident = String::new();
    loop
        invariant
            tokens.wf(),
            f == old(tokens).feed(),
            braced_spec(tokens.feed(), line as nat, col as nat, ident@) == parse_identifier_spec(f),
        decreases tokens.feed().toks.len(),
    {
        let ghost g = tokens.feed();
        let tok = match tokens.next() {
            Err(_) => {
                assert(braced_spec(g, line as nat, col as nat, ident@) is Panic);
                return Err(());
            },
            Ok(None) => {
                assert(braced_spec(g, line as nat, col as nat, ident@) == Parsed::<IdentView>::Failed(
                    g,
                ));
                return Ok(None);
            },
            Ok(Some(t)) => t,
        };
        if code_of(&tok.variant) == 2 {
            proof {
                lemma_kind_code(tok.variant@);
            }
            match peek_code(tokens) {
                None => {
                    return Err(());
                },
                Some(2) => {
                    proof {
                        lemma_kind_code(look(adv(g))->Tok_0.kind);
                    }
                    let _ = tokens.next();
                    push_char(&mut ident, '}');
                },
                Some(_) => {
                    proof {
                        if let Look::Tok(u) = look(adv(g)) {
                            lemma_kind_code(u.kind);
                        }
                    }
                    return Ok(Some(Identifier { line, col, value: ident }));
                },
            }
        } else {
            proof {
                lemma_kind_code(tok.variant@);
            }
            let text = tok.variant.to_string();
            ident.append(text.as_str());
        }
    }
}

proof fn lemma_strings_view_push(p: Seq<String>, s: String)
    ensures
        strings_view(p.push(s)) == strings_view(p).push(s@),
{
    assert(strings_view(p.push(s)) =~= strings_view(p).push(s@));
}

proof fn lemma_values_view_push(vs: Seq<Value>, v: Value)
    ensures
        values_view(vs.push(v)) == values_view(vs).push(v@),
{
    assert(values_view(vs.push(v)) =~= values_view(vs).push(v@));
}

/// Reads a value: a string literal, a query `?a.b`, or a call `.f args`
/// whose arguments run to the end of the line. `Err` when the lexer hits an
/// identifier whose slice fails.
fn parse_value(tokens: &mut TokenStream) -> (r: Result<Option<Value>, ()>)
    requires
        old(tokens).wf(),
    ensures
        final(tokens).wf(),
        match parse_value_spec(old(tokens).feed()) {
            Parsed::Panic => r is Err,
            Parsed::Failed(g) => r == Ok::<Option<Value>, ()>(None) && final(tokens).feed() == g,
            Parsed::Got(v, g) => (r matches Ok(Some(x)) && x@ == v) && final(tokens).feed() == g,
        },
    decreases old(tokens).feed().toks.len(),
{
    let ghost f = tokens.feed();
    if !tokens.fill() {
        return Err(());
    }
    let (is_str, is_query, is_dot, line, col) = match tokens.current() {
        None => {
            return Ok(None);
        },
        Some(t) => (
            matches!(t.variant, LexicalTokenVariant::String(_)),
            matches!(t.variant, LexicalTokenVariant::Query),
            matches!(t.variant, LexicalTokenVariant::Dot),
            t.line,
            t.col,
        ),
    };
    if is_str {
        match tokens.next() {
            Ok(Some(LexicalToken { line, col, variant: LexicalTokenVariant::String(value) })) => {
                return Ok(Some(Value { line, col, value: ValueVariant::String(value) }));
            },
            _ => {
                proof {
                    assert(false);
                }
                return Err(());
            },
        }
    } else if is_query {
        let _ = tokens.next();
        let mut path: Vec<String> = Vec::new();
        assert(strings_view(path@) =~= seq![]);
        loop
            invariant
                tokens.wf(),
                f == old(tokens).feed(),
                query_spec(tokens.feed(), line as nat, col as nat, strings_view(path@))
                    == parse_value_spec(f),
            decreases tokens.feed().toks.len(),
        {
            let ghost g = tokens.feed();
            proof {
                lemma_identifier_shrinks(g);
            }
            match parse_identifier(tokens) {
                Err(_) => {
                    return Err(());
                },
                Ok(None) => {
                    return Ok(Some(Value { line, col, value: ValueVariant::Query(path) }));
                },
                Ok(Some(id)) => {
                    proof {
                        lemma_strings_view_push(path@, id.value);
                    }
                    path.push(id.value);
                    match peek_code(tokens) {
                        None => {
                            return Err(());
                        },
                        Some(code) => {
                            proof {
                                if let Look::Tok(u) = look(tokens.feed()) {
                                    lemma_kind_code(u.kind);
                                }
                            }
                            if code == 1 {
                                let _ = tokens.next();
                            }
                        },
                    }
                },
            }
        }
    } else if is_dot {
        let _ = tokens.next();
        let ghost h = tokens.feed();
        proof {
            lemma_identifier_shrinks(h);
        }
        let name = match parse_identifier(tokens) {
            Err(_) => {
                return Err(());
            },
            Ok(None) => {
                return Ok(None);
            },
            Ok(Some(n)) => n,
        };
        let mut values: Vec<Value> = Vec::new();
        assert(values_view(values@) =~= seq![]);
        loop
            invariant
                tokens.wf(),
                f == old(tokens).feed(),
                tokens.feed().toks.len() < f.toks.len(),
                invoke_spec(tokens.feed(), line as nat, col as nat, name.value@, values_view(values@))
                    == parse_value_spec(f),
            decreases tokens.feed().toks.len(),
        {
            let ghost g = tokens.feed();
            match peek_code(tokens) {
                None => {
                    return Err(());
                },
                Some(code) => {
                    proof {
                        if let Look::Tok(u) = look(g) {
                            lemma_kind_code(u.kind);
                        }
                    }
                    if code == 0 || code == 6 {
                        let ghost vs = values@;
                        let ghost nm = name.value@;
                        let v = Value { line, col, value: ValueVariant::Invoke(name.value, values) };
                        proof {
                            let a = v@.value->Invoke_1;
                            assert(a =~= values_view(vs));
                        }
                        assert(v@ == (ValueView {
                            line: line as nat,
                            col: col as nat,
                            value: ValueKind::Invoke(nm, values_view(vs)),
                        }));
                        return Ok(Some(v));
                    }
                },
            }
            proof {
                lemma_value_shrinks(g);
            }
            match parse_value(tokens) {
                Err(_) => {
                    return Err(());
                },
                Ok(None) => {
                    return Ok(None);
                },
                Ok(Some(v)) => {
                    proof {
                        lemma_values_view_push(values@, v);
                    }
                    values.push(v);
                },
            }
        }
    } else {
        return Ok(None);
    }
}

/// Sets field `key` of `data` to `value`, as [`data_insert`] describes.
fn insert_field(data: &mut Vec<(Identifier, Value)>, key: Identifier, value: Value)
    ensures
        data_view(final(data)@) == data_insert(data_view(old(data)@), key@, value@),
{
    let ghost d = data_view(data@);
    let mut i = data.len();
    assert(d.subrange(0, i as int) =~= d);
    while i > 0
        invariant
            i <= data.len(),
            data@ == old(data)@,
            d == data_view(data@),
            key_index(d, key@.value) == key_index(d.subrange(0, i as int), key@.value),
        decreases i,
    {
        if str_eq(data[i - 1].0.value.as_str(), key.value.as_str()) {
            assert(d.subrange(0, i as int).last() == d[i - 1]);
            let (k, _) = data.remove(i - 1);
            data.insert(i - 1, (k, value));
            assert(data_view(data@) =~= d.update(i - 1, (d[i - 1].0, value@)));
            return ;
        }
        assert(d.subrange(0, i as int).drop_last() =~= d.subrange(0, i - 1));
        i = i - 1;
    }
    data.push((key, value));
    assert(data_view(data@) =~= d.push((key@, value@)));
}

/// Reads an object `tag name { field: value ... }`. `Err` when the lexer
/// hits an identifier whose slice fails.
fn parse_object(tokens: &mut TokenStream) -> (r: Result<Option<Object>, ()>)
    requires
        old(tokens).wf(),
    ensures
        final(tokens).wf(),
        match parse_object_spec(old(tokens).feed()) {
            Parsed::Panic => r is Err,
            Parsed::Failed(g) => r == Ok::<Option<Object>, ()>(None) && final(tokens).feed() == g,
            Parsed::Got(o, g) => (r matches Ok(Some(x)) && x@ == o) && final(tokens).feed() == g,
        },
{
    let ghost f = tokens.feed();
    if !tokens.fill() {
        return Err(());
    }
    let (line, col) = match tokens.current() {
        None => {
            return Ok(None);
        },
        Some(t) => (t.line, t.col),
    };
    let tag = match parse_identifier(tokens) {
        Err(_) => {
            return Err(());
        },
        Ok(None) => {
            return Ok(None);
        },
        Ok(Some(x)) => x,
    };
    let name = match parse_identifier(tokens) {
        Err(_) => {
            return Err(());
        },
        Ok(None) => {
            return Ok(None);
        },
        Ok(Some(x)) => x,
    };
    let ghost h = tokens.feed();
    match peek_code(tokens) {
        None => {
            return Err(());
        },
        Some(code) => {
            proof {
                if let Look::Tok(u) = look(h) {
                    lemma_kind_code(u.kind);
                }
            }
            if code != 3 {
                return Ok(None);
            }
        },
    }
    let _ = tokens.next();
    let ghost k = tokens.feed();
    match peek_code(tokens) {
        None => {
            return Err(());
        },
        Some(code) => {
            proof {
                if let Look::Tok(u) = look(k) {
                    lemma_kind_code(u.kind);
                }
            }
            if code == 0 {
                let _ = tokens.next();
            }
        },
    }
    let mut data: Vec<(Identifier, Value)> = Vec::new();
    assert(data_view(data@) =~= seq![]);
    loop
        invariant
            tokens.wf(),
            f == old(tokens).feed(),
            fields_spec(tokens.feed(), line as nat, col as nat, tag@, name@, data_view(data@))
                == parse_object_spec(f),
        decreases tokens.feed().toks.len(),
    {
        let ghost g = tokens.feed();
        match peek_code(tokens) {
            None => {
                return Err(());
            },
            Some(code) => {
                proof {
                    if let Look::Tok(u) = look(g) {
                        lemma_kind_code(u.kind);
                    }
                }
                if code == 2 || code == 6 {
                    let _ = tokens.next();
                    return Ok(Some(Object { line, col, name, tag, data }));
                }
            },
        }
        proof {
            lemma_identifier_shrinks(g);
        }
        let key = match parse_identifier(tokens) {
            Err(_) => {
                return Err(());
            },
            Ok(None) => {
                return Ok(None);
            },
            Ok(Some(x)) => x,
        };
        let ghost g2 = tokens.feed();
        match tokens.next() {
            Err(_) => {
                return Err(());
            },
            Ok(Some(t)) => {
                proof {
                    lemma_kind_code(t.variant@);
                }
                if code_of(&t.variant) != 4 {
                    return Ok(None);
                }
            },
            Ok(None) => {
                return Ok(None);
            },
        }
        let ghost g3 = tokens.feed();
        proof {
            lemma_value_shrinks(g3);
        }
        let value = match parse_value(tokens) {
            Err(_) => {
                return Err(());
            },
            Ok(None) => {
                return Ok(None);
            },
            Ok(Some(v)) => v,
        };
        let ghost g4 = tokens.feed();
        match peek_code(tokens) {
            None => {
                return Err(());
            },
            Some(code) => {
                proof {
                    if let Look::Tok(u) = look(g4) {
                        lemma_kind_code(u.kind);
                    }
                }
                if code == 0 {
                    let _ = tokens.next();
                }
            },
        }
        insert_field(&mut data, key, value);
    }
}

/// Reads objects while objects or line feeds follow; `None` when the lexer
/// hits an identifier whose slice fails.
fn parse_checked(tokens: Lexer) -> (r: Option<Vec<Object>>)
    requires
        tokens.wf(),
    ensures
        match parse_spec(feed_from(tokens.source(), tokens.position()), seq![]) {
            None => r is None,
            Some(os) => r matches Some(v) && objects_view(v@) == os,
        },
{
    let mut stream = TokenStream::new(tokens);
    let ghost f = stream.feed();
    let mut objects: Vec<Object> = Vec::new();
    assert(objects_view(objects@) =~= seq![]);
    loop
        invariant
            stream.wf(),
            f == feed_from(tokens.source(), tokens.position()),
            parse_spec(stream.feed(), objects_view(objects@)) == parse_spec(f, seq![]),
        decreases stream.feed().toks.len(),
    {
        let ghost g = stream.feed();
        proof {
            lemma_object_shrinks(g);
        }
        match parse_object(&mut stream) {
            Err(_) => {
                return None;
            },
            Ok(Some(o)) => {
                assert(objects_view(objects@.push(o)) =~= objects_view(objects@).push(o@));
                objects.push(o);
            },
            Ok(None) => {
                match stream.next() {
                    Err(_) => {
                        return None;
                    },
                    Ok(None) => {
                        return Some(objects);
                    },
                    Ok(Some(t)) => {
                        proof {
                            lemma_kind_code(t.variant@);
                        }
                        if code_of(&t.variant) != 0 {
                            return Some(objects);
                        }
                    },
                }
            },
        }
    }
}

/// Whether parsing from the lexer's position goes through without the lexer
/// hitting an identifier whose slice fails.
pub open spec fn parses_cleanly(tokens: &Lexer) -> bool {
    parse_spec(feed_from(tokens.source(), tokens.position()), seq![]) is Some
}

/// The objects read from the tokens: objects are read while objects or line
/// feeds follow, and reading stops at the first token that is neither.
pub fn parse(tokens: Lexer) -> (r: Vec<Object>)
    requires
        tokens.wf(),
        parses_cleanly(&tokens),
    ensures
        parse_spec(feed_from(tokens.source(), tokens.position()), seq![]) == Some(
            objects_view(r@),
        ),
{
    match parse_checked(tokens) {
        Some(v) => v,
        None => {
            proof {
                assert(false);
            }
            Vec::new()
        },
    }
}

/// The objects read from the tokens, as [`parse`] gives them, or `None`
/// where the lexer would hit an identifier whose slice of the source fails.
pub fn try_parse(tokens: Lexer) -> (r: Option<Vec<Object>>)
    requires
        tokens.wf(),
    ensures
        match parse_spec(feed_from(tokens.source(), tokens.position()), seq![]) {
            None => r is None,
            Some(os) => r matches Some(v) && objects_view(v@) == os,
        },
{
    let probe = tokens.duplicate();
    if parse_checked(probe).is_none() {
        return None;
    }
    Some(parse(tokens))
}

/// The stream is at the end of a line: a line feed or the end of the tokens
/// comes next.
pub open spec fn ends_line(f: Feed) -> bool {
    look(f) is End || next_is(f, TokenKind::NewLine)
}

/// `vals` are the values read one after another from `hs[0]`, up to the end
/// of the line: value `i` is read from `hs[i]`, which is not at the end of
/// the line, and leaves `hs[i + 1]`; the last stream is at the end of the
/// line.
pub open spec fn values_on_line(hs: Seq<Feed>, vals: Seq<ValueView>) -> bool {
    &&& hs.len() == vals.len() + 1
    &&& forall|i: int|
        0 <= i < vals.len() ==> !ends_line(hs[i]) && #[trigger] parse_value_spec(hs[i])
            == Parsed::Got(vals[i], hs[i + 1])
    &&& ends_line(hs.last())
}

/// Reading values one after another from `h` up to the end of the line
/// gives `vals` and leaves `r`.
pub open spec fn line_values(h: Feed, vals: Seq<ValueView>, r: Feed) -> bool {
    exists|hs: Seq<Feed>| #[trigger] values_on_line(hs, vals) && hs[0] == h && hs.last() == r
}

/// A call of `name` with arguments `args`, written at `line`, `col`.
pub open spec fn call_view(line: nat, col: nat, name: Seq<char>, args: Seq<ValueView>) -> ValueView {
    ValueView { line, col, value: ValueKind::Invoke(name, args) }
}

proof fn lemma_invoke_values(f: Feed, line: nat, col: nat, name: Seq<char>, vals: Seq<ValueView>)
    ensures
        forall|more: Seq<ValueView>, r: Feed| #[trigger]
            line_values(f, more, r) ==> invoke_spec(f, line, col, name, vals) == Parsed::Got(
                call_view(line, col, name, vals + more),
                r,
            ),
        forall|v: ValueView, r: Feed|
            invoke_spec(f, line, col, name, vals) == Parsed::Got(v, r) ==> (exists|more: Seq<ValueView>|
                #[trigger] line_values(f, more, r) && v == call_view(line, col, name, vals + more)),
    decreases f.toks.len(),
{
    lemma_value_shrinks(f);
    if let Parsed::Got(v0, g) = parse_value_spec(f) {
        if g.toks.len() < f.toks.len() && !ends_line(f) {
            lemma_invoke_values(g, line, col, name, vals.push(v0));
        }
    }
    assert forall|more: Seq<ValueView>, r: Feed| #[trigger]
        line_values(f, more, r) implies invoke_spec(f, line, col, name, vals) == Parsed::Got(
            call_view(line, col, name, vals + more),
            r,
        ) by {
        let hs = choose|hs: Seq<Feed>| #[trigger]
            values_on_line(hs, more) && hs[0] == f && hs.last() == r;
        if more.len() == 0 {
            assert(vals + more =~= vals);
        } else {
            assert(parse_value_spec(hs[0]) == Parsed::Got(more[0], hs[1]));
            let hs2 = hs.drop_first();
            let more2 = more.drop_first();
            assert forall|i: int| 0 <= i < more2.len() implies !ends_line(hs2[i])
                && #[trigger] parse_value_spec(hs2[i]) == Parsed::Got(more2[i], hs2[i + 1]) by {
                assert(parse_value_spec(hs[i + 1]) == Parsed::Got(more[i + 1], hs[i + 2]));
            }
            assert(values_on_line(hs2, more2));
            assert(line_values(hs[1], more2, r));
            assert(vals.push(more[0]) + more2 =~= vals + more);
        }
    }
    assert forall|v: ValueView, r: Feed|
        invoke_spec(f, line, col, name, vals) == Parsed::Got(v, r) implies (exists|more: Seq<ValueView>|
            #[trigger] line_values(f, more, r) && v == call_view(line, col, name, vals + more)) by {
        if ends_line(f) {
            let hs = seq![f];
            let more = Seq::<ValueView>::empty();
            assert(vals + more =~= vals);
            assert(values_on_line(hs, more));
            assert(line_values(f, more, r));
        } else {
            let (v0, g) = match parse_value_spec(f) {
                Parsed::Got(v0, g) => (v0, g),
                _ => (v, r),
            };
            let more2 = choose|more2: Seq<ValueView>| #[trigger]
                line_values(g, more2, r) && v == call_view(line, col, name, vals.push(v0) + more2);
            let hs2 = choose|hs2: Seq<Feed>| #[trigger]
                values_on_line(hs2, more2) && hs2[0] == g && hs2.last() == r;
            let hs = seq![f] + hs2;
            let more = seq![v0] + more2;
            assert forall|i: int| 0 <= i < more.len() implies !ends_line(hs[i])
                && #[trigger] parse_value_spec(hs[i]) == Parsed::Got(more[i], hs[i + 1]) by {
                if i > 0 {
                    assert(hs[i] == hs2[i - 1]);
                    assert(parse_value_spec(hs2[i - 1]) == Parsed::Got(more2[i - 1], hs2[i]));
                }
            }
            assert(values_on_line(hs, more));
            assert(line_values(f, more, r));
            assert(vals.push(v0) + more2 =~= vals + more);
        }
    }
}

/// A call is its name and the values written after it on its line, in the
/// order written, none of them required: where the values read one after
/// another from just after the name run to the end of the line, the call is
/// read with exactly those values as its arguments, and a call that is read
/// has as its arguments such values and leaves the stream at the end of
/// the line.
pub proof fn lemma_call_arguments(f: Feed, t: TokenView, name: IdentView, h: Feed)
    requires
        look(f) == Look::Tok(t),
        t.kind is Dot,
        parse_identifier_spec(adv(f)) == Parsed::Got(name, h),
    ensures
        forall|vals: Seq<ValueView>, r: Feed| #[trigger]
            line_values(h, vals, r) ==> parse_value_spec(f) == Parsed::Got(
                call_view(t.line, t.col, name.value, vals),
                r,
            ),
        forall|v: ValueView, g: Feed|
            parse_value_spec(f) == Parsed::Got(v, g) ==> (exists|vals: Seq<ValueView>|
                #[trigger] line_values(h, vals, g) && v == call_view(t.line, t.col, name.value, vals)),
{
    lemma_identifier_shrinks(adv(f));
    lemma_invoke_values(h, t.line, t.col, name.value, seq![]);
    assert forall|vals: Seq<ValueView>| #[trigger] (Seq::<ValueView>::empty() + vals) == vals by {
        assert(Seq::<ValueView>::empty() + vals =~= vals);
    }
}

/// The line feed after an object's opening brace may be left out: an object
/// `tag name {` followed by a line feed and then the rest reads just as it
/// does with the line feed left out, where the rest does not itself start
/// with a line feed.
pub proof fn lemma_brace_newline_optional(
    tag: TokenView,
    name: TokenView,
    brace: TokenView,
    newline: TokenView,
    rest: Seq<TokenView>,
    dirty: bool,
)
    requires
        tag.kind is Identifier,
        name.kind is Identifier,
        brace.kind is LeftCurlyBrace,
        newline.kind is NewLine,
        !next_is((Feed { toks: rest, dirty }), TokenKind::NewLine),
    ensures
        parse_object_spec((Feed { toks: seq![tag, name, brace, newline] + rest, dirty }))
            == parse_object_spec((Feed { toks: seq![tag, name, brace] + rest, dirty })),
{
    let f1 = Feed { toks: seq![tag, name, brace, newline] + rest, dirty };
    let f2 = Feed { toks: seq![tag, name, brace] + rest, dirty };
    let r = Feed { toks: rest, dirty };
    assert(adv(f1).toks =~= seq![name, brace, newline] + rest);
    assert(adv(adv(f1)).toks =~= seq![brace, newline] + rest);
    assert(adv(adv(adv(f1))).toks =~= seq![newline] + rest);
    assert(adv(adv(adv(adv(f1)))) =~= r);
    assert(adv(f2).toks =~= seq![name, brace] + rest);
    assert(adv(adv(f2)).toks =~= seq![brace] + rest);
    assert(adv(adv(adv(f2))) =~= r);
    assert(skip_newline(r) == r);
}

} // verus!
