//! `upperise`: a function for object fields that puts its text argument in
//! upper case.

use vstd::prelude::*;
use crate::engine::{tags_view, Boxed, Function, IntoFunction};
use crate::parser::strings_view;
use crate::structure::{string_type, TypeTag};

verus! {

/// Text in upper case, as `str::to_uppercase` gives it.
pub uninterp spec fn uppercase(s: Seq<char>) -> Seq<char>;

/// Calls `str::to_uppercase`; the contract claims that the result is
/// `uppercase` of the text, nothing more.
#[verifier::external_body]
fn to_uppercase(s: &str) -> (r: String)
    ensures
        r@ == uppercase(s@),
{
    s.to_uppercase()
}

/// Puts text in upper case; called in fields as `.upperise value`.
#[allow(non_camel_case_types)]
pub struct upperise {}

impl upperise {
    /// The text `value` in upper case.
    pub fn function(value: String) -> (r: String)
        ensures
            r@ == uppercase(value@),
    {
        to_uppercase(value.as_str())
    }
}

impl Function for upperise {
    open spec fn name_view() -> Seq<char> {
        seq!['u', 'p', 'p', 'e', 'r', 'i', 's', 'e']
    }

    fn name() -> (r: &'static str) {
        let r = "upperise";
        proof {
            reveal_strlit("upperise");
        }
        r
    }

    /// One argument of type `String`.
    open spec fn params_view(&self) -> Seq<Seq<char>> {
        seq![string_type()]
    }

    /// A result of type `String`.
    open spec fn ret_view(&self) -> Seq<char> {
        string_type()
    }

    fn sig(&self) -> (r: (Vec<TypeTag>, TypeTag)) {
        let r = (vec![TypeTag::string()], TypeTag::string());
        assert(tags_view(r.0@) =~= seq![string_type()]);
        r
    }

    /// The first argument in upper case; with no argument, empty text.
    open spec fn result(&self, args: Seq<Seq<char>>) -> Seq<char> {
        if args.len() > 0 {
            uppercase(args[0])
        } else {
            seq![]
        }
    }

    fn call(&self, args: Vec<String>) -> (r: String) {
        if args.len() == 0 {
            return String::new();
        }
        assert(strings_view(args@)[0] == args@[0]@);
        upperise::function(args[0].clone())
    }
}

impl IntoFunction for upperise {
    fn into_function(self) -> (r: Boxed<Box<dyn Function>>) {
        let f: Box<dyn Function> = Box::new(self);
        assert forall|a: Seq<Seq<char>>| #[trigger] f.result(a) == self.result(a) by {}
        assert(f.params_view() == self.params_view());
        let b = Boxed { function: f };
        assert(b.function.params_view() == self.params_view());
        b
    }
}

} // verus!
