# skaf

A small configuration language. A source text is a sequence of objects:

```
namespace edgelink-namespace {
    name: .upperise "edgelink"
}

{v1.deployment} edge-link-deployment {
    name: "edge-link"
    namespace: ?edgelink-namespace.name
}
```

Each object has a tag, a name and fields. A field holds a string literal, a
query `?object.field` of another object's field, or a call `.function
argument ...` of a registered function.

Layout:

- `src/lex.rs`: the lexer, with the tokens it yields stated as a function of
  the source text.
- `src/parser.rs`: the parser, with the objects it reads stated as a function
  of the tokens.
- `src/structure.rs`, `src/registry.rs`: structures (typed field lists) and the
  name-keyed maps the engine keeps them in.
- `src/semantics.rs`: what loading objects and resolving field values mean,
  and the laws they obey.
- `src/engine.rs`: the engine that registers functions and structures, loads
  sources, reports problems, and resolves fields on demand.
- `src/upperise.rs`: a function for fields that puts text in upper case.
- `src/resources.rs`: namespaces and deployments, built from loaded objects.
- `app/main.rs`: a program that loads a source file and prints some objects.

Every function in `src/` is verified with Verus against its contract, but
for three small wrappers around standard-library calls (`String::push`,
`str::to_uppercase`, and `String`'s `Hash` inside `Identifier`'s), whose
contracts are trusted.

Functions and structure types are registered by implementing the `Function`
(with `IntoFunction`) and `StructureType` traits by hand, as `upperise`,
`Namespace` and `Deployment` do. There are no attribute or derive macros that
write these impls: a macro works on Rust token trees, which Verus does not
read, so what it generated could not be held to the traits' contracts.
