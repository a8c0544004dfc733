//! The engine's general laws, each proved from the specifications the
//! public functions are verified against.

use vstd::prelude::*;
use crate::data::DataV;
use crate::parser::{spec_parse, TokenV};
use crate::template::{
    escape_html, find_spec, spec_render, spec_render_from, spec_render_list, spec_render_token,
    spec_render_utag, LookupV, RenderError,
};
use crate::Template;

verus! {

/// Compiling the same text twice yields token trees that render
/// identically for the same data: parsing is a function of the text
/// and the starting delimiters alone, and rendering is a function of
/// the compiled views alone.
pub proof fn lemma_compile_idempotent(text: Seq<char>, t1: Template, t2: Template, data: DataV)
    requires
        spec_parse(text, "{{"@, "}}"@) is Ok,
        t1.tv() == spec_parse(text, "{{"@, "}}"@)->Ok_0.0,
        t2.tv() == spec_parse(text, "{{"@, "}}"@)->Ok_0.0,
        t1.pv() == Map::<Seq<char>, Seq<TokenV>>::empty(),
        t2.pv() == Map::<Seq<char>, Seq<TokenV>>::empty(),
    ensures
        spec_render(t1.tv(), data, t1.pv()) == spec_render(t2.tv(), data, t2.pv()),
{
}

/// An inverted section renders its children exactly when its path
/// resolves to nothing, to false, or to an empty list; any other
/// resolution renders nothing, and a non-map scope is fatal.
pub proof fn lemma_inverted_section_emptiness(
    t: TokenV,
    stack: Seq<DataV>,
    partials: Map<Seq<char>, Seq<TokenV>>,
    indent: Seq<char>,
    budget: nat,
)
    requires
        t is Section,
        t->Section_1 == true,
    ensures
        ({
            let r = spec_render_token(t, stack, partials, indent, budget);
            let f = find_spec(stack, t->Section_0);
            let empty_kind = f is Missing || f == LookupV::Found(DataV::Bool(false)) || f
                == LookupV::Found(DataV::List(Seq::<DataV>::empty()));
            &&& empty_kind ==> r == spec_render_from(
                t->Section_2,
                0,
                stack,
                partials,
                indent,
                budget,
            )
            &&& (f is Found && !empty_kind) ==> r == Result::<Seq<char>, RenderError>::Ok(
                Seq::empty(),
            )
            &&& f is Fatal ==> r == Result::<Seq<char>, RenderError>::Err(
                RenderError::NonMapContext,
            )
        }),
{
    match t {
        TokenV::Section(_path, _inverted, _children, _, _, _, _, _) => {},
        _ => {},
    }
}

/// A section over a list renders its children once per element, in
/// strict sequence order, each pass against the stack with that
/// element pushed as the innermost scope.
pub proof fn lemma_list_iteration_order(
    vs: Seq<DataV>,
    j: int,
    children: Seq<TokenV>,
    stack: Seq<DataV>,
    partials: Map<Seq<char>, Seq<TokenV>>,
    indent: Seq<char>,
    budget: nat,
)
    requires
        0 <= j < vs.len(),
    ensures
        spec_render_list(vs, j, children, stack, partials, indent, budget) == (
        match spec_render_from(children, 0, stack.push(vs[j]), partials, indent, budget) {
            Result::Err(e) => Result::<Seq<char>, RenderError>::Err(e),
            Result::Ok(o1) => match spec_render_list(
                vs,
                j + 1,
                children,
                stack,
                partials,
                indent,
                budget,
            ) {
                Result::Err(e) => Result::<Seq<char>, RenderError>::Err(e),
                Result::Ok(o2) => Result::<Seq<char>, RenderError>::Ok(o1 + o2),
            },
        }),
{
}

/// An escaped tag renders exactly the HTML escape of what the same
/// unescaped tag renders.
pub proof fn lemma_escaping(
    t: TokenV,
    stack: Seq<DataV>,
    partials: Map<Seq<char>, Seq<TokenV>>,
    indent: Seq<char>,
    budget: nat,
)
    requires
        t is ETag,
    ensures
        spec_render_token(t, stack, partials, indent, budget) == (match spec_render_utag(
            t->ETag_0,
            stack,
            indent,
        ) {
            Result::Err(e) => Result::<Seq<char>, RenderError>::Err(e),
            Result::Ok(o) => Result::<Seq<char>, RenderError>::Ok(escape_html(o)),
        }),
{
    match t {
        TokenV::ETag(_path, _) => {},
        _ => {},
    }
}

/// A referenced partial renders with the caller's indentation extended
/// by the partial tag's own recorded prefix, so every line of its
/// expansion carries that prefix, nested partials included; a missing
/// name renders nothing.
pub proof fn lemma_partial_indentation(
    t: TokenV,
    stack: Seq<DataV>,
    partials: Map<Seq<char>, Seq<TokenV>>,
    indent: Seq<char>,
    budget: nat,
)
    requires
        t is Partial,
    ensures
        partials.dom().contains(t->Partial_0) && budget > 0 ==> spec_render_token(
            t,
            stack,
            partials,
            indent,
            budget,
        ) == spec_render_from(
            partials[t->Partial_0],
            0,
            stack,
            partials,
            indent + t->Partial_1,
            (budget - 1) as nat,
        ),
        !partials.dom().contains(t->Partial_0) ==> spec_render_token(
            t,
            stack,
            partials,
            indent,
            budget,
        ) == Result::<Seq<char>, RenderError>::Ok(Seq::<char>::empty()),
{
    match t {
        TokenV::Partial(_name, _pindent, _) => {},
        _ => {},
    }
}

} // verus!
