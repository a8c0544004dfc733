//! The compiled template and its renderer: a recursive walk over the
//! token tree against a stack of borrowed `Data` scopes.
//!
//! The renderer is specified by `spec_render`: for lambda-free data the
//! executable renderer returns exactly what the specification says.
//! A lambda's replacement text depends on caller-owned state, so of a
//! render that invokes one only the shape of the walk is stated.

use vstd::prelude::*;
use crate::data::{assoc_find, assoc_view, data_view, fun_free, lemma_assoc_find, Data, DataV};
use crate::parser::{lemma_seq_token_view_index, lemma_seq_token_view_len, seq_token_view, ParseError, Token, TokenV};

verus! {

broadcast use vstd::std_specs::vec::group_vec_axioms, vstd::seq::group_seq_axioms;

/// A failure of rendering. Lookup misses are not failures; these are
/// the fatal conditions that abort a render.
#[derive(Clone, Copy, Debug, PartialEq, Eq, Structural)]
pub enum RenderError {
    /// A tag or section path resolved to a value no rule applies to.
    UnexpectedValue,
    /// A named path was resolved while a non-map value stood on the
    /// context stack.
    NonMapContext,
    /// An unmatched section opening stood in the token tree.
    InvalidTokens,
    /// The replacement text a lambda returned failed to parse.
    LambdaParse(ParseError),
    /// Nested partial or lambda expansions went deeper than the
    /// renderer's guard allows.
    TooDeep,
}

/// How deep nested partial and lambda expansions may go before the
/// renderer gives up: a guard against self-referential expansion.
pub const RENDER_DEPTH_LIMIT: u32 = 64;

// ---------------------------------------------------------------------
// The rendering specification.
// ---------------------------------------------------------------------

/// The first newline in `s`, if any.
pub open spec fn find_nl(s: Seq<char>) -> Option<int>
    decreases s.len(),
{
    if s.len() == 0 {
        Option::None
    } else if s[0] == '\n' {
        Option::Some(0)
    } else {
        match find_nl(s.drop_first()) {
            Option::None => Option::None,
            Option::Some(i) => Option::Some(i + 1),
        }
    }
}

/// HTML-escape: the five marked characters become entities, every
/// other character stands unchanged.
pub open spec fn escape_html(s: Seq<char>) -> Seq<char>
    decreases s.len(),
{
    if s.len() == 0 {
        Seq::empty()
    } else {
        escape_char(s[0]) + escape_html(s.drop_first())
    }
}

/// The escape of one character.
pub open spec fn escape_char(c: char) -> Seq<char> {
    if c == '<' {
        "&lt;"@
    } else if c == '>' {
        "&gt;"@
    } else if c == '&' {
        "&amp;"@
    } else if c == '"' {
        "&quot;"@
    } else if c == '\'' {
        "&#39;"@
    } else {
        seq![c]
    }
}

/// Text re-emitted with `indent` put before every line that does not
/// itself begin with a newline; a line ends at and includes its `\n`.
pub open spec fn indent_lines(s: Seq<char>, indent: Seq<char>) -> Seq<char>
    decreases s.len(),
    via indent_lines_dec
{
    if s.len() == 0 {
        Seq::empty()
    } else {
        let cut = match find_nl(s) {
            Option::None => s.len() as int,
            Option::Some(i) => i + 1,
        };
        let line = s.take(cut);
        let rest = s.skip(cut);
        let piece = if line[0] == '\n' {
            line
        } else {
            indent + line
        };
        piece + indent_lines(rest, indent)
    }
}

/// The first newline lies inside the text.
proof fn lemma_find_nl_bounds(s: Seq<char>)
    ensures
        match find_nl(s) {
            Option::Some(i) => 0 <= i < s.len() && s[i] == '\n',
            Option::None => true,
        },
    decreases s.len(),
{
    if s.len() > 0 && s[0] != '\n' {
        lemma_find_nl_bounds(s.drop_first());
    }
}

#[via_fn]
proof fn indent_lines_dec(s: Seq<char>, indent: Seq<char>) {
    lemma_find_nl_bounds(s);
}

/// What a text token emits: unchanged without an indent, line-prefixed
/// with one.
pub open spec fn render_text_spec(s: Seq<char>, indent: Seq<char>) -> Seq<char> {
    if indent.len() == 0 {
        s
    } else {
        indent_lines(s, indent)
    }
}

/// The outcome of resolving a dotted path against the context stack.
pub ghost enum LookupV {
    Found(DataV),
    Missing,
    Fatal,
}

/// Scan the stack from the innermost scope outwards for a map holding
/// `key`; meeting a non-map scope is fatal.
pub open spec fn lookup_first(stack: Seq<DataV>, key: Seq<char>) -> LookupV
    decreases stack.len(),
{
    if stack.len() == 0 {
        LookupV::Missing
    } else {
        match stack.last() {
            DataV::MapV(m) => if m.dom().contains(key) {
                LookupV::Found(m[key])
            } else {
                lookup_first(stack.drop_last(), key)
            },
            _ => LookupV::Fatal,
        }
    }
}

/// Walk the remaining path segments strictly through nested maps.
pub open spec fn walk_path(d: DataV, path: Seq<Seq<char>>) -> Option<DataV>
    decreases path.len(),
{
    if path.len() == 0 {
        Option::Some(d)
    } else {
        match d {
            DataV::MapV(m) => if m.dom().contains(path[0]) {
                walk_path(m[path[0]], path.drop_first())
            } else {
                Option::None
            },
            _ => Option::None,
        }
    }
}

/// Resolve a dotted path: the empty path names the top of the stack;
/// otherwise the innermost scope holding the first segment wins and
/// the rest of the path walks nested maps. A miss is not an error.
pub open spec fn find_spec(stack: Seq<DataV>, path: Seq<Seq<char>>) -> LookupV {
    if path.len() == 0 {
        if stack.len() == 0 {
            LookupV::Missing
        } else {
            LookupV::Found(stack.last())
        }
    } else {
        match lookup_first(stack, path[0]) {
            LookupV::Fatal => LookupV::Fatal,
            LookupV::Missing => LookupV::Missing,
            LookupV::Found(d) => match walk_path(d, path.drop_first()) {
                Option::None => LookupV::Missing,
                Option::Some(v) => LookupV::Found(v),
            },
        }
    }
}

/// The structural size of a token: sections count their children.
pub open spec fn token_size(t: TokenV) -> nat
    decreases t,
{
    match t {
        TokenV::Section(_, _, children, _, _, _, _, _) => 1 + tokens_size_rec(children, children.len() as int),
        _ => 1,
    }
}

/// The summed size of the first `n` tokens.
pub open spec fn tokens_size_rec(ts: Seq<TokenV>, n: int) -> nat
    decreases ts, n,
{
    if n <= 0 || n > ts.len() {
        0
    } else {
        tokens_size_rec(ts, n - 1) + token_size(ts[n - 1])
    }
}

/// The summed size of a token sequence.
pub open spec fn tokens_size(ts: Seq<TokenV>) -> nat {
    tokens_size_rec(ts, ts.len() as int)
}

/// Every token has positive size.
pub proof fn lemma_token_size_pos(t: TokenV)
    ensures
        token_size(t) >= 1,
{
}

/// The size of a prefix never exceeds the size of the whole.
pub proof fn lemma_tokens_size_mono(ts: Seq<TokenV>, n: int, m: int)
    requires
        0 <= n <= m <= ts.len(),
    ensures
        tokens_size_rec(ts, n) <= tokens_size_rec(ts, m),
    decreases m,
{
    if n < m {
        lemma_tokens_size_mono(ts, n, m - 1);
    }
}

} // verus!

verus! {

/// Every scope on the stack is free of lambdas.
pub open spec fn all_fun_free(stack: Seq<DataV>) -> bool {
    forall|i: int| 0 <= i < stack.len() ==> fun_free(#[trigger] stack[i])
}

/// What rendering the tokens from index `i` on yields, against a
/// context stack (innermost scope last), a partial map, an indentation
/// prefix, and a guard on the remaining expansion depth.
pub open spec fn spec_render_from(
    ts: Seq<TokenV>,
    i: int,
    stack: Seq<DataV>,
    partials: Map<Seq<char>, Seq<TokenV>>,
    indent: Seq<char>,
    budget: nat,
) -> Result<Seq<char>, RenderError>
    decreases budget, tokens_size(ts), 3int, ts.len() - i,
    via spec_render_from_dec
{
    if i < 0 || i >= ts.len() {
        Result::Ok(Seq::empty())
    } else {
        match spec_render_token(ts[i], stack, partials, indent, budget) {
            Result::Err(e) => Result::Err(e),
            Result::Ok(o1) => match spec_render_from(ts, i + 1, stack, partials, indent, budget) {
                Result::Err(e) => Result::Err(e),
                Result::Ok(o2) => Result::Ok(o1 + o2),
            },
        }
    }
}

/// What rendering a section's children once per list element yields,
/// each element pushed as the innermost scope for its pass.
pub open spec fn spec_render_list(
    vs: Seq<DataV>,
    j: int,
    children: Seq<TokenV>,
    stack: Seq<DataV>,
    partials: Map<Seq<char>, Seq<TokenV>>,
    indent: Seq<char>,
    budget: nat,
) -> Result<Seq<char>, RenderError>
    decreases budget, tokens_size(children), 4int, vs.len() - j,
{
    if j < 0 || j >= vs.len() {
        Result::Ok(Seq::empty())
    } else {
        match spec_render_from(children, 0, stack.push(vs[j]), partials, indent, budget) {
            Result::Err(e) => Result::Err(e),
            Result::Ok(o1) => match spec_render_list(
                vs,
                j + 1,
                children,
                stack,
                partials,
                indent,
                budget,
            ) {
                Result::Err(e) => Result::Err(e),
                Result::Ok(o2) => Result::Ok(o1 + o2),
            },
        }
    }
}

/// What an interpolation tag emits before escaping: the indent and the
/// string the path resolved to; nothing on a miss. A lambda's result
/// is not a function of the value, so no meaning is given here; the
/// renderer's contract is conditional on lambda-free data.
pub open spec fn spec_render_utag(
    path: Seq<Seq<char>>,
    stack: Seq<DataV>,
    indent: Seq<char>,
) -> Result<Seq<char>, RenderError> {
    match find_spec(stack, path) {
        LookupV::Fatal => Result::Err(RenderError::NonMapContext),
        LookupV::Missing => Result::Ok(Seq::empty()),
        LookupV::Found(d) => match d {
            DataV::Str(s) => Result::Ok(indent + s),
            _ => Result::Err(RenderError::UnexpectedValue),
        },
    }
}

/// What rendering one token yields.
pub open spec fn spec_render_token(
    t: TokenV,
    stack: Seq<DataV>,
    partials: Map<Seq<char>, Seq<TokenV>>,
    indent: Seq<char>,
    budget: nat,
) -> Result<Seq<char>, RenderError>
    decreases budget, token_size(t), 2int, 0int,
    via spec_render_token_dec
{
    match t {
        TokenV::Text(s) => Result::Ok(render_text_spec(s, indent)),
        TokenV::ETag(path, _) => match spec_render_utag(path, stack, indent) {
            Result::Err(e) => Result::Err(e),
            Result::Ok(o) => Result::Ok(escape_html(o)),
        },
        TokenV::UTag(path, _) => spec_render_utag(path, stack, indent),
        TokenV::Section(path, true, children, _, _, _, _, _) => match find_spec(stack, path) {
            LookupV::Fatal => Result::Err(RenderError::NonMapContext),
            LookupV::Missing => spec_render_from(children, 0, stack, partials, indent, budget),
            LookupV::Found(d) => if d == DataV::Bool(false) || d == DataV::List(
                Seq::<DataV>::empty(),
            ) {
                spec_render_from(children, 0, stack, partials, indent, budget)
            } else {
                Result::Ok(Seq::empty())
            },
        },
        TokenV::Section(path, false, children, _, _, _, _, _) => match find_spec(stack, path) {
            LookupV::Fatal => Result::Err(RenderError::NonMapContext),
            LookupV::Missing => Result::Ok(Seq::empty()),
            LookupV::Found(d) => match d {
                DataV::Bool(b) => if b {
                    spec_render_from(children, 0, stack, partials, indent, budget)
                } else {
                    Result::Ok(Seq::empty())
                },
                DataV::List(vs) => spec_render_list(
                    vs,
                    0,
                    children,
                    stack,
                    partials,
                    indent,
                    budget,
                ),
                DataV::MapV(m) => spec_render_from(
                    children,
                    0,
                    stack.push(DataV::MapV(m)),
                    partials,
                    indent,
                    budget,
                ),
                _ => Result::Err(RenderError::UnexpectedValue),
            },
        },
        TokenV::IncompleteSection(_, _, _, _) => Result::Err(RenderError::InvalidTokens),
        TokenV::Partial(name, pindent, _) => if !partials.dom().contains(name) {
            Result::Ok(Seq::empty())
        } else if budget == 0 {
            Result::Err(RenderError::TooDeep)
        } else {
            spec_render_from(
                partials[name],
                0,
                stack,
                partials,
                indent + pindent,
                (budget - 1) as nat,
            )
        },
    }
}

#[via_fn]
proof fn spec_render_from_dec(
    ts: Seq<TokenV>,
    i: int,
    stack: Seq<DataV>,
    partials: Map<Seq<char>, Seq<TokenV>>,
    indent: Seq<char>,
    budget: nat,
) {
    if 0 <= i < ts.len() {
        assert(tokens_size_rec(ts, i + 1) == tokens_size_rec(ts, i) + token_size(ts[i]));
        lemma_tokens_size_mono(ts, i + 1, ts.len() as int);
        assert(token_size(ts[i]) <= tokens_size(ts));
    }
}

#[via_fn]
proof fn spec_render_token_dec(
    t: TokenV,
    stack: Seq<DataV>,
    partials: Map<Seq<char>, Seq<TokenV>>,
    indent: Seq<char>,
    budget: nat,
) {
    lemma_token_size_pos(t);
}

/// What rendering a whole template against one data value yields: the
/// data is the outermost and only starting scope, with no indentation
/// and the full depth guard.
pub open spec fn spec_render(
    tokens: Seq<TokenV>,
    data: DataV,
    partials: Map<Seq<char>, Seq<TokenV>>,
) -> Result<Seq<char>, RenderError> {
    spec_render_from(
        tokens,
        0,
        seq![data],
        partials,
        Seq::empty(),
        RENDER_DEPTH_LIMIT as nat,
    )
}

/// A value resolved out of a lambda-free stack is itself lambda-free.
pub proof fn lemma_find_fun_free(stack: Seq<DataV>, path: Seq<Seq<char>>)
    requires
        all_fun_free(stack),
    ensures
        find_spec(stack, path) matches LookupV::Found(d) ==> fun_free(d),
{
    if path.len() == 0 {
        if stack.len() > 0 {
            assert(fun_free(stack[stack.len() - 1]));
        }
    } else {
        lemma_lookup_first_fun_free(stack, path[0]);
        match lookup_first(stack, path[0]) {
            LookupV::Found(d) => {
                lemma_walk_fun_free(d, path.drop_first());
            },
            _ => {},
        }
    }
}

/// The innermost match of a key in a lambda-free stack is lambda-free.
proof fn lemma_lookup_first_fun_free(stack: Seq<DataV>, key: Seq<char>)
    requires
        all_fun_free(stack),
    ensures
        lookup_first(stack, key) matches LookupV::Found(d) ==> fun_free(d),
    decreases stack.len(),
{
    if stack.len() > 0 {
        assert(fun_free(stack[stack.len() - 1]));
        match stack.last() {
            DataV::MapV(m) => {
                if !m.dom().contains(key) {
                    assert(all_fun_free(stack.drop_last()));
                    lemma_lookup_first_fun_free(stack.drop_last(), key);
                }
            },
            _ => {},
        }
    }
}

/// Walking nested maps of a lambda-free value stays lambda-free.
proof fn lemma_walk_fun_free(d: DataV, path: Seq<Seq<char>>)
    requires
        fun_free(d),
    ensures
        walk_path(d, path) matches Option::Some(v) ==> fun_free(v),
    decreases path.len(),
{
    if path.len() > 0 {
        match d {
            DataV::MapV(m) => {
                if m.dom().contains(path[0]) {
                    lemma_walk_fun_free(m[path[0]], path.drop_first());
                }
            },
            _ => {},
        }
    }
}

} // verus!

verus! {

/// A compiled mustache template: its token tree, its partials each
/// with their own token tree, and the compilation context.
pub struct Template {
    ctx: crate::Context,
    tokens: Vec<Token>,
    partials: Vec<(String, Vec<Token>)>,
}

/// The association views of the partials, in order.
pub open spec fn pentries_view(ps: Seq<(String, Vec<Token>)>) -> Seq<(Seq<char>, Seq<TokenV>)> {
    Seq::new(ps.len(), |i: int| (ps[i].0@, seq_token_view(ps[i].1@)))
}

impl Template {
    /// The view of the template's own tokens.
    pub closed spec fn tv(&self) -> Seq<TokenV> {
        seq_token_view(self.tokens@)
    }

    /// The view of the partials: a map from name to token sequence,
    /// the earliest entry for a name winning.
    pub closed spec fn pv(&self) -> Map<Seq<char>, Seq<TokenV>> {
        assoc_view(pentries_view(self.partials@))
    }
}

/// Construct a `Template` from compiled parts.
pub fn new(ctx: crate::Context, tokens: Vec<Token>, partials: Vec<(String, Vec<Token>)>) -> (r:
    Template)
    ensures
        r.tv() == seq_token_view(tokens@),
        r.pv() == assoc_view(pentries_view(partials@)),
{
    Template { ctx, tokens, partials }
}

/// The view of a stack of borrowed scopes.
pub open spec fn stack_view(s: Seq<&Data>) -> Seq<DataV> {
    Seq::new(s.len(), |i: int| data_view(*s[i]))
}

/// The earliest entry of a map value holding `key`, if any.
fn assoc_get<'a>(entries: &'a Vec<(String, Data)>, key: &str) -> (r: Option<&'a Data>)
    ensures
        match r {
            Option::Some(d) => assoc_find(crate::data::entries_view(entries@), key@)
                == Option::Some(data_view(*d)),
            Option::None => assoc_find(crate::data::entries_view(entries@), key@) is None,
        },
{
    let ghost ev = crate::data::entries_view(entries@);
    proof {
        crate::data::lemma_entries_view_len(entries@);
        assert(ev.skip(0) =~= ev);
    }
    let len = entries.len();
    let mut i: usize = 0;
    #[verifier::loop_isolation(false)]
    while i < len
        invariant
            0 <= i <= len,
            assoc_find(ev, key@) == assoc_find(ev.skip(i as int), key@),
        decreases len - i,
    {
        proof {
            crate::data::lemma_entries_view_index(entries@, i as int);
            assert(ev.skip(i as int)[0] == ev[i as int]);
            assert(ev.skip(i as int).subrange(1, ev.skip(i as int).len() as int) =~= ev.skip(
                i + 1 as int,
            ));
        }
        if crate::text::str_eq(entries[i].0.as_str(), key) {
            return Option::Some(&entries[i].1);
        }
        i = i + 1;
    }
    proof {
        assert(ev.skip(len as int) =~= Seq::<(Seq<char>, DataV)>::empty());
    }
    Option::None
}

/// The earliest partial of the given name, if any.
fn partials_get<'a>(partials: &'a Vec<(String, Vec<Token>)>, key: &str) -> (r: Option<
    &'a Vec<Token>,
>)
    ensures
        match r {
            Option::Some(ts) => assoc_find(pentries_view(partials@), key@) == Option::Some(
                seq_token_view(ts@),
            ),
            Option::None => assoc_find(pentries_view(partials@), key@) is None,
        },
{
    let ghost ev = pentries_view(partials@);
    proof {
        assert(ev.skip(0) =~= ev);
    }
    let len = partials.len();
    let mut i: usize = 0;
    #[verifier::loop_isolation(false)]
    while i < len
        invariant
            0 <= i <= len,
            assoc_find(ev, key@) == assoc_find(ev.skip(i as int), key@),
        decreases len - i,
    {
        proof {
            assert(ev.skip(i as int)[0] == ev[i as int]);
            assert(ev.skip(i as int).subrange(1, ev.skip(i as int).len() as int) =~= ev.skip(
                i + 1 as int,
            ));
        }
        if crate::text::str_eq(partials[i].0.as_str(), key) {
            return Option::Some(&partials[i].1);
        }
        i = i + 1;
    }
    proof {
        assert(ev.skip(len as int) =~= Seq::<(Seq<char>, Seq<TokenV>)>::empty());
    }
    Option::None
}

/// Resolve a dotted path against the context stack, innermost scope
/// last; mirrors `find_spec`.
fn find_in_stack<'d>(path: &Vec<String>, stack: &Vec<&'d Data>) -> (r: Result<
    Option<&'d Data>,
    RenderError,
>)
    ensures
        match r {
            Result::Ok(Option::Some(d)) => find_spec(stack_view(stack@), path.deep_view())
                == LookupV::Found(data_view(*d)),
            Result::Ok(Option::None) => find_spec(stack_view(stack@), path.deep_view())
                is Missing,
            Result::Err(e) => find_spec(stack_view(stack@), path.deep_view()) is Fatal && e
                == RenderError::NonMapContext,
        },
{
    let ghost sv = stack_view(stack@);
    let ghost pathv = path.deep_view();
    if path.len() == 0 {
        if stack.len() == 0 {
            return Result::Ok(Option::None);
        }
        let d = stack[stack.len() - 1];
        proof {
            assert(sv.last() == data_view(*d));
        }
        return Result::Ok(Option::Some(d));
    }
    let key: &String = &path[0];
    proof {
        assert(pathv[0] == path@[0]@);
    }
    // Scan from the innermost scope outwards for a map holding the
    // first segment.
    let mut i: usize = stack.len();
    proof {
        assert(sv.take(stack@.len() as int) =~= sv);
    }
    let mut found: Option<&'d Data> = Option::None;
    #[verifier::loop_isolation(false)]
    while i > 0 && found.is_none()
        invariant
            0 <= i <= stack@.len(),
            found is None ==> lookup_first(sv, pathv[0]) == lookup_first(
                sv.take(i as int),
                pathv[0],
            ),
            found matches Option::Some(d) ==> lookup_first(sv, pathv[0]) == LookupV::Found(
                data_view(*d),
            ),
        decreases i,
    {
        let scope: &'d Data = stack[i - 1];
        proof {
            assert(sv.take(i as int).last() == data_view(*scope));
            assert(sv.take(i as int).drop_last() =~= sv.take(i - 1 as int));
        }
        match scope {
            Data::MapVal(entries) => {
                proof {
                    crate::data::lemma_assoc_find(
                        crate::data::entries_view(entries@),
                        pathv[0],
                    );
                }
                match assoc_get(entries, key.as_str()) {
                    Option::Some(v) => {
                        found = Option::Some(v);
                    },
                    Option::None => {
                    },
                }
            },
            _ => {
                return Result::Err(RenderError::NonMapContext);
            },
        }
        i = i - 1;
    }
    let mut value: &'d Data = match found {
        Option::Some(v) => v,
        Option::None => {
            proof {
                assert(sv.take(0) =~= Seq::<DataV>::empty());
            }
            return Result::Ok(Option::None);
        },
    };
    // Walk the remaining segments strictly through nested maps.
    let plen = path.len();
    let mut j: usize = 1;
    #[verifier::loop_isolation(false)]
    while j < plen
        invariant
            1 <= j <= plen,
            plen == path@.len(),
            walk_path(data_view(*value), pathv.skip(j as int)) == walk_path(
                lookup_first(sv, pathv[0])->Found_0,
                pathv.drop_first(),
            ),
            lookup_first(sv, pathv[0]) is Found,
        decreases plen - j,
    {
        let ghost pre = data_view(*value);
        proof {
            assert(pathv.skip(j as int)[0] == path@[j as int]@);
            assert(pathv.skip(j as int).drop_first() =~= pathv.skip(j + 1 as int));
        }
        match value {
            Data::MapVal(entries) => {
                proof {
                    crate::data::lemma_assoc_find(
                        crate::data::entries_view(entries@),
                        path@[j as int]@,
                    );
                }
                match assoc_get(entries, path[j].as_str()) {
                    Option::Some(v) => {
                        value = v;
                    },
                    Option::None => {
                        return Result::Ok(Option::None);
                    },
                }
            },
            _ => {
                return Result::Ok(Option::None);
            },
        }
        j = j + 1;
    }
    proof {
        assert(pathv.skip(plen as int) =~= Seq::<Seq<char>>::empty());
    }
    Result::Ok(Option::Some(value))
}

} // verus!

verus! {

/// What the position returned by `find_nl` means.
proof fn lemma_find_nl(s: Seq<char>)
    ensures
        match find_nl(s) {
            Option::None => forall|j: int| 0 <= j < s.len() ==> s[j] != '\n',
            Option::Some(p) => 0 <= p < s.len() && s[p] == '\n' && forall|j: int|
                0 <= j < p ==> s[j] != '\n',
        },
    decreases s.len(),
{
    if s.len() > 0 && s[0] != '\n' {
        lemma_find_nl(s.drop_first());
        match find_nl(s.drop_first()) {
            Option::None => {
                assert forall|j: int| 0 <= j < s.len() implies s[j] != '\n' by {
                    if j >= 1 {
                        assert(s.drop_first()[j - 1] != '\n');
                    }
                }
            },
            Option::Some(i) => {
                assert(s.drop_first()[i] == '\n');
                assert forall|j: int| 0 <= j < i + 1 implies s[j] != '\n' by {
                    if j >= 1 {
                        assert(s.drop_first()[j - 1] != '\n');
                    }
                }
            },
        }
    }
}

/// Append the characters of `s` to `wr`.
fn append_chars(wr: &mut Vec<char>, s: &Vec<char>)
    ensures
        final(wr)@ == old(wr)@ + s@,
{
    let len = s.len();
    let mut i: usize = 0;
    #[verifier::loop_isolation(false)]
    while i < len
        invariant
            0 <= i <= len,
            wr@ == old(wr)@ + s@.subrange(0, i as int),
        decreases len - i,
    {
        let c = s[i];
        wr.push(c);
        proof {
            assert(wr@ =~= old(wr)@ + s@.subrange(0, i + 1 as int));
        }
        i = i + 1;
    }
    proof {
        assert(wr@ =~= old(wr)@ + s@);
    }
}

/// Emit a text run: unchanged without an indent, otherwise with the
/// indent put before every line that does not begin with a newline.
fn emit_text(wr: &mut Vec<char>, s: &Vec<char>, indent: &Vec<char>)
    ensures
        final(wr)@ == old(wr)@ + render_text_spec(s@, indent@),
{
    if indent.len() == 0 {
        append_chars(wr, s);
        return ;
    }
    let len = s.len();
    let mut pos: usize = 0;
    proof {
        assert(s@.skip(0) =~= s@);
    }
    #[verifier::loop_isolation(false)]
    while pos < len
        invariant
            0 <= pos <= len,
            len == s@.len(),
            indent@.len() > 0,
            old(wr)@ + indent_lines(s@, indent@) == wr@ + indent_lines(
                s@.skip(pos as int),
                indent@,
            ),
        decreases len - pos,
    {
        let ghost rest = s@.skip(pos as int);
        proof {
            lemma_find_nl(rest);
        }
        // Find the end of the current line.
        let mut j: usize = pos;
        #[verifier::loop_isolation(false)]
        while j < len && s[j] != '\n'
            invariant
                pos <= j <= len,
                forall|k: int| pos <= k < j ==> s@[k] != '\n',
            decreases len - j,
        {
            j = j + 1;
        }
        let line_end = if j < len {
            j + 1
        } else {
            len
        };
        proof {
            let cut = match find_nl(rest) {
                Option::None => rest.len() as int,
                Option::Some(i) => i + 1,
            };
            if j < len {
                assert(s@[j as int] == '\n');
                assert(rest[j - pos] == '\n');
                assert forall|k: int| 0 <= k < j - pos implies rest[k] != '\n' by {
                    assert(rest[k] == s@[pos + k]);
                }
                assert(find_nl(rest) == Option::Some(j - pos as int));
            } else {
                assert forall|k: int| 0 <= k < rest.len() implies rest[k] != '\n' by {
                    assert(rest[k] == s@[pos + k]);
                }
                assert(find_nl(rest) is None);
            }
            assert(cut == line_end - pos);
        }
        if s[pos] != '\n' {
            append_chars(wr, indent);
        }
        let line = crate::text::subrange_chars(s, pos, line_end);
        append_chars(wr, &line);
        proof {
            let cut = line_end - pos as int;
            assert(rest.take(cut) =~= s@.subrange(pos as int, line_end as int));
            assert(rest.skip(cut) =~= s@.skip(line_end as int));
        }
        pos = line_end;
    }
    proof {
        assert(s@.skip(len as int) =~= Seq::<char>::empty());
        assert(wr@ =~= old(wr)@ + render_text_spec(s@, indent@));
    }
}

/// Append the HTML escape of `s` to `wr`: the five marked characters
/// become entities.
fn escape_into(wr: &mut Vec<char>, s: &Vec<char>)
    ensures
        final(wr)@ == old(wr)@ + escape_html(s@),
{
    let len = s.len();
    let mut i: usize = 0;
    proof {
        assert(s@.skip(0) =~= s@);
    }
    #[verifier::loop_isolation(false)]
    while i < len
        invariant
            0 <= i <= len,
            len == s@.len(),
            old(wr)@ + escape_html(s@) == wr@ + escape_html(s@.skip(i as int)),
        decreases len - i,
    {
        let c = s[i];
        proof {
            assert(s@.skip(i as int)[0] == s@[i as int]);
            assert(s@.skip(i as int).drop_first() =~= s@.skip(i + 1 as int));
        }
        if c == '<' {
            wr.push('&');
            wr.push('l');
            wr.push('t');
            wr.push(';');
            proof {
                reveal_strlit("&lt;");
                assert(escape_char(c) =~= seq!['&', 'l', 't', ';']);
            }
        } else if c == '>' {
            wr.push('&');
            wr.push('g');
            wr.push('t');
            wr.push(';');
            proof {
                reveal_strlit("&gt;");
                assert(escape_char(c) =~= seq!['&', 'g', 't', ';']);
            }
        } else if c == '&' {
            wr.push('&');
            wr.push('a');
            wr.push('m');
            wr.push('p');
            wr.push(';');
            proof {
                reveal_strlit("&amp;");
                assert(escape_char(c) =~= seq!['&', 'a', 'm', 'p', ';']);
            }
        } else if c == '"' {
            wr.push('&');
            wr.push('q');
            wr.push('u');
            wr.push('o');
            wr.push('t');
            wr.push(';');
            proof {
                reveal_strlit("&quot;");
                assert(escape_char(c) =~= seq!['&', 'q', 'u', 'o', 't', ';']);
            }
        } else if c == '\'' {
            wr.push('&');
            wr.push('#');
            wr.push('3');
            wr.push('9');
            wr.push(';');
            proof {
                reveal_strlit("&#39;");
                assert(escape_char(c) =~= seq!['&', '#', '3', '9', ';']);
            }
        } else {
            wr.push(c);
            proof {
                assert(escape_char(c) =~= seq![c]);
            }
        }
        proof {
            assert(old(wr)@ + escape_html(s@) =~= wr@ + escape_html(s@.skip(i + 1 as int)));
        }
        i = i + 1;
    }
    proof {
        assert(s@.skip(len as int) =~= Seq::<char>::empty());
        assert(wr@ =~= old(wr)@ + escape_html(s@));
    }
}

} // verus!

verus! {

/// One render call's walking state: the template whose partials are in
/// scope. The indentation prefix and the depth guard travel as
/// arguments.
struct RenderContext<'t> {
    template: &'t Template,
}

impl<'t> RenderContext<'t> {
    /// Render a token sequence against the context stack, appending to
    /// `wr`. For a lambda-free stack the appended text is exactly what
    /// `spec_render_from` says; the stack always comes back as it was.
    #[verifier::rlimit(100)]
    fn render<'d>(
        &self,
        wr: &mut Vec<char>,
        stack: &mut Vec<&'d Data>,
        tokens: &Vec<Token>,
        indent: &Vec<char>,
        budget: u32,
    ) -> (r: Result<(), RenderError>)
        ensures
            final(stack)@ == old(stack)@,
            all_fun_free(stack_view(old(stack)@)) ==> match r {
                Result::Ok(()) => spec_render_from(
                    seq_token_view(tokens@),
                    0,
                    stack_view(old(stack)@),
                    self.template.pv(),
                    indent@,
                    budget as nat,
                ) is Ok && final(wr)@ == old(wr)@ + spec_render_from(
                    seq_token_view(tokens@),
                    0,
                    stack_view(old(stack)@),
                    self.template.pv(),
                    indent@,
                    budget as nat,
                )->Ok_0,
                Result::Err(e) => spec_render_from(
                    seq_token_view(tokens@),
                    0,
                    stack_view(old(stack)@),
                    self.template.pv(),
                    indent@,
                    budget as nat,
                ) == Result::<Seq<char>, RenderError>::Err(e),
            },
        decreases budget, tokens_size(seq_token_view(tokens@)), 3int, 0int,
    {
        let ghost tsv = seq_token_view(tokens@);
        let ghost sv = stack_view(old(stack)@);
        let ghost pv = self.template.pv();
        let ghost iv = indent@;
        let ghost b = budget as nat;
        let ghost wstart = wr@;
        let ghost mut out: Seq<char> = Seq::empty();
        let len = tokens.len();
        proof {
            lemma_seq_token_view_len(tokens@);
        }
        let mut i: usize = 0;
        #[verifier::loop_isolation(false)]
        while i < len
            invariant
                0 <= i <= len,
                stack@ == old(stack)@,
                all_fun_free(sv) ==> {
                    &&& wr@ == wstart + out
                    &&& spec_render_from(tsv, 0, sv, pv, iv, b) == (match spec_render_from(
                        tsv,
                        i as int,
                        sv,
                        pv,
                        iv,
                        b,
                    ) {
                        Result::Ok(rest) => Result::<Seq<char>, RenderError>::Ok(out + rest),
                        Result::Err(e) => Result::<Seq<char>, RenderError>::Err(e),
                    })
                },
            decreases len - i,
        {
            proof {
                lemma_seq_token_view_index(tokens@, i as int);
                assert(tokens_size_rec(tsv, i + 1) == tokens_size_rec(tsv, i as int)
                    + token_size(tsv[i as int]));
                lemma_tokens_size_mono(tsv, i + 1, tsv.len() as int);
                assert(token_size(tsv[i as int]) <= tokens_size(tsv));
            }
            let ghost wpre = wr@;
            let res = self.render_token(wr, stack, &tokens[i], indent, budget);
            match res {
                Result::Err(e) => {
                    proof {
                        if all_fun_free(sv) {
                            assert(spec_render_from(tsv, 0, sv, pv, iv, b)
                                == Result::<Seq<char>, RenderError>::Err(e));
                        }
                    }
                    return Result::Err(e);
                },
                Result::Ok(()) => {
                    proof {
                        if all_fun_free(sv) {
                            let o1 = spec_render_token(tsv[i as int], sv, pv, iv, b)->Ok_0;
                            let out0 = out;
                            out = out + o1;
                            assert(wr@ == wstart + out) by {
                                assert(wstart + (out0 + o1) =~= (wstart + out0) + o1);
                            }
                            match spec_render_from(tsv, i + 1, sv, pv, iv, b) {
                                Result::Ok(rest) => {
                                    assert((out0 + o1) + rest =~= out0 + (o1 + rest));
                                },
                                Result::Err(_) => {},
                            }
                        }
                    }
                },
            }
            i = i + 1;
        }
        proof {
            if all_fun_free(sv) {
                assert(spec_render_from(tsv, len as int, sv, pv, iv, b)
                    == Result::<Seq<char>, RenderError>::Ok(Seq::<char>::empty()));
                assert(out + Seq::<char>::empty() =~= out);
            }
        }
        Result::Ok(())
    }

    /// Render one token.
    #[verifier::rlimit(100)]
    fn render_token<'d>(
        &self,
        wr: &mut Vec<char>,
        stack: &mut Vec<&'d Data>,
        t: &Token,
        indent: &Vec<char>,
        budget: u32,
    ) -> (r: Result<(), RenderError>)
        ensures
            final(stack)@ == old(stack)@,
            all_fun_free(stack_view(old(stack)@)) ==> match r {
                Result::Ok(()) => spec_render_token(
                    t@,
                    stack_view(old(stack)@),
                    self.template.pv(),
                    indent@,
                    budget as nat,
                ) is Ok && final(wr)@ == old(wr)@ + spec_render_token(
                    t@,
                    stack_view(old(stack)@),
                    self.template.pv(),
                    indent@,
                    budget as nat,
                )->Ok_0,
                Result::Err(e) => spec_render_token(
                    t@,
                    stack_view(old(stack)@),
                    self.template.pv(),
                    indent@,
                    budget as nat,
                ) == Result::<Seq<char>, RenderError>::Err(e),
            },
        decreases budget, token_size(t@), 2int, 0int,
    {
        let ghost sv = stack_view(old(stack)@);
        let ghost pv = self.template.pv();
        let ghost iv = indent@;
        let ghost b = budget as nat;
        proof {
            lemma_token_size_pos(t@);
        }
        match t {
            Token::Text(s) => {
                let cs = crate::text::chars_of_str(s.as_str());
                emit_text(wr, &cs, indent);
                Result::Ok(())
            },
            Token::ETag(path, _) => {
                let mut buf: Vec<char> = Vec::new();
                match self.render_utag(&mut buf, stack, path, indent, budget) {
                    Result::Err(e) => Result::Err(e),
                    Result::Ok(()) => {
                        escape_into(wr, &buf);
                        proof {
                            if all_fun_free(sv) {
                                assert(buf@ =~= spec_render_utag(path.deep_view(), sv, iv)->Ok_0);
                            }
                        }
                        Result::Ok(())
                    },
                }
            },
            Token::UTag(path, _) => self.render_utag(wr, stack, path, indent, budget),
            Token::Section(path, inverted, children, otag, _os, src, _cs, ctag) => {
                if *inverted {
                    match find_in_stack(path, stack) {
                        Result::Err(e) => Result::Err(e),
                        Result::Ok(Option::None) => self.render(
                            wr,
                            stack,
                            children,
                            indent,
                            budget,
                        ),
                        Result::Ok(Option::Some(d)) => {
                            let empty_hit = match d {
                                Data::Bool(bb) => !*bb,
                                Data::VecVal(v) => {
                                    proof {
                                        crate::data::lemma_seq_data_view_len(d->VecVal_0@);
                                    }
                                    v.len() == 0
                                },
                                _ => false,
                            };
                            proof {
                                if d is VecVal && d->VecVal_0@.len() == 0 {
                                    assert(crate::data::seq_data_view(d->VecVal_0@)
                                        =~= Seq::<DataV>::empty());
                                    assert(data_view(*d) == DataV::List(Seq::<DataV>::empty()));
                                }
                            }
                            if empty_hit {
                                self.render(wr, stack, children, indent, budget)
                            } else {
                                proof {
                                    assert(old(wr)@ + Seq::<char>::empty() =~= wr@);
                                }
                                Result::Ok(())
                            }
                        },
                    }
                } else {
                    match find_in_stack(path, stack) {
                        Result::Err(e) => Result::Err(e),
                        Result::Ok(Option::None) => {
                            proof {
                                assert(old(wr)@ + Seq::<char>::empty() =~= wr@);
                            }
                            Result::Ok(())
                        },
                        Result::Ok(Option::Some(d)) => match d {
                            Data::StrVal(_) => Result::Err(RenderError::UnexpectedValue),
                            Data::Bool(bb) => {
                                if *bb {
                                    self.render(wr, stack, children, indent, budget)
                                } else {
                                    proof {
                                        assert(old(wr)@ + Seq::<char>::empty() =~= wr@);
                                    }
                                    Result::Ok(())
                                }
                            },
                            Data::VecVal(vs) => {
                                proof {
                                    if all_fun_free(sv) {
                                        lemma_find_fun_free(sv, path.deep_view());
                                    }
                                }
                                self.render_list(wr, stack, vs, children, indent, budget)
                            },
                            Data::MapVal(_) => {
                                let ghost spre = stack@;
                                stack.push(d);
                                proof {
                                    assert(stack_view(stack@) =~= stack_view(spre).push(
                                        data_view(*d),
                                    ));
                                    if all_fun_free(sv) {
                                        lemma_find_fun_free(sv, path.deep_view());
                                        assert(all_fun_free(stack_view(stack@)));
                                    }
                                }
                                let res = self.render(wr, stack, children, indent, budget);
                                stack.pop();
                                proof {
                                    assert(stack@ =~= spre);
                                }
                                res
                            },
                            Data::Fun(f) => {
                                proof {
                                    if all_fun_free(sv) {
                                        lemma_find_fun_free(sv, path.deep_view());
                                    }
                                }
                                if budget == 0 {
                                    return Result::Err(RenderError::TooDeep);
                                }
                                let oc = crate::text::chars_of_str(otag.as_str());
                                let cc = crate::text::chars_of_str(ctag.as_str());
                                if oc.len() == 0 || cc.len() == 0 {
                                    return Result::Err(RenderError::InvalidTokens);
                                }
                                let text = f.invoke(src.clone());
                                let tc = crate::text::chars_of_str(text.as_str());
                                let parser = crate::parser::Parser::new(
                                    tc,
                                    otag.as_str(),
                                    ctag.as_str(),
                                );
                                match parser.parse() {
                                    Result::Err(pe) => Result::Err(RenderError::LambdaParse(pe)),
                                    Result::Ok(tp) => {
                                        let toks = tp.0;
                                        self.render(wr, stack, &toks, indent, budget - 1)
                                    },
                                }
                            },
                        },
                    }
                }
            },
            Token::IncompleteSection(_, _, _, _) => Result::Err(RenderError::InvalidTokens),
            Token::Partial(name, pindent, _) => {
                self.render_partial(wr, stack, name, pindent, indent, budget)
            },
        }
    }

    /// Render a section's children once per list element, each element
    /// pushed as the innermost scope for its pass.
    #[verifier::rlimit(100)]
    fn render_list<'d>(
        &self,
        wr: &mut Vec<char>,
        stack: &mut Vec<&'d Data>,
        vs: &'d Vec<Data>,
        children: &Vec<Token>,
        indent: &Vec<char>,
        budget: u32,
    ) -> (r: Result<(), RenderError>)
        ensures
            final(stack)@ == old(stack)@,
            (all_fun_free(stack_view(old(stack)@)) && fun_free(DataV::List(
                crate::data::seq_data_view(vs@),
            ))) ==> match r {
                Result::Ok(()) => spec_render_list(
                    crate::data::seq_data_view(vs@),
                    0,
                    seq_token_view(children@),
                    stack_view(old(stack)@),
                    self.template.pv(),
                    indent@,
                    budget as nat,
                ) is Ok && final(wr)@ == old(wr)@ + spec_render_list(
                    crate::data::seq_data_view(vs@),
                    0,
                    seq_token_view(children@),
                    stack_view(old(stack)@),
                    self.template.pv(),
                    indent@,
                    budget as nat,
                )->Ok_0,
                Result::Err(e) => spec_render_list(
                    crate::data::seq_data_view(vs@),
                    0,
                    seq_token_view(children@),
                    stack_view(old(stack)@),
                    self.template.pv(),
                    indent@,
                    budget as nat,
                ) == Result::<Seq<char>, RenderError>::Err(e),
            },
        decreases budget, tokens_size(seq_token_view(children@)), 4int, 0int,
    {
        let ghost vsv = crate::data::seq_data_view(vs@);
        let ghost csv = seq_token_view(children@);
        let ghost sv = stack_view(old(stack)@);
        let ghost pv = self.template.pv();
        let ghost iv = indent@;
        let ghost b = budget as nat;
        let ghost wstart = wr@;
        let ghost mut out: Seq<char> = Seq::empty();
        let ghost ok_case = all_fun_free(sv) && fun_free(DataV::List(vsv));
        let len = vs.len();
        proof {
            crate::data::lemma_seq_data_view_len(vs@);
        }
        let mut j: usize = 0;
        #[verifier::loop_isolation(false)]
        while j < len
            invariant
                0 <= j <= len,
                stack@ == old(stack)@,
                ok_case ==> {
                    &&& wr@ == wstart + out
                    &&& spec_render_list(vsv, 0, csv, sv, pv, iv, b) == (match spec_render_list(
                        vsv,
                        j as int,
                        csv,
                        sv,
                        pv,
                        iv,
                        b,
                    ) {
                        Result::Ok(rest) => Result::<Seq<char>, RenderError>::Ok(out + rest),
                        Result::Err(e) => Result::<Seq<char>, RenderError>::Err(e),
                    })
                },
            decreases len - j,
        {
            proof {
                crate::data::lemma_seq_data_view_index(vs@, j as int);
            }
            let ghost spre = stack@;
            let elem: &'d Data = &vs[j];
            stack.push(elem);
            proof {
                assert(stack_view(stack@) =~= stack_view(spre).push(data_view(*elem)));
                if ok_case {
                    crate::data::lemma_fun_free_list_elem(DataV::List(vsv), j as int);
                    assert(all_fun_free(stack_view(stack@)));
                }
            }
            let res = self.render(wr, stack, children, indent, budget);
            stack.pop();
            proof {
                assert(stack@ =~= spre);
            }
            match res {
                Result::Err(e) => {
                    proof {
                        if ok_case {
                            assert(spec_render_list(vsv, 0, csv, sv, pv, iv, b)
                                == Result::<Seq<char>, RenderError>::Err(e));
                        }
                    }
                    return Result::Err(e);
                },
                Result::Ok(()) => {
                    proof {
                        if ok_case {
                            let o1 = spec_render_from(csv, 0, sv.push(vsv[j as int]), pv, iv, b)->Ok_0;
                            let out0 = out;
                            out = out + o1;
                            assert(wr@ == wstart + out) by {
                                assert(wstart + (out0 + o1) =~= (wstart + out0) + o1);
                            }
                            match spec_render_list(vsv, j + 1, csv, sv, pv, iv, b) {
                                Result::Ok(rest) => {
                                    assert((out0 + o1) + rest =~= out0 + (o1 + rest));
                                },
                                Result::Err(_) => {},
                            }
                        }
                    }
                },
            }
            j = j + 1;
        }
        proof {
            if ok_case {
                assert(spec_render_list(vsv, len as int, csv, sv, pv, iv, b)
                    == Result::<Seq<char>, RenderError>::Ok(Seq::<char>::empty()));
                assert(out + Seq::<char>::empty() =~= out);
            }
        }
        Result::Ok(())
    }

    /// Render an unescaped interpolation: the indent and the resolved
    /// string, or a lambda's re-parsed replacement text.
    #[verifier::rlimit(100)]
    fn render_utag<'d>(
        &self,
        wr: &mut Vec<char>,
        stack: &mut Vec<&'d Data>,
        path: &Vec<String>,
        indent: &Vec<char>,
        budget: u32,
    ) -> (r: Result<(), RenderError>)
        ensures
            final(stack)@ == old(stack)@,
            all_fun_free(stack_view(old(stack)@)) ==> match r {
                Result::Ok(()) => spec_render_utag(
                    path.deep_view(),
                    stack_view(old(stack)@),
                    indent@,
                ) is Ok && final(wr)@ == old(wr)@ + spec_render_utag(
                    path.deep_view(),
                    stack_view(old(stack)@),
                    indent@,
                )->Ok_0,
                Result::Err(e) => spec_render_utag(
                    path.deep_view(),
                    stack_view(old(stack)@),
                    indent@,
                ) == Result::<Seq<char>, RenderError>::Err(e),
            },
        decreases budget, 0int, 1int, 0int,
    {
        let ghost sv = stack_view(old(stack)@);
        match find_in_stack(path, stack) {
            Result::Err(e) => Result::Err(e),
            Result::Ok(Option::None) => {
                proof {
                    assert(old(wr)@ + Seq::<char>::empty() =~= old(wr)@);
                }
                Result::Ok(())
            },
            Result::Ok(Option::Some(d)) => {
                append_chars(wr, indent);
                match d {
                    Data::StrVal(s) => {
                        let cs = crate::text::chars_of_str(s.as_str());
                        append_chars(wr, &cs);
                        proof {
                            assert(old(wr)@ + (indent@ + s@) =~= wr@);
                        }
                        Result::Ok(())
                    },
                    Data::Fun(f) => {
                        proof {
                            if all_fun_free(sv) {
                                lemma_find_fun_free(sv, path.deep_view());
                            }
                        }
                        if budget == 0 {
                            return Result::Err(RenderError::TooDeep);
                        }
                        let text = f.invoke(String::new());
                        let tc = crate::text::chars_of_str(text.as_str());
                        proof {
                            reveal_strlit("{{");
                            reveal_strlit("}}");
                        }
                        let parser = crate::parser::Parser::new(tc, "{{", "}}");
                        match parser.parse() {
                            Result::Err(pe) => Result::Err(RenderError::LambdaParse(pe)),
                            Result::Ok(tp) => {
                                let toks = tp.0;
                                self.render(wr, stack, &toks, indent, budget - 1)
                            },
                        }
                    },
                    _ => Result::Err(RenderError::UnexpectedValue),
                }
            },
        }
    }

    /// Render a partial by name: a miss renders nothing; a hit renders
    /// the partial's tokens with the indentation extended by the
    /// partial tag's own recorded prefix.
    fn render_partial<'d>(
        &self,
        wr: &mut Vec<char>,
        stack: &mut Vec<&'d Data>,
        name: &String,
        pindent: &String,
        indent: &Vec<char>,
        budget: u32,
    ) -> (r: Result<(), RenderError>)
        ensures
            final(stack)@ == old(stack)@,
            all_fun_free(stack_view(old(stack)@)) ==> {
                let pv = self.template.pv();
                let spec_r: Result<Seq<char>, RenderError> = if !pv.dom().contains(name@) {
                    Result::Ok(Seq::empty())
                } else if budget == 0 {
                    Result::Err(RenderError::TooDeep)
                } else {
                    spec_render_from(
                        pv[name@],
                        0,
                        stack_view(old(stack)@),
                        pv,
                        indent@ + pindent@,
                        (budget - 1) as nat,
                    )
                };
                match r {
                    Result::Ok(()) => spec_r is Ok && final(wr)@ == old(wr)@ + spec_r->Ok_0,
                    Result::Err(e) => spec_r == Result::<Seq<char>, RenderError>::Err(e),
                }
            },
        decreases budget, 0int, 1int, 0int,
    {
        let ghost pv = self.template.pv();
        proof {
            lemma_assoc_find(pentries_view(self.template.partials@), name@);
        }
        match partials_get(&self.template.partials, name.as_str()) {
            Option::None => {
                proof {
                    assert(old(wr)@ + Seq::<char>::empty() =~= old(wr)@);
                }
                Result::Ok(())
            },
            Option::Some(ptokens) => {
                if budget == 0 {
                    return Result::Err(RenderError::TooDeep);
                }
                let pic = crate::text::chars_of_str(pindent.as_str());
                let new_indent = crate::text::concat_chars(indent, &pic);
                self.render(wr, stack, ptokens, &new_indent, budget - 1)
            },
        }
    }
}

impl Template {
    /// Render the template against a `Data` value, producing the
    /// output text. For a lambda-free value the result is exactly
    /// `spec_render` on the template's and the value's views; every
    /// fatal render condition comes back as an error.
    pub fn render_data(&self, data: &Data) -> (r: Result<String, RenderError>)
        ensures
            fun_free(data_view(*data)) ==> match r {
                Result::Ok(s) => spec_render(self.tv(), data_view(*data), self.pv()) == Result::<
                    Seq<char>,
                    RenderError,
                >::Ok(s@),
                Result::Err(e) => spec_render(self.tv(), data_view(*data), self.pv()) == Result::<
                    Seq<char>,
                    RenderError,
                >::Err(e),
            },
    {
        let rctx = RenderContext { template: self };
        let mut wr: Vec<char> = Vec::new();
        let mut stack: Vec<&Data> = Vec::new();
        stack.push(data);
        let empty_indent: Vec<char> = Vec::new();
        proof {
            assert(stack_view(stack@) =~= seq![data_view(*data)]);
            if fun_free(data_view(*data)) {
                assert(all_fun_free(stack_view(stack@)));
            }
        }
        let res = rctx.render(
            &mut wr,
            &mut stack,
            &self.tokens,
            &empty_indent,
            RENDER_DEPTH_LIMIT,
        );
        match res {
            Result::Err(e) => Result::Err(e),
            Result::Ok(()) => {
                let s = crate::text::string_from_chars(&wr);
                proof {
                    if fun_free(data_view(*data)) {
                        assert(Seq::<char>::empty() + spec_render(
                            self.tv(),
                            data_view(*data),
                            self.pv(),
                        )->Ok_0 =~= s@);
                    }
                }
                Result::Ok(s)
            },
        }
    }
}

} // verus!
