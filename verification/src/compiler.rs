//! The compiler: drives the parser over template text with the active
//! delimiter pair and carries the mapping of partial name to compiled
//! token list.

use vstd::prelude::*;
use crate::parser::{spec_parse, ParseError, Parser, Token};

verus! {

/// `Compiler` compiles template text into a token sequence, together
/// with a partial map it passes through unchanged. Loading partial
/// sources is the caller's concern; a name missing from the map simply
/// expands to nothing at render time.
pub struct Compiler {
    ctx: crate::Context,
    reader: Vec<char>,
    partials: Vec<(String, Vec<Token>)>,
    otag: String,
    ctag: String,
}

impl Compiler {
    /// The input text.
    pub closed spec fn rv(&self) -> Seq<char> {
        self.reader@
    }

    /// The active open delimiter.
    pub closed spec fn otv(&self) -> Seq<char> {
        self.otag@
    }

    /// The active close delimiter.
    pub closed spec fn ctv(&self) -> Seq<char> {
        self.ctag@
    }

    /// The partial map handed in.
    pub closed spec fn psv(&self) -> Seq<(String, Vec<Token>)> {
        self.partials@
    }

    /// The delimiters are never empty.
    pub closed spec fn wf(&self) -> bool {
        self.otag@.len() >= 1 && self.ctag@.len() >= 1
    }

    /// A compiler over `reader` with the default delimiters and no
    /// partials.
    pub fn new(ctx: crate::Context, reader: Vec<char>) -> (r: Compiler)
        ensures
            r.wf(),
            r.rv() == reader@,
            r.otv() == "{{"@,
            r.ctv() == "}}"@,
            r.psv() == Seq::<(String, Vec<Token>)>::empty(),
    {
        proof {
            reveal_strlit("{{");
            reveal_strlit("}}");
        }
        Compiler {
            ctx,
            reader,
            partials: Vec::new(),
            otag: String::from_str("{{"),
            ctag: String::from_str("}}"),
        }
    }

    /// A compiler over `reader` with a given partial map and delimiter
    /// pair; used when re-parsing text produced inside a template.
    pub fn new_with(
        ctx: crate::Context,
        reader: Vec<char>,
        partials: Vec<(String, Vec<Token>)>,
        otag: String,
        ctag: String,
    ) -> (r: Compiler)
        requires
            otag@.len() >= 1,
            ctag@.len() >= 1,
        ensures
            r.wf(),
            r.rv() == reader@,
            r.otv() == otag@,
            r.ctv() == ctag@,
            r.psv() == partials@,
    {
        Compiler { ctx, reader, partials, otag, ctag }
    }

    /// Compile the text into tokens; the partial map passes through.
    pub fn compile(self) -> (r: Result<(Vec<Token>, Vec<(String, Vec<Token>)>), ParseError>)
        requires
            self.wf(),
        ensures
            match r {
                Result::Ok(tp) => spec_parse(self.rv(), self.otv(), self.ctv()) is Ok
                    && crate::parser::seq_token_view(tp.0@) == spec_parse(
                    self.rv(),
                    self.otv(),
                    self.ctv(),
                )->Ok_0.0 && tp.1@ == self.psv(),
                Result::Err(e) => spec_parse(self.rv(), self.otv(), self.ctv()) == Result::<
                    (Seq<crate::parser::TokenV>, Seq<Seq<char>>),
                    ParseError,
                >::Err(e),
            },
    {
        let Compiler { ctx: _ctx, reader, partials, otag, ctag } = self;
        let parser = Parser::new(reader, otag.as_str(), ctag.as_str());
        match parser.parse() {
            Result::Err(e) => Result::Err(e),
            Result::Ok(tp) => {
                let tokens = tp.0;
                Result::Ok((tokens, partials))
            },
        }
    }
}

} // verus!
