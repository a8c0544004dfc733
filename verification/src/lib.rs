//! A Mustache template engine: template text is compiled into a token
//! tree, and the tree is rendered against a hierarchical `Data` value.

use vstd::prelude::*;

pub mod builder;
pub mod compiler;
pub mod data;
pub mod encoder;
pub mod laws;
pub mod parser;
pub mod text;
pub mod template;

pub use builder::MapBuilder;
pub use builder::VecBuilder;
pub use data::Data;
pub use encoder::Encoder;
pub use encoder::EncoderResult;
pub use encoder::Error;
pub use template::Template;

verus! {

/// The shared metadata needed to compile and render templates: the
/// root under which template files live and their file extension. The
/// file loading itself is left to the caller; the library only records
/// the two names.
pub struct Context {
    pub template_path: String,
    pub template_extension: String,
}

impl Context {
    /// A context rooted at `path`, with the customary extension.
    pub fn new(path: String) -> (r: Context)
        ensures
            r.template_path@ == path@,
            r.template_extension@ == "mustache"@,
    {
        Context { template_path: path, template_extension: String::from_str("mustache") }
    }

    /// An identical context.
    pub fn duplicate(&self) -> (r: Context)
        ensures
            r.template_path@ == self.template_path@,
            r.template_extension@ == self.template_extension@,
    {
        Context {
            template_path: self.template_path.clone(),
            template_extension: self.template_extension.clone(),
        }
    }
}

impl Context {
    /// Compile template text into a `Template`, with the default
    /// delimiters and an empty partial map.
    pub fn compile(&self, reader: Vec<char>) -> (r: Result<Template, crate::parser::ParseError>)
        ensures
            match r {
                Result::Ok(t) => crate::parser::spec_parse(reader@, "{{"@, "}}"@) is Ok
                    && t.tv() == crate::parser::spec_parse(reader@, "{{"@, "}}"@)->Ok_0.0
                    && t.pv() == Map::<Seq<char>, Seq<crate::parser::TokenV>>::empty(),
                Result::Err(e) => crate::parser::spec_parse(reader@, "{{"@, "}}"@) == Result::<
                    (Seq<crate::parser::TokenV>, Seq<Seq<char>>),
                    crate::parser::ParseError,
                >::Err(e),
            },
    {
        let c = crate::compiler::Compiler::new(self.duplicate(), reader);
        match c.compile() {
            Result::Err(e) => Result::Err(e),
            Result::Ok(tp) => {
                let tokens = tp.0;
                let partials = tp.1;
                let ghost psv = partials@;
                let t = crate::template::new(self.duplicate(), tokens, partials);
                proof {
                    assert(crate::template::pentries_view(psv) =~= Seq::<
                        (Seq<char>, Seq<crate::parser::TokenV>),
                    >::empty());
                    assert(t.pv() =~= Map::<Seq<char>, Seq<crate::parser::TokenV>>::empty());
                }
                Result::Ok(t)
            },
        }
    }
}

/// Compile a template from its characters, rooted at the current
/// directory.
pub fn compile_iter(iter: Vec<char>) -> (r: Result<Template, crate::parser::ParseError>)
    ensures
        match r {
            Result::Ok(t) => crate::parser::spec_parse(iter@, "{{"@, "}}"@) is Ok && t.tv()
                == crate::parser::spec_parse(iter@, "{{"@, "}}"@)->Ok_0.0 && t.pv() == Map::<
                Seq<char>,
                Seq<crate::parser::TokenV>,
            >::empty(),
            Result::Err(e) => crate::parser::spec_parse(iter@, "{{"@, "}}"@) == Result::<
                (Seq<crate::parser::TokenV>, Seq<Seq<char>>),
                crate::parser::ParseError,
            >::Err(e),
        },
{
    Context::new(String::from_str(".")).compile(iter)
}

/// Compile a template from a string.
pub fn compile_str(template: &str) -> (r: Result<Template, crate::parser::ParseError>)
    ensures
        match r {
            Result::Ok(t) => crate::parser::spec_parse(template@, "{{"@, "}}"@) is Ok && t.tv()
                == crate::parser::spec_parse(template@, "{{"@, "}}"@)->Ok_0.0 && t.pv() == Map::<
                Seq<char>,
                Seq<crate::parser::TokenV>,
            >::empty(),
            Result::Err(e) => crate::parser::spec_parse(template@, "{{"@, "}}"@) == Result::<
                (Seq<crate::parser::TokenV>, Seq<Seq<char>>),
                crate::parser::ParseError,
            >::Err(e),
        },
{
    compile_iter(crate::text::chars_of_str(template))
}

} // verus!
