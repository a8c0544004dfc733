//! The tokenizer/parser: a single-pass character state machine that
//! turns template text into a token tree, handling custom delimiters
//! and standalone-line whitespace trimming.
//!
//! The machine itself is specified by the spec functions in
//! `parse_spec`; the executable parser here is proved to return exactly
//! what the specification says, so parsing is a function of the input
//! text and the starting delimiter pair alone.

use vstd::prelude::*;

verus! {

broadcast use vstd::std_specs::vec::group_vec_axioms, vstd::seq::group_seq_axioms;

/// One section of a compiled mustache template.
///
/// `Section` records, in order: the dotted path, the inverted flag, the
/// child tokens, the open delimiter, the full open-tag source, the
/// literal source text spanned by the body, the full close-tag source,
/// and the close delimiter. `IncompleteSection` is transient: it only
/// exists while the parser waits for the matching close tag, and never
/// survives a successful parse.
#[derive(Debug, PartialEq)]
pub enum Token {
    Text(String),
    ETag(Vec<String>, String),
    UTag(Vec<String>, String),
    Section(Vec<String>, bool, Vec<Token>, String, String, String, String, String),
    IncompleteSection(Vec<String>, bool, String, bool),
    Partial(String, String, String),
}

/// Mathematical view of a `Token`.
pub ghost enum TokenV {
    Text(Seq<char>),
    ETag(Seq<Seq<char>>, Seq<char>),
    UTag(Seq<Seq<char>>, Seq<char>),
    Section(
        Seq<Seq<char>>,
        bool,
        Seq<TokenV>,
        Seq<char>,
        Seq<char>,
        Seq<char>,
        Seq<char>,
        Seq<char>,
    ),
    IncompleteSection(Seq<Seq<char>>, bool, Seq<char>, bool),
    Partial(Seq<char>, Seq<char>, Seq<char>),
}

/// The view of a `Token`, reached structurally.
pub open spec fn token_view(t: Token) -> TokenV
    decreases t,
    via token_view_dec
{
    match t {
        Token::Text(s) => TokenV::Text(s@),
        Token::ETag(p, s) => TokenV::ETag(p.deep_view(), s@),
        Token::UTag(p, s) => TokenV::UTag(p.deep_view(), s@),
        Token::Section(p, inv, children, ot, os, src, cs, ct) => TokenV::Section(
            p.deep_view(),
            inv,
            seq_token_view(children@),
            ot@,
            os@,
            src@,
            cs@,
            ct@,
        ),
        Token::IncompleteSection(p, inv, os, nl) => TokenV::IncompleteSection(
            p.deep_view(),
            inv,
            os@,
            nl,
        ),
        Token::Partial(n, ind, s) => TokenV::Partial(n@, ind@, s@),
    }
}

/// The element-wise view of a sequence of tokens.
pub open spec fn seq_token_view(s: Seq<Token>) -> Seq<TokenV>
    decreases s,
    via seq_token_view_dec
{
    if s.len() == 0 {
        Seq::empty()
    } else {
        seq_token_view(s.drop_last()).push(token_view(s.last()))
    }
}

#[via_fn]
proof fn token_view_dec(t: Token) {
    match t {
        Token::Section(p, inv, children, ot, os, src, cs, ct) => {
            assert(decreases_to!(t => t->Section_2));
            assert(decreases_to!(children => children@));
            assert(decreases_to!(t => children@));
        }
        _ => {}
    }
}

#[via_fn]
proof fn seq_token_view_dec(s: Seq<Token>) {
    if s.len() > 0 {
        assert(decreases_to!(s => s[s.len() - 1]));
    }
}

impl View for Token {
    type V = TokenV;

    open spec fn view(&self) -> TokenV {
        token_view(*self)
    }
}

/// The view of a sequence of tokens is element-wise.
pub broadcast proof fn lemma_seq_token_view_index(s: Seq<Token>, i: int)
    requires
        0 <= i < s.len(),
    ensures
        seq_token_view(s).len() == s.len(),
        #[trigger] seq_token_view(s)[i] == token_view(s[i]),
    decreases s.len(),
{
    lemma_seq_token_view_len(s);
    if s.len() > 0 && i < s.len() - 1 {
        lemma_seq_token_view_index(s.drop_last(), i);
    }
}

/// The element-wise view keeps the length.
pub proof fn lemma_seq_token_view_len(s: Seq<Token>)
    ensures
        seq_token_view(s).len() == s.len(),
    decreases s.len(),
{
    if s.len() > 0 {
        lemma_seq_token_view_len(s.drop_last());
    }
}

/// Appending one token appends its view.
pub proof fn lemma_seq_token_view_push(s: Seq<Token>, t: Token)
    ensures
        seq_token_view(s.push(t)) == seq_token_view(s).push(token_view(t)),
{
    assert(s.push(t).drop_last() =~= s);
    assert(s.push(t).last() == t);
}

/// A token is well formed when no `IncompleteSection` remains anywhere
/// in it: every opened section has been closed.
pub open spec fn token_wf(t: TokenV) -> bool
    decreases t,
{
    match t {
        TokenV::IncompleteSection(_, _, _, _) => false,
        TokenV::Section(_, _, children, _, _, _, _, _) => forall|i: int|
            0 <= i < children.len() ==> token_wf(#[trigger] children[i]),
        _ => true,
    }
}

/// Every token of the sequence is well formed.
pub open spec fn tokens_wf(ts: Seq<TokenV>) -> bool {
    forall|i: int| 0 <= i < ts.len() ==> token_wf(#[trigger] ts[i])
}

/// A failure of compilation. Every variant aborts the compile with no
/// partial result.
#[derive(Clone, Copy, Debug, PartialEq, Eq, Structural)]
pub enum ParseError {
    /// End of input was reached inside a tag body.
    UnclosedTag,
    /// A character did not complete the promised close delimiter.
    BadCloseTag,
    /// A `{...` unescape tag did not end with `}`.
    UnbalancedUnescapeTag,
    /// A tag body was empty or held only whitespace.
    EmptyTag,
    /// A `=...=` delimiter-change tag did not hold two delimiters.
    BadDelimiterTag,
    /// A `/name` close tag had no open section to close.
    UnopenedSection,
    /// A section was left open, or closed under a different name.
    UnclosedSection,
}

} // verus!

verus! {

// ---------------------------------------------------------------------
// Character-level helpers shared by the parsing specification and the
// executable parser.
// ---------------------------------------------------------------------

/// Whether `c` has the Unicode `White_Space` property; the list of such
/// characters is fixed by the Unicode character database.
pub open spec fn is_ws(c: char) -> bool {
    let u = c as u32;
    (0x09 <= u && u <= 0x0D) || u == 0x20 || u == 0x85 || u == 0xA0 || u == 0x1680 || (0x2000
        <= u && u <= 0x200A) || u == 0x2028 || u == 0x2029 || u == 0x202F || u == 0x205F || u
        == 0x3000
}

/// `s` without its leading whitespace.
pub open spec fn trim_left(s: Seq<char>) -> Seq<char>
    decreases s.len(),
{
    if s.len() > 0 && is_ws(s[0]) {
        trim_left(s.drop_first())
    } else {
        s
    }
}

/// `s` without its trailing whitespace.
pub open spec fn trim_right(s: Seq<char>) -> Seq<char>
    decreases s.len(),
{
    if s.len() > 0 && is_ws(s.last()) {
        trim_right(s.drop_last())
    } else {
        s
    }
}

/// `s` without leading and trailing whitespace.
pub open spec fn trim_spec(s: Seq<char>) -> Seq<char> {
    trim_right(trim_left(s))
}

/// `s` split at every `.`; always at least one piece, one more piece
/// than there are dots.
pub open spec fn split_all(s: Seq<char>) -> Seq<Seq<char>>
    decreases s.len(),
{
    if s.len() == 0 {
        seq![Seq::<char>::empty()]
    } else if s[0] == '.' {
        seq![Seq::<char>::empty()] + split_all(s.drop_first())
    } else {
        let rest = split_all(s.drop_first());
        seq![seq![s[0]] + rest[0]] + rest.drop_first()
    }
}

/// `s` split at every `.`, with a trailing empty piece dropped: the
/// behaviour of splitting with a terminator.
pub open spec fn split_term(s: Seq<char>) -> Seq<Seq<char>> {
    let ps = split_all(s);
    if ps.last().len() == 0 {
        ps.drop_last()
    } else {
        ps
    }
}

/// The dotted path denoted by a tag body `t` (already trimmed): a bare
/// `.` is the empty path, anything else splits at the dots.
pub open spec fn path_of(t: Seq<char>) -> Seq<Seq<char>> {
    if t =~= seq!['.'] {
        Seq::empty()
    } else {
        split_term(t)
    }
}

/// The last position in `s` holding a newline or a non-whitespace
/// character, if any.
pub open spec fn rfind_significant(s: Seq<char>) -> Option<int>
    decreases s.len(),
{
    if s.len() == 0 {
        Option::None
    } else if s.last() == '\n' || !is_ws(s.last()) {
        Option::Some(s.len() - 1)
    } else {
        rfind_significant(s.drop_last())
    }
}

/// The first position in `s` holding whitespace, if any.
pub open spec fn find_first_ws(s: Seq<char>) -> Option<int>
    decreases s.len(),
{
    if s.len() == 0 {
        Option::None
    } else if is_ws(s[0]) {
        Option::Some(0)
    } else {
        match find_first_ws(s.drop_first()) {
            Option::None => Option::None,
            Option::Some(i) => Option::Some(i + 1),
        }
    }
}

/// The first position in `s` holding non-whitespace, if any.
pub open spec fn find_first_non_ws(s: Seq<char>) -> Option<int>
    decreases s.len(),
{
    if s.len() == 0 {
        Option::None
    } else if !is_ws(s[0]) {
        Option::Some(0)
    } else {
        match find_first_non_ws(s.drop_first()) {
            Option::None => Option::None,
            Option::Some(i) => Option::Some(i + 1),
        }
    }
}

/// The literal source text a token stands for: a section contributes
/// its open tag, its spanned body and its close tag. An
/// `IncompleteSection` never stands among a closed section's children,
/// so its source is never read; it is defined as empty.
pub open spec fn token_src(t: TokenV) -> Seq<char> {
    match t {
        TokenV::Text(s) => s,
        TokenV::ETag(_, s) => s,
        TokenV::UTag(_, s) => s,
        TokenV::Partial(_, _, s) => s,
        TokenV::Section(_, _, _, _, os, src, cs, _) => os + src + cs,
        TokenV::IncompleteSection(_, _, _, _) => Seq::empty(),
    }
}

/// The concatenated literal source of a token sequence.
pub open spec fn tokens_src(ts: Seq<TokenV>) -> Seq<char>
    decreases ts.len(),
{
    if ts.len() == 0 {
        Seq::empty()
    } else {
        tokens_src(ts.drop_last()) + token_src(ts.last())
    }
}

} // verus!

verus! {

// ---------------------------------------------------------------------
// The parsing machine specification. `spec_parse` is the mathematical
// definition of what parsing a template text means; the executable
// parser below is proved to return exactly its result.
// ---------------------------------------------------------------------

/// The four states of the character machine: plain text, matching an
/// open delimiter, inside a tag body, matching a close delimiter.
pub ghost enum PMode {
    Text,
    Otag,
    Tag,
    Ctag,
}

/// The whole state of the parsing machine.
#[verifier::ext_equal]
pub ghost struct MachineV {
    /// Index into the input of the next character to examine.
    pub pos: int,
    pub mode: PMode,
    /// Whether a leading `{` of a triple-mustache tag is still open.
    pub curly: bool,
    /// The pending text or tag-body buffer.
    pub content: Seq<char>,
    /// The active open delimiter; never empty.
    pub otag: Seq<char>,
    /// The active close delimiter; never empty.
    pub ctag: Seq<char>,
    /// How many delimiter characters have been matched so far.
    pub tag_position: int,
    pub tokens: Seq<TokenV>,
    pub partials: Seq<Seq<char>>,
}

/// Advance past the current character; at end of input nothing moves.
pub open spec fn mv_bump(input: Seq<char>, m: MachineV) -> MachineV {
    if m.pos < input.len() {
        MachineV { pos: m.pos + 1, ..m }
    } else {
        m
    }
}

/// Flush the pending text buffer as a `Text` token, if it is not empty.
pub open spec fn mv_add_text(m: MachineV) -> MachineV {
    if m.content.len() > 0 {
        MachineV { tokens: m.tokens.push(TokenV::Text(m.content)), content: Seq::empty(), ..m }
    } else {
        m
    }
}

/// How a tag relates to the line it stands on.
pub ghost enum ClassV {
    /// Inline: no trimming.
    Normal,
    /// The tag stands alone on its line with nothing to trim before it.
    StandAlone,
    /// The tag stands alone on its line after the recorded whitespace,
    /// which begins at the recorded position of the preceding text.
    WhiteSpc(Seq<char>, int),
}

/// Classify the tag that was just read: it is standalone when the next
/// character ends the line (or the input) and the text before it ends
/// with a newline followed only by whitespace.
pub open spec fn mv_classify(input: Seq<char>, m: MachineV) -> ClassV {
    let at_line_end = m.pos >= input.len() || input[m.pos] == '\n' || (input[m.pos] == '\r'
        && m.pos + 1 < input.len() && input[m.pos + 1] == '\n');
    if !at_line_end {
        ClassV::Normal
    } else if m.tokens.len() == 0 {
        ClassV::StandAlone
    } else {
        match m.tokens.last() {
            TokenV::IncompleteSection(_, _, _, nl) => if nl {
                ClassV::StandAlone
            } else {
                ClassV::Normal
            },
            TokenV::Text(s) => if s.len() == 0 {
                ClassV::Normal
            } else {
                match rfind_significant(s) {
                    Option::None => if m.tokens.len() == 1 {
                        ClassV::WhiteSpc(s, 0)
                    } else {
                        ClassV::Normal
                    },
                    Option::Some(p) => if s[p] == '\n' {
                        if p == s.len() - 1 {
                            ClassV::StandAlone
                        } else {
                            ClassV::WhiteSpc(s, p + 1)
                        }
                    } else {
                        ClassV::Normal
                    },
                }
            },
            _ => ClassV::Normal,
        }
    }
}

/// Consume the newline after a standalone tag and trim the whitespace
/// before it from the last text token. Returns whether anything was
/// eaten together with the new state.
pub open spec fn mv_eat_ws(input: Seq<char>, m: MachineV) -> (bool, MachineV) {
    match mv_classify(input, m) {
        ClassV::Normal => (false, m),
        ClassV::StandAlone => {
            let m1 = if m.pos < input.len() && input[m.pos] == '\r' {
                mv_bump(input, m)
            } else {
                m
            };
            (true, mv_bump(input, m1))
        },
        ClassV::WhiteSpc(s, p) => {
            let m1 = if m.pos < input.len() && input[m.pos] == '\r' {
                mv_bump(input, m)
            } else {
                m
            };
            let m2 = mv_bump(input, m1);
            (
                true,
                MachineV {
                    tokens: m2.tokens.drop_last().push(TokenV::Text(s.take(p))),
                    ..m2
                },
            )
        },
    }
}

/// Pop tokens as the children of a section being closed, until the
/// matching `IncompleteSection` is found. `acc` holds the children
/// gathered so far, in source order.
pub open spec fn mv_close_section(
    m: MachineV,
    name: Seq<Seq<char>>,
    tag: Seq<char>,
    acc: Seq<TokenV>,
) -> Result<MachineV, ParseError>
    decreases m.tokens.len(),
{
    if m.tokens.len() == 0 {
        Result::Err(ParseError::UnopenedSection)
    } else {
        match m.tokens.last() {
            TokenV::IncompleteSection(sname, inverted, osection, _) => if sname == name {
                Result::Ok(
                    MachineV {
                        tokens: m.tokens.drop_last().push(
                            TokenV::Section(
                                name,
                                inverted,
                                acc,
                                m.otag,
                                osection,
                                tokens_src(acc),
                                tag,
                                m.ctag,
                            ),
                        ),
                        ..m
                    },
                )
            } else {
                Result::Err(ParseError::UnclosedSection)
            },
            _ => mv_close_section(
                MachineV { tokens: m.tokens.drop_last(), ..m },
                name,
                tag,
                seq![m.tokens.last()] + acc,
            ),
        }
    }
}

/// Dispatch a finished tag body: the first character of the body picks
/// comment, unescaped tag, section open or close, partial, delimiter
/// change, or escaped interpolation.
pub open spec fn mv_add_tag(input: Seq<char>, m0: MachineV) -> Result<MachineV, ParseError> {
    let m1 = mv_bump(input, m0);
    let content = m1.content;
    let len = content.len() as int;
    let tag = m1.otag + content + m1.ctag;
    let m = MachineV { content: Seq::empty(), ..m1 };
    if len == 0 {
        Result::Err(ParseError::EmptyTag)
    } else if content[0] == '!' {
        Result::Ok(mv_eat_ws(input, m).1)
    } else if content[0] == '&' {
        let t = trim_spec(content.drop_first());
        if t.len() == 0 {
            Result::Err(ParseError::EmptyTag)
        } else {
            Result::Ok(MachineV { tokens: m.tokens.push(TokenV::UTag(split_term(t), tag)), ..m })
        }
    } else if content[0] == '{' {
        if content.last() == '}' && len >= 2 {
            let t = trim_spec(content.subrange(1, len - 1));
            if t.len() == 0 {
                Result::Err(ParseError::EmptyTag)
            } else {
                Result::Ok(
                    MachineV { tokens: m.tokens.push(TokenV::UTag(split_term(t), tag)), ..m },
                )
            }
        } else {
            Result::Err(ParseError::UnbalancedUnescapeTag)
        }
    } else if content[0] == '#' || content[0] == '^' {
        let inverted = content[0] == '^';
        let (nl, m2) = mv_eat_ws(input, m);
        let t = trim_spec(content.drop_first());
        if t.len() == 0 {
            Result::Err(ParseError::EmptyTag)
        } else {
            Result::Ok(
                MachineV {
                    tokens: m2.tokens.push(
                        TokenV::IncompleteSection(split_term(t), inverted, tag, nl),
                    ),
                    ..m2
                },
            )
        }
    } else if content[0] == '/' {
        let (_nl, m2) = mv_eat_ws(input, m);
        let t = trim_spec(content.drop_first());
        if t.len() == 0 {
            Result::Err(ParseError::EmptyTag)
        } else {
            mv_close_section(m2, split_term(t), tag, Seq::empty())
        }
    } else if content[0] == '>' {
        let (indent, m2) = match mv_classify(input, m) {
            ClassV::Normal => (Seq::<char>::empty(), m),
            ClassV::StandAlone => {
                let ma = if m.pos < input.len() && input[m.pos] == '\r' {
                    mv_bump(input, m)
                } else {
                    m
                };
                (Seq::<char>::empty(), mv_bump(input, ma))
            },
            ClassV::WhiteSpc(s, p) => {
                let ma = if m.pos < input.len() && input[m.pos] == '\r' {
                    mv_bump(input, m)
                } else {
                    m
                };
                let mb = mv_bump(input, ma);
                (
                    s.skip(p),
                    MachineV {
                        tokens: mb.tokens.drop_last().push(TokenV::Text(s.take(p))),
                        ..mb
                    },
                )
            },
        };
        let t = trim_spec(content.drop_first());
        if t.len() == 0 {
            Result::Err(ParseError::EmptyTag)
        } else {
            Result::Ok(
                MachineV {
                    tokens: m2.tokens.push(TokenV::Partial(t, indent, tag)),
                    partials: m2.partials.push(t),
                    ..m2
                },
            )
        }
    } else if content[0] == '=' {
        let (_nl, m2) = mv_eat_ws(input, m);
        if len > 2 && content.last() == '=' {
            let t = trim_spec(content.subrange(1, len - 1));
            if t.len() == 0 {
                Result::Err(ParseError::EmptyTag)
            } else {
                match find_first_ws(t) {
                    Option::None => Result::Err(ParseError::BadDelimiterTag),
                    Option::Some(p) => {
                        let s2 = t.skip(p);
                        match find_first_non_ws(s2) {
                            Option::None => Result::Err(ParseError::BadDelimiterTag),
                            Option::Some(q) => Result::Ok(
                                MachineV { otag: t.take(p), ctag: s2.skip(q), ..m2 },
                            ),
                        }
                    },
                }
            }
        } else {
            Result::Err(ParseError::BadDelimiterTag)
        }
    } else {
        let t = trim_spec(content);
        if t.len() == 0 {
            Result::Err(ParseError::EmptyTag)
        } else {
            Result::Ok(MachineV { tokens: m.tokens.push(TokenV::ETag(path_of(t), tag)), ..m })
        }
    }
}

/// One step of the machine on the current character.
pub open spec fn p_step(input: Seq<char>, m: MachineV) -> Result<MachineV, ParseError> {
    let ch = input[m.pos];
    match m.mode {
        PMode::Text => if ch == m.otag[0] {
            if m.otag.len() > 1 {
                mv_bump(input, MachineV { tag_position: 1, mode: PMode::Otag, ..m }).wrap_ok()
            } else {
                mv_bump(input, MachineV { mode: PMode::Tag, ..mv_add_text(m) }).wrap_ok()
            }
        } else {
            mv_bump(input, MachineV { content: m.content.push(ch), ..m }).wrap_ok()
        },
        PMode::Otag => if ch == m.otag[m.tag_position] {
            if m.tag_position == m.otag.len() - 1 {
                mv_bump(
                    input,
                    MachineV { curly: false, mode: PMode::Tag, ..mv_add_text(m) },
                ).wrap_ok()
            } else {
                mv_bump(input, MachineV { tag_position: m.tag_position + 1, ..m }).wrap_ok()
            }
        } else {
            mv_bump(
                input,
                MachineV {
                    mode: PMode::Text,
                    content: m.content + m.otag.take(m.tag_position) + seq![ch],
                    ..m
                },
            ).wrap_ok()
        },
        PMode::Tag => if m.content.len() == 0 && ch == '{' {
            mv_bump(input, MachineV { curly: true, content: m.content.push(ch), ..m }).wrap_ok()
        } else if m.curly && ch == '}' {
            mv_bump(input, MachineV { curly: false, content: m.content.push(ch), ..m }).wrap_ok()
        } else if ch == m.ctag[0] {
            if m.ctag.len() > 1 {
                mv_bump(input, MachineV { tag_position: 1, mode: PMode::Ctag, ..m }).wrap_ok()
            } else {
                match mv_add_tag(input, m) {
                    Result::Err(e) => Result::Err(e),
                    Result::Ok(m2) => Result::Ok(MachineV { mode: PMode::Text, ..m2 }),
                }
            }
        } else {
            mv_bump(input, MachineV { content: m.content.push(ch), ..m }).wrap_ok()
        },
        PMode::Ctag => if ch == m.ctag[m.tag_position] {
            if m.tag_position == m.ctag.len() - 1 {
                match mv_add_tag(input, m) {
                    Result::Err(e) => Result::Err(e),
                    Result::Ok(m2) => Result::Ok(MachineV { mode: PMode::Text, ..m2 }),
                }
            } else {
                mv_bump(
                    input,
                    MachineV {
                        mode: PMode::Tag,
                        content: m.content + m.ctag.take(m.tag_position) + seq![ch],
                        ..m
                    },
                ).wrap_ok()
            }
        } else {
            Result::Err(ParseError::BadCloseTag)
        },
    }
}

impl MachineV {
    /// A machine wrapped as a successful step.
    pub open spec fn wrap_ok(self) -> Result<MachineV, ParseError> {
        Result::Ok(self)
    }
}

} // verus!

verus! {

/// Eating whitespace never moves the position backwards.
proof fn lemma_eat_ws_pos(input: Seq<char>, m: MachineV)
    requires
        m.pos <= input.len(),
    ensures
        m.pos <= mv_eat_ws(input, m).1.pos <= input.len(),
{
}

/// Closing a section leaves the position and the delimiters where
/// they were.
proof fn lemma_close_section_pos(
    m: MachineV,
    name: Seq<Seq<char>>,
    tag: Seq<char>,
    acc: Seq<TokenV>,
)
    ensures
        mv_close_section(m, name, tag, acc) is Ok ==> {
            let m2 = mv_close_section(m, name, tag, acc)->Ok_0;
            m2.pos == m.pos && m2.otag == m.otag && m2.ctag == m.ctag
        },
    decreases m.tokens.len(),
{
    if m.tokens.len() > 0 {
        match m.tokens.last() {
            TokenV::IncompleteSection(_, _, _, _) => {},
            _ => {
                lemma_close_section_pos(
                    MachineV { tokens: m.tokens.drop_last(), ..m },
                    name,
                    tag,
                    seq![m.tokens.last()] + acc,
                );
            },
        }
    }
}

/// Dispatching a tag always consumes at least the character it was
/// called on.
proof fn lemma_add_tag_pos(input: Seq<char>, m: MachineV)
    requires
        m.pos < input.len(),
    ensures
        mv_add_tag(input, m) is Ok ==> m.pos + 1 <= mv_add_tag(input, m)->Ok_0.pos <= input.len(),
{
    let m1 = mv_bump(input, m);
    let content = m1.content;
    let mm = MachineV { content: Seq::empty(), ..m1 };
    lemma_eat_ws_pos(input, mm);
    if content.len() > 0 && content[0] == '/' {
        let t = trim_spec(content.drop_first());
        let (_nl, m2) = mv_eat_ws(input, mm);
        if t.len() > 0 {
            lemma_close_section_pos(m2, split_term(t), m1.otag + content + m1.ctag, Seq::empty());
        }
    }
}

/// Every successful step consumes at least one character.
proof fn lemma_p_step_progress(input: Seq<char>, m: MachineV)
    requires
        0 <= m.pos < input.len(),
    ensures
        p_step(input, m) is Ok ==> m.pos + 1 <= p_step(input, m)->Ok_0.pos <= input.len(),
{
    lemma_add_tag_pos(input, m);
}

/// Run the machine to the end of the input.
pub open spec fn p_run(input: Seq<char>, m: MachineV) -> Result<MachineV, ParseError>
    decreases input.len() - m.pos,
    when 0 <= m.pos
    via p_run_dec
{
    if m.pos >= input.len() {
        Result::Ok(m)
    } else {
        match p_step(input, m) {
            Result::Err(e) => Result::Err(e),
            Result::Ok(m2) => p_run(input, m2),
        }
    }
}

#[via_fn]
proof fn p_run_dec(input: Seq<char>, m: MachineV) {
    if 0 <= m.pos < input.len() {
        lemma_p_step_progress(input, m);
    }
}

/// Whether any token of the sequence is an unmatched section opening.
pub open spec fn has_incomplete(ts: Seq<TokenV>) -> bool {
    exists|i: int| 0 <= i < ts.len() && ts[i] is IncompleteSection
}

/// Finish a run that consumed the whole input: flush what remains as
/// text, reject an unterminated tag, and reject any unclosed section.
pub open spec fn p_finish(m: MachineV) -> Result<(Seq<TokenV>, Seq<Seq<char>>), ParseError> {
    match m.mode {
        PMode::Tag => Result::Err(ParseError::UnclosedTag),
        _ => {
            let flushed = match m.mode {
                PMode::Otag => MachineV {
                    content: m.content + m.otag.take(m.tag_position),
                    ..m
                },
                PMode::Ctag => MachineV {
                    content: m.content + m.ctag.take(m.tag_position),
                    ..m
                },
                _ => m,
            };
            let mf = mv_add_text(flushed);
            if has_incomplete(mf.tokens) {
                Result::Err(ParseError::UnclosedSection)
            } else {
                Result::Ok((mf.tokens, mf.partials))
            }
        },
    }
}

/// The machine's starting state for a given delimiter pair.
pub open spec fn p_init(otag: Seq<char>, ctag: Seq<char>) -> MachineV {
    MachineV {
        pos: 0,
        mode: PMode::Text,
        curly: false,
        content: Seq::empty(),
        otag: otag,
        ctag: ctag,
        tag_position: 0,
        tokens: Seq::empty(),
        partials: Seq::empty(),
    }
}

/// Run the machine from `m` to the end and finish: the meaning of the
/// rest of a parse.
pub open spec fn p_rest(input: Seq<char>, m: MachineV) -> Result<
    (Seq<TokenV>, Seq<Seq<char>>),
    ParseError,
> {
    match p_run(input, m) {
        Result::Err(e) => Result::Err(e),
        Result::Ok(mf) => p_finish(mf),
    }
}

/// What parsing an input text with a starting delimiter pair means:
/// the token sequence and the discovered partial names, or the first
/// fatal error.
pub open spec fn spec_parse(input: Seq<char>, otag: Seq<char>, ctag: Seq<char>) -> Result<
    (Seq<TokenV>, Seq<Seq<char>>),
    ParseError,
> {
    p_rest(input, p_init(otag, ctag))
}

} // verus!

verus! {

// ---------------------------------------------------------------------
// The executable parser.
// ---------------------------------------------------------------------

/// The four states of the executable character machine.
#[derive(Clone, Copy, Debug, PartialEq, Eq, Structural)]
pub enum ParserState {
    TEXT,
    OTAG,
    TAG,
    CTAG,
}

/// The view of an executable state.
pub open spec fn mode_view(s: ParserState) -> PMode {
    match s {
        ParserState::TEXT => PMode::Text,
        ParserState::OTAG => PMode::Otag,
        ParserState::TAG => PMode::Tag,
        ParserState::CTAG => PMode::Ctag,
    }
}

/// How a finished tag relates to the line it stands on; the executable
/// counterpart of `ClassV`.
enum Classify {
    Normal,
    StandAlone,
    WhiteSpc(String, usize),
}

/// `Parser` turns template text into a sequence of tokens, one
/// character at a time. Its result is proved equal to `spec_parse` on
/// its input and starting delimiters.
pub struct Parser {
    input: Vec<char>,
    pos: usize,
    state: ParserState,
    curly: bool,
    content: Vec<char>,
    otag: Vec<char>,
    ctag: Vec<char>,
    tag_position: usize,
    tokens: Vec<Token>,
    partials: Vec<String>,
}

impl Parser {
    /// The input text being parsed.
    pub closed spec fn inp(&self) -> Seq<char> {
        self.input@
    }

    /// The machine state the parser is in.
    pub closed spec fn mv(&self) -> MachineV {
        MachineV {
            pos: self.pos as int,
            mode: mode_view(self.state),
            curly: self.curly,
            content: self.content@,
            otag: self.otag@,
            ctag: self.ctag@,
            tag_position: self.tag_position as int,
            tokens: seq_token_view(self.tokens@),
            partials: self.partials.deep_view(),
        }
    }

    /// The parser's internal well-formedness: the position stays inside
    /// the input, the delimiters are never empty, and a partially
    /// matched delimiter position stays inside the delimiter.
    pub closed spec fn wf(&self) -> bool {
        &&& self.pos <= self.input@.len()
        &&& self.otag@.len() >= 1
        &&& self.ctag@.len() >= 1
        &&& (self.state is OTAG ==> 1 <= self.tag_position < self.otag@.len())
        &&& (self.state is CTAG ==> 1 <= self.tag_position < self.ctag@.len())
    }

    /// A parser over `reader`, recognising the given delimiter pair.
    pub fn new(reader: Vec<char>, otag: &str, ctag: &str) -> (r: Parser)
        requires
            otag@.len() >= 1,
            ctag@.len() >= 1,
        ensures
            r.wf(),
            r.inp() == reader@,
            r.mv() == p_init(otag@, ctag@),
    {
        let r = Parser {
            input: reader,
            pos: 0,
            state: ParserState::TEXT,
            curly: false,
            content: Vec::new(),
            otag: crate::text::chars_of_str(otag),
            ctag: crate::text::chars_of_str(ctag),
            tag_position: 0,
            tokens: Vec::new(),
            partials: Vec::new(),
        };
        proof {
            assert(seq_token_view(r.tokens@) =~= Seq::<TokenV>::empty());
            assert(r.partials.deep_view() =~= Seq::<Seq<char>>::empty());
            assert(r.mv() =~= p_init(otag@, ctag@));
        }
        r
    }

    /// Advance past the current character.
    fn bump(&mut self)
        ensures
            final(self).inp() == old(self).inp(),
            final(self).mv() == mv_bump(old(self).inp(), old(self).mv()),
    {
        if self.pos < self.input.len() {
            self.pos = self.pos + 1;
        }
        proof {
            assert(self.mv() =~= mv_bump(old(self).inp(), old(self).mv()));
        }
    }

    /// The character one past the current one, if any.
    fn peek(&self) -> (r: Option<char>)
        ensures
            match r {
                Option::Some(c) => self.mv().pos + 1 < self.inp().len() && self.inp()[self.mv().pos
                    + 1] == c,
                Option::None => self.mv().pos + 1 >= self.inp().len(),
            },
    {
        if self.pos < self.input.len() && self.input.len() - self.pos > 1 {
            Option::Some(self.input[self.pos + 1])
        } else {
            Option::None
        }
    }

    /// Whether the current character is `ch`.
    fn ch_is(&self, ch: char) -> (r: bool)
        ensures
            r == (self.mv().pos < self.inp().len() && self.inp()[self.mv().pos] == ch),
    {
        self.pos < self.input.len() && self.input[self.pos] == ch
    }

    /// Flush the pending text buffer as a `Text` token.
    fn add_text(&mut self)
        ensures
            final(self).inp() == old(self).inp(),
            final(self).mv() == mv_add_text(old(self).mv()),
    {
        if self.content.len() > 0 {
            let s = crate::text::string_from_chars(&self.content);
            let ghost old_tokens = self.tokens@;
            self.tokens.push(Token::Text(s));
            self.content = Vec::new();
            proof {
                lemma_seq_token_view_push(old_tokens, Token::Text(s));
                assert(self.mv() =~= mv_add_text(old(self).mv()));
            }
        }
    }

    /// Classify the tag that was just read against its line.
    fn classify_token(&self) -> (r: Classify)
        ensures
            match r {
                Classify::Normal => mv_classify(self.inp(), self.mv()) is Normal,
                Classify::StandAlone => mv_classify(self.inp(), self.mv()) is StandAlone,
                Classify::WhiteSpc(s, p) => mv_classify(self.inp(), self.mv())
                    == ClassV::WhiteSpc(s@, p as int) && p <= s@.len(),
            },
    {
        let at_line_end = if self.pos >= self.input.len() {
            true
        } else {
            let c = self.input[self.pos];
            c == '\n' || (c == '\r' && match self.peek() {
                Option::Some(c2) => c2 == '\n',
                Option::None => false,
            })
        };
        if !at_line_end {
            return Classify::Normal;
        }
        let n = self.tokens.len();
        if n == 0 {
            return Classify::StandAlone;
        }
        proof {
            lemma_seq_token_view_index(self.tokens@, n - 1 as int);
        }
        match &self.tokens[n - 1] {
            Token::IncompleteSection(_, _, _, nl) => {
                if *nl {
                    Classify::StandAlone
                } else {
                    Classify::Normal
                }
            },
            Token::Text(s) => {
                let cs = crate::text::chars_of_str(s.as_str());
                if cs.len() == 0 {
                    Classify::Normal
                } else {
                    proof {
                        crate::text::lemma_rfind_significant(cs@);
                    }
                    match crate::text::rfind_significant_chars(&cs) {
                        Option::None => {
                            if n == 1 {
                                Classify::WhiteSpc(s.clone(), 0)
                            } else {
                                Classify::Normal
                            }
                        },
                        Option::Some(p) => {
                            if cs[p] == '\n' {
                                if p == cs.len() - 1 {
                                    Classify::StandAlone
                                } else {
                                    Classify::WhiteSpc(s.clone(), p + 1)
                                }
                            } else {
                                Classify::Normal
                            }
                        },
                    }
                }
            },
            _ => Classify::Normal,
        }
    }

    /// Consume the newline after a standalone tag and trim the
    /// whitespace before it from the last text token.
    fn eat_whitespace(&mut self) -> (r: bool)
        ensures
            final(self).inp() == old(self).inp(),
            r == mv_eat_ws(old(self).inp(), old(self).mv()).0,
            final(self).mv() == mv_eat_ws(old(self).inp(), old(self).mv()).1,
    {
        match self.classify_token() {
            Classify::Normal => false,
            Classify::StandAlone => {
                if self.ch_is('\r') {
                    self.bump();
                }
                self.bump();
                true
            },
            Classify::WhiteSpc(s, p) => {
                if self.ch_is('\r') {
                    self.bump();
                }
                self.bump();
                proof {
                    assert(self.mv().tokens.len() > 0);
                    assert(self.tokens@.len() > 0) by {
                        lemma_seq_token_view_len(self.tokens@);
                    }
                }
                let cs = crate::text::chars_of_str(s.as_str());
                let trimmed = crate::text::subrange_chars(&cs, 0, p);
                let ts = crate::text::string_from_chars(&trimmed);
                let ghost tokens_before = self.tokens@;
                self.tokens.pop();
                let ghost tokens_popped = self.tokens@;
                self.tokens.push(Token::Text(ts));
                proof {
                    assert(tokens_popped =~= tokens_before.drop_last());
                    lemma_seq_token_view_drop_last(tokens_before);
                    lemma_seq_token_view_push(tokens_popped, Token::Text(ts));
                    assert(ts@ =~= s@.take(p as int));
                    assert(self.mv() =~= mv_eat_ws(old(self).inp(), old(self).mv()).1);
                }
                true
            },
        }
    }
}

/// Dropping the last token drops the last view.
pub proof fn lemma_seq_token_view_drop_last(s: Seq<Token>)
    requires
        s.len() > 0,
    ensures
        seq_token_view(s.drop_last()) == seq_token_view(s).drop_last(),
{
    assert(seq_token_view(s).drop_last() =~= seq_token_view(s.drop_last()));
}

} // verus!

verus! {

/// Appending one token extends the concatenated source by its source.
pub proof fn lemma_tokens_src_push(ts: Seq<TokenV>, t: TokenV)
    ensures
        tokens_src(ts.push(t)) == tokens_src(ts) + token_src(t),
{
    assert(ts.push(t).drop_last() =~= ts);
    assert(ts.push(t).last() == t);
}

/// The literal source text one token stands for.
fn token_src_exec(t: &Token) -> (r: Vec<char>)
    ensures
        r@ == token_src(t@),
{
    match t {
        Token::Text(s) => crate::text::chars_of_str(s.as_str()),
        Token::ETag(_, s) => crate::text::chars_of_str(s.as_str()),
        Token::UTag(_, s) => crate::text::chars_of_str(s.as_str()),
        Token::Partial(_, _, s) => crate::text::chars_of_str(s.as_str()),
        Token::Section(_, _, _, _, os, src, cs, _) => {
            let a = crate::text::chars_of_str(os.as_str());
            let b = crate::text::chars_of_str(src.as_str());
            let c = crate::text::chars_of_str(cs.as_str());
            let ab = crate::text::concat_chars(&a, &b);
            crate::text::concat_chars(&ab, &c)
        },
        Token::IncompleteSection(_, _, _, _) => Vec::new(),
    }
}

/// The concatenated literal source of a token list.
fn tokens_src_exec(v: &Vec<Token>) -> (r: Vec<char>)
    ensures
        r@ == tokens_src(seq_token_view(v@)),
{
    let mut r: Vec<char> = Vec::new();
    let len = v.len();
    let mut i: usize = 0;
    proof {
        assert(v@.subrange(0, 0) =~= Seq::<Token>::empty());
    }
    while i < len
        invariant
            0 <= i <= len,
            len == v@.len(),
            r@ == tokens_src(seq_token_view(v@.subrange(0, i as int))),
        decreases len - i,
    {
        let piece = token_src_exec(&v[i]);
        let r2 = crate::text::concat_chars(&r, &piece);
        proof {
            let pre = v@.subrange(0, i as int);
            assert(v@.subrange(0, i + 1 as int) =~= pre.push(v@[i as int]));
            lemma_seq_token_view_push(pre, v@[i as int]);
            lemma_tokens_src_push(seq_token_view(pre), token_view(v@[i as int]));
        }
        r = r2;
        i = i + 1;
    }
    proof {
        assert(v@.subrange(0, len as int) =~= v@);
    }
    r
}

/// The same tokens in the opposite order.
fn reversed_tokens(v: Vec<Token>) -> (r: Vec<Token>)
    ensures
        r@.len() == v@.len(),
        forall|i: int| 0 <= i < r@.len() ==> r@[i] == v@[v@.len() - 1 - i],
{
    let ghost v0 = v@;
    let mut v = v;
    let mut r: Vec<Token> = Vec::new();
    while v.len() > 0
        invariant
            r@.len() + v@.len() == v0.len(),
            v@ == v0.subrange(0, v@.len() as int),
            forall|i: int| 0 <= i < r@.len() ==> r@[i] == v0[v0.len() - 1 - i],
        decreases v@.len(),
    {
        let ghost before = v@;
        let t = match v.pop() {
            Option::Some(t) => t,
            Option::None => {
                proof {
                    assert(false);
                }
                return r;
            },
        };
        proof {
            assert(before[before.len() - 1] == v0[v@.len() as int]);
        }
        r.push(t);
        proof {
            assert(v@ =~= v0.subrange(0, v@.len() as int));
        }
    }
    r
}

} // verus!

verus! {

impl Parser {
    /// Dispatch a finished tag body into a token, a delimiter change,
    /// or a section close, mirroring `mv_add_tag`. On return the
    /// machine is back in the text state.
    #[verifier::rlimit(100)]
    fn add_tag(&mut self) -> (r: Result<(), ParseError>)
        requires
            old(self).wf(),
        ensures
            final(self).inp() == old(self).inp(),
            match r {
                Result::Ok(()) => final(self).wf() && mv_add_tag(
                    old(self).inp(),
                    old(self).mv(),
                ) is Ok && final(self).mv() == (MachineV {
                    mode: PMode::Text,
                    ..mv_add_tag(old(self).inp(), old(self).mv())->Ok_0
                }),
                Result::Err(e) => mv_add_tag(old(self).inp(), old(self).mv())
                    == Result::<MachineV, ParseError>::Err(e),
            },
    {
        let ghost inp0 = old(self).inp();
        let ghost m0 = old(self).mv();
        self.state = ParserState::TEXT;
        self.bump();
        let content = crate::text::copy_chars(&self.content);
        self.content = Vec::new();
        let len = content.len();
        let oc = crate::text::copy_chars(&self.otag);
        let tag_pre = crate::text::concat_chars(&oc, &content);
        let tag_chars = crate::text::concat_chars(&tag_pre, &self.ctag);
        let tag = crate::text::string_from_chars(&tag_chars);
        proof {
            let m1 = mv_bump(inp0, m0);
            assert(self.mv() =~= (MachineV {
                mode: PMode::Text,
                content: Seq::empty(),
                ..m1
            }));
            assert(tag@ == m1.otag + m1.content + m1.ctag);
        }
        let ghost m1 = mv_bump(inp0, m0);
        let ghost msp = MachineV { content: Seq::<char>::empty(), ..m1 };
        // self.mv() == { mode: Text, ..msp } from here on
        if len == 0 {
            return Result::Err(ParseError::EmptyTag);
        }
        let c0 = content[0];
        if c0 == '!' {
            self.eat_whitespace();
            proof {
                assert(mv_eat_ws(inp0, MachineV { mode: PMode::Text, ..msp }) == (
                    mv_eat_ws(inp0, msp).0,
                    MachineV { mode: PMode::Text, ..mv_eat_ws(inp0, msp).1 },
                )) by {
                    assert(mv_classify(inp0, MachineV { mode: PMode::Text, ..msp })
                        == mv_classify(inp0, msp));
                }
                assert(mv_add_tag(inp0, m0) is Ok);
                assert(self.mv() =~= (MachineV {
                    mode: PMode::Text,
                    ..mv_add_tag(inp0, m0)->Ok_0
                }));
                assert(self.wf());
            }
            Result::Ok(())
        } else if c0 == '&' {
            let rest = crate::text::subrange_chars(&content, 1, len);
            let t = crate::text::trim_chars(&rest);
            proof {
                assert(rest@ =~= content@.drop_first());
            }
            if t.len() == 0 {
                return Result::Err(ParseError::EmptyTag);
            }
            let path = crate::text::split_term_chars(&t);
            let ghost old_tokens = self.tokens@;
            self.tokens.push(Token::UTag(path, tag));
            proof {
                lemma_seq_token_view_push(old_tokens, Token::UTag(path, tag));
                assert(mv_add_tag(inp0, m0) is Ok);
                assert(self.mv() =~= (MachineV {
                    mode: PMode::Text,
                    ..mv_add_tag(inp0, m0)->Ok_0
                }));
                assert(self.wf());
            }
            Result::Ok(())
        } else if c0 == '{' {
            if len >= 2 && content[len - 1] == '}' {
                let inner = crate::text::subrange_chars(&content, 1, len - 1);
                let t = crate::text::trim_chars(&inner);
                if t.len() == 0 {
                    return Result::Err(ParseError::EmptyTag);
                }
                let path = crate::text::split_term_chars(&t);
                let ghost old_tokens = self.tokens@;
                self.tokens.push(Token::UTag(path, tag));
                proof {
                    lemma_seq_token_view_push(old_tokens, Token::UTag(path, tag));
                    assert(mv_add_tag(inp0, m0) is Ok);
                    assert(self.mv() =~= (MachineV {
                        mode: PMode::Text,
                        ..mv_add_tag(inp0, m0)->Ok_0
                    }));
                    assert(self.wf());
                }
                Result::Ok(())
            } else {
                Result::Err(ParseError::UnbalancedUnescapeTag)
            }
        } else if c0 == '#' || c0 == '^' {
            let inverted = c0 == '^';
            let nl = self.eat_whitespace();
            proof {
                assert(mv_eat_ws(inp0, MachineV { mode: PMode::Text, ..msp }) == (
                    mv_eat_ws(inp0, msp).0,
                    MachineV { mode: PMode::Text, ..mv_eat_ws(inp0, msp).1 },
                )) by {
                    assert(mv_classify(inp0, MachineV { mode: PMode::Text, ..msp })
                        == mv_classify(inp0, msp));
                }
            }
            let rest = crate::text::subrange_chars(&content, 1, len);
            let t = crate::text::trim_chars(&rest);
            proof {
                assert(rest@ =~= content@.drop_first());
            }
            if t.len() == 0 {
                return Result::Err(ParseError::EmptyTag);
            }
            let path = crate::text::split_term_chars(&t);
            let tok = Token::IncompleteSection(path, inverted, tag, nl);
            let ghost old_tokens = self.tokens@;
            self.tokens.push(tok);
            proof {
                lemma_seq_token_view_push(old_tokens, tok);
                assert(mv_add_tag(inp0, m0) is Ok);
                assert(self.mv() =~= (MachineV {
                    mode: PMode::Text,
                    ..mv_add_tag(inp0, m0)->Ok_0
                }));
                assert(self.wf());
            }
            Result::Ok(())
        } else if c0 == '/' {
            let _nl = self.eat_whitespace();
            proof {
                assert(mv_eat_ws(inp0, MachineV { mode: PMode::Text, ..msp }) == (
                    mv_eat_ws(inp0, msp).0,
                    MachineV { mode: PMode::Text, ..mv_eat_ws(inp0, msp).1 },
                )) by {
                    assert(mv_classify(inp0, MachineV { mode: PMode::Text, ..msp })
                        == mv_classify(inp0, msp));
                }
            }
            let rest = crate::text::subrange_chars(&content, 1, len);
            let t = crate::text::trim_chars(&rest);
            proof {
                assert(rest@ =~= content@.drop_first());
            }
            if t.len() == 0 {
                return Result::Err(ParseError::EmptyTag);
            }
            let name = crate::text::split_term_chars(&t);
            let ghost m2sp = mv_eat_ws(inp0, msp).1;
            let ghost namev = name.deep_view();
            let res = self.close_section(name, tag);
            proof {
                lemma_close_section_mode(m2sp, namev, tag@, Seq::empty());
                lemma_eat_ws_pos(inp0, msp);
                lemma_close_section_pos(m2sp, namev, tag@, Seq::empty());
                if res is Ok {
                    assert(mv_add_tag(inp0, m0) is Ok);
                    assert(self.mv() =~= (MachineV {
                        mode: PMode::Text,
                        ..mv_add_tag(inp0, m0)->Ok_0
                    }));
                    assert(self.wf());
                }
            }
            res
        } else if c0 == '>' {
            let indent: String = match self.classify_token() {
                Classify::Normal => String::new(),
                Classify::StandAlone => {
                    if self.ch_is('\r') {
                        self.bump();
                    }
                    self.bump();
                    String::new()
                },
                Classify::WhiteSpc(s, p) => {
                    if self.ch_is('\r') {
                        self.bump();
                    }
                    self.bump();
                    proof {
                        lemma_seq_token_view_len(self.tokens@);
                    }
                    let cs = crate::text::chars_of_str(s.as_str());
                    let kept = crate::text::subrange_chars(&cs, 0, p);
                    let ks = crate::text::string_from_chars(&kept);
                    let ghost tokens_before = self.tokens@;
                    self.tokens.pop();
                    let ghost tokens_popped = self.tokens@;
                    self.tokens.push(Token::Text(ks));
                    let ws = crate::text::subrange_chars(&cs, p, cs.len());
                    proof {
                        assert(tokens_popped =~= tokens_before.drop_last());
                        lemma_seq_token_view_drop_last(tokens_before);
                        lemma_seq_token_view_push(tokens_popped, Token::Text(ks));
                        assert(ks@ =~= s@.take(p as int));
                        assert(ws@ =~= s@.skip(p as int));
                    }
                    crate::text::string_from_chars(&ws)
                },
            };
            let rest = crate::text::subrange_chars(&content, 1, len);
            let t = crate::text::trim_chars(&rest);
            proof {
                assert(rest@ =~= content@.drop_first());
            }
            if t.len() == 0 {
                return Result::Err(ParseError::EmptyTag);
            }
            let name = crate::text::string_from_chars(&t);
            let name2 = crate::text::string_from_chars(&t);
            let tok = Token::Partial(name, indent, tag);
            let ghost old_tokens = self.tokens@;
            let ghost old_partials = self.partials@;
            self.tokens.push(tok);
            self.partials.push(name2);
            proof {
                lemma_seq_token_view_push(old_tokens, tok);
                assert(self.partials.deep_view() =~= old(self).partials.deep_view().push(t@));
                assert(mv_add_tag(inp0, m0) is Ok);
                assert(self.mv() =~= (MachineV {
                    mode: PMode::Text,
                    ..mv_add_tag(inp0, m0)->Ok_0
                }));
                assert(self.wf());
            }
            Result::Ok(())
        } else if c0 == '=' {
            let _nl = self.eat_whitespace();
            proof {
                assert(mv_eat_ws(inp0, MachineV { mode: PMode::Text, ..msp }) == (
                    mv_eat_ws(inp0, msp).0,
                    MachineV { mode: PMode::Text, ..mv_eat_ws(inp0, msp).1 },
                )) by {
                    assert(mv_classify(inp0, MachineV { mode: PMode::Text, ..msp })
                        == mv_classify(inp0, msp));
                }
            }
            if len > 2 && content[len - 1] == '=' {
                let inner = crate::text::subrange_chars(&content, 1, len - 1);
                let t = crate::text::trim_chars(&inner);
                if t.len() == 0 {
                    return Result::Err(ParseError::EmptyTag);
                }
                proof {
                    crate::text::lemma_trim_spec_ends(inner@);
                    crate::text::lemma_find_first_ws(t@);
                }
                match crate::text::find_first_ws_chars(&t) {
                    Option::None => Result::Err(ParseError::BadDelimiterTag),
                    Option::Some(p) => {
                        let new_otag = crate::text::subrange_chars(&t, 0, p);
                        let s2 = crate::text::subrange_chars(&t, p, t.len());
                        proof {
                            assert(s2@ =~= t@.skip(p as int));
                            crate::text::lemma_find_first_non_ws(s2@);
                        }
                        match crate::text::find_first_non_ws_chars(&s2) {
                            Option::None => Result::Err(ParseError::BadDelimiterTag),
                            Option::Some(q) => {
                                let new_ctag = crate::text::subrange_chars(&s2, q, s2.len());
                                self.otag = new_otag;
                                self.ctag = new_ctag;
                                proof {
                                    assert(new_otag@ =~= t@.take(p as int));
                                    assert(new_ctag@ =~= t@.skip(p as int).skip(q as int));
                                    assert(mv_add_tag(inp0, m0) is Ok);
                                    assert(self.mv() =~= (MachineV {
                                        mode: PMode::Text,
                                        ..mv_add_tag(inp0, m0)->Ok_0
                                    }));
                                    assert(self.wf());
                                }
                                Result::Ok(())
                            },
                        }
                    },
                }
            } else {
                Result::Err(ParseError::BadDelimiterTag)
            }
        } else {
            let t = crate::text::trim_chars(&content);
            if t.len() == 0 {
                return Result::Err(ParseError::EmptyTag);
            }
            let path: Vec<String> = if t.len() == 1 && t[0] == '.' {
                proof {
                    assert(t@ =~= seq!['.']);
                }
                Vec::new()
            } else {
                proof {
                    assert(!(t@ =~= seq!['.']));
                }
                crate::text::split_term_chars(&t)
            };
            let tok = Token::ETag(path, tag);
            let ghost old_tokens = self.tokens@;
            self.tokens.push(tok);
            proof {
                lemma_seq_token_view_push(old_tokens, tok);
                if path@.len() == 0 {
                    assert(path.deep_view() =~= Seq::<Seq<char>>::empty());
                }
                assert(mv_add_tag(inp0, m0) is Ok);
                assert(self.mv() =~= (MachineV {
                    mode: PMode::Text,
                    ..mv_add_tag(inp0, m0)->Ok_0
                }));
                assert(self.wf());
            }
            Result::Ok(())
        }
    }
}

} // verus!

verus! {

/// Closing a section does not depend on the machine's mode: running it
/// with the mode forced to text changes only the mode of the result.
proof fn lemma_close_section_mode(
    m: MachineV,
    name: Seq<Seq<char>>,
    tag: Seq<char>,
    acc: Seq<TokenV>,
)
    ensures
        mv_close_section(MachineV { mode: PMode::Text, ..m }, name, tag, acc) == (
        match mv_close_section(m, name, tag, acc) {
            Result::Ok(m2) => Result::<MachineV, ParseError>::Ok(
                MachineV { mode: PMode::Text, ..m2 },
            ),
            Result::Err(e) => Result::<MachineV, ParseError>::Err(e),
        }),
    decreases m.tokens.len(),
{
    let mt = MachineV { mode: PMode::Text, ..m };
    if m.tokens.len() > 0 {
        match m.tokens.last() {
            TokenV::IncompleteSection(sname, inverted, osection, _) => {
                if sname == name {
                    assert(mv_close_section(mt, name, tag, acc)->Ok_0 =~= (MachineV {
                        mode: PMode::Text,
                        ..mv_close_section(m, name, tag, acc)->Ok_0
                    }));
                }
            },
            _ => {
                lemma_close_section_mode(
                    MachineV { tokens: m.tokens.drop_last(), ..m },
                    name,
                    tag,
                    seq![m.tokens.last()] + acc,
                );
                assert(MachineV { tokens: mt.tokens.drop_last(), ..mt } =~= (MachineV {
                    mode: PMode::Text,
                    ..MachineV { tokens: m.tokens.drop_last(), ..m }
                }));
            },
        }
    }
}

/// The reversed-order view of a token list: element `i` is the view of
/// the element `i` from the end.
spec fn rev_view(s: Seq<Token>) -> Seq<TokenV> {
    Seq::new(s.len(), |i: int| token_view(s[s.len() - 1 - i]))
}

impl Parser {
    /// Pop tokens as the children of the section being closed until the
    /// matching opening is found, then push the finished `Section`.
    #[verifier::rlimit(100)]
    fn close_section(&mut self, name: Vec<String>, tag: String) -> (r: Result<(), ParseError>)
        ensures
            final(self).inp() == old(self).inp(),
            match r {
                Result::Ok(()) => mv_close_section(
                    old(self).mv(),
                    name.deep_view(),
                    tag@,
                    Seq::empty(),
                ) is Ok && final(self).mv() == mv_close_section(
                    old(self).mv(),
                    name.deep_view(),
                    tag@,
                    Seq::empty(),
                )->Ok_0,
                Result::Err(e) => mv_close_section(
                    old(self).mv(),
                    name.deep_view(),
                    tag@,
                    Seq::empty(),
                ) == Result::<MachineV, ParseError>::Err(e),
            },
    {
        let ghost namev = name.deep_view();
        let ghost tagv = tag@;
        let ghost m0 = old(self).mv();
        let mut children: Vec<Token> = Vec::new();
        proof {
            assert(rev_view(children@) =~= Seq::<TokenV>::empty());
        }
        #[verifier::loop_isolation(false)]
        loop
            invariant
                self.inp() == old(self).inp(),
                mv_close_section(m0, namev, tagv, Seq::empty()) == mv_close_section(
                    self.mv(),
                    namev,
                    tagv,
                    rev_view(children@),
                ),
            decreases self.tokens@.len(),
        {
            proof {
                lemma_seq_token_view_len(self.tokens@);
            }
            if self.tokens.len() == 0 {
                proof {
                    assert(self.mv().tokens.len() == 0);
                    assert(mv_close_section(self.mv(), namev, tagv, rev_view(children@))
                        == Result::<MachineV, ParseError>::Err(ParseError::UnopenedSection));
                }
                return Result::Err(ParseError::UnopenedSection);
            }
            let ghost mv_pre = self.mv();
            let ghost tokens_before = self.tokens@;
            proof {
                lemma_seq_token_view_index(tokens_before, tokens_before.len() - 1);
                lemma_seq_token_view_drop_last(tokens_before);
            }
            let last = match self.tokens.pop() {
                Option::Some(t) => t,
                Option::None => {
                    return Result::Err(ParseError::UnopenedSection);
                },
            };
            let ghost mv_popped = self.mv();
            proof {
                assert(mv_pre.tokens.last() == token_view(last));
                assert(mv_popped =~= (MachineV { tokens: mv_pre.tokens.drop_last(), ..mv_pre }));
            }
            match last {
                Token::IncompleteSection(sname, inverted, osection, _nl) => {
                    if crate::text::path_eq(&sname, &name) {
                        let children_ord = reversed_tokens(children);
                        let ghost accv = rev_view(children@);
                        proof {
                            assert forall|i: int| 0 <= i < children_ord@.len() implies
                                seq_token_view(children_ord@)[i] == accv[i] by {
                                lemma_seq_token_view_index(children_ord@, i);
                            }
                            lemma_seq_token_view_len(children_ord@);
                            assert(seq_token_view(children_ord@) =~= accv);
                        }
                        let src_chars = tokens_src_exec(&children_ord);
                        let src = crate::text::string_from_chars(&src_chars);
                        let otag_s = crate::text::string_from_chars(&self.otag);
                        let ctag_s = crate::text::string_from_chars(&self.ctag);
                        let sec = Token::Section(
                            name,
                            inverted,
                            children_ord,
                            otag_s,
                            osection,
                            src,
                            tag,
                            ctag_s,
                        );
                        let ghost tokens_mid = self.tokens@;
                        let ghost secv = token_view(sec);
                        self.tokens.push(sec);
                        proof {
                            lemma_seq_token_view_push(tokens_mid, sec);
                            assert(src@ == tokens_src(accv));
                            assert(secv is Section);
                            assert(secv->Section_0 == namev);
                            assert(secv->Section_1 == inverted);
                            assert(secv->Section_2 == accv);
                            assert(secv->Section_3 == mv_pre.otag);
                            assert(secv->Section_4 == osection@);
                            assert(secv->Section_5 == tokens_src(accv));
                            assert(secv->Section_6 == tagv);
                            assert(secv->Section_7 == mv_pre.ctag);
                            assert(secv == TokenV::Section(
                                namev,
                                inverted,
                                accv,
                                mv_pre.otag,
                                osection@,
                                tokens_src(accv),
                                tagv,
                                mv_pre.ctag,
                            ));
                            assert(mv_close_section(mv_pre, namev, tagv, accv) is Ok);
                            assert(mv_close_section(mv_pre, namev, tagv, accv)->Ok_0.tokens
                                == mv_pre.tokens.drop_last().push(secv));
                            assert(self.mv().tokens == seq_token_view(tokens_mid).push(secv));
                            assert(seq_token_view(tokens_mid) == mv_pre.tokens.drop_last());
                            assert(self.mv() =~= mv_close_section(
                                mv_pre,
                                namev,
                                tagv,
                                accv,
                            )->Ok_0);
                        }
                        return Result::Ok(());
                    } else {
                        return Result::Err(ParseError::UnclosedSection);
                    }
                },
                other => {
                    let ghost ov = token_view(other);
                    let ghost cb = children@;
                    children.push(other);
                    proof {
                        assert(children@.drop_last() =~= cb);
                        assert(rev_view(children@) =~= seq![ov] + rev_view(cb));
                    }
                },
            }
        }
    }
}

} // verus!

verus! {

impl Parser {
    /// Flush the partially matched open delimiter back into the text
    /// buffer.
    fn not_otag(&mut self)
        requires
            old(self).mv().tag_position <= old(self).mv().otag.len(),
        ensures
            final(self).inp() == old(self).inp(),
            final(self).mv() == (MachineV {
                content: old(self).mv().content + old(self).mv().otag.take(
                    old(self).mv().tag_position,
                ),
                ..old(self).mv()
            }),
    {
        let tp = self.tag_position;
        let mut i: usize = 0;
        #[verifier::loop_isolation(false)]
        while i < tp
            invariant
                0 <= i <= tp,
                self.tag_position == old(self).tag_position,
                self.otag@ == old(self).otag@,
                self.ctag@ == old(self).ctag@,
                self.input@ == old(self).input@,
                self.pos == old(self).pos,
                self.state == old(self).state,
                self.curly == old(self).curly,
                self.tokens@ == old(self).tokens@,
                self.partials@ == old(self).partials@,
                self.content@ == old(self).content@ + self.otag@.take(i as int),
            decreases tp - i,
        {
            let c = self.otag[i];
            self.content.push(c);
            proof {
                assert(self.content@ =~= old(self).content@ + self.otag@.take(i + 1 as int));
            }
            i = i + 1;
        }
        proof {
            assert(self.mv() =~= (MachineV {
                content: old(self).mv().content + old(self).mv().otag.take(
                    old(self).mv().tag_position,
                ),
                ..old(self).mv()
            }));
        }
    }

    /// Flush the partially matched close delimiter back into the text
    /// buffer.
    fn not_ctag(&mut self)
        requires
            old(self).mv().tag_position <= old(self).mv().ctag.len(),
        ensures
            final(self).inp() == old(self).inp(),
            final(self).mv() == (MachineV {
                content: old(self).mv().content + old(self).mv().ctag.take(
                    old(self).mv().tag_position,
                ),
                ..old(self).mv()
            }),
    {
        let tp = self.tag_position;
        let mut i: usize = 0;
        #[verifier::loop_isolation(false)]
        while i < tp
            invariant
                0 <= i <= tp,
                self.tag_position == old(self).tag_position,
                self.otag@ == old(self).otag@,
                self.ctag@ == old(self).ctag@,
                self.input@ == old(self).input@,
                self.pos == old(self).pos,
                self.state == old(self).state,
                self.curly == old(self).curly,
                self.tokens@ == old(self).tokens@,
                self.partials@ == old(self).partials@,
                self.content@ == old(self).content@ + self.ctag@.take(i as int),
            decreases tp - i,
        {
            let c = self.ctag[i];
            self.content.push(c);
            proof {
                assert(self.content@ =~= old(self).content@ + self.ctag@.take(i + 1 as int));
            }
            i = i + 1;
        }
        proof {
            assert(self.mv() =~= (MachineV {
                content: old(self).mv().content + old(self).mv().ctag.take(
                    old(self).mv().tag_position,
                ),
                ..old(self).mv()
            }));
        }
    }

    /// Parse the input into tokens and the list of referenced partial
    /// names. The result is exactly `spec_parse` applied to the input
    /// and the starting delimiters: parsing is deterministic.
    #[verifier::rlimit(100)]
    pub fn parse(self) -> (r: Result<(Vec<Token>, Vec<String>), ParseError>)
        requires
            self.wf(),
        ensures
            match r {
                Result::Ok(tp) => p_rest(self.inp(), self.mv()) == Result::<
                    (Seq<TokenV>, Seq<Seq<char>>),
                    ParseError,
                >::Ok((seq_token_view(tp.0@), tp.1.deep_view())),
                Result::Err(e) => p_rest(self.inp(), self.mv()) == Result::<
                    (Seq<TokenV>, Seq<Seq<char>>),
                    ParseError,
                >::Err(e),
            },
    {
        let ghost inp0 = self.inp();
        let ghost m0 = self.mv();
        let mut me = self;
        #[verifier::loop_isolation(false)]
        while me.pos < me.input.len()
            invariant
                me.wf(),
                me.inp() == inp0,
                p_rest(inp0, me.mv()) == p_rest(inp0, m0),
            decreases me.input@.len() - me.pos,
        {
            let ghost mpre = me.mv();
            proof {
                lemma_p_step_progress(inp0, mpre);
            }
            let ch = me.input[me.pos];
            match me.state {
                ParserState::TEXT => {
                    if ch == me.otag[0] {
                        if me.otag.len() > 1 {
                            me.tag_position = 1;
                            me.state = ParserState::OTAG;
                        } else {
                            me.add_text();
                            me.state = ParserState::TAG;
                        }
                    } else {
                        me.content.push(ch);
                    }
                    me.bump();
                    proof {
                        assert(p_step(inp0, mpre) is Ok);
                        assert(p_step(inp0, mpre)->Ok_0 =~= me.mv());
                    }
                },
                ParserState::OTAG => {
                    if ch == me.otag[me.tag_position] {
                        if me.tag_position == me.otag.len() - 1 {
                            me.add_text();
                            me.curly = false;
                            me.state = ParserState::TAG;
                        } else {
                            me.tag_position = me.tag_position + 1;
                        }
                    } else {
                        me.state = ParserState::TEXT;
                        me.not_otag();
                        me.content.push(ch);
                    }
                    me.bump();
                    proof {
                        assert(p_step(inp0, mpre) is Ok);
                        assert(p_step(inp0, mpre)->Ok_0 =~= me.mv());
                    }
                },
                ParserState::TAG => {
                    if me.content.len() == 0 && ch == '{' {
                        me.curly = true;
                        me.content.push(ch);
                        me.bump();
                        proof {
                            assert(p_step(inp0, mpre) is Ok);
                            assert(p_step(inp0, mpre)->Ok_0 =~= me.mv());
                        }
                    } else if me.curly && ch == '}' {
                        me.curly = false;
                        me.content.push(ch);
                        me.bump();
                        proof {
                            assert(p_step(inp0, mpre) is Ok);
                            assert(p_step(inp0, mpre)->Ok_0 =~= me.mv());
                        }
                    } else if ch == me.ctag[0] {
                        if me.ctag.len() > 1 {
                            me.tag_position = 1;
                            me.state = ParserState::CTAG;
                            me.bump();
                            proof {
                                assert(p_step(inp0, mpre) is Ok);
                                assert(p_step(inp0, mpre)->Ok_0 =~= me.mv());
                            }
                        } else {
                            let ghost mcall = me.mv();
                            match me.add_tag() {
                                Result::Ok(()) => {
                                    proof {
                                        assert(p_step(inp0, mpre) is Ok);
                                        assert(p_step(inp0, mpre)->Ok_0 =~= me.mv());
                                    }
                                },
                                Result::Err(e) => {
                                    proof {
                                        assert(p_step(inp0, mpre) == Result::<
                                            MachineV,
                                            ParseError,
                                        >::Err(e));
                                        assert(p_rest(inp0, m0) == Result::<
                                            (Seq<TokenV>, Seq<Seq<char>>),
                                            ParseError,
                                        >::Err(e));
                                    }
                                    return Result::Err(e);
                                },
                            }
                        }
                    } else {
                        me.content.push(ch);
                        me.bump();
                        proof {
                            assert(p_step(inp0, mpre) is Ok);
                            assert(p_step(inp0, mpre)->Ok_0 =~= me.mv());
                        }
                    }
                },
                ParserState::CTAG => {
                    if ch == me.ctag[me.tag_position] {
                        if me.tag_position == me.ctag.len() - 1 {
                            match me.add_tag() {
                                Result::Ok(()) => {
                                    proof {
                                        assert(p_step(inp0, mpre) is Ok);
                                        assert(p_step(inp0, mpre)->Ok_0 =~= me.mv());
                                    }
                                },
                                Result::Err(e) => {
                                    proof {
                                        assert(p_step(inp0, mpre) == Result::<
                                            MachineV,
                                            ParseError,
                                        >::Err(e));
                                        assert(p_rest(inp0, m0) == Result::<
                                            (Seq<TokenV>, Seq<Seq<char>>),
                                            ParseError,
                                        >::Err(e));
                                    }
                                    return Result::Err(e);
                                },
                            }
                        } else {
                            me.state = ParserState::TAG;
                            me.not_ctag();
                            me.content.push(ch);
                            me.bump();
                            proof {
                                assert(p_step(inp0, mpre) is Ok);
                                assert(p_step(inp0, mpre)->Ok_0 =~= me.mv());
                            }
                        }
                    } else {
                        proof {
                            assert(p_step(inp0, mpre) == Result::<MachineV, ParseError>::Err(
                                ParseError::BadCloseTag,
                            ));
                            assert(p_rest(inp0, m0) == Result::<
                                (Seq<TokenV>, Seq<Seq<char>>),
                                ParseError,
                            >::Err(ParseError::BadCloseTag));
                        }
                        return Result::Err(ParseError::BadCloseTag);
                    }
                },
            }
            proof {
                assert(p_run(inp0, mpre) == p_run(inp0, me.mv()));
            }
        }
        let ghost mend = me.mv();
        proof {
            assert(p_run(inp0, mend) == Result::<MachineV, ParseError>::Ok(mend));
            assert(p_rest(inp0, m0) == p_finish(mend));
        }
        match me.state {
            ParserState::TEXT => {
                me.add_text();
            },
            ParserState::OTAG => {
                me.not_otag();
                me.add_text();
            },
            ParserState::TAG => {
                proof {
                    assert(p_finish(mend) == Result::<
                        (Seq<TokenV>, Seq<Seq<char>>),
                        ParseError,
                    >::Err(ParseError::UnclosedTag));
                }
                return Result::Err(ParseError::UnclosedTag);
            },
            ParserState::CTAG => {
                me.not_ctag();
                me.add_text();
            },
        }
        let ghost mf = me.mv();
        let n = me.tokens.len();
        let mut i: usize = 0;
        #[verifier::loop_isolation(false)]
        while i < n
            invariant
                0 <= i <= n,
                n == me.tokens@.len(),
                me.mv() == mf,
                forall|j: int| 0 <= j < i ==> !(me.tokens@[j] is IncompleteSection),
            decreases n - i,
        {
            let found = match &me.tokens[i] {
                Token::IncompleteSection(_, _, _, _) => true,
                _ => false,
            };
            if found {
                proof {
                    lemma_seq_token_view_index(me.tokens@, i as int);
                    assert(seq_token_view(me.tokens@)[i as int] is IncompleteSection);
                    assert(has_incomplete(mf.tokens));
                    assert(p_finish(mend) == Result::<
                        (Seq<TokenV>, Seq<Seq<char>>),
                        ParseError,
                    >::Err(ParseError::UnclosedSection));
                }
                return Result::Err(ParseError::UnclosedSection);
            }
            i = i + 1;
        }
        proof {
            lemma_seq_token_view_len(me.tokens@);
            assert(!has_incomplete(mf.tokens)) by {
                if has_incomplete(mf.tokens) {
                    let j = choose|j: int|
                        0 <= j < mf.tokens.len() && mf.tokens[j] is IncompleteSection;
                    lemma_seq_token_view_index(me.tokens@, j);
                    assert(me.tokens@[j] is IncompleteSection);
                }
            }
            assert(p_finish(mend) == Result::<(Seq<TokenV>, Seq<Seq<char>>), ParseError>::Ok(
                (mf.tokens, mf.partials),
            ));
        }
        let Parser { tokens, partials, .. } = me;
        Result::Ok((tokens, partials))
    }
}

} // verus!
