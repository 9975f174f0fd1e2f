//! The syntax-highlighter boundary. The highlighter is syntect: a language
//! token is resolved against a syntax set, and the recovered code text is
//! turned into an HTML fragment using a colour theme. Rendering fails with a
//! descriptive error when the token resolves to no syntax.

use vstd::prelude::*;
use syntect::highlighting::{Theme, ThemeSet};
use syntect::parsing::{SyntaxReference, SyntaxSet};

verus! {

#[verifier::external_type_specification]
#[verifier::external_body]
pub struct ExSyntaxSet(SyntaxSet);

#[verifier::external_type_specification]
#[verifier::external_body]
pub struct ExSyntaxReference(SyntaxReference);

#[verifier::external_type_specification]
#[verifier::external_body]
pub struct ExTheme(Theme);

#[verifier::external_type_specification]
#[verifier::external_body]
pub struct ExThemeSet(ThemeSet);

/// The language tokens that a given syntax set resolves, by syntax name or
/// file extension.
pub uninterp spec fn resolvable_tokens(ss: SyntaxSet) -> Set<Seq<char>>;

/// The tokens resolved by the syntax definitions bundled with syntect; the
/// parameter selects the newline-keeping variant of the bundle.
pub uninterp spec fn bundled_tokens(newlines: bool) -> Set<Seq<char>>;

/// How many themes a theme set holds.
pub uninterp spec fn theme_count(ts: ThemeSet) -> nat;

/// The syntax a set resolves a token to, where it resolves it at all: the
/// second thing the contracts need of the set's contents, beside
/// `resolvable_tokens`.
pub uninterp spec fn resolved_syntax(ss: SyntaxSet, token: Seq<char>) -> SyntaxReference;

/// What `syntect::html::highlighted_html_for_string` returns: the HTML
/// fragment for the code under the given syntax and theme, or its error
/// rendered to display text. The result is a function of the four
/// arguments alone (no disk, clock or randomness is read).
pub uninterp spec fn hl_of(
    code: Seq<char>,
    ss: SyntaxSet,
    syntax: SyntaxReference,
    theme: Theme,
) -> Result<Seq<char>, Seq<char>>;

/// The values of a highlighter call's outcome.
pub open spec fn hl_result_view(r: Result<String, String>) -> Result<Seq<char>, Seq<char>> {
    match r {
        Ok(h) => Ok(h@),
        Err(m) => Err(m@),
    }
}

/// Relies on `SyntaxSet::load_defaults_newlines`: the syntax definitions
/// bundled with syntect, compiled into the binary, the same on every call.
#[verifier::external_body]
pub fn load_default_syntaxes() -> (r: SyntaxSet)
    ensures
        resolvable_tokens(r) == bundled_tokens(true),
{
    SyntaxSet::load_defaults_newlines()
}

/// Relies on `SyntaxSet::find_syntax_by_token`: for a fixed set, the result
/// is a function of the token alone (it is matched against file extensions,
/// then case-insensitively against syntax names).
#[verifier::external_body]
pub fn find_syntax<'a>(ss: &'a SyntaxSet, token: &str) -> (r: Option<&'a SyntaxReference>)
    ensures
        r is Some <==> resolvable_tokens(*ss).contains(token@),
        r matches Some(syn) ==> *syn == resolved_syntax(*ss, token@),
{
    ss.find_syntax_by_token(token)
}

/// Relies on `ThemeSet::load_defaults`: the colour themes bundled with
/// syntect; its documentation lists several, so the set is not empty.
#[verifier::external_body]
pub fn load_default_themes() -> (r: ThemeSet)
    ensures
        theme_count(r) > 0,
{
    ThemeSet::load_defaults()
}

/// Relies on the public `themes` map of a `ThemeSet`: iterating it yields
/// an element exactly when the set holds any theme.
#[verifier::external_body]
pub fn first_theme<'a>(ts: &'a ThemeSet) -> (r: Option<&'a Theme>)
    ensures
        r is Some <==> theme_count(*ts) > 0,
{
    ts.themes.values().next()
}

/// Relies on `syntect::html::highlighted_html_for_string`: produces an HTML
/// fragment for the code under the given syntax and theme, deterministic in
/// its arguments; a failure is rendered to its display text.
#[verifier::external_body]
pub fn highlight_html(
    code: &str,
    ss: &SyntaxSet,
    syntax: &SyntaxReference,
    theme: &Theme,
) -> (r: Result<String, String>)
    ensures
        hl_result_view(r) == hl_of(code@, *ss, *syntax, *theme),
{
    match syntect::html::highlighted_html_for_string(code, ss, syntax, theme) {
        Ok(h) => Ok(h),
        Err(e) => Err(format!("{}", e)),
    }
}

/// Why rendering a document failed.
#[derive(Debug)]
pub enum RenderError {
    /// A fenced block named a language tag the highlighter does not know.
    UnknownLanguage { lang: String },
    /// The highlighter itself failed; the field is its message.
    HighlightFailed { message: String },
    /// No colour theme was available for highlighting.
    NoTheme,
}

impl RenderError {
    /// A human-readable message; for an unknown language it names the tag.
    pub fn message(&self) -> (r: String)
        ensures
            match self {
                RenderError::UnknownLanguage { lang } =>
                    r@ == "language \""@ + lang@ + "\" not found"@,
                RenderError::HighlightFailed { message } => r@ == message@,
                RenderError::NoTheme => r@ == "no highlighting theme available"@,
            },
    {
        match self {
            RenderError::UnknownLanguage { lang } => {
                let mut s = String::from_str("language \"");
                s.append(lang.as_str());
                s.append("\" not found");
                s
            },
            RenderError::HighlightFailed { message } => message.clone(),
            RenderError::NoTheme => String::from_str("no highlighting theme available"),
        }
    }
}

} // verus!
