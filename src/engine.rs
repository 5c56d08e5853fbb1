use vstd::prelude::*;
use tree_sitter_highlight::{HighlightConfiguration, HighlightEvent, Highlighter};
use crate::forest::names_view;
use crate::language::SourceLanguage;
use crate::model::Event;

verus! {

#[verifier::external_type_specification]
#[verifier::external_body]
pub struct ExQueryError(tree_sitter::QueryError);

#[verifier::external_type_specification]
#[verifier::external_body]
pub struct ExHighlightConfiguration(HighlightConfiguration);

#[verifier::external_type_specification]
#[verifier::external_body]
pub struct ExHighlightFailure(tree_sitter_highlight::Error);

/// The capture names of a language's compiled queries, or `None` when they
/// do not compile.
pub uninterp spec fn capture_names_of(l: SourceLanguage) -> Option<Seq<Seq<char>>>;

/// The events that the engine produces for a source text in a language, or
/// `None` when it fails.
pub uninterp spec fn engine_events_of(l: SourceLanguage, source: Seq<char>) -> Option<Seq<Event>>;

/// A compiled configuration, with every capture name recognized, and the
/// language it was made for. Only the constructors below make one.
pub struct Configured {
    config: HighlightConfiguration,
    language: Ghost<SourceLanguage>,
}

impl Configured {
    pub closed spec fn language(&self) -> SourceLanguage {
        self.language@
    }
}

/// Relies on `HighlightConfiguration::new` with the TypeScript grammar and
/// queries, then `configure` with its own capture names.
#[verifier::external_body]
pub(crate) fn typescript_configuration() -> (r: Result<Configured, tree_sitter::QueryError>)
    ensures
        r is Ok <==> capture_names_of(SourceLanguage::TypeScript) is Some,
        r matches Ok(c) ==> c.language() == SourceLanguage::TypeScript,
{
    let mut config = HighlightConfiguration::new(
        tree_sitter_typescript::language_typescript(),
        &[tree_sitter_typescript::HIGHLIGHT_QUERY, tree_sitter_javascript::HIGHLIGHT_QUERY].concat(),
        tree_sitter_javascript::INJECTION_QUERY,
        &[tree_sitter_typescript::LOCALS_QUERY, tree_sitter_javascript::LOCALS_QUERY].concat(),
    )?;
    let names = config.names().to_vec();
    config.configure(&names);
    Ok(Configured { config, language: Ghost(SourceLanguage::TypeScript) })
}

/// Relies on `HighlightConfiguration::new` with the TSX grammar and the JSX,
/// TypeScript and JavaScript queries, then `configure` with its own capture names.
#[verifier::external_body]
pub(crate) fn tsx_configuration() -> (r: Result<Configured, tree_sitter::QueryError>)
    ensures
        r is Ok <==> capture_names_of(SourceLanguage::Tsx) is Some,
        r matches Ok(c) ==> c.language() == SourceLanguage::Tsx,
{
    let mut config = HighlightConfiguration::new(
        tree_sitter_typescript::language_tsx(),
        &[tree_sitter_javascript::JSX_HIGHLIGHT_QUERY, tree_sitter_typescript::HIGHLIGHT_QUERY, tree_sitter_javascript::HIGHLIGHT_QUERY].concat(),
        tree_sitter_javascript::INJECTION_QUERY,
        &[tree_sitter_typescript::LOCALS_QUERY, tree_sitter_javascript::LOCALS_QUERY].concat(),
    )?;
    let names = config.names().to_vec();
    config.configure(&names);
    Ok(Configured { config, language: Ghost(SourceLanguage::Tsx) })
}

/// Relies on `HighlightConfiguration::new` with the Rust grammar and its
/// highlights query, then `configure` with its own capture names.
#[verifier::external_body]
pub(crate) fn rust_configuration() -> (r: Result<Configured, tree_sitter::QueryError>)
    ensures
        r is Ok <==> capture_names_of(SourceLanguage::Rust) is Some,
        r matches Ok(c) ==> c.language() == SourceLanguage::Rust,
{
    let mut config = HighlightConfiguration::new(tree_sitter_rust::language(), tree_sitter_rust::HIGHLIGHT_QUERY, "", "")?;
    let names = config.names().to_vec();
    config.configure(&names);
    Ok(Configured { config, language: Ghost(SourceLanguage::Rust) })
}

/// Relies on `HighlightConfiguration::new` with the C grammar and its
/// highlights query, then `configure` with its own capture names.
#[verifier::external_body]
pub(crate) fn c_configuration() -> (r: Result<Configured, tree_sitter::QueryError>)
    ensures
        r is Ok <==> capture_names_of(SourceLanguage::C) is Some,
        r matches Ok(c) ==> c.language() == SourceLanguage::C,
{
    let mut config = HighlightConfiguration::new(tree_sitter_c::language(), tree_sitter_c::HIGHLIGHT_QUERY, "", "")?;
    let names = config.names().to_vec();
    config.configure(&names);
    Ok(Configured { config, language: Ghost(SourceLanguage::C) })
}

/// Relies on `HighlightConfiguration::names`: the capture names of the compiled
/// query, which depend on the language alone.
#[verifier::external_body]
pub(crate) fn capture_names(c: &Configured) -> (r: Vec<String>)
    ensures
        capture_names_of(c.language()) == Some(names_view(r@)),
{
    c.config.names().to_vec()
}

/// Relies on the `Display` text of `tree_sitter::QueryError`.
#[verifier::external_body]
pub(crate) fn query_error_text(e: &tree_sitter::QueryError) -> String {
    e.to_string()
}

/// Relies on the `Display` text of `tree_sitter_highlight::Error`.
#[verifier::external_body]
pub(crate) fn highlight_error_text(e: &tree_sitter_highlight::Error) -> String {
    e.to_string()
}

/// Relies on `Highlighter::highlight`: the events of one source text, in order,
/// with no cancellation flag and no injected languages, so that they depend on
/// the language and the text alone; the first failure ends the stream.
#[verifier::external_body]
pub(crate) fn highlight_events(c: &Configured, source: &str) -> (r: Result<Vec<Event>, tree_sitter_highlight::Error>)
    ensures
        r is Ok <==> engine_events_of(c.language(), source@) is Some,
        r matches Ok(ev) ==> engine_events_of(c.language(), source@) == Some(ev@),
{
    let mut highlighter = Highlighter::new();
    let events = highlighter.highlight(&c.config, source.as_bytes(), None, |_| None)?;
    events.map(|e| e.map(|e| match e {
        HighlightEvent::Source { start, end } => Event::Source { start, end },
        HighlightEvent::HighlightStart(h) => Event::Start(h.0),
        HighlightEvent::HighlightEnd => Event::End,
    })).collect()
}

} // verus!
