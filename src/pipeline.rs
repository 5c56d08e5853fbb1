use vstd::prelude::*;
use vstd::string::StringSliceAdditionalSpecFns;
use crate::engine::{
    Configured, c_configuration, capture_names, capture_names_of, engine_events_of,
    highlight_error_text, highlight_events, query_error_text, rust_configuration,
    tsx_configuration, typescript_configuration,
};
use crate::forest::build_forest;
use crate::language::{SourceLanguage, language_spec, lower_of, select_language};
use crate::model::{StreamError, empty_state, run};
use crate::node::{Node, trees_of};

verus! {

/// Why a text could not be highlighted.
#[derive(Clone, Debug, PartialEq, Eq)]
pub enum HighlightError {
    /// The language key names none of the supported languages.
    UnsupportedLanguage,
    /// The grammar's queries could not be compiled; the engine's message.
    Configuration(String),
    /// The engine failed while producing events; its message.
    Engine(String),
    /// The engine's event stream was malformed.
    Stream(StreamError),
}

/// Compiles the queries of a language, with every capture name recognized.
fn configuration_for(language: SourceLanguage) -> (r: Result<Configured, HighlightError>)
    ensures
        r is Ok <==> capture_names_of(language) is Some,
        r matches Ok(c) ==> c.language() == language,
        r matches Err(e) ==> e is Configuration,
{
    let made = match language {
        SourceLanguage::TypeScript => typescript_configuration(),
        SourceLanguage::Tsx => tsx_configuration(),
        SourceLanguage::Rust => rust_configuration(),
        SourceLanguage::C => c_configuration(),
    };
    match made {
        Ok(config) => Ok(config),
        Err(e) => Err(HighlightError::Configuration(query_error_text(&e))),
    }
}

/// Highlights `source` in the language that `language_key` names, whatever
/// its case, and returns the line-partitioned forest.
pub fn highlight(source: &str, language_key: &str) -> (r: Result<Vec<Node>, HighlightError>)
    ensures
        language_spec(lower_of(language_key@)) is None <==> r == Err::<Vec<Node>, HighlightError>(
            HighlightError::UnsupportedLanguage,
        ),
        language_spec(lower_of(language_key@)) matches Some(l) ==> {
            &&& capture_names_of(l) is None ==> r is Err && r->Err_0 is Configuration
            &&& capture_names_of(l) is Some && engine_events_of(l, source@) is None
                ==> r is Err && r->Err_0 is Engine
            &&& capture_names_of(l) is Some && engine_events_of(l, source@) is Some ==> match run(
                source.spec_bytes(),
                engine_events_of(l, source@)->0,
                capture_names_of(l)->0,
                empty_state(),
            ) {
                Ok(st) => r is Ok && trees_of(r->Ok_0@) == st.root,
                Err(e) => r == Err::<Vec<Node>, HighlightError>(HighlightError::Stream(e)),
            }
        },
{
    let language = match select_language(language_key) {
        Some(l) => l,
        None => return Err(HighlightError::UnsupportedLanguage),
    };
    let config = configuration_for(language)?;
    let names = capture_names(&config);
    let events = match highlight_events(&config, source) {
        Ok(events) => events,
        Err(e) => return Err(HighlightError::Engine(highlight_error_text(&e))),
    };
    match build_forest(source, &events, &names) {
        Ok(forest) => Ok(forest),
        Err(e) => Err(HighlightError::Stream(e)),
    }
}

} // verus!
