use vstd::prelude::*;
use crate::ast::{decl_types_sane, ApiDefn};
use crate::grammar::UnitM;

pub mod c;
pub mod rust;

verus! {

pub enum Language {
    C,
    Rust,
}

/// Emitter settings.
#[derive(Clone, Copy)]
pub struct Options {
    /// Also emit, per function, a wrapper under its base name that forwards
    /// to its latest version (second-language target).
    pub api_forward_to_latest: bool,
    /// Mark each C prototype with `DANDIYA_API_EXPORT`, which the header
    /// defines as empty unless the includer defines it first.
    pub c_export_api: bool,
}

impl Default for Options {
    fn default() -> (r: Self)
        ensures
            r.api_forward_to_latest,
            r.c_export_api,
    {
        Options { api_forward_to_latest: true, c_export_api: true }
    }
}

/// The text emitted for a unit in a target language. It depends on the
/// unit's value and the options alone.
pub open spec fn emitted_text(u: UnitM, lang: Language, options: Options) -> Seq<char> {
    match lang {
        Language::C => c::header_text(u.decls, u.suffix, options),
        Language::Rust => rust::module_text(u.decls, u.registry, u.suffix, options),
    }
}

/// The bindings for `api` in the chosen target language. Every type must be
/// one C can express (see `parse::types_are_sane`); the parser produces no
/// other. The result is a function of the unit and the options, so emitting
/// the same unit with the same options twice gives the same text.
pub fn emit(api: &ApiDefn, lang: Language, options: Options) -> (r: String)
    requires
        forall|k: int| 0 <= k < api.decls@.len() ==> decl_types_sane(#[trigger] api.decls@[k]@),
    ensures
        r@ == emitted_text(api.unit(), lang, options),
{
    let mut out = String::new();
    match lang {
        Language::C => c::emit(&mut out, api, options),
        Language::Rust => rust::emit(&mut out, api, options),
    }
    out
}

} // verus!
