//! Local import resolution: short symbols to canonical paths.
//!
//! The mapper holds the symbol table read off a source file's import
//! items; a symbol it does not know is assumed to live in the current
//! module and prefixed with a `self::` marker for the caller to expand.

use vstd::prelude::*;

use crate::strutil::{
    chars_to_string, contains_sub, has_prefix, has_sub, push_all, replace_sub, spec_replace,
    starts_with, str_to_chars,
};
use crate::table::{tbl_find, tbl_lookup, lemma_tbl_find_props};

verus! {

/// Maps short symbol names to the canonical paths their imports name.
#[derive(Debug)]
pub struct ImportMapper {
    pub symbol_map: Vec<(String, String)>,
}

/// What resolving `symbol` returns: the mapped canonical path when the
/// table holds the symbol, else `self::` followed by the symbol.
pub open spec fn spec_resolve_symbol(m: Seq<(String, String)>, symbol: Seq<char>) -> Seq<char> {
    match tbl_find(m, symbol) {
        Some(i) => m[i].1@,
        None => "self::"@ + symbol,
    }
}

impl ImportMapper {
    /// A mapper over an explicit symbol table.
    pub fn from_entries(entries: Vec<(String, String)>) -> (r: ImportMapper)
        ensures
            r.symbol_map@ == entries@,
    {
        ImportMapper { symbol_map: entries }
    }

    /// Resolve a short symbol to a canonical path, or mark it local.
    pub fn resolve(&self, symbol: &str) -> (r: String)
        ensures
            r@ == spec_resolve_symbol(self.symbol_map@, symbol@),
    {
        let owned = symbol.to_owned();
        match tbl_lookup(&self.symbol_map, &owned) {
            Some(i) => {
                proof {
                    lemma_tbl_find_props(self.symbol_map@, symbol@);
                }
                self.symbol_map[i].1.clone()
            },
            None => {
                let mut out = str_to_chars("self::");
                let sym = str_to_chars(symbol);
                push_all(&mut out, &sym);
                chars_to_string(&out)
            },
        }
    }
}

/// What qualifying a raw type name in a scope returns: an already
/// crate-qualified name stays; otherwise the import table resolves it,
/// and a local `self::` marker is expanded to the scope's module path
/// (every `self` occurrence is substituted, as the plain textual
/// replacement performs it).
pub open spec fn spec_qualify(
    m: Seq<(String, String)>,
    scope: Seq<char>,
    ty: Seq<char>,
) -> Seq<char> {
    if contains_sub(ty, "::"@) && starts_with(ty, "crate"@) {
        ty
    } else {
        let resolved = spec_resolve_symbol(m, ty);
        if starts_with(resolved, "self::"@) {
            spec_replace(resolved, "self"@, scope)
        } else {
            resolved
        }
    }
}

impl ImportMapper {
    /// Qualify a raw type name against this mapper within `scope`.
    pub fn qualify_type(&self, scope: &str, ty: &str) -> (r: String)
        ensures
            r@ == spec_qualify(self.symbol_map@, scope@, ty@),
    {
        let ty_chars = str_to_chars(ty);
        let sep = str_to_chars("::");
        let crate_lit = str_to_chars("crate");
        if has_sub(&ty_chars, &sep) && has_prefix(&ty_chars, &crate_lit) {
            return ty.to_owned();
        }
        let resolved = self.resolve(ty);
        let resolved_chars = str_to_chars(resolved.as_str());
        let self_marker = str_to_chars("self::");
        if has_prefix(&resolved_chars, &self_marker) {
            let self_lit = str_to_chars("self");
            let scope_chars = str_to_chars(scope);
            let replaced = replace_sub(&resolved_chars, &self_lit, &scope_chars);
            chars_to_string(&replaced)
        } else {
            resolved
        }
    }
}

} // verus!
