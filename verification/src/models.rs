//! Data model for provider declarations.
//!
//! A provider is a declared operation that produces one output type from
//! zero or more input types, and may additionally bind abstract types it
//! is willing to satisfy.

use vstd::prelude::*;

use crate::keys::spec_normalize;

verus! {

/// Mathematical image of a [`ProviderArgument`].
pub struct ArgView {
    pub name: Seq<char>,
    pub ty: Seq<char>,
    pub from: Option<Seq<char>>,
}

/// Mathematical image of a [`ProviderInfo`].
pub struct ProviderView {
    pub path: Seq<char>,
    pub args: Seq<ArgView>,
    pub ret: Seq<char>,
    pub is_result: bool,
    pub bindings: Seq<Seq<char>>,
}

/// One parameter of a provider function.
///
/// `from`, when present, replaces `ty` for dependency lookup only: it lets
/// a provider request one specific implementation among several satisfying
/// the same abstract type.
#[derive(Debug)]
pub struct ProviderArgument {
    pub name: String,
    pub ty: String,
    pub from: Option<String>,
}

/// A provider declaration.
///
/// `path` is the canonical call path of the provider function; `ret` the
/// raw output type expression; `is_result` whether the provider is
/// fallible; `bindings` the additional raw type expressions this provider
/// also satisfies.
#[derive(Debug)]
pub struct ProviderInfo {
    pub path: String,
    pub args: Vec<ProviderArgument>,
    pub ret: String,
    pub is_result: bool,
    pub bindings: Vec<String>,
}

impl View for ProviderArgument {
    type V = ArgView;

    open spec fn view(&self) -> ArgView {
        ArgView {
            name: self.name@,
            ty: self.ty@,
            from: match self.from {
                Some(f) => Some(f@),
                None => None,
            },
        }
    }
}

impl View for ProviderInfo {
    type V = ProviderView;

    open spec fn view(&self) -> ProviderView {
        ProviderView {
            path: self.path@,
            args: Seq::new(self.args@.len(), |i: int| self.args@[i]@),
            ret: self.ret@,
            is_result: self.is_result,
            bindings: self.bindings.deep_view(),
        }
    }
}

impl Clone for ProviderArgument {
    fn clone(&self) -> (res: Self)
        ensures
            res@ == self@,
    {
        ProviderArgument {
            name: self.name.clone(),
            ty: self.ty.clone(),
            from: match &self.from {
                Some(f) => Some(f.clone()),
                None => None,
            },
        }
    }
}

/// Clone a vector of strings, preserving its contents.
pub fn clone_string_vec(v: &Vec<String>) -> (r: Vec<String>)
    ensures
        r.deep_view() == v.deep_view(),
        r@.len() == v@.len(),
{
    let mut r: Vec<String> = Vec::new();
    let mut i: usize = 0;
    while i < v.len()
        invariant
            i <= v@.len(),
            r@.len() == i,
            forall|j: int| 0 <= j < i ==> r@[j]@ == v@[j]@,
        decreases v.len() - i,
    {
        r.push(v[i].clone());
        i = i + 1;
    }
    proof {
        assert(r.deep_view() =~= v.deep_view());
    }
    r
}

impl Clone for ProviderInfo {
    fn clone(&self) -> (res: Self)
        ensures
            res@ == self@,
    {
        let mut args: Vec<ProviderArgument> = Vec::new();
        let mut i: usize = 0;
        while i < self.args.len()
            invariant
                i <= self.args@.len(),
                args@.len() == i,
                forall|j: int| 0 <= j < i ==> args@[j]@ == self.args@[j]@,
            decreases self.args.len() - i,
        {
            args.push(self.args[i].clone());
            i = i + 1;
        }
        let res = ProviderInfo {
            path: self.path.clone(),
            args,
            ret: self.ret.clone(),
            is_result: self.is_result,
            bindings: clone_string_vec(&self.bindings),
        };
        proof {
            assert(Seq::new(res.args@.len(), |i: int| res.args@[i]@) =~= Seq::new(
                self.args@.len(),
                |i: int| self.args@[i]@,
            ));
        }
        res
    }
}

impl ProviderArgument {
    /// The type expression used for dependency lookup: the override when
    /// present, the declared parameter type otherwise.
    pub open spec fn spec_lookup_ty(self) -> Seq<char> {
        match self@.from {
            Some(f) => f,
            None => self@.ty,
        }
    }

    /// Executable counterpart of [`Self::spec_lookup_ty`].
    pub fn lookup_ty(&self) -> (r: &String)
        ensures
            r@ == self.spec_lookup_ty(),
    {
        match &self.from {
            Some(f) => f,
            None => &self.ty,
        }
    }
}

/// The providers found in one scanned file, with the modification
/// moment of the file when it was scanned (as an opaque stamp in
/// nanoseconds), so that an unchanged file need not be scanned again.
#[derive(Debug)]
pub struct FileScanResult {
    pub mtime: u128,
    pub providers: Vec<ProviderInfo>,
}

/// The lookup type expression of one argument view.
pub open spec fn arg_lookup_ty(a: ArgView) -> Seq<char> {
    match a.from {
        Some(f) => f,
        None => a.ty,
    }
}

/// The dependency keys of a declaration: the normalized lookup type of
/// each argument, in argument order.
pub open spec fn dep_keys(p: ProviderView, ws: Seq<Seq<char>>) -> Seq<Seq<char>> {
    Seq::new(p.args.len(), |i: int| spec_normalize(arg_lookup_ty(p.args[i]), ws))
}

/// The keys a declaration registers: its normalized output type followed
/// by its normalized bound types, in declaration order.
pub open spec fn own_keys(p: ProviderView, ws: Seq<Seq<char>>) -> Seq<Seq<char>> {
    seq![spec_normalize(p.ret, ws)] + Seq::new(
        p.bindings.len(),
        |i: int| spec_normalize(p.bindings[i], ws),
    )
}

} // verus!
