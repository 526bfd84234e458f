//! The provider signature record produced by the source scanner.

use vstd::prelude::*;

use crate::models::clone_string_vec;

verus! {

/// Mathematical image of a [`ProviderSignature`].
pub struct SignatureView {
    pub full_path: Seq<char>,
    pub name: Seq<char>,
    pub inputs: Seq<Seq<char>>,
    pub stripped_inputs: Seq<Seq<char>>,
    pub output_type: Seq<char>,
    pub is_result: bool,
}

/// One provider as the scanner records it: its full call path, its bare
/// name, its raw parameters, the bare input types derived from them, its
/// output type and whether it is fallible.
#[derive(Debug)]
pub struct ProviderSignature {
    pub full_path: String,
    pub name: String,
    pub inputs: Vec<String>,
    pub stripped_inputs: Vec<String>,
    pub output_type: String,
    pub is_result: bool,
}

impl View for ProviderSignature {
    type V = SignatureView;

    open spec fn view(&self) -> SignatureView {
        SignatureView {
            full_path: self.full_path@,
            name: self.name@,
            inputs: self.inputs.deep_view(),
            stripped_inputs: self.stripped_inputs.deep_view(),
            output_type: self.output_type@,
            is_result: self.is_result,
        }
    }
}

impl Clone for ProviderSignature {
    fn clone(&self) -> (res: Self)
        ensures
            res@ == self@,
    {
        ProviderSignature {
            full_path: self.full_path.clone(),
            name: self.name.clone(),
            inputs: clone_string_vec(&self.inputs),
            stripped_inputs: clone_string_vec(&self.stripped_inputs),
            output_type: self.output_type.clone(),
            is_result: self.is_result,
        }
    }
}

} // verus!
