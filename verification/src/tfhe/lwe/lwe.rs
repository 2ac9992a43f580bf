//! LWE ciphertexts as a plain list of scalars.
use vstd::prelude::*;
use core::marker::PhantomData;
use crate::encoding::{json_list, json_list_text, parse_json_list, parsed_json_list};
use crate::tfhe::schemas::TFHESchema;

verus! {

/// An LWE ciphertext: its scalars, the mask first and the body last.
#[derive(Debug, PartialEq)]
pub struct LWECiphertext<S: TFHESchema>(pub Vec<u64>, pub PhantomData<S>);

impl<S: TFHESchema> View for LWECiphertext<S> {
    type V = Seq<u64>;

    open spec fn view(&self) -> Seq<u64> {
        self.0@
    }
}

impl<S: TFHESchema> core::str::FromStr for LWECiphertext<S> {
    type Err = &'static str;

    fn from_str(s: &str) -> (r: Result<LWECiphertext<S>, &'static str>)
        ensures
            r is Err <==> parsed_json_list(s@) is None,
            r matches Ok(ct) ==> parsed_json_list(s@) == Some(ct@),
    {
        LWECiphertext::from_str(s)
    }
}

impl<S: TFHESchema> LWECiphertext<S> {
    /// The ciphertext with the given scalars.
    pub fn from_polynomial_list(data: Vec<u64>) -> (r: Self)
        ensures
            r@ == data@,
    {
        LWECiphertext(data, PhantomData)
    }

    /// The scalars as a JSON array.
    pub fn to_string(&self) -> (r: String)
        ensures
            r@ == json_list(self@),
            parsed_json_list(r@) == Some(self@),
    {
        json_list_text(&self.0)
    }

    /// Reads a ciphertext from a JSON array of scalars; `Err` when the text is
    /// not such an array.
    pub fn from_str(s: &str) -> (r: Result<Self, &'static str>)
        ensures
            r is Err <==> parsed_json_list(s@) is None,
            r matches Ok(ct) ==> parsed_json_list(s@) == Some(ct@),
    {
        match parse_json_list(s) {
            Some(data) => Ok(LWECiphertext::from_polynomial_list(data)),
            None => Err("not a JSON list of scalars"),
        }
    }
}

} // verus!
