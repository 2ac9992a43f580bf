//! Polynomials held by the coefficients of their transform.
use vstd::prelude::*;
use crate::encoding::{debug_list, debug_list_text, parse_json_list, parsed_json_list};

verus! {

/// A polynomial in transform form: the coefficients of its transform.
#[derive(Debug, PartialEq, Eq)]
pub struct PolynomialNttForm(Vec<u64>);

impl View for PolynomialNttForm {
    type V = Seq<u64>;

    closed spec fn view(&self) -> Seq<u64> {
        self.0@
    }
}

impl core::str::FromStr for PolynomialNttForm {
    type Err = &'static str;

    fn from_str(s: &str) -> (r: Result<PolynomialNttForm, &'static str>)
        ensures
            r is Err <==> parsed_json_list(s@) is None,
            r matches Ok(ct) ==> parsed_json_list(s@) == Some(ct@),
    {
        PolynomialNttForm::from_str(s)
    }
}

impl PolynomialNttForm {
    /// The transform form with the given coefficients.
    pub fn new(data: Vec<u64>) -> (r: Self)
        ensures
            r@ == data@,
    {
        PolynomialNttForm(data)
    }

    /// A copy of the coefficients.
    pub fn coeffs(&self) -> (r: Vec<u64>)
        ensures
            r@ == self@,
    {
        let c = self.0.clone();
        proof {
            assert(c@ =~= self.0@);
        }
        c
    }

    /// Coefficient `i`.
    pub fn index(&self, i: usize) -> (r: u64)
        requires
            i < self@.len(),
        ensures
            r == self@[i as int],
    {
        self.0[i]
    }

    /// Sets coefficient `i` to `value`.
    pub fn set(&mut self, i: usize, value: u64)
        requires
            i < old(self)@.len(),
        ensures
            final(self)@ == old(self)@.update(i as int, value),
    {
        self.0.set(i, value);
    }

    /// The coefficients in std's `Debug` list form, such as `[1, 2, 3]`;
    /// `from_str` reads the text back as the same coefficients.
    pub fn to_string(&self) -> (r: String)
        ensures
            r@ == debug_list(self@),
            parsed_json_list(r@) == Some(self@),
    {
        debug_list_text(&self.0)
    }

    /// Reads a transform form from a JSON array of coefficients; `Err` when
    /// the text is not such an array.
    pub fn from_str(s: &str) -> (r: Result<PolynomialNttForm, &'static str>)
        ensures
            r is Err <==> parsed_json_list(s@) is None,
            r matches Ok(p) ==> parsed_json_list(s@) == Some(p@),
    {
        match parse_json_list(s) {
            Some(data) => Ok(PolynomialNttForm::new(data)),
            None => Err("not a JSON list of coefficients"),
        }
    }
}

} // verus!
