//! Convenience entry points over the parser and the generator.
use vstd::prelude::*;
use crate::error::OrtResult;
use crate::ort_value::OrtValue;
use crate::parser::{parse_ort, spec_parse, ErrModel};
use crate::generator::{generate_ort, gen_ort};

verus! {

/// Parses ORT text into a value tree; see [`parse_ort`].
pub fn from_str(s: &str) -> (r: OrtResult<OrtValue>)
    ensures
        ({
            let sp = spec_parse(s@);
            match r {
                Ok(v) => sp == Result::<crate::ort_value::ValModel, ErrModel>::Ok(v.model())
                    && crate::ort_value::wf(v.model()),
                Err(e) => match sp {
                    Result::Ok(_) => false,
                    Result::Err(em) => e.line == em.line && e.code@ == em.code && e.message@
                        == em.msg,
                },
            }
        }),
{
    parse_ort(s)
}

/// Renders a value tree as ORT text; see [`generate_ort`].
pub fn to_string(value: &OrtValue) -> (r: String)
    ensures
        r@ == gen_ort(value.model()),
{
    generate_ort(value)
}

} // verus!
