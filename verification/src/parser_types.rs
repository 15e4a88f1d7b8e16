//! The types of the outside parser that the library hands through.
use vstd::prelude::*;

use prometheus_parse::Sample as ParserSample;
use prometheus_parse::Value as ParserValue;

verus! {

/// The outside parser's sample, `prometheus_parse::Sample`.
#[verifier::external_type_specification]
#[verifier::external_body]
pub struct ExParserSample(ParserSample);

/// The outside parser's value, `prometheus_parse::Value`.
#[verifier::external_type_specification]
#[verifier::external_body]
pub struct ExParserValue(ParserValue);

} // verus!
