//! TypeScript, the language single-file components' scripts are parsed as.

use vstd::prelude::*;

verus! {

/// Identifiers referenced from inside a definition: free calls,
/// instantiations and type references (bare), receiver method calls and
/// interface method signatures (through a receiver).
pub const REFERENCE_QUERY: &'static str = "\
[
  (call_expression function: (identifier) @reference.call)
  (new_expression constructor: (identifier) @reference.call)
  (type_identifier) @reference.type
  (call_expression function: (member_expression property: (property_identifier) @reference.method))
  (method_signature name: (property_identifier) @reference.methodspec)
]";

} // verus!
