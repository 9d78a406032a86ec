use vstd::prelude::*;
use crate::error::StoreError;
use crate::header::FieldPath;
use crate::header::header_read;
use crate::header::spec_read;
use crate::value::SpecValue;
use crate::value::Value;

verus! {

/// Whether the store configuration allows implicit creation: the value of
/// the boolean key `implicit-create`, `false` when no configuration was
/// given at all.
///
/// A missing key is `ConfigKeyMissing`; a key of any other shape is
/// `ConfigTypeError` naming the expected kind `boolean`.
pub fn config_implicit_store_create_allowed(config: Option<&Value>) -> (r: Result<
    bool,
    StoreError,
>)
    ensures
        match config {
            None => r == Ok::<bool, StoreError>(false),
            Some(c) => match spec_read(c@, seq!["implicit-create"@]) {
                Some(v) => match v {
                    SpecValue::Boolean(b) => r == Ok::<bool, StoreError>(b),
                    _ => (r matches Err(e) && e matches StoreError::ConfigTypeError(p, k)
                        && p@ == "implicit-create"@ && k@ == "boolean"@),
                },
                None => (r matches Err(e) && e matches StoreError::ConfigKeyMissing(p) && p@
                    == "implicit-create"@),
            },
        },
{
    match config {
        None => Ok(false),
        Some(c) => {
            let key: String = String::from_str("implicit-create");
            let mut segments: Vec<String> = Vec::new();
            segments.push(key);
            let path = FieldPath::new(segments);
            proof {
                assert(path@ =~= seq!["implicit-create"@]);
            }
            match header_read(c, &path) {
                Some(v) => match v {
                    Value::Boolean(b) => Ok(*b),
                    _ => Err(
                        StoreError::ConfigTypeError(
                            String::from_str("implicit-create"),
                            String::from_str("boolean"),
                        ),
                    ),
                },
                None => Err(StoreError::ConfigKeyMissing(String::from_str("implicit-create"))),
            }
        },
    }
}

} // verus!
