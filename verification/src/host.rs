use vstd::prelude::*;

use crate::errors::ServiceError;
use crate::json::json_of;
use crate::json::to_json_text;
use crate::registry::Registry;
use crate::value::wf_value;
use crate::value::CanonicalValue;

verus! {

/// The line the `log` binding hands to the operational log stream: the
/// message prefixed with the invoking function's name.
pub fn log_line(name: &String, msg: &String) -> (r: String)
    ensures
        r@ == "["@ + name@ + "]: "@ + msg@,
{
    let mut out = String::from_str("[");
    out.append(name.as_str());
    out.append("]: ");
    out.append(msg.as_str());
    out
}

/// The key-write binding: encodes the well-formed value to its canonical
/// JSON text and writes it into the invoking function's store, replacing any
/// prior value for the key and touching nothing else.
pub fn op_kv_set(reg: &mut Registry, name: &String, key: &String, value: &CanonicalValue) -> (r:
    Result<(), ServiceError>)
    requires
        old(reg).wf(),
        wf_value(*value),
    ensures
        final(reg).wf(),
        match r {
            Ok(_) => old(reg).contains_fn(name@) && {
                &&& final(reg).contains_fn(name@)
                &&& final(reg).kv_of(name@) == old(reg).kv_of(name@).insert(
                    key@,
                    json_of(*value),
                )
                &&& final(reg).source_of(name@) == old(reg).source_of(name@)
                &&& forall|n: Seq<char>|
                    n != name@ ==> final(reg).contains_fn(n) == old(reg).contains_fn(n)
                        && final(reg).source_of(n) == old(reg).source_of(n)
                        && final(reg).kv_of(n) == old(reg).kv_of(n)
            },
            Err(e) => e == ServiceError::UnknownFunction && !old(reg).contains_fn(name@)
                && *final(reg) == *old(reg),
        },
{
    let encoded = to_json_text(value);
    reg.kv_set(name, key, &encoded)
}

/// The key-read binding: the stored value for the key decoded back to its
/// canonical form, or `None` for a key that was never set. A decoded value
/// re-encodes to exactly the stored text, and an error can arise only on
/// stored text that is the encoding of no well-formed value — so on anything
/// the key-write binding wrote, the read is owed its `Ok`.
pub fn op_kv_get(reg: &Registry, name: &String, key: &String) -> (r: Result<
    Option<CanonicalValue>,
    ServiceError,
>)
    requires
        reg.wf(),
    ensures
        match r {
            Ok(Some(v)) => reg.contains_fn(name@) && reg.kv_of(name@).contains_key(key@)
                && json_of(v) == reg.kv_of(name@)[key@],
            Ok(None) => reg.contains_fn(name@) && !reg.kv_of(name@).contains_key(key@),
            Err(e) => (e == ServiceError::UnknownFunction && !reg.contains_fn(name@)) || (e
                == ServiceError::SerializationError && reg.contains_fn(name@) && reg.kv_of(
                name@,
            ).contains_key(key@) && forall|v: CanonicalValue|
                wf_value(v) ==> json_of(v) != reg.kv_of(name@)[key@]),
        },
{
    match reg.kv_get(name, key) {
        Ok(Some(text)) => match crate::decode::decode_value(text.as_str()) {
            Some(v) => Ok(Some(v)),
            None => Err(ServiceError::SerializationError),
        },
        Ok(None) => Ok(None),
        Err(e) => Err(e),
    }
}

} // verus!
