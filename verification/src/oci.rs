//! Construction of the per-container OCI runtime configuration.
//!
//! The agent keeps one base configuration document and, for each case
//! container, rewrites its hostname to carry the instance and case ids
//! before the serialized document is written into the container
//! directory. The JSON document itself is handled by serde_json; the
//! library reads and replaces exactly one string entry of the top-level
//! object, and that bookkeeping is verified against the names below.

use vstd::prelude::*;
use vstd::string::StringExecFns;

verus! {

#[verifier::external_type_specification]
#[verifier::external_body]
pub struct ExJsonValue(serde_json::Value);

#[verifier::external_type_specification]
#[verifier::external_body]
#[verifier::reject_recursive_types(K)]
#[verifier::reject_recursive_types(V)]
pub struct ExJsonMap<K, V>(serde_json::Map<K, V>);

/// The string-valued entries of a top-level JSON object: the partial map
/// from keys to values for exactly those keys bound to a JSON string.
pub uninterp spec fn json_str_entries(m: serde_json::Map<String, serde_json::Value>) -> Map<
    Seq<char>,
    Seq<char>,
>;

/// Every entry of a top-level JSON object, whatever its value: the map
/// from keys to the (opaque) values bound to them. This is what pins
/// non-string entries — the runtime configuration's root object, mounts
/// and the like — across a rewrite.
pub uninterp spec fn json_entries(m: serde_json::Map<String, serde_json::Value>) -> Map<
    Seq<char>,
    serde_json::Value,
>;

/// The JSON string value carrying the given characters: what
/// `serde_json::Value::String` makes of them, a function of the
/// characters alone.
pub uninterp spec fn json_string_val(s: Seq<char>) -> serde_json::Value;

/// The serialization of a top-level JSON object. The backing map is
/// ordered, so the rendering is a function of the object's contents
/// alone.
pub uninterp spec fn json_render(m: serde_json::Map<String, serde_json::Value>) -> Seq<char>;

/// What parsing a document as a top-level JSON object yields: the
/// object, or nothing when the document is not one. Parsing is a
/// function of the document alone.
pub uninterp spec fn json_parse_of(s: Seq<char>) -> Option<
    serde_json::Map<String, serde_json::Value>,
>;

/// Relies on serde_json::from_str: parse a document into a top-level
/// JSON object, or fail. The result depends on the document alone; its
/// string entries are read back through `json_get_string`.
#[verifier::external_body]
fn json_parse_object(s: &str) -> (r: Option<serde_json::Map<String, serde_json::Value>>)
    ensures
        r == json_parse_of(s@),
{
    match serde_json::from_str::<serde_json::Map<String, serde_json::Value>>(s) {
        Ok(m) => Some(m),
        Err(_) => None,
    }
}

/// Relies on serde_json's Map::get and Value::as_str: the value bound to
/// `key`, exactly when the object binds `key` to a JSON string.
#[verifier::external_body]
fn json_get_string(m: &serde_json::Map<String, serde_json::Value>, key: &str) -> (r: Option<
    String,
>)
    ensures
        match r {
            Some(v) => json_str_entries(*m).dom().contains(key@) && json_str_entries(*m)[key@]
                == v@,
            None => !json_str_entries(*m).dom().contains(key@),
        },
{
    match m.get(key) {
        Some(v) => match v.as_str() {
            Some(s) => Some(s.to_owned()),
            None => None,
        },
        None => None,
    }
}

/// Relies on serde_json's Map::insert: bind `key` to the JSON string
/// `val`, replacing any previous value. Every other entry — string or
/// not — is untouched.
#[verifier::external_body]
fn json_insert_string(m: &mut serde_json::Map<String, serde_json::Value>, key: &str, val: &str)
    ensures
        json_str_entries(*final(m)) == json_str_entries(*old(m)).insert(key@, val@),
        json_entries(*final(m)) == json_entries(*old(m)).insert(key@, json_string_val(val@)),
{
    m.insert(key.to_owned(), serde_json::Value::String(val.to_owned()));
}

/// Relies on serde_json::to_string: serialize the object. Serializing
/// a `Map<String, Value>` never fails (its values hold no
/// non-serializable number), and the result depends on the object's
/// contents alone.
#[verifier::external_body]
fn json_to_string(m: &serde_json::Map<String, serde_json::Value>) -> (r: String)
    ensures
        r@ == json_render(*m),
{
    // Serialization of a `Value` object is infallible: no failing
    // number can be constructed in it and the writer is a string.
    serde_json::to_string(m).unwrap()
}

/// The hostname a case container carries: the configured base hostname
/// with the instance id and the case id appended.
pub open spec fn spec_case_hostname(
    base: Seq<char>,
    inst_id: Seq<char>,
    case_id: Seq<char>,
) -> Seq<char> {
    base + "-"@ + inst_id + "-"@ + case_id
}

/// The hostname a case container carries.
pub fn case_hostname(base: &str, inst_id: &str, case_id: &str) -> (r: String)
    ensures
        r@ == spec_case_hostname(base@, inst_id@, case_id@),
{
    let mut s = base.to_owned();
    s.append("-");
    s.append(inst_id);
    s.append("-");
    s.append(case_id);
    s
}

/// Rewrite the object's hostname entry to carry the instance and case
/// ids. Succeeds exactly when the object binds `hostname` to a string;
/// the new hostname is the old one with both ids appended, and every
/// other entry of the object — of any kind — is unchanged.
pub fn set_case_hostname(
    m: &mut serde_json::Map<String, serde_json::Value>,
    inst_id: &str,
    case_id: &str,
) -> (r: bool)
    ensures
        r == json_str_entries(*old(m)).dom().contains("hostname"@),
        r ==> json_str_entries(*final(m)) == json_str_entries(*old(m)).insert(
            "hostname"@,
            spec_case_hostname(
                json_str_entries(*old(m))["hostname"@],
                inst_id@,
                case_id@,
            ),
        ),
        r ==> json_entries(*final(m)) == json_entries(*old(m)).insert(
            "hostname"@,
            json_string_val(
                spec_case_hostname(
                    json_str_entries(*old(m))["hostname"@],
                    inst_id@,
                    case_id@,
                ),
            ),
        ),
        !r ==> *final(m) == *old(m),
{
    let base = match json_get_string(m, "hostname") {
        Some(b) => b,
        None => {
            return false;
        },
    };
    let fresh = case_hostname(base.as_str(), inst_id, case_id);
    json_insert_string(m, "hostname", fresh.as_str());
    true
}

/// Produce the serialized runtime configuration for one case container:
/// the base document with its hostname entry rewritten to carry the
/// instance and case ids. Succeeds exactly when the document parses as
/// an object binding a string hostname; the result then renders an
/// object whose entries — string-valued or not — are the parsed one's,
/// with exactly the hostname entry replaced.
pub fn oci_config_for_case(base_config: &str, inst_id: &str, case_id: &str) -> (r: Option<
    String,
>)
    ensures
        r is Some <==> (json_parse_of(base_config@) matches Some(m0) && json_str_entries(
            m0,
        ).dom().contains("hostname"@)),
        r matches Some(cfg) ==> (json_parse_of(base_config@) matches Some(m0)
            && json_str_entries(m0).dom().contains("hostname"@) && exists|
            m1: serde_json::Map<String, serde_json::Value>,
        |
            {
                &&& #[trigger] json_entries(m1) == json_entries(m0).insert(
                    "hostname"@,
                    json_string_val(
                        spec_case_hostname(
                            json_str_entries(m0)["hostname"@],
                            inst_id@,
                            case_id@,
                        ),
                    ),
                )
                &&& json_str_entries(m1) == json_str_entries(m0).insert(
                    "hostname"@,
                    spec_case_hostname(
                        json_str_entries(m0)["hostname"@],
                        inst_id@,
                        case_id@,
                    ),
                )
                &&& cfg@ == json_render(m1)
            }),
{
    let mut m = match json_parse_object(base_config) {
        Some(m) => m,
        None => {
            return None;
        },
    };
    let ghost m0 = m;
    if !set_case_hostname(&mut m, inst_id, case_id) {
        return None;
    }
    let cfg = json_to_string(&m);
    proof {
        assert(json_entries(m) == json_entries(m0).insert(
            "hostname"@,
            json_string_val(
                spec_case_hostname(json_str_entries(m0)["hostname"@], inst_id@, case_id@),
            ),
        ));
    }
    Some(cfg)
}

} // verus!
