//! Building the broker client identifier.
//!
//! The identifier is a fixed prefix, the machine's host name, and a
//! short random alphanumeric suffix.

use vstd::prelude::*;
use vstd::string::StringExecFns;
use rand::distributions::DistString;

verus! {

/// An ASCII letter or digit, the alphabet of the random suffix.
pub open spec fn is_alnum_char(c: char) -> bool {
    (48 <= c as int && c as int <= 57) || (65 <= c as int && c as int <= 90) || (97 <= c as int
        && c as int <= 122)
}

/// The client identifier built from a host name and a suffix.
pub open spec fn spec_client_id(host: Seq<char>, suffix: Seq<char>) -> Seq<char> {
    "sysmon_"@ + host + "_"@ + suffix
}

/// Relies on gethostname::gethostname, which reads the machine's host
/// name; nothing is assumed of the value, and a name that is not valid
/// Unicode comes back as `None`.
#[verifier::external_body]
fn host_name() -> Option<String> {
    gethostname::gethostname().into_string().ok()
}

/// Relies on rand's Alphanumeric distribution: `sample_string` draws
/// exactly `len` characters, each an ASCII letter or digit.
#[verifier::external_body]
fn random_suffix(len: usize) -> (r: String)
    ensures
        r@.len() == len as nat,
        forall|i: int| 0 <= i < r@.len() ==> is_alnum_char(r@[i]),
{
    rand::distributions::Alphanumeric.sample_string(&mut rand::thread_rng(), len)
}

/// Joins the fixed prefix, the host name and the suffix into one
/// client identifier.
pub fn compose_client_id(host: &str, suffix: &str) -> (r: String)
    ensures
        r@ == spec_client_id(host@, suffix@),
{
    let mut out = String::from_str("sysmon_");
    out.append(host);
    let sep = "_";
    out.append(sep);
    out.append(suffix);
    out
}

/// Builds the broker client identifier: the fixed prefix, the host
/// name, and five random alphanumeric characters; `None` where the
/// host name is not valid Unicode.
pub fn generate_client_id() -> (r: Option<String>)
    ensures
        r matches Some(id) ==> exists|host: Seq<char>, suffix: Seq<char>|
            {
                &&& id@ == #[trigger] spec_client_id(host, suffix)
                &&& suffix.len() == 5
                &&& forall|i: int| 0 <= i < suffix.len() ==> is_alnum_char(suffix[i])
            },
{
    match host_name() {
        Some(host) => {
            let suffix = random_suffix(5);
            let id = compose_client_id(host.as_str(), suffix.as_str());
            proof {
                assert(id@ == spec_client_id(host@, suffix@));
            }
            Some(id)
        },
        None => None,
    }
}

} // verus!
