//! The patterns that several commands share.
use vstd::prelude::*;
use crate::error::NalaError;
use crate::pattern::{regex_complaint, Pattern};

verus! {

/// The patterns that find parts of addresses and mirror lists.
#[derive(Debug)]
pub struct NalaRegex {
    /// The first group is the list that a `mirror:` address names.
    pub mirror: Pattern,
    /// The first group is the domain of an address.
    pub domain: Pattern,
    /// The first group is the address in Ubuntu's list of mirrors.
    pub ubuntu_url: Pattern,
    /// The first group is the country in Ubuntu's list of mirrors.
    pub ubuntu_country: Pattern,
}

impl NalaRegex {
    /// Compiles the patterns. The first that cannot be compiled is the error.
    pub fn new(mirror: &str, domain: &str, ubuntu_url: &str, ubuntu_country: &str) -> (r: Result<
        NalaRegex,
        NalaError,
    >)
        ensures
            match r {
                Ok(regex) => {
                    &&& regex.mirror@ == mirror@ && regex_complaint(mirror@) is None
                    &&& regex.domain@ == domain@ && regex_complaint(domain@) is None
                    &&& regex.ubuntu_url@ == ubuntu_url@ && regex_complaint(ubuntu_url@) is None
                    &&& regex.ubuntu_country@ == ubuntu_country@ && regex_complaint(
                        ubuntu_country@,
                    ) is None
                },
                Err(e) => Some(e.message@) == if regex_complaint(mirror@) is Some {
                    regex_complaint(mirror@)
                } else if regex_complaint(domain@) is Some {
                    regex_complaint(domain@)
                } else if regex_complaint(ubuntu_url@) is Some {
                    regex_complaint(ubuntu_url@)
                } else {
                    regex_complaint(ubuntu_country@)
                },
            },
    {
        let mirror = match Pattern::new(mirror) {
            Ok(p) => p,
            Err(e) => {
                return Err(e);
            },
        };
        let domain = match Pattern::new(domain) {
            Ok(p) => p,
            Err(e) => {
                return Err(e);
            },
        };
        let ubuntu_url = match Pattern::new(ubuntu_url) {
            Ok(p) => p,
            Err(e) => {
                return Err(e);
            },
        };
        let ubuntu_country = match Pattern::new(ubuntu_country) {
            Ok(p) => p,
            Err(e) => {
                return Err(e);
            },
        };
        Ok(NalaRegex { mirror, domain, ubuntu_url, ubuntu_country })
    }
}

/// The expressions can be used if all four compile, and each is the one that was
/// given for it.
pub proof fn law_all_must_compile(
    mirror: &str,
    domain: &str,
    ubuntu_url: &str,
    ubuntu_country: &str,
    r: Result<NalaRegex, NalaError>,
)
    requires
        call_ensures(NalaRegex::new, (mirror, domain, ubuntu_url, ubuntu_country), r),
    ensures
        r is Ok <==> regex_complaint(mirror@) is None && regex_complaint(domain@) is None
            && regex_complaint(ubuntu_url@) is None && regex_complaint(ubuntu_country@) is None,
        r is Ok ==> r->Ok_0.mirror@ == mirror@ && r->Ok_0.domain@ == domain@
            && r->Ok_0.ubuntu_url@ == ubuntu_url@ && r->Ok_0.ubuntu_country@ == ubuntu_country@,
{
}

} // verus!
