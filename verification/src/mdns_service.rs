//! A service the responder advertises: its DNS-SD type, its instance name,
//! its port, and its TXT strings.

use vstd::prelude::*;

verus! {

/// An advertised service; immutable once built.
pub struct Service {
    pub service_type: String,
    pub name: String,
    pub port: u16,
    pub txt: Vec<String>,
}

impl Service {
    /// Appends `.local` to the type and builds the instance name
    /// `<name>.<type>.local`.
    pub fn new(service_type: &str, name: &str, port: u16, txt: Vec<String>) -> (r: Service)
        ensures
            r.service_type@ == service_type@ + ".local"@,
            r.name@ == name@ + "."@ + service_type@ + ".local"@,
            r.port == port,
            r.txt == txt,
    {
        let mut t = String::from_str(service_type);
        t.append(".local");
        let mut n = String::from_str(name);
        n.append(".");
        n.append(t.as_str());
        proof {
            assert(n@ =~= name@ + "."@ + service_type@ + ".local"@);
        }
        Service { service_type: t, name: n, port, txt }
    }
}

} // verus!
