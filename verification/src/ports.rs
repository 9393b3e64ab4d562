//! Choosing a serial port by name.
use vstd::prelude::*;

verus! {

/// Whether a port named `port` is among `ports`, the names of the serial
/// ports that the system lists.
pub fn is_port_available(ports: &Vec<String>, port: String) -> (found: bool)
    ensures
        found <==> exists|i: int| 0 <= i < ports.len() && (#[trigger] ports[i])@ == port@,
{
    let mut i: usize = 0;
    while i < ports.len()
        invariant
            i <= ports.len(),
            forall|k: int| 0 <= k < i ==> (#[trigger] ports[k])@ != port@,
        decreases ports.len() - i,
    {
        if ports[i] == port {
            return true;
        }
        i += 1;
    }
    false
}

} // verus!
