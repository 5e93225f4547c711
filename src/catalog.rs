use vstd::prelude::*;

verus! {

/// How the operating system says a serial device is attached.
pub enum Transport {
    /// A USB serial interface, with the serial number it reported, if any.
    Usb { serial_number: Option<String> },
    /// Any other kind of serial device (PCI, Bluetooth, virtual, unknown).
    Other,
}

/// One serial device as the operating system's enumeration lists it.
pub struct PortListing {
    pub port_name: String,
    pub transport: Transport,
}

/// The device id that a port is attributed to, with its port name.
pub struct CatalogEntry {
    pub port_name: String,
    pub device_id: String,
}

impl View for CatalogEntry {
    type V = (Seq<char>, Seq<char>);

    open spec fn view(&self) -> (Seq<char>, Seq<char>) {
        (self.port_name@, self.device_id@)
    }
}

/// A point-in-time snapshot of the USB serial devices: port name to device id,
/// at most one entry per port name, in order of first appearance.
pub struct Catalog {
    entries: Vec<CatalogEntry>,
}

/// The device id of a port: its serial number when that is present and
/// non-empty, else the port name itself.
pub open spec fn device_id_spec(port_name: Seq<char>, serial_number: Option<String>) -> Seq<char> {
    match serial_number {
        Some(s) => if s@.len() > 0 { s@ } else { port_name },
        None => port_name,
    }
}

/// The port names of a sequence of catalog entries.
pub open spec fn names_of(s: Seq<(Seq<char>, Seq<char>)>) -> Seq<Seq<char>> {
    s.map_values(|e: (Seq<char>, Seq<char>)| e.0)
}

/// No port name occurs twice.
pub open spec fn unique_names(s: Seq<(Seq<char>, Seq<char>)>) -> bool {
    forall|i: int, j: int| 0 <= i < j < s.len() ==> s[i].0 != s[j].0
}

/// The snapshot of a listing: its USB devices in order, a later listing of a
/// port name already seen being ignored.
pub open spec fn catalog_of(ls: Seq<PortListing>) -> Seq<(Seq<char>, Seq<char>)>
    decreases ls.len(),
{
    if ls.len() == 0 {
        Seq::empty()
    } else {
        let prev = catalog_of(ls.drop_last());
        let l = ls.last();
        match l.transport {
            Transport::Usb { serial_number } => {
                if names_of(prev).contains(l.port_name@) {
                    prev
                } else {
                    prev.push((l.port_name@, device_id_spec(l.port_name@, serial_number)))
                }
            },
            Transport::Other => prev,
        }
    }
}

/// Whether the listing holds a USB device under this port name.
pub open spec fn lists_usb_port(ls: Seq<PortListing>, name: Seq<char>) -> bool {
    exists|i: int|
        0 <= i < ls.len() && ls[i].port_name@ == name && (ls[i].transport is Usb)
}

proof fn lemma_catalog_of_shape(ls: Seq<PortListing>)
    ensures
        unique_names(catalog_of(ls)),
        forall|name: Seq<char>|
            names_of(catalog_of(ls)).contains(name) <==> lists_usb_port(ls, name),
    decreases ls.len(),
{
    if ls.len() > 0 {
        let init = ls.drop_last();
        lemma_catalog_of_shape(init);
        let prev = catalog_of(init);
        let l = ls.last();
        assert forall|name: Seq<char>| lists_usb_port(init, name)
            implies lists_usb_port(ls, name) by {
            let i = choose|i: int|
                0 <= i < init.len() && init[i].port_name@ == name && (init[i].transport is Usb);
            assert(ls[i] == init[i]);
        }
        assert forall|name: Seq<char>| lists_usb_port(ls, name) && name != l.port_name@
            implies lists_usb_port(init, name) by {
            let i = choose|i: int|
                0 <= i < ls.len() && ls[i].port_name@ == name && (ls[i].transport is Usb);
            assert(i < ls.len() - 1);
            assert(init[i] == ls[i]);
        }
        assert(ls[ls.len() - 1] == l);
        match l.transport {
            Transport::Usb { serial_number } => {
                assert(lists_usb_port(ls, l.port_name@)) by {
                    assert(ls[ls.len() - 1].port_name@ == l.port_name@);
                }
                if !names_of(prev).contains(l.port_name@) {
                    let e = (l.port_name@, device_id_spec(l.port_name@, serial_number));
                    let names = names_of(prev.push(e));
                    assert(names =~= names_of(prev).push(l.port_name@));
                    assert forall|name: Seq<char>| names.contains(name)
                        implies lists_usb_port(ls, name) by {
                        let k = choose|k: int| 0 <= k < names.len() && names[k] == name;
                        if k < prev.len() {
                            assert(names_of(prev)[k] == name);
                        }
                    }
                    assert forall|name: Seq<char>| lists_usb_port(ls, name)
                        implies names.contains(name) by {
                        if name == l.port_name@ {
                            assert(names[prev.len() as int] == name);
                        } else {
                            let k = choose|k: int|
                                0 <= k < names_of(prev).len() && names_of(prev)[k] == name;
                            assert(names[k] == name);
                        }
                    }
                    assert forall|i: int, j: int| 0 <= i < j < prev.push(e).len()
                        implies prev.push(e)[i].0 != prev.push(e)[j].0 by {
                        if j == prev.len() {
                            assert(names_of(prev)[i] == prev[i].0);
                        }
                    }
                }
            },
            Transport::Other => {
                assert forall|name: Seq<char>| lists_usb_port(ls, name)
                    implies lists_usb_port(init, name) by {
                    let i = choose|i: int|
                        0 <= i < ls.len() && ls[i].port_name@ == name && (ls[i].transport is Usb);
                    assert(i < ls.len() - 1);
                    assert(init[i] == ls[i]);
                }
            },
        }
    }
}

impl View for Catalog {
    type V = Seq<(Seq<char>, Seq<char>)>;

    closed spec fn view(&self) -> Seq<(Seq<char>, Seq<char>)> {
        self.entries@.map_values(|e: CatalogEntry| e@)
    }
}

impl Catalog {
    /// At most one entry per port name.
    pub open spec fn wf(&self) -> bool {
        unique_names(self@)
    }

    /// The snapshot with no devices, which a failed enumeration yields.
    pub fn empty() -> (r: Catalog)
        ensures
            r@ == Seq::<(Seq<char>, Seq<char>)>::empty(),
            r.wf(),
    {
        let r = Catalog { entries: Vec::new() };
        assert(r@ =~= Seq::<(Seq<char>, Seq<char>)>::empty());
        r
    }

    /// The number of ports in the snapshot.
    pub fn len(&self) -> (r: usize)
        ensures
            r == self@.len(),
    {
        self.entries.len()
    }

    /// The entry at position `i`.
    pub fn entry(&self, i: usize) -> (r: &CatalogEntry)
        requires
            i < self@.len(),
        ensures
            r@ == self@[i as int],
    {
        &self.entries[i]
    }

    /// Whether the snapshot holds this port name.
    pub fn contains_port(&self, name: &String) -> (r: bool)
        ensures
            r == names_of(self@).contains(name@),
    {
        let mut i: usize = 0;
        while i < self.entries.len()
            invariant
                i <= self@.len(),
                forall|k: int| 0 <= k < i ==> self@[k].0 != name@,
            decreases self@.len() - i,
        {
            if self.entries[i].port_name == *name {
                assert(names_of(self@)[i as int] == name@);
                return true;
            }
            i += 1;
        }
        assert forall|k: int| 0 <= k < names_of(self@).len() implies names_of(self@)[k] != name@ by {
            assert(self@[k].0 != name@);
        }
        false
    }

    /// The device id that the snapshot gives this port name, if it holds it.
    pub fn device_id_of(&self, name: &String) -> (r: Option<String>)
        ensures
            r is None <==> !names_of(self@).contains(name@),
            r matches Some(id) ==> exists|k: int|
                0 <= k < self@.len() && self@[k] == (name@, id@),
    {
        let mut i: usize = 0;
        while i < self.entries.len()
            invariant
                i <= self@.len(),
                forall|k: int| 0 <= k < i ==> self@[k].0 != name@,
            decreases self@.len() - i,
        {
            if self.entries[i].port_name == *name {
                assert(names_of(self@)[i as int] == name@);
                assert(self@[i as int] == (name@, self.entries[i as int].device_id@));
                return Some(self.entries[i].device_id.clone());
            }
            i += 1;
        }
        assert forall|k: int| 0 <= k < names_of(self@).len() implies names_of(self@)[k] != name@ by {
            assert(self@[k].0 != name@);
        }
        None
    }
}

/// The device id of a port: its serial number when that is present and
/// non-empty, else the port name.
pub fn device_id_for(port_name: &String, serial_number: &Option<String>) -> (r: String)
    ensures
        r@ == device_id_spec(port_name@, *serial_number),
{
    match serial_number {
        Some(s) => {
            if !s.as_str().is_empty() {
                s.clone()
            } else {
                port_name.clone()
            }
        },
        None => port_name.clone(),
    }
}

/// Builds the snapshot of the USB serial devices in an enumeration: other
/// transports are left out, and where a port name is listed twice the first
/// listing wins.
pub fn collect_available_ports(listing: &Vec<PortListing>) -> (r: Catalog)
    ensures
        r@ == catalog_of(listing@),
        r.wf(),
        forall|name: Seq<char>|
            names_of(r@).contains(name) <==> lists_usb_port(listing@, name),
{
    let mut cat = Catalog::empty();
    let mut i: usize = 0;
    while i < listing.len()
        invariant
            i <= listing@.len(),
            cat@ == catalog_of(listing@.take(i as int)),
        decreases listing@.len() - i,
    {
        let l = &listing[i];
        assert(listing@.take(i as int + 1).drop_last() =~= listing@.take(i as int));
        assert(listing@.take(i as int + 1).last() == listing@[i as int]);
        match &l.transport {
            Transport::Usb { serial_number } => {
                if !cat.contains_port(&l.port_name) {
                    let id = device_id_for(&l.port_name, serial_number);
                    let e = CatalogEntry { port_name: l.port_name.clone(), device_id: id };
                    cat.entries.push(e);
                    assert(cat@ =~= catalog_of(listing@.take(i as int)).push(e@));
                }
            },
            Transport::Other => {},
        }
        i += 1;
    }
    assert(listing@.take(listing@.len() as int) =~= listing@);
    proof {
        lemma_catalog_of_shape(listing@);
    }
    cat
}

} // verus!
