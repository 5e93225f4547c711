use vstd::prelude::*;
use crate::catalog::{Catalog, CatalogEntry, names_of, unique_names};
use crate::MIN_BAUD_RATE;
use crate::record::{lossy_text, make_report, report_body};
use vstd::utf8::{decode_utf8, valid_utf8};
use crate::report::ReportQueue;

verus! {

/// An open read handle for one port, tagged with the device id it was opened under.
pub struct ActivePort<H> {
    pub port_name: String,
    pub device_id: String,
    pub handle: H,
}

impl<H> View for ActivePort<H> {
    type V = (Seq<char>, Seq<char>);

    open spec fn view(&self) -> (Seq<char>, Seq<char>) {
        (self.port_name@, self.device_id@)
    }
}

/// The handles currently open for reading, at most one per port name.
pub struct PortPool<H> {
    ports: Vec<ActivePort<H>>,
}

/// What one reconciliation did: the names of the ports it closed, the ports
/// it tried to open, and for each of those whether the open succeeded.
pub struct Reconciliation {
    pub removed: Vec<String>,
    pub attempted: Vec<CatalogEntry>,
    pub opened: Vec<bool>,
}

/// The entries of `s` that satisfy `f`, in order.
pub open spec fn keep_if(
    s: Seq<(Seq<char>, Seq<char>)>,
    f: spec_fn((Seq<char>, Seq<char>)) -> bool,
) -> Seq<(Seq<char>, Seq<char>)>
    decreases s.len(),
{
    if s.len() == 0 {
        s
    } else if f(s.last()) {
        keep_if(s.drop_last(), f).push(s.last())
    } else {
        keep_if(s.drop_last(), f)
    }
}

/// The attempts whose flag is set, in order.
pub open spec fn succeeded(attempts: Seq<(Seq<char>, Seq<char>)>, flags: Seq<bool>) -> Seq<
    (Seq<char>, Seq<char>),
>
    decreases attempts.len(),
{
    if attempts.len() == 0 || flags.len() != attempts.len() {
        Seq::empty()
    } else if flags.last() {
        succeeded(attempts.drop_last(), flags.drop_last()).push(attempts.last())
    } else {
        succeeded(attempts.drop_last(), flags.drop_last())
    }
}

/// The pool entries whose port is still in the snapshot.
pub open spec fn still_present(
    pool: Seq<(Seq<char>, Seq<char>)>,
    snapshot: Seq<(Seq<char>, Seq<char>)>,
) -> Seq<(Seq<char>, Seq<char>)> {
    keep_if(pool, |e: (Seq<char>, Seq<char>)| names_of(snapshot).contains(e.0))
}

/// The pool entries whose port has left the snapshot.
pub open spec fn vanished(
    pool: Seq<(Seq<char>, Seq<char>)>,
    snapshot: Seq<(Seq<char>, Seq<char>)>,
) -> Seq<(Seq<char>, Seq<char>)> {
    keep_if(pool, |e: (Seq<char>, Seq<char>)| !names_of(snapshot).contains(e.0))
}

/// The snapshot entries whose port the pool does not hold.
pub open spec fn missing_from(
    snapshot: Seq<(Seq<char>, Seq<char>)>,
    pool: Seq<(Seq<char>, Seq<char>)>,
) -> Seq<(Seq<char>, Seq<char>)> {
    keep_if(snapshot, |e: (Seq<char>, Seq<char>)| !names_of(pool).contains(e.0))
}

/// The ports that reconciliation against `snapshot` tries to open.
pub open spec fn open_attempts(
    pool: Seq<(Seq<char>, Seq<char>)>,
    snapshot: Seq<(Seq<char>, Seq<char>)>,
) -> Seq<(Seq<char>, Seq<char>)> {
    missing_from(snapshot, still_present(pool, snapshot))
}

/// The pool after reconciliation against `snapshot`, where `flags` says which
/// of the open attempts succeeded.
pub open spec fn reconciled(
    pool: Seq<(Seq<char>, Seq<char>)>,
    snapshot: Seq<(Seq<char>, Seq<char>)>,
    flags: Seq<bool>,
) -> Seq<(Seq<char>, Seq<char>)> {
    still_present(pool, snapshot) + succeeded(open_attempts(pool, snapshot), flags)
}

proof fn lemma_keep_if(s: Seq<(Seq<char>, Seq<char>)>, f: spec_fn((Seq<char>, Seq<char>)) -> bool)
    ensures
        forall|n: Seq<char>|
            names_of(keep_if(s, f)).contains(n) <==> exists|i: int|
                0 <= i < s.len() && s[i].0 == n && f(s[i]),
        unique_names(s) ==> unique_names(keep_if(s, f)),
    decreases s.len(),
{
    if s.len() > 0 {
        let init = s.drop_last();
        lemma_keep_if(init, f);
        let prev = keep_if(init, f);
        let r = keep_if(s, f);
        assert forall|n: Seq<char>| names_of(r).contains(n) implies exists|i: int|
            0 <= i < s.len() && s[i].0 == n && f(s[i]) by {
            let k = choose|k: int| 0 <= k < names_of(r).len() && names_of(r)[k] == n;
            if k < prev.len() {
                assert(r[k] == prev[k]);
                assert(names_of(prev)[k] == n);
                assert(names_of(prev).contains(n));
                let i = choose|i: int| 0 <= i < init.len() && init[i].0 == n && f(init[i]);
                assert(s[i] == init[i]);
            } else {
                assert(s[s.len() - 1] == s.last());
            }
        }
        assert forall|n: Seq<char>| (exists|i: int| 0 <= i < s.len() && s[i].0 == n && f(s[i]))
            implies names_of(r).contains(n) by {
            let i = choose|i: int| 0 <= i < s.len() && s[i].0 == n && f(s[i]);
            if i < s.len() - 1 {
                assert(init[i] == s[i]);
                assert(init[i].0 == n && f(init[i]));
                assert(names_of(prev).contains(n));
                let k = choose|k: int| 0 <= k < names_of(prev).len() && names_of(prev)[k] == n;
                assert(r[k] == prev[k]);
                assert(names_of(r)[k] == n);
            } else {
                assert(names_of(r)[prev.len() as int] == n);
            }
        }
        if unique_names(s) {
            assert(unique_names(init));
            if f(s.last()) {
                assert forall|i: int, j: int| 0 <= i < j < r.len() implies r[i].0 != r[j].0 by {
                    assert(r[i] == prev[i]);
                    if j == prev.len() {
                        assert(names_of(prev)[i] == prev[i].0);
                        assert(names_of(prev).contains(r[i].0));
                        if r[i].0 == r[j].0 {
                            let k = choose|k: int|
                                0 <= k < init.len() && init[k].0 == r[i].0 && f(init[k]);
                            assert(s[k] == init[k]);
                            assert(s[s.len() - 1] == s.last());
                        }
                    }
                }
            }
        }
    }
}

proof fn lemma_succeeded(attempts: Seq<(Seq<char>, Seq<char>)>, flags: Seq<bool>)
    ensures
        forall|n: Seq<char>|
            #[trigger] names_of(succeeded(attempts, flags)).contains(n) ==> names_of(
                attempts,
            ).contains(n),
        unique_names(attempts) ==> unique_names(succeeded(attempts, flags)),
    decreases attempts.len(),
{
    if attempts.len() > 0 && flags.len() == attempts.len() {
        let init = attempts.drop_last();
        lemma_succeeded(init, flags.drop_last());
        let prev = succeeded(init, flags.drop_last());
        let r = succeeded(attempts, flags);
        assert forall|n: Seq<char>| names_of(r).contains(n) implies names_of(attempts).contains(
            n,
        ) by {
            let k = choose|k: int| 0 <= k < names_of(r).len() && names_of(r)[k] == n;
            if k < prev.len() {
                assert(r[k] == prev[k]);
                assert(names_of(prev)[k] == n);
                assert(names_of(prev).contains(n));
                let i = choose|i: int| 0 <= i < names_of(init).len() && names_of(init)[i] == n;
                assert(attempts[i] == init[i]);
                assert(names_of(attempts)[i] == n);
            } else {
                assert(names_of(attempts)[attempts.len() - 1] == n);
            }
        }
        if unique_names(attempts) && flags.last() {
            assert forall|i: int, j: int| 0 <= i < j < r.len() implies r[i].0 != r[j].0 by {
                assert(r[i] == prev[i]);
                if j == prev.len() && r[i].0 == r[j].0 {
                    assert(names_of(prev)[i] == r[i].0);
                    assert(names_of(prev).contains(r[i].0));
                    let k = choose|k: int| 0 <= k < names_of(init).len() && names_of(init)[k] == r[i].0;
                    assert(attempts[k] == init[k]);
                }
            }
        }
    }
}

} // verus!

verus! {

proof fn lemma_concat_unique(a: Seq<(Seq<char>, Seq<char>)>, b: Seq<(Seq<char>, Seq<char>)>)
    requires
        unique_names(a),
        unique_names(b),
        forall|n: Seq<char>| names_of(b).contains(n) ==> !names_of(a).contains(n),
    ensures
        unique_names(a + b),
{
    let c = a + b;
    assert forall|i: int, j: int| 0 <= i < j < c.len() implies c[i].0 != c[j].0 by {
        if i < a.len() && j >= a.len() {
            assert(c[i] == a[i]);
            assert(c[j] == b[j - a.len()]);
            assert(names_of(a)[i] == a[i].0);
            assert(names_of(b)[j - a.len()] == b[j - a.len()].0);
            assert(names_of(b).contains(c[j].0));
        } else if i >= a.len() {
            assert(c[i] == b[i - a.len()]);
            assert(c[j] == b[j - a.len()]);
        } else {
            assert(c[i] == a[i]);
            assert(c[j] == a[j]);
        }
    }
}

impl<H> View for PortPool<H> {
    type V = Seq<(Seq<char>, Seq<char>)>;

    open spec fn view(&self) -> Seq<(Seq<char>, Seq<char>)> {
        self.ports().map_values(|p: ActivePort<H>| p@)
    }
}

impl<H> PortPool<H> {
    /// The open ports, handles included, in pool order.
    pub closed spec fn ports(&self) -> Seq<ActivePort<H>> {
        self.ports@
    }

    /// At most one open handle per port name.
    pub open spec fn wf(&self) -> bool {
        unique_names(self@)
    }

    /// A pool with no open handles.
    pub fn new() -> (r: PortPool<H>)
        ensures
            r@ == Seq::<(Seq<char>, Seq<char>)>::empty(),
            r.wf(),
    {
        let r = PortPool { ports: Vec::new() };
        assert(r@ =~= Seq::<(Seq<char>, Seq<char>)>::empty());
        r
    }

    /// The number of open handles.
    pub fn len(&self) -> (r: usize)
        ensures
            r == self@.len(),
    {
        self.ports.len()
    }

    /// The port name and device id of the handle at position `i`.
    pub fn port_at(&self, i: usize) -> (r: (&String, &String))
        requires
            i < self@.len(),
        ensures
            (r.0@, r.1@) == self@[i as int],
    {
        (&self.ports[i].port_name, &self.ports[i].device_id)
    }

    /// The handle at position `i`.
    pub fn handle_at(&self, i: usize) -> (r: &H)
        requires
            i < self@.len(),
        ensures
            *r == self.ports()[i as int].handle,
    {
        &self.ports[i].handle
    }

    /// Whether the pool holds a handle for this port name.
    pub fn contains_port(&self, name: &String) -> (r: bool)
        ensures
            r == names_of(self@).contains(name@),
    {
        let mut i: usize = 0;
        while i < self.ports.len()
            invariant
                i <= self@.len(),
                forall|k: int| 0 <= k < i ==> self@[k].0 != name@,
            decreases self@.len() - i,
        {
            if self.ports[i].port_name == *name {
                assert(names_of(self@)[i as int] == name@);
                return true;
            }
            i += 1;
        }
        assert forall|k: int| 0 <= k < names_of(self@).len() implies names_of(self@)[k] != name@ by {
            assert(self@[k].0 != name@);
        }
        false
    }

    /// Removal pass: every port that the snapshot no longer lists leaves the
    /// pool and its handle is released (dropped) here; the names of those
    /// ports are returned. Every port that stays keeps its handle.
    fn remove_vanished(&mut self, catalog: &Catalog) -> (removed: Vec<String>)
        ensures
            final(self)@ == still_present(old(self)@, catalog@),
            removed@.map_values(|s: String| s@) == names_of(vanished(old(self)@, catalog@)),
            forall|i: int| 0 <= i < final(self).ports().len() ==> exists|j: int|
                0 <= j < old(self).ports().len() && #[trigger] final(self).ports()[i]
                    == old(self).ports()[j],
    {
        let ghost orig = self@;
        let ghost orig_ports = self.ports@;
        let mut rest: Vec<ActivePort<H>> = Vec::new();
        std::mem::swap(&mut self.ports, &mut rest);
        let mut removed: Vec<String> = Vec::new();
        let ghost mut i: int = 0;
        assert(self@ =~= still_present(orig.take(0), catalog@));
        assert(removed@.map_values(|s: String| s@) =~= names_of(vanished(orig.take(0), catalog@)));
        while rest.len() > 0
            invariant
                0 <= i <= orig.len(),
                orig == orig_ports.map_values(|p: ActivePort<H>| p@),
                rest@ =~= orig_ports.skip(i),
                rest@.len() == orig.len() - i,
                self@ == still_present(orig.take(i), catalog@),
                removed@.map_values(|s: String| s@) == names_of(vanished(orig.take(i), catalog@)),
                forall|k: int| 0 <= k < self.ports@.len() ==> exists|j: int|
                    0 <= j < orig_ports.len() && #[trigger] self.ports@[k] == orig_ports[j],
            decreases rest@.len(),
        {
            let p = rest.remove(0);
            proof {
                assert(orig_ports.skip(i)[0] == orig_ports[i]);
                assert(p == orig_ports[i]);
                assert(p@ == orig[i]);
                assert(orig.take(i + 1).drop_last() =~= orig.take(i));
                assert(orig.take(i + 1).last() == orig[i]);
            }
            let present = catalog.contains_port(&p.port_name);
            if present {
                let ghost before = self.ports@;
                self.ports.push(p);
                assert(self@ =~= still_present(orig.take(i), catalog@).push(p@));
                assert forall|k: int| 0 <= k < self.ports@.len() implies exists|j: int|
                    0 <= j < orig_ports.len() && #[trigger] self.ports@[k] == orig_ports[j] by {
                    if k < before.len() {
                        assert(self.ports@[k] == before[k]);
                    } else {
                        assert(self.ports@[k] == orig_ports[i]);
                    }
                }
            } else {
                let ghost pv = p@;
                let ActivePort { port_name, device_id: _, handle: _ } = p;
                removed.push(port_name);
                assert(names_of(vanished(orig.take(i), catalog@).push(pv)) =~= names_of(
                    vanished(orig.take(i), catalog@),
                ).push(pv.0));
                assert(removed@.map_values(|s: String| s@) =~= names_of(
                    vanished(orig.take(i), catalog@),
                ).push(pv.0));
            }
            proof {
                i = i + 1;
            }
        }
        assert(orig.take(i) =~= orig);
        removed
    }

    /// The snapshot entries whose port the pool does not hold, in snapshot order.
    fn missing_ports(&self, catalog: &Catalog) -> (r: Vec<CatalogEntry>)
        ensures
            r@.map_values(|e: CatalogEntry| e@) == missing_from(catalog@, self@),
    {
        let mut r: Vec<CatalogEntry> = Vec::new();
        let mut i: usize = 0;
        assert(r@.map_values(|e: CatalogEntry| e@) =~= missing_from(catalog@.take(0), self@));
        while i < catalog.len()
            invariant
                i <= catalog@.len(),
                r@.map_values(|e: CatalogEntry| e@) == missing_from(catalog@.take(i as int), self@),
            decreases catalog@.len() - i,
        {
            let e = catalog.entry(i);
            proof {
                assert(catalog@.take(i + 1).drop_last() =~= catalog@.take(i as int));
                assert(catalog@.take(i + 1).last() == catalog@[i as int]);
            }
            if !self.contains_port(&e.port_name) {
                let c = CatalogEntry { port_name: e.port_name.clone(), device_id: e.device_id.clone() };
                r.push(c);
                assert(r@.map_values(|e: CatalogEntry| e@) =~= missing_from(
                    catalog@.take(i as int),
                    self@,
                ).push(c@));
            }
            i += 1;
        }
        assert(catalog@.take(catalog@.len() as int) =~= catalog@);
        r
    }
}

/// Whether `opened` is what `open` returned for this entry's port at
/// `MIN_BAUD_RATE`: a handle when set, none when clear.
pub open spec fn opened_as_reported<H, F: Fn(&String, u32) -> Option<H>>(
    open: F,
    entry: &CatalogEntry,
    opened: bool,
) -> bool {
    if opened {
        exists|h: H| call_ensures(open, (&entry.port_name, MIN_BAUD_RATE), Some(h))
    } else {
        call_ensures(open, (&entry.port_name, MIN_BAUD_RATE), None)
    }
}

/// Reconciles the pool against a snapshot: first every port that the
/// snapshot no longer lists is taken out and its handle released, before any
/// open is tried; then every listed port that the pool lacks is opened at `MIN_BAUD_RATE`
/// through `open`, and added under its device id when that succeeds. A port
/// whose open fails stays out until the next reconciliation. Ports that stay
/// keep their handles; each added port holds the handle that `open` returned
/// for it. Each port is tried at most once, and only if the pool lacked it.
pub fn maintain_active_port_list<H, F: Fn(&String, u32) -> Option<H>>(
    catalog: &Catalog,
    pool: &mut PortPool<H>,
    open: F,
) -> (r: Reconciliation)
    requires
        old(pool).wf(),
        catalog.wf(),
        forall|name: &String, baud: u32| open.requires((name, baud)),
    ensures
        final(pool).wf(),
        final(pool)@ == reconciled(old(pool)@, catalog@, r.opened@),
        r.removed@.map_values(|s: String| s@) == names_of(vanished(old(pool)@, catalog@)),
        unique_names(r.attempted@.map_values(|e: CatalogEntry| e@)),
        forall|k: int| 0 <= k < r.attempted@.len() ==> !names_of(old(pool)@).contains(
            #[trigger] r.attempted@[k].port_name@,
        ),
        forall|i: int| 0 <= i < still_present(old(pool)@, catalog@).len() ==> exists|j: int|
            0 <= j < old(pool).ports().len() && #[trigger] final(pool).ports()[i]
                == old(pool).ports()[j],
        forall|i: int| still_present(old(pool)@, catalog@).len() <= i < final(pool).ports().len()
            ==> call_ensures(
            open,
            (&final(pool).ports()[i].port_name, MIN_BAUD_RATE),
            Some(#[trigger] final(pool).ports()[i].handle),
        ),
        r.attempted@.map_values(|e: CatalogEntry| e@) == open_attempts(old(pool)@, catalog@),
        r.opened@.len() == r.attempted@.len(),
        forall|k: int| 0 <= k < r.opened@.len() ==> opened_as_reported(open, &r.attempted@[k], #[trigger] r.opened@[k]),
{
    let removed = pool.remove_vanished(catalog);
    let attempted = pool.missing_ports(catalog);
    let ghost kept = pool@;
    let ghost kept_ports = pool.ports@;
    let ghost wanted = attempted@.map_values(|e: CatalogEntry| e@);
    let mut opened: Vec<bool> = Vec::new();
    let mut k: usize = 0;
    assert(pool@ =~= kept + succeeded(wanted.take(0), opened@));
    while k < attempted.len()
        invariant
            k <= attempted@.len(),
            opened@.len() == k,
            wanted == attempted@.map_values(|e: CatalogEntry| e@),
            pool@ == kept + succeeded(wanted.take(k as int), opened@),
            forall|name: &String, baud: u32| open.requires((name, baud)),
            forall|j: int| 0 <= j < k ==> opened_as_reported(open, &attempted@[j], #[trigger] opened@[j]),
            kept.len() == kept_ports.len(),
            pool.ports@.len() >= kept.len(),
            forall|i: int| 0 <= i < kept.len() ==> #[trigger] pool.ports@[i] == kept_ports[i],
            forall|i: int| kept.len() <= i < pool.ports@.len() ==> call_ensures(
                open,
                (&pool.ports@[i].port_name, MIN_BAUD_RATE),
                Some(#[trigger] pool.ports@[i].handle),
            ),
        decreases attempted@.len() - k,
    {
        let w = &attempted[k];
        proof {
            assert(wanted.take(k + 1).drop_last() =~= wanted.take(k as int));
            assert(wanted.take(k + 1).last() == wanted[k as int]);
        }
        let ghost before = opened@;
        let res = open(&w.port_name, MIN_BAUD_RATE);
        match res {
            Some(h) => {
                assert(opened_as_reported(open, &attempted@[k as int], true));
                let p = ActivePort { port_name: w.port_name.clone(), device_id: w.device_id.clone(), handle: h };
                let ghost pv = pool@;
                let ghost pe = p@;
                let ghost pp = p;
                let ghost before_ports = pool.ports@;
                assert(call_ensures(open, (&pp.port_name, MIN_BAUD_RATE), Some(pp.handle)));
                pool.ports.push(p);
                assert(pool@ =~= pv.push(pe));
                assert(pool.ports@ == before_ports.push(pp));
                opened.push(true);
                assert(opened@.drop_last() =~= before);
                assert(wanted[k as int] == pe);
                assert(succeeded(wanted.take(k + 1), opened@) == succeeded(
                    wanted.take(k as int),
                    before,
                ).push(pe));
                assert(pool@ =~= kept + succeeded(wanted.take(k + 1), opened@));
            },
            None => {
                assert(opened_as_reported(open, &attempted@[k as int], false));
                opened.push(false);
                assert(opened@.drop_last() =~= before);
                assert(succeeded(wanted.take(k + 1), opened@) == succeeded(wanted.take(k as int), before));
                assert(pool@ =~= kept + succeeded(wanted.take(k + 1), opened@));
            },
        }
        k += 1;
    }
    proof {
        assert(wanted.take(wanted.len() as int) =~= wanted);
        lemma_keep_if(old(pool)@, |e: (Seq<char>, Seq<char>)| names_of(catalog@).contains(e.0));
        lemma_keep_if(catalog@, |e: (Seq<char>, Seq<char>)| !names_of(kept).contains(e.0));
        lemma_succeeded(wanted, opened@);
        let s = succeeded(wanted, opened@);
        assert forall|n: Seq<char>| names_of(s).contains(n) implies !names_of(kept).contains(n) by {
            assert(names_of(wanted).contains(n));
        }
        lemma_concat_unique(kept, s);
        assert forall|k: int| 0 <= k < attempted@.len() implies !names_of(old(pool)@).contains(
            #[trigger] attempted@[k].port_name@,
        ) by {
            let n = attempted@[k].port_name@;
            assert(wanted[k].0 == n);
            assert(names_of(wanted)[k] == n);
            assert(names_of(wanted).contains(n));
            if names_of(old(pool)@).contains(n) {
                let i = choose|i: int|
                    0 <= i < catalog@.len() && catalog@[i].0 == n && !names_of(kept).contains(
                        catalog@[i].0,
                    );
                assert(names_of(catalog@)[i] == n);
                let j = choose|j: int| 0 <= j < names_of(old(pool)@).len() && names_of(old(pool)@)[j] == n;
                assert(old(pool)@[j].0 == n);
            }
        }
    }
    Reconciliation { removed, attempted, opened }
}

} // verus!

verus! {

proof fn lemma_all_succeeded(attempts: Seq<(Seq<char>, Seq<char>)>, flags: Seq<bool>)
    requires
        flags.len() == attempts.len(),
        forall|k: int| 0 <= k < flags.len() ==> flags[k],
    ensures
        succeeded(attempts, flags) == attempts,
    decreases attempts.len(),
{
    if attempts.len() > 0 {
        lemma_all_succeeded(attempts.drop_last(), flags.drop_last());
        assert(flags.last() == flags[flags.len() - 1]);
        assert(attempts.drop_last().push(attempts.last()) =~= attempts);
    }
}

/// After reconciling against a snapshot, no port name is held twice and every
/// held port is listed in the snapshot; when every open attempt succeeded, the
/// pool holds exactly the snapshot's port names.
pub proof fn reconcile_converges(
    pool: Seq<(Seq<char>, Seq<char>)>,
    snapshot: Seq<(Seq<char>, Seq<char>)>,
    flags: Seq<bool>,
)
    requires
        unique_names(pool),
        unique_names(snapshot),
        flags.len() == open_attempts(pool, snapshot).len(),
    ensures
        unique_names(reconciled(pool, snapshot, flags)),
        forall|n: Seq<char>|
            names_of(reconciled(pool, snapshot, flags)).contains(n) ==> names_of(
                snapshot,
            ).contains(n),
        (forall|k: int| 0 <= k < flags.len() ==> flags[k]) ==> forall|n: Seq<char>|
            names_of(reconciled(pool, snapshot, flags)).contains(n) <==> names_of(
                snapshot,
            ).contains(n),
{
    let kept = still_present(pool, snapshot);
    let wanted = open_attempts(pool, snapshot);
    let s = succeeded(wanted, flags);
    let r = reconciled(pool, snapshot, flags);
    lemma_keep_if(pool, |e: (Seq<char>, Seq<char>)| names_of(snapshot).contains(e.0));
    lemma_keep_if(snapshot, |e: (Seq<char>, Seq<char>)| !names_of(kept).contains(e.0));
    lemma_succeeded(wanted, flags);
    assert forall|n: Seq<char>| names_of(s).contains(n) implies !names_of(kept).contains(n) by {
        assert(names_of(wanted).contains(n));
    }
    lemma_concat_unique(kept, s);
    assert(names_of(r) =~= names_of(kept) + names_of(s));
    assert forall|n: Seq<char>| names_of(r).contains(n) implies names_of(snapshot).contains(n) by {
        let k = choose|k: int| 0 <= k < names_of(r).len() && names_of(r)[k] == n;
        if k < kept.len() {
            assert(names_of(kept)[k] == n);
            assert(names_of(kept).contains(n));
        } else {
            assert(names_of(s)[k - kept.len()] == n);
            assert(names_of(s).contains(n));
            assert(names_of(wanted).contains(n));
            let i = choose|i: int|
                0 <= i < snapshot.len() && snapshot[i].0 == n && !names_of(kept).contains(
                    snapshot[i].0,
                );
            assert(names_of(snapshot)[i] == n);
        }
    }
    if forall|k: int| 0 <= k < flags.len() ==> flags[k] {
        lemma_all_succeeded(wanted, flags);
        assert forall|n: Seq<char>| names_of(snapshot).contains(n) implies names_of(r).contains(
            n,
        ) by {
            let i = choose|i: int| 0 <= i < snapshot.len() && names_of(snapshot)[i] == n;
            assert(snapshot[i].0 == n);
            if names_of(kept).contains(n) {
                let k = choose|k: int| 0 <= k < names_of(kept).len() && names_of(kept)[k] == n;
                assert(names_of(r)[k] == n);
            } else {
                assert(names_of(wanted).contains(n));
                let k = choose|k: int| 0 <= k < names_of(wanted).len() && names_of(wanted)[k] == n;
                assert(names_of(r)[kept.len() + k] == n);
            }
        }
    }
}

/// Reconciling against the same snapshot a second time, after every open of
/// the first time succeeded, attempts no open at all.
pub proof fn reconcile_twice_opens_nothing(
    pool: Seq<(Seq<char>, Seq<char>)>,
    snapshot: Seq<(Seq<char>, Seq<char>)>,
    flags: Seq<bool>,
)
    requires
        unique_names(pool),
        unique_names(snapshot),
        flags.len() == open_attempts(pool, snapshot).len(),
        forall|k: int| 0 <= k < flags.len() ==> flags[k],
    ensures
        open_attempts(reconciled(pool, snapshot, flags), snapshot).len() == 0,
{
    let r = reconciled(pool, snapshot, flags);
    reconcile_converges(pool, snapshot, flags);
    let kept2 = still_present(r, snapshot);
    lemma_keep_if(r, |e: (Seq<char>, Seq<char>)| names_of(snapshot).contains(e.0));
    let again = open_attempts(r, snapshot);
    lemma_keep_if(snapshot, |e: (Seq<char>, Seq<char>)| !names_of(kept2).contains(e.0));
    if again.len() > 0 {
        let n = again[0].0;
        assert(names_of(again)[0] == n);
        assert(names_of(again).contains(n));
        let i = choose|i: int|
            0 <= i < snapshot.len() && snapshot[i].0 == n && !names_of(kept2).contains(snapshot[i].0);
        assert(names_of(snapshot)[i] == n);
        assert(names_of(snapshot).contains(n));
        assert(names_of(r).contains(n));
        let k = choose|k: int| 0 <= k < names_of(r).len() && names_of(r)[k] == n;
        assert(r[k].0 == n);
    }
}

} // verus!

verus! {

/// What one read attempt yielded, and when.
pub struct PortRead {
    pub bytes: Vec<u8>,
    pub timestamp_ms: u64,
}

impl View for PortRead {
    type V = (Seq<u8>, nat);

    open spec fn view(&self) -> (Seq<u8>, nat) {
        (self.bytes@, self.timestamp_ms as nat)
    }
}

/// The bodies that a read pass enqueues: one per non-empty read, in pool
/// order, attributed to the device id of the port it came from.
pub open spec fn pass_reports(ports: Seq<(Seq<char>, Seq<char>)>, reads: Seq<(Seq<u8>, nat)>) -> Seq<
    Seq<char>,
>
    decreases reads.len(),
{
    if reads.len() == 0 || ports.len() != reads.len() {
        Seq::empty()
    } else if reads.last().0.len() == 0 {
        pass_reports(ports.drop_last(), reads.drop_last())
    } else {
        pass_reports(ports.drop_last(), reads.drop_last()).push(
            report_body(ports.last().1, reads.last().1, lossy_text(reads.last().0)),
        )
    }
}

/// Whether `bytes` is what `read` may return when called on a handle that
/// holds `before`.
pub open spec fn read_of<H, R: Fn(&mut H) -> Vec<u8>>(read: R, before: H, bytes: Vec<u8>) -> bool {
    exists|h: &mut H| *h == before && read.ensures((h,), bytes)
}

impl<H> PortPool<H> {
    /// One read pass: each open handle gets exactly one read attempt through
    /// `read`, in pool order, stamped with `clock`; every read that yields
    /// bytes becomes one record body at the back of `queue`. Returns what
    /// each attempt yielded.
    pub fn read_pass<R: Fn(&mut H) -> Vec<u8>, C: Fn() -> u64>(
        &mut self,
        queue: &mut ReportQueue,
        read: R,
        clock: C,
    ) -> (r: Vec<PortRead>)
        requires
            forall|h: &mut H| read.requires((h,)),
            clock.requires(()),
        ensures
            final(self)@ == old(self)@,
            r@.len() == old(self)@.len(),
            forall|k: int| 0 <= k < r@.len() ==> call_ensures(clock, (), #[trigger] r@[k].timestamp_ms),
            forall|k: int| 0 <= k < r@.len() ==> read_of(
                read,
                old(self).ports()[k].handle,
                #[trigger] r@[k].bytes,
            ),
            forall|k: int| 0 <= k < r@.len() && r@[k].bytes@.len() > 0 && valid_utf8(r@[k].bytes@)
                ==> lossy_text(#[trigger] r@[k].bytes@) == decode_utf8(r@[k].bytes@),
            final(queue)@ == old(queue)@ + pass_reports(
                old(self)@,
                r@.map_values(|p: PortRead| p@),
            ),
    {
        let ghost pv = self@;
        let ghost q0 = queue@;
        let mut reads: Vec<PortRead> = Vec::new();
        let mut i: usize = 0;
        let n = self.ports.len();
        assert(pass_reports(pv.take(0), reads@.map_values(|p: PortRead| p@)) =~= Seq::<Seq<char>>::empty());
        assert(queue@ =~= q0 + Seq::<Seq<char>>::empty());
        while i < n
            invariant
                n == pv.len(),
                i <= n,
                self@ == pv,
                reads@.len() == i,
                forall|k: int| 0 <= k < i && reads@[k].bytes@.len() > 0 && valid_utf8(reads@[k].bytes@)
                    ==> lossy_text(#[trigger] reads@[k].bytes@) == decode_utf8(reads@[k].bytes@),
                forall|k: int| 0 <= k < i ==> call_ensures(clock, (), #[trigger] reads@[k].timestamp_ms),
                self.ports().len() == old(self).ports().len(),
                forall|k: int| i <= k < n ==> #[trigger] self.ports()[k] == old(self).ports()[k],
                forall|k: int| 0 <= k < i ==> read_of(
                    read,
                    old(self).ports()[k].handle,
                    #[trigger] reads@[k].bytes,
                ),
                queue@ == q0 + pass_reports(pv.take(i as int), reads@.map_values(|p: PortRead| p@)),
                forall|h: &mut H| read.requires((h,)),
                clock.requires(()),
            decreases n - i,
        {
            let ghost rv = reads@.map_values(|p: PortRead| p@);
            let ghost before = self.ports@;
            let hr = &mut self.ports[i].handle;
            let ghost h0 = *hr;
            let bytes = read(hr);
            proof {
                assert(read_of(read, h0, bytes));
            }
            proof {
                assert(self@ =~= pv);
            }
            let timestamp_ms = clock();
            let body = make_report(&self.ports[i].device_id, timestamp_ms, bytes.as_slice());
            let pr = PortRead { bytes, timestamp_ms };
            let ghost pe = pr@;
            reads.push(pr);
            proof {
                let rv2 = reads@.map_values(|p: PortRead| p@);
                assert(rv2 =~= rv.push(pe));
                assert(pv.take(i + 1).drop_last() =~= pv.take(i as int));
                assert(rv2.drop_last() =~= rv);
                assert(pv.take(i + 1).last() == pv[i as int]);
            }
            match body {
                Some(b) => {
                    queue.add_report(&b);
                    assert(queue@ =~= q0 + pass_reports(pv.take(i + 1), reads@.map_values(|p: PortRead| p@)));
                },
                None => {},
            }
            i += 1;
        }
        assert(pv.take(n as int) =~= pv);
        reads
    }
}

} // verus!
