//! Persistent key/credential store: a mapping from opaque binary identifiers
//! to opaque binary payloads, with round-trip-faithful text serialization and
//! optional password-derived authenticated encryption at rest.
//!
//! The store itself never touches the file system; `save` produces the exact
//! bytes to persist and `load` consumes them, so a caller writes and reads one
//! file per local identity (see `get_file_path`).

use crate::codec::all_b64;
use crate::codec::b64_decode;
use crate::codec::b64_decode_of;
use crate::codec::b64_encode;
use crate::codec::emit_store_doc;
use crate::codec::lemma_parse_emit_doc;
use crate::codec::pairs_view;
use crate::codec::parse_doc;
use crate::codec::parse_store_doc;
use crate::codec::wf_pairs;
use vstd::prelude::*;
use vstd::string::*;

verus! {

/// The mapping described by a sequence of key/value pairs; a later pair with
/// the same key overrides an earlier one.
pub open spec fn map_of(ps: Seq<(Seq<u8>, Seq<u8>)>) -> Map<Seq<u8>, Seq<u8>>
    decreases ps.len(),
{
    if ps.len() == 0 {
        Map::empty()
    } else {
        map_of(ps.drop_last()).insert(ps.last().0, ps.last().1)
    }
}

pub open spec fn unique_pairs(ps: Seq<(Seq<u8>, Seq<u8>)>) -> bool {
    forall|i: int, j: int| 0 <= i < j < ps.len() ==> (#[trigger] ps[i]).0 != (#[trigger] ps[j]).0
}

/// Base64-decode every component of every entry, or fail as a whole.
pub open spec fn decode_pairs(eps: Seq<(Seq<u8>, Seq<u8>)>) -> Option<Seq<(Seq<u8>, Seq<u8>)>>
    decreases eps.len(),
{
    if eps.len() == 0 {
        Some(Seq::empty())
    } else {
        match decode_pairs(eps.drop_last()) {
            None => None,
            Some(ps) => match (b64_decode_of(eps.last().0), b64_decode_of(eps.last().1)) {
                (Some(k), Some(v)) => Some(ps.push((k, v))),
                _ => None,
            },
        }
    }
}

/// The store contents a plain-text document describes, if it parses.
pub open spec fn store_of_bytes(s: Seq<u8>) -> Option<Map<Seq<u8>, Seq<u8>>> {
    match parse_doc(s) {
        None => None,
        Some(eps) => match decode_pairs(eps) {
            None => None,
            Some(ps) => Some(map_of(ps)),
        },
    }
}

/// What cocoon recovers from an encrypted container under a password, if the
/// authentication tag verifies; deterministic in container and password.
pub uninterp spec fn cocoon_unwrap_of(container: Seq<u8>, password: Seq<u8>) -> Option<Seq<u8>>;

/// The store contents a password-protected container describes, if any.
pub open spec fn ciphered_store_of(container: Seq<u8>, password: Seq<u8>) -> Option<
    Map<Seq<u8>, Seq<u8>>,
> {
    match cocoon_unwrap_of(container, password) {
        None => None,
        Some(d) => store_of_bytes(d),
    }
}

/// Relies on cocoon::Cocoon::wrap: authenticated encryption of the whole
/// payload as one atomic container, which cocoon::Cocoon::unwrap decrypts
/// back to exactly that payload under the same password.
#[verifier::external_body]
fn cocoon_wrap(data: &[u8], password: &[u8]) -> (r: Option<Vec<u8>>)
    ensures
        r matches Some(c) ==> cocoon_unwrap_of(c@, password@) == Some(data@),
{
    let mut cocoon = cocoon::Cocoon::new(password);
    match cocoon.wrap(data) {
        Ok(c) => Some(c),
        Err(_) => None,
    }
}

/// Relies on cocoon::Cocoon::unwrap: deterministic decryption of a container
/// under a password; any tag-verification failure is a hard error, never
/// partial data.
#[verifier::external_body]
fn cocoon_unwrap(container: &[u8], password: &[u8]) -> (r: Option<Vec<u8>>)
    ensures
        match r {
            Some(d) => cocoon_unwrap_of(container@, password@) == Some(d@),
            None => cocoon_unwrap_of(container@, password@) is None,
        },
{
    let cocoon = cocoon::Cocoon::new(password);
    match cocoon.unwrap(container) {
        Ok(d) => Some(d),
        Err(_) => None,
    }
}

/// Errors thrown by the key store.
#[derive(Debug, Clone, Copy, PartialEq, Eq, Structural)]
pub enum PersistentKeyStoreError {
    SerializationError,
}

impl PersistentKeyStoreError {
    pub fn message(&self) -> (r: String)
        ensures
            r@ == "Error serializing value."@,
    {
        String::from_str("Error serializing value.")
    }
}

/// Mapping from opaque binary identifiers to opaque binary payloads.
pub struct PersistentKeyStore {
    entries: Vec<(Vec<u8>, Vec<u8>)>,
}

impl View for PersistentKeyStore {
    type V = Map<Seq<u8>, Seq<u8>>;

    closed spec fn view(&self) -> Map<Seq<u8>, Seq<u8>> {
        map_of(pairs_view(self.entries@))
    }
}

pub proof fn lemma_map_of_contains(ps: Seq<(Seq<u8>, Seq<u8>)>, k: Seq<u8>)
    ensures
        map_of(ps).contains_key(k) <==> exists|i: int| 0 <= i < ps.len() && (#[trigger] ps[i]).0
            == k,
    decreases ps.len(),
{
    if ps.len() > 0 {
        lemma_map_of_contains(ps.drop_last(), k);
        assert(forall|i: int| 0 <= i < ps.len() - 1 ==> (#[trigger] ps.drop_last()[i]) == ps[i]);
        if map_of(ps).contains_key(k) {
            if ps.last().0 == k {
                assert(ps[ps.len() - 1].0 == k);
            } else {
                let i = choose|i: int|
                    0 <= i < ps.drop_last().len() && (#[trigger] ps.drop_last()[i]).0 == k;
                assert(ps[i].0 == k);
            }
        }
        if exists|i: int| 0 <= i < ps.len() && (#[trigger] ps[i]).0 == k {
            let i = choose|i: int| 0 <= i < ps.len() && (#[trigger] ps[i]).0 == k;
            if i < ps.len() - 1 {
                assert(ps.drop_last()[i].0 == k);
            }
        }
    }
}

pub proof fn lemma_map_of_get(ps: Seq<(Seq<u8>, Seq<u8>)>, i: int)
    requires
        unique_pairs(ps),
        0 <= i < ps.len(),
    ensures
        map_of(ps).contains_key(ps[i].0),
        map_of(ps)[ps[i].0] == ps[i].1,
    decreases ps.len(),
{
    if i == ps.len() - 1 {
        assert(ps.last() == ps[i]);
    } else {
        assert(unique_pairs(ps.drop_last()));
        assert(ps.drop_last()[i] == ps[i]);
        lemma_map_of_get(ps.drop_last(), i);
        assert(ps[i].0 != ps.last().0);
    }
}

pub proof fn lemma_map_of_push(ps: Seq<(Seq<u8>, Seq<u8>)>, p: (Seq<u8>, Seq<u8>))
    ensures
        map_of(ps.push(p)) == map_of(ps).insert(p.0, p.1),
{
    assert(ps.push(p).drop_last() =~= ps);
    assert(ps.push(p).last() == p);
}

pub proof fn lemma_map_of_remove(ps: Seq<(Seq<u8>, Seq<u8>)>, i: int)
    requires
        unique_pairs(ps),
        0 <= i < ps.len(),
    ensures
        map_of(ps.remove(i)) == map_of(ps).remove(ps[i].0),
    decreases ps.len(),
{
    if i == ps.len() - 1 {
        assert(ps.remove(i) =~= ps.drop_last());
        lemma_map_of_contains(ps.drop_last(), ps[i].0);
        assert(forall|j: int| 0 <= j < ps.len() - 1 ==> (#[trigger] ps.drop_last()[j]) == ps[j]);
        assert(!map_of(ps.drop_last()).contains_key(ps[i].0));
        assert(map_of(ps.drop_last()).insert(ps.last().0, ps.last().1).remove(ps[i].0) =~= map_of(
            ps.drop_last(),
        ));
    } else {
        assert(unique_pairs(ps.drop_last()));
        assert(ps.drop_last()[i] == ps[i]);
        lemma_map_of_remove(ps.drop_last(), i);
        assert(ps.remove(i).drop_last() =~= ps.drop_last().remove(i));
        assert(ps.remove(i).last() == ps.last());
        assert(ps[i].0 != ps.last().0);
        assert(map_of(ps.drop_last()).remove(ps[i].0).insert(ps.last().0, ps.last().1) =~= map_of(
            ps.drop_last(),
        ).insert(ps.last().0, ps.last().1).remove(ps[i].0));
    }
}

/// Byte-for-byte equality of two slices.
pub fn bytes_eq(a: &[u8], b: &[u8]) -> (r: bool)
    ensures
        r == (a@ == b@),
{
    if a.len() != b.len() {
        proof {
            assert(a@ != b@);
        }
        return false;
    }
    let mut i: usize = 0;
    while i < a.len()
        invariant
            i <= a@.len(),
            a@.len() == b@.len(),
            forall|k: int| 0 <= k < i ==> a@[k] == b@[k],
        decreases a@.len() - i,
    {
        if a[i] != b[i] {
            proof {
                assert(a@ != b@);
            }
            return false;
        }
        i += 1;
    }
    proof {
        assert(a@ =~= b@);
    }
    true
}

/// Overwrite law: storing twice under one key leaves exactly one entry, with
/// the latest value, and the key set (hence the store's size) is the same as
/// after storing once.
pub proof fn lemma_store_overwrite(m: Map<Seq<u8>, Seq<u8>>, k: Seq<u8>, v1: Seq<u8>, v2: Seq<u8>)
    ensures
        m.insert(k, v1).insert(k, v2) == m.insert(k, v2),
        m.insert(k, v1).insert(k, v2).dom() == m.insert(k, v2).dom(),
{
    assert(m.insert(k, v1).insert(k, v2) =~= m.insert(k, v2));
}

/// Delete idempotence: deleting an absent key changes nothing, and deleting
/// twice is the same as deleting once.
pub proof fn lemma_delete_idempotent(m: Map<Seq<u8>, Seq<u8>>, k: Seq<u8>)
    ensures
        m.remove(k).remove(k) == m.remove(k),
        !m.contains_key(k) ==> m.remove(k) == m,
{
    assert(m.remove(k).remove(k) =~= m.remove(k));
    if !m.contains_key(k) {
        assert(m.remove(k) =~= m);
    }
}

/// Loading a saved store into a fresh (empty) store reproduces it exactly;
/// together with the contracts of `save` and `load` this is the round-trip law.
pub proof fn lemma_load_into_fresh(m: Map<Seq<u8>, Seq<u8>>)
    ensures
        Map::<Seq<u8>, Seq<u8>>::empty().union_prefer_right(m) == m,
{
    assert(Map::<Seq<u8>, Seq<u8>>::empty().union_prefer_right(m) =~= m);
}

impl PersistentKeyStore {
    /// Every key occurs at most once among the entries.
    pub closed spec fn wf(&self) -> bool {
        unique_pairs(pairs_view(self.entries@))
    }

    pub fn new() -> (r: PersistentKeyStore)
        ensures
            r.wf(),
            r@ == Map::<Seq<u8>, Seq<u8>>::empty(),
    {
        let r = PersistentKeyStore { entries: Vec::new() };
        proof {
            assert(pairs_view(r.entries@) =~= Seq::<(Seq<u8>, Seq<u8>)>::empty());
        }
        r
    }

    /// The index of the entry holding `k`, if one exists.
    fn find_index(&self, k: &[u8]) -> (r: Option<usize>)
        ensures
            match r {
                Some(i) => i < self.entries@.len() && pairs_view(self.entries@)[i as int].0 == k@,
                None => forall|j: int|
                    0 <= j < self.entries@.len() ==> (#[trigger] pairs_view(self.entries@)[j]).0
                        != k@,
            },
    {
        let mut i: usize = 0;
        while i < self.entries.len()
            invariant
                i <= self.entries@.len(),
                forall|j: int| 0 <= j < i ==> (#[trigger] pairs_view(self.entries@)[j]).0 != k@,
            decreases self.entries@.len() - i,
        {
            if bytes_eq(self.entries[i].0.as_slice(), k) {
                return Some(i);
            }
            i += 1;
        }
        None
    }

    /// Insert or overwrite one entry.
    fn put(&mut self, k: Vec<u8>, v: Vec<u8>)
        requires
            old(self).wf(),
        ensures
            final(self).wf(),
            final(self)@ == old(self)@.insert(k@, v@),
    {
        let ghost pv0 = pairs_view(self.entries@);
        match self.find_index(k.as_slice()) {
            Some(i) => {
                self.entries.remove(i);
                proof {
                    assert(pairs_view(self.entries@) =~= pv0.remove(i as int));
                    lemma_map_of_remove(pv0, i as int);
                    assert(forall|x: int, y: int|
                        0 <= x < y < pv0.remove(i as int).len() ==> (#[trigger] pv0.remove(
                            i as int,
                        )[x]).0 != (#[trigger] pv0.remove(i as int)[y]).0);
                    lemma_map_of_contains(pv0.remove(i as int), k@);
                }
                self.entries.push((k, v));
                proof {
                    let pv1 = pv0.remove(i as int);
                    assert(pairs_view(self.entries@) =~= pv1.push((k@, v@)));
                    lemma_map_of_push(pv1, (k@, v@));
                    assert(map_of(pv0).remove(k@).insert(k@, v@) =~= map_of(pv0).insert(k@, v@));
                    assert(forall|j: int|
                        0 <= j < pv1.len() ==> (#[trigger] pv1[j]).0 != k@) by {
                        lemma_map_of_contains(pv1, k@);
                    }
                }
            },
            None => {
                self.entries.push((k, v));
                proof {
                    assert(pairs_view(self.entries@) =~= pv0.push((k@, v@)));
                    lemma_map_of_push(pv0, (k@, v@));
                }
            },
        }
    }

    /// Insert or overwrite the value stored for identifier `k`.
    /// In-memory mutation is infallible once the payload is in portable form.
    pub fn store(&mut self, k: &[u8], v: &[u8]) -> (r: Result<(), PersistentKeyStoreError>)
        requires
            old(self).wf(),
        ensures
            final(self).wf(),
            r is Ok,
            final(self)@ == old(self)@.insert(k@, v@),
    {
        self.put(vstd::slice::slice_to_vec(k), vstd::slice::slice_to_vec(v));
        Ok(())
    }

    /// The value stored for `k`, or nothing if `k` is absent.
    pub fn read(&self, k: &[u8]) -> (r: Option<Vec<u8>>)
        requires
            self.wf(),
        ensures
            match r {
                Some(v) => self@.contains_key(k@) && self@[k@] == v@,
                None => !self@.contains_key(k@),
            },
    {
        match self.find_index(k) {
            Some(i) => {
                proof {
                    lemma_map_of_get(pairs_view(self.entries@), i as int);
                }
                Some(vstd::slice::slice_to_vec(self.entries[i].1.as_slice()))
            },
            None => {
                proof {
                    lemma_map_of_contains(pairs_view(self.entries@), k@);
                }
                None
            },
        }
    }

    /// Remove the entry for `k`; absence is not an error.
    pub fn delete(&mut self, k: &[u8]) -> (r: Result<(), PersistentKeyStoreError>)
        requires
            old(self).wf(),
        ensures
            final(self).wf(),
            r is Ok,
            final(self)@ == old(self)@.remove(k@),
    {
        let ghost pv0 = pairs_view(self.entries@);
        match self.find_index(k) {
            Some(i) => {
                self.entries.remove(i);
                proof {
                    assert(pairs_view(self.entries@) =~= pv0.remove(i as int));
                    lemma_map_of_remove(pv0, i as int);
                    assert(forall|x: int, y: int|
                        0 <= x < y < pv0.remove(i as int).len() ==> (#[trigger] pv0.remove(
                            i as int,
                        )[x]).0 != (#[trigger] pv0.remove(i as int)[y]).0);
                }
            },
            None => {
                proof {
                    lemma_map_of_contains(pv0, k@);
                    assert(map_of(pv0).remove(k@) =~= map_of(pv0));
                }
            },
        }
        Ok(())
    }

    /// Serialize the whole store into its portable text form, optionally
    /// wrapped in a password-derived authenticated-encryption envelope.
    /// The produced bytes decode back to exactly this store's contents.
    pub fn save(&self, password: Option<&[u8]>) -> (r: Result<Vec<u8>, String>)
        requires
            self.wf(),
        ensures
            match password {
                None => r matches Ok(b) && store_of_bytes(b@) == Some(self@),
                Some(p) => r matches Ok(b) ==> ciphered_store_of(b@, p@) == Some(self@),
            },
    {
        let ghost pv = pairs_view(self.entries@);
        let mut eps: Vec<(Vec<u8>, Vec<u8>)> = Vec::new();
        let mut i: usize = 0;
        proof {
            assert(pairs_view(eps@) =~= Seq::<(Seq<u8>, Seq<u8>)>::empty());
        }
        while i < self.entries.len()
            invariant
                i <= self.entries@.len(),
                pv == pairs_view(self.entries@),
                eps@.len() == i,
                wf_pairs(pairs_view(eps@)),
                decode_pairs(pairs_view(eps@)) == Some(pv.take(i as int)),
            decreases self.entries@.len() - i,
        {
            let ke = b64_encode(self.entries[i].0.as_slice());
            let ve = b64_encode(self.entries[i].1.as_slice());
            let ghost eold = pairs_view(eps@);
            eps.push((ke, ve));
            proof {
                let enew = pairs_view(eps@);
                assert(enew =~= eold.push((ke@, ve@)));
                assert(enew.drop_last() =~= eold);
                assert(enew.last() == (ke@, ve@));
                assert(all_b64(ke@) && all_b64(ve@));
                assert(wf_pairs(enew));
                assert(pv.take(i + 1int) =~= pv.take(i as int).push(pv[i as int]));
                assert(pv[i as int] == (self.entries@[i as int].0@, self.entries@[i as int].1@));
            }
            i += 1;
        }
        proof {
            assert(pv.take(pv.len() as int) =~= pv);
        }
        let doc = emit_store_doc(&eps);
        proof {
            lemma_parse_emit_doc(pairs_view(eps@));
            assert(store_of_bytes(doc@) == Some(self@));
        }
        match password {
            None => Ok(doc),
            Some(p) => match cocoon_wrap(doc.as_slice(), p) {
                Some(c) => Ok(c),
                None => Err(String::from_str("Error dumping user keystore with cocoon")),
            },
        }
    }

    /// Merge the entries described by a plain-text document into this store.
    fn load_plain(&mut self, doc: &[u8]) -> (r: Result<(), String>)
        requires
            old(self).wf(),
        ensures
            final(self).wf(),
            match store_of_bytes(doc@) {
                Some(m) => r is Ok && final(self)@ == old(self)@.union_prefer_right(m),
                None => r is Err && final(self)@ == old(self)@,
            },
    {
        let eps = match parse_store_doc(doc) {
            None => {
                return Err(String::from_str("Error parsing user keystore document"));
            },
            Some(eps) => eps,
        };
        let ghost ev = pairs_view(eps@);
        // Decode every entry before touching the store, so that a corrupt
        // document can never be partially applied.
        let mut ps: Vec<(Vec<u8>, Vec<u8>)> = Vec::new();
        let mut i: usize = 0;
        proof {
            assert(ev.take(0int) =~= Seq::<(Seq<u8>, Seq<u8>)>::empty());
            assert(pairs_view(ps@) =~= Seq::<(Seq<u8>, Seq<u8>)>::empty());
        }
        while i < eps.len()
            invariant
                i <= eps@.len(),
                ev == pairs_view(eps@),
                parse_doc(doc@) == Some(ev),
                self@ == old(self)@,
                self.wf(),
                decode_pairs(ev.take(i as int)) == Some(pairs_view(ps@)),
            decreases eps@.len() - i,
        {
            proof {
                assert(ev[i as int] == (eps@[i as int].0@, eps@[i as int].1@));
            }
            let k = match b64_decode(eps[i].0.as_slice()) {
                None => {
                    proof {
                        lemma_decode_pairs_none(ev, i as int);
                    }
                    return Err(String::from_str("Error decoding user keystore entry"));
                },
                Some(k) => k,
            };
            let v = match b64_decode(eps[i].1.as_slice()) {
                None => {
                    proof {
                        lemma_decode_pairs_none(ev, i as int);
                    }
                    return Err(String::from_str("Error decoding user keystore entry"));
                },
                Some(v) => v,
            };
            let ghost pold = pairs_view(ps@);
            ps.push((k, v));
            proof {
                assert(ev.take(i + 1int).drop_last() =~= ev.take(i as int));
                assert(ev.take(i + 1int).last() == ev[i as int]);
                assert(ev[i as int] == (eps@[i as int].0@, eps@[i as int].1@));
                assert(pairs_view(ps@) =~= pold.push((k@, v@)));
            }
            i += 1;
        }
        proof {
            assert(ev.take(ev.len() as int) =~= ev);
        }
        // Apply atomically: every entry decoded, so insertion cannot fail.
        let ghost pvd = pairs_view(ps@);
        let mut j: usize = 0;
        proof {
            assert(pvd.take(0int) =~= Seq::<(Seq<u8>, Seq<u8>)>::empty());
            assert(old(self)@.union_prefer_right(map_of(pvd.take(0int))) =~= old(self)@);
        }
        while j < ps.len()
            invariant
                j <= ps@.len(),
                pvd == pairs_view(ps@),
                store_of_bytes(doc@) == Some(map_of(pvd)),
                self.wf(),
                self@ == old(self)@.union_prefer_right(map_of(pvd.take(j as int))),
            decreases ps@.len() - j,
        {
            let k = vstd::slice::slice_to_vec(ps[j].0.as_slice());
            let v = vstd::slice::slice_to_vec(ps[j].1.as_slice());
            self.put(k, v);
            proof {
                assert(pvd.take(j + 1int).drop_last() =~= pvd.take(j as int));
                assert(pvd.take(j + 1int).last() == pvd[j as int]);
                assert(map_of(pvd.take(j + 1int)) == map_of(pvd.take(j as int)).insert(
                    pvd[j as int].0,
                    pvd[j as int].1,
                ));
                assert(old(self)@.union_prefer_right(
                    map_of(pvd.take(j as int)).insert(pvd[j as int].0, pvd[j as int].1),
                ) =~= old(self)@.union_prefer_right(map_of(pvd.take(j as int))).insert(
                    pvd[j as int].0,
                    pvd[j as int].1,
                ));
            }
            j += 1;
        }
        proof {
            assert(pvd.take(pvd.len() as int) =~= pvd);
        }
        Ok(())
    }

    /// Inverse of `save`: on any decryption or parse failure the in-memory
    /// store is left untouched; on success the decoded entries are merged in.
    pub fn load(&mut self, data: &[u8], password: Option<&[u8]>) -> (r: Result<(), String>)
        requires
            old(self).wf(),
        ensures
            final(self).wf(),
            match (match password {
                None => store_of_bytes(data@),
                Some(p) => ciphered_store_of(data@, p@),
            }) {
                Some(m) => r is Ok && final(self)@ == old(self)@.union_prefer_right(m),
                None => r is Err && final(self)@ == old(self)@,
            },
    {
        match password {
            None => self.load_plain(data),
            Some(p) => match cocoon_unwrap(data, p) {
                Some(d) => self.load_plain(d.as_slice()),
                None => Err(String::from_str("Error parsing user keystore with cocoon")),
            },
        }
    }

    /// The file name, derived deterministically from the identity label, under
    /// which one local user's store is persisted.
    pub fn get_file_path(user_name: &String) -> (r: String)
        ensures
            r@ == "openmls_cli_"@ + user_name@ + "_ks.json"@,
    {
        let mut s = String::from_str("openmls_cli_");
        s.append(user_name.as_str());
        s.append("_ks.json");
        s
    }
}

pub proof fn lemma_decode_pairs_none(eps: Seq<(Seq<u8>, Seq<u8>)>, i: int)
    requires
        0 <= i < eps.len(),
        b64_decode_of(eps[i].0) is None || b64_decode_of(eps[i].1) is None,
    ensures
        decode_pairs(eps) is None,
    decreases eps.len(),
{
    if i == eps.len() - 1 {
        assert(eps.last() == eps[i]);
    } else {
        assert(eps.drop_last()[i] == eps[i]);
        lemma_decode_pairs_none(eps.drop_last(), i);
    }
}

} // verus!
