//! The head store.
//!
//! A store owns a directory and nothing else: a key is a head exactly when
//! its marker file — `head:` followed by the key's filename form — exists
//! there, and every operation is defined purely in terms of the directory's
//! listing. `HeadStore` carries that listing and gives each operation its
//! meaning; the filesystem shell around the library performs one syscall per
//! operation against the same names and rules.

use crate::codec;
use crate::codec::encoded_key;
use crate::enumerate;
use crate::enumerate::head_prefix;
use crate::enumerate::heads_spec;
use crate::bytes::bytes_eq;
use crate::errors::Error;
use vstd::prelude::*;

verus! {

broadcast use crate::bytes::lemma_bytes_deep_view;

/// The marker-file name that records a key: `head:` plus the key's filename
/// form.
pub open spec fn marker(k: Seq<u8>) -> Seq<u8> {
    head_prefix() + encoded_key(k)
}

/// Computes the marker-file name for a key: the path computation, up to the
/// base directory the name is joined to.
pub fn marker_name(key: &Vec<u8>) -> (r: Vec<u8>)
    ensures
        r@ == marker(key@),
{
    let mut out: Vec<u8> = Vec::new();
    out.push(104);  // h
    out.push(101);  // e
    out.push(97);  // a
    out.push(100);  // d
    out.push(58);  // :
    proof {
        assert(out@ =~= head_prefix());
    }
    codec::append_encoded_key(&mut out, key);
    proof {
        assert(head_prefix() + encoded_key(key@) =~= marker(key@));
    }
    out
}

/// The listing after `add`: the marker file is created if absent; creating
/// an existing marker truncates the empty file and changes nothing.
pub open spec fn add_spec(s: Seq<Seq<u8>>, k: Seq<u8>) -> Seq<Seq<u8>> {
    if s.contains(marker(k)) {
        s
    } else {
        s.push(marker(k))
    }
}

/// The listing after `remove`: the marker file, if present, is deleted;
/// deleting an absent marker is success, not an error.
pub open spec fn remove_spec(s: Seq<Seq<u8>>, k: Seq<u8>) -> Seq<Seq<u8>> {
    s.remove_value(marker(k))
}

/// A key is a head exactly when its marker file exists.
pub open spec fn is_head_spec(s: Seq<Seq<u8>>, k: Seq<u8>) -> bool {
    s.contains(marker(k))
}

/// The first position in a listing holding `name`, if any.
fn find_name(entries: &Vec<Vec<u8>>, name: &Vec<u8>) -> (r: Option<usize>)
    ensures
        match r {
            Some(idx) => idx < entries@.len() && entries.deep_view()[idx as int] == name@
                && (forall|j: int| 0 <= j < idx ==> entries.deep_view()[j] != name@),
            None => !entries.deep_view().contains(name@),
        },
{
    let mut i: usize = 0;
    while i < entries.len()
        invariant
            i <= entries.len(),
            forall|j: int| 0 <= j < i ==> entries.deep_view()[j] != name@,
        decreases entries.len() - i,
    {
        proof {
            assert(entries.deep_view()[i as int] == entries@[i as int].deep_view());
        }
        if bytes_eq(&entries[i], name) {
            return Some(i);
        }
        i = i + 1;
    }
    proof {
        assert(forall|j: int|
            0 <= j < entries.deep_view().len() ==> entries.deep_view()[j] != name@);
    }
    None
}

/// A head store, held as its directory's listing.
///
/// The store keeps no cached index: its observable state is exactly the
/// names in the directory, so it can never go stale against the disk.
pub struct HeadStore {
    entries: Vec<Vec<u8>>,
}

impl View for HeadStore {
    type V = Seq<Seq<u8>>;

    closed spec fn view(&self) -> Seq<Seq<u8>> {
        self.entries.deep_view()
    }
}

impl HeadStore {
    /// A directory holds each name at most once.
    pub open spec fn well_formed(&self) -> bool {
        self@.no_duplicates()
    }

    /// A store over an empty directory, as `create` yields on an absent
    /// path.
    pub fn new() -> (s: Self)
        ensures
            s@ == Seq::<Seq<u8>>::empty(),
            s.well_formed(),
    {
        let s = HeadStore { entries: Vec::new() };
        proof {
            assert(s@ =~= Seq::<Seq<u8>>::empty());
        }
        s
    }

    /// A store over an existing directory's listing, as `open` yields.
    pub fn from_listing(names: Vec<Vec<u8>>) -> (s: Self)
        requires
            names.deep_view().no_duplicates(),
        ensures
            s@ == names.deep_view(),
            s.well_formed(),
    {
        HeadStore { entries: names }
    }

    /// The directory listing the store observes.
    pub fn listing(&self) -> (r: &Vec<Vec<u8>>)
        ensures
            r.deep_view() == self@,
    {
        &self.entries
    }

    /// Records a key: creates its marker file. Idempotent — adding a key
    /// that is already a head changes nothing and succeeds again.
    pub fn add(&mut self, key: &Vec<u8>)
        requires
            old(self).well_formed(),
        ensures
            final(self)@ == add_spec(old(self)@, key@),
            final(self).well_formed(),
    {
        let name = marker_name(key);
        match find_name(&self.entries, &name) {
            Some(idx) => {
                proof {
                    assert(self@[idx as int] == marker(key@));
                    assert(self@.contains(marker(key@)));
                }
            },
            None => {
                let ghost old_dv = self.entries.deep_view();
                let ghost nview = name@;
                self.entries.push(name);
                proof {
                    assert(self.entries.deep_view() =~= old_dv.push(nview));
                    assert forall|i: int, j: int|
                        0 <= i < self@.len() && 0 <= j < self@.len() && i != j implies self@[i]
                        != self@[j] by {
                        if i < old_dv.len() && j < old_dv.len() {
                            assert(old_dv[i] != old_dv[j]);
                        } else if i == old_dv.len() {
                            assert(self@[i] == nview && self@[j] == old_dv[j]);
                        } else {
                            assert(self@[j] == nview && self@[i] == old_dv[i]);
                        }
                    }
                }
            },
        }
    }

    /// Unrecords a key: deletes its marker file. Removing a key that is not
    /// a head succeeds and changes nothing.
    pub fn remove(&mut self, key: &Vec<u8>)
        requires
            old(self).well_formed(),
        ensures
            final(self)@ == remove_spec(old(self)@, key@),
            final(self).well_formed(),
    {
        let name = marker_name(key);
        let ghost old_dv = self.entries.deep_view();
        proof {
            old_dv.index_of_first_ensures(name@);
        }
        match find_name(&self.entries, &name) {
            Some(idx) => {
                self.entries.remove(idx);
                proof {
                    assert(self.entries.deep_view() =~= old_dv.remove(idx as int));
                    let fi = old_dv.index_of_first(name@).unwrap();
                    assert(fi == idx as int);
                    assert forall|i: int, j: int|
                        0 <= i < self@.len() && 0 <= j < self@.len() && i != j implies self@[i]
                        != self@[j] by {
                        let pi: int = if i < idx as int {
                            i
                        } else {
                            i + 1
                        };
                        let pj: int = if j < idx as int {
                            j
                        } else {
                            j + 1
                        };
                        assert(self@[i] == old_dv[pi] && self@[j] == old_dv[pj]);
                    }
                }
            },
            None => {
                proof {
                    assert(old_dv.index_of_first(name@) is None);
                }
            },
        }
    }

    /// Whether a key is currently a head: whether its marker file exists.
    pub fn is_head(&self, key: &Vec<u8>) -> (r: bool)
        ensures
            r == is_head_spec(self@, key@),
    {
        let name = marker_name(key);
        match find_name(&self.entries, &name) {
            Some(idx) => {
                proof {
                    assert(self@[idx as int] == marker(key@));
                }
                true
            },
            None => false,
        }
    }

    /// Enumerates the heads: the decoded key of every marker file, in the
    /// directory listing's order, or the decoding error that stopped the
    /// enumeration at the first undecodable marker.
    pub fn heads(&self) -> (r: Result<Vec<Vec<u8>>, Error>)
        ensures
            match r {
                Ok(keys) => heads_spec(self@) == Ok::<Seq<Seq<u8>>, Error>(keys.deep_view()),
                Err(e) => heads_spec(self@) == Err::<Seq<Seq<u8>>, Error>(e),
            },
    {
        enumerate::heads_from_listing(&self.entries)
    }
}

/// The open-time rule: `open` binds a store to its path exactly when the
/// path is a directory, and otherwise fails with `NotADirectory`.
pub fn open_outcome(path_is_dir: bool) -> (r: Result<(), Error>)
    ensures
        path_is_dir ==> r == Ok::<(), Error>(()),
        !path_is_dir ==> r == Err::<(), Error>(Error::NotADirectory),
{
    if path_is_dir {
        Ok(())
    } else {
        Err(Error::NotADirectory)
    }
}

} // verus!

