//! The directory enumerator.
//!
//! A directory listing is read name by name: entries that do not bear the
//! marker prefix `head:` are passed over in silence; a prefixed entry is
//! stripped of the prefix and decoded to its key; a prefixed entry that does
//! not decode stops the enumeration with a decoding error, so possibly
//! corrupt state is never passed over.

use crate::codec;
use crate::codec::decoded_key;
use crate::errors::Error;
use vstd::prelude::*;

verus! {

broadcast use crate::bytes::lemma_bytes_deep_view;

/// The bytes of `head:`, the marker-file prefix.
pub open spec fn head_prefix() -> Seq<u8> {
    seq![104u8, 101u8, 97u8, 100u8, 58u8]
}

/// Whether a directory entry's name bears the marker prefix.
pub open spec fn has_head_prefix(n: Seq<u8>) -> bool {
    n.len() >= 5 && n.subrange(0, 5) == head_prefix()
}

/// What one directory entry means to the store.
pub enum EntryKind {
    /// No marker prefix: not this store's entry.
    Unrelated,
    /// A marker whose name decodes to this key.
    Head(Vec<u8>),
    /// A marker whose name does not decode.
    Undecodable,
}

/// Reads one directory entry: passes over unprefixed names, strips the
/// prefix from the rest and decodes them.
pub fn classify_entry(name: &Vec<u8>) -> (r: EntryKind)
    ensures
        match r {
            EntryKind::Unrelated => !has_head_prefix(name@),
            EntryKind::Head(k) => has_head_prefix(name@) && decoded_key(name@.skip(5)) == Some(
                k@,
            ),
            EntryKind::Undecodable => has_head_prefix(name@) && decoded_key(name@.skip(5))
                is None,
        },
{
    if name.len() < 5 || name[0] != 104 || name[1] != 101 || name[2] != 97 || name[3] != 100
        || name[4] != 58 {
        proof {
            if name@.len() >= 5 {
                assert(name@.subrange(0, 5) != head_prefix());
            }
        }
        return EntryKind::Unrelated;
    }
    proof {
        assert(name@.subrange(0, 5) =~= head_prefix());
    }
    let mut rest: Vec<u8> = Vec::new();
    let mut j: usize = 5;
    while j < name.len()
        invariant
            5 <= j <= name.len(),
            rest@ == name@.subrange(5, j as int),
        decreases name.len() - j,
    {
        rest.push(name[j]);
        proof {
            assert(name@.subrange(5, j + 1) =~= name@.subrange(5, j as int).push(name@[j as int]));
        }
        j = j + 1;
    }
    proof {
        assert(rest@ =~= name@.skip(5));
    }
    match codec::decode(&rest) {
        Ok(w) => EntryKind::Head(w.key),
        Err(_) => EntryKind::Undecodable,
    }
}

/// What a listing's enumeration collects to: the decoded key of each
/// prefixed entry in listing order, or the decoding error that stopped it.
pub open spec fn heads_spec(s: Seq<Seq<u8>>) -> Result<Seq<Seq<u8>>, Error>
    decreases s.len(),
{
    if s.len() == 0 {
        Ok(Seq::empty())
    } else if !has_head_prefix(s[0]) {
        heads_spec(s.skip(1))
    } else {
        match decoded_key(s[0].skip(5)) {
            Some(k) => match heads_spec(s.skip(1)) {
                Ok(r) => Ok(seq![k] + r),
                Err(e) => Err(e),
            },
            None => Err(Error::Decoding),
        }
    }
}

/// Enumerates a directory listing: the decoded key of every entry that
/// bears the marker prefix, in listing order, or the decoding error that
/// stopped the enumeration at the first undecodable prefixed entry.
pub fn heads_from_listing(names: &Vec<Vec<u8>>) -> (r: Result<Vec<Vec<u8>>, Error>)
    ensures
        match r {
            Ok(keys) => heads_spec(names.deep_view()) == Ok::<Seq<Seq<u8>>, Error>(
                keys.deep_view(),
            ),
            Err(e) => heads_spec(names.deep_view()) == Err::<Seq<Seq<u8>>, Error>(e),
        },
{
    let ghost s = names.deep_view();
    let mut out: Vec<Vec<u8>> = Vec::new();
    let mut i: usize = 0;
    proof {
        assert(s.skip(0) =~= s);
        assert(out.deep_view() =~= Seq::<Seq<u8>>::empty());
        if heads_spec(s) is Ok {
            assert(out.deep_view() + heads_spec(s).unwrap() =~= heads_spec(s).unwrap());
        }
    }
    while i < names.len()
        invariant
            i <= names.len(),
            s == names.deep_view(),
            heads_spec(s) == match heads_spec(s.skip(i as int)) {
                Ok(rr) => Ok::<Seq<Seq<u8>>, Error>(out.deep_view() + rr),
                Err(e) => Err::<Seq<Seq<u8>>, Error>(e),
            },
        decreases names.len() - i,
    {
        let ghost si = s.skip(i as int);
        proof {
            assert(si[0] == names@[i as int].deep_view());
            assert(si.skip(1) =~= s.skip(i + 1));
        }
        match classify_entry(&names[i]) {
            EntryKind::Unrelated => {
                i = i + 1;
            },
            EntryKind::Head(k) => {
                let ghost old_out = out.deep_view();
                let ghost kview = k@;
                out.push(k);
                proof {
                    assert(out.deep_view() =~= old_out.push(kview));
                    if heads_spec(s.skip(i + 1)) is Ok {
                        let rr = heads_spec(s.skip(i + 1)).unwrap();
                        assert(old_out + (seq![kview] + rr) =~= old_out.push(kview) + rr);
                    }
                }
                i = i + 1;
            },
            EntryKind::Undecodable => {
                return Err(Error::Decoding);
            },
        }
    }
    proof {
        assert(s.skip(names@.len() as int) =~= Seq::<Seq<u8>>::empty());
        assert(out.deep_view() + Seq::<Seq<u8>>::empty() =~= out.deep_view());
    }
    Ok(out)
}

} // verus!
