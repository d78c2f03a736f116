//! The store's laws, proved over the directory-listing model.
//!
//! Each law quantifies over every listing and key, resting on the codec's
//! round trip, its canonicity, and the uniqueness of names in a directory.

use crate::codec::decoded_key;
use crate::codec::encoded_key;
use crate::codec::lemma_decoded_key_canonical;
use crate::enumerate::has_head_prefix;
use crate::enumerate::head_prefix;
use crate::enumerate::heads_spec;
use crate::errors::Error;
use crate::store::add_spec;
use crate::store::is_head_spec;
use crate::store::marker;
use crate::store::remove_spec;
use vstd::prelude::*;

verus! {

/// A marker name bears the marker prefix, and stripping it leaves the
/// key's filename form.
proof fn lemma_marker_has_prefix(k: Seq<u8>)
    ensures
        has_head_prefix(marker(k)),
        marker(k).skip(5) == encoded_key(k),
{
    assert(marker(k).subrange(0, 5) =~= head_prefix());
    assert(marker(k).skip(5) =~= encoded_key(k));
}

/// Law: marker names are injective — distinct keys get distinct marker
/// files.
pub proof fn lemma_marker_injective(k1: Seq<u8>, k2: Seq<u8>)
    requires
        marker(k1) == marker(k2),
    ensures
        k1 == k2,
{
    assert(marker(k1).len() == 5 + encoded_key(k1).len());
    assert(marker(k2).len() == 5 + encoded_key(k2).len());
    assert forall|i: int| 0 <= i < encoded_key(k1).len() implies encoded_key(k1)[i] == encoded_key(
        k2,
    )[i] by {
        assert((head_prefix() + encoded_key(k1))[5 + i] == encoded_key(k1)[i]);
        assert((head_prefix() + encoded_key(k2))[5 + i] == encoded_key(k2)[i]);
        assert(marker(k1)[5 + i] == marker(k2)[5 + i]);
    }
    assert(encoded_key(k1) =~= encoded_key(k2));
    crate::codec::lemma_encoded_key_injective(k1, k2);
}

/// A prefixed entry that decodes to a key is that key's marker name — no
/// other file can masquerade as it.
proof fn lemma_entry_is_marker(n: Seq<u8>, dk: Seq<u8>)
    requires
        has_head_prefix(n),
        decoded_key(n.skip(5)) == Some(dk),
    ensures
        n == marker(dk),
{
    lemma_decoded_key_canonical(n.skip(5), dk);
    assert(n =~= marker(dk));
}

/// The predicate holding of one value alone.
pub open spec fn eq_to<A>(x: A) -> spec_fn(A) -> bool {
    |y: A| y == x
}

/// `filter`, peeled from the front.
proof fn lemma_filter_first<A>(s: Seq<A>, pred: spec_fn(A) -> bool)
    requires
        s.len() > 0,
    ensures
        s.filter(pred) == (if pred(s[0]) {
            seq![s[0]]
        } else {
            Seq::<A>::empty()
        }) + s.skip(1).filter(pred),
{
    Seq::filter_distributes_over_add(seq![s[0]], s.skip(1), pred);
    assert(seq![s[0]] + s.skip(1) =~= s);
    reveal_with_fuel(Seq::filter, 2);
    assert(seq![s[0]].drop_last() =~= Seq::<A>::empty());
    if pred(s[0]) {
        assert(seq![s[0]].filter(pred) =~= seq![s[0]]);
    } else {
        assert(seq![s[0]].filter(pred) =~= Seq::<A>::empty());
    }
}

/// Dropping a sequence's first element keeps the rest duplicate-free.
proof fn lemma_skip_no_duplicates<A>(s: Seq<A>)
    requires
        s.len() > 0,
        s.no_duplicates(),
    ensures
        s.skip(1).no_duplicates(),
{
    assert forall|i: int, j: int|
        0 <= i < s.skip(1).len() && 0 <= j < s.skip(1).len() && i != j implies s.skip(1)[i]
        != s.skip(1)[j] by {
        assert(s.skip(1)[i] == s[i + 1]);
        assert(s.skip(1)[j] == s[j + 1]);
    }
}

/// An absent value is filtered to nothing.
proof fn lemma_count_absent<A>(s: Seq<A>, x: A)
    requires
        !s.contains(x),
    ensures
        s.filter(eq_to(x)).len() == 0,
    decreases s.len(),
{
    let pred = eq_to(x);
    if s.len() == 0 {
        reveal(Seq::filter);
    } else {
        lemma_filter_first(s, pred);
        assert(s[0] != x);
        assert forall|i: int| 0 <= i < s.skip(1).len() implies s.skip(1)[i] != x by {
            assert(s.skip(1)[i] == s[i + 1]);
        }
        lemma_count_absent(s.skip(1), x);
    }
}

/// In a duplicate-free sequence, a contained value is filtered to exactly
/// one occurrence.
proof fn lemma_count_unique<A>(s: Seq<A>, x: A)
    requires
        s.no_duplicates(),
        s.contains(x),
    ensures
        s.filter(eq_to(x)).len() == 1,
    decreases s.len(),
{
    let pred = eq_to(x);
    lemma_filter_first(s, pred);
    lemma_skip_no_duplicates(s);
    if s[0] == x {
        assert forall|i: int| 0 <= i < s.skip(1).len() implies s.skip(1)[i] != x by {
            assert(s.skip(1)[i] == s[i + 1]);
        }
        lemma_count_absent(s.skip(1), x);
    } else {
        let idx = choose|idx: int| 0 <= idx < s.len() && s[idx] == x;
        assert(s.skip(1)[idx - 1] == x);
        lemma_count_unique(s.skip(1), x);
    }
}

/// A key occurs in the enumeration as often as its marker file occurs in
/// the listing: the codec's canonicity lets no other entry decode to it.
pub proof fn lemma_heads_count(s: Seq<Seq<u8>>, k: Seq<u8>, l: Seq<Seq<u8>>)
    requires
        heads_spec(s) == Ok::<Seq<Seq<u8>>, Error>(l),
    ensures
        l.filter(eq_to(k)).len() == s.filter(eq_to(marker(k))).len(),
    decreases s.len(),
{
    let keq = eq_to::<Seq<u8>>(k);
    let meq = eq_to::<Seq<u8>>(marker(k));
    if s.len() == 0 {
        reveal(Seq::filter);
        assert(l =~= Seq::<Seq<u8>>::empty());
    } else {
        lemma_filter_first(s, meq);
        lemma_marker_has_prefix(k);
        if !has_head_prefix(s[0]) {
            lemma_heads_count(s.skip(1), k, l);
        } else {
            let dk = decoded_key(s[0].skip(5)).unwrap();
            let r = heads_spec(s.skip(1)).unwrap();
            assert(l == seq![dk] + r);
            lemma_heads_count(s.skip(1), k, r);
            lemma_filter_first(l, keq);
            assert(l[0] == dk);
            assert(l.skip(1) =~= r);
            lemma_entry_is_marker(s[0], dk);
            if dk == k {
                assert(s[0] == marker(k));
            } else {
                assert(s[0] != marker(k)) by {
                    if s[0] == marker(k) {
                        lemma_marker_injective(dk, k);
                    }
                }
            }
        }
    }
}

/// `contains`, peeled from the front.
proof fn lemma_contains_first<A>(s: Seq<A>, x: A)
    requires
        s.len() > 0,
    ensures
        s.contains(x) <==> (s[0] == x || s.skip(1).contains(x)),
{
    if s.contains(x) {
        let i = choose|i: int| 0 <= i < s.len() && s[i] == x;
        if i > 0 {
            assert(s.skip(1)[i - 1] == x);
        }
    }
    if s.skip(1).contains(x) {
        let i = choose|i: int| 0 <= i < s.skip(1).len() && s.skip(1)[i] == x;
        assert(s[i + 1] == x);
    }
}

/// Law: a successful enumeration lists exactly the heads — a key appears in
/// `heads` precisely when its marker file is in the directory.
pub proof fn lemma_heads_membership(s: Seq<Seq<u8>>, k: Seq<u8>, l: Seq<Seq<u8>>)
    requires
        heads_spec(s) == Ok::<Seq<Seq<u8>>, Error>(l),
    ensures
        l.contains(k) <==> is_head_spec(s, k),
    decreases s.len(),
{
    lemma_marker_has_prefix(k);
    if s.len() == 0 {
        assert(l =~= Seq::<Seq<u8>>::empty());
    } else {
        lemma_contains_first(s, marker(k));
        if !has_head_prefix(s[0]) {
            lemma_heads_membership(s.skip(1), k, l);
        } else {
            let dk = decoded_key(s[0].skip(5)).unwrap();
            let r = heads_spec(s.skip(1)).unwrap();
            assert(l == seq![dk] + r);
            lemma_heads_membership(s.skip(1), k, r);
            lemma_contains_first(l, k);
            lemma_entry_is_marker(s[0], dk);
            if dk == k {
                assert(s[0] == marker(k));
            } else {
                assert(s[0] != marker(k)) by {
                    if s[0] == marker(k) {
                        lemma_marker_injective(dk, k);
                    }
                }
            }
            assert(l[0] == dk);
            assert(l.skip(1) =~= r);
        }
    }
}

/// Adding keeps a listing duplicate-free.
pub proof fn lemma_add_preserves_wf(s: Seq<Seq<u8>>, k: Seq<u8>)
    requires
        s.no_duplicates(),
    ensures
        add_spec(s, k).no_duplicates(),
{
    if !s.contains(marker(k)) {
        let t = s.push(marker(k));
        assert forall|i: int, j: int|
            0 <= i < t.len() && 0 <= j < t.len() && i != j implies t[i] != t[j] by {
            if i < s.len() && j < s.len() {
                assert(s[i] != s[j]);
            } else if i == s.len() {
                assert(t[i] == marker(k) && t[j] == s[j]);
            } else {
                assert(t[j] == marker(k) && t[i] == s[i]);
            }
        }
    }
}

/// Law: `add` is idempotent. A second `add` of the same key changes
/// nothing, the key is then a head, and it appears exactly once in a
/// successful enumeration.
pub proof fn lemma_add_idempotent(s: Seq<Seq<u8>>, k: Seq<u8>)
    requires
        s.no_duplicates(),
    ensures
        add_spec(add_spec(s, k), k) == add_spec(s, k),
        is_head_spec(add_spec(s, k), k),
        heads_spec(add_spec(s, k)) matches Ok(l) ==> (l.filter(eq_to(k)).len() == 1),
{
    let t = add_spec(s, k);
    if !s.contains(marker(k)) {
        assert(t[s.len() as int] == marker(k));
    }
    assert(t.contains(marker(k)));
    lemma_add_preserves_wf(s, k);
    if heads_spec(t) is Ok {
        let l = heads_spec(t).unwrap();
        lemma_heads_count(t, k, l);
        lemma_count_unique(t, marker(k));
    }
}

/// Law: removing a key that was never added succeeds and changes nothing.
pub proof fn lemma_remove_never_added(s: Seq<Seq<u8>>, k: Seq<u8>)
    requires
        !is_head_spec(s, k),
    ensures
        remove_spec(s, k) == s,
{
    s.index_of_first_ensures(marker(k));
    match s.index_of_first(marker(k)) {
        Some(_) => {
            assert(false);
        },
        None => {},
    }
}

/// Law: a freshly created store over an empty directory enumerates to the
/// empty sequence.
pub proof fn lemma_empty_heads()
    ensures
        heads_spec(Seq::<Seq<u8>>::empty()) == Ok::<Seq<Seq<u8>>, Error>(Seq::<Seq<u8>>::empty()),
{
}

/// Law: membership after `add` — the added key is a head, and no other
/// key's membership changes.
pub proof fn lemma_add_is_head(s: Seq<Seq<u8>>, k: Seq<u8>, j: Seq<u8>)
    ensures
        is_head_spec(add_spec(s, k), j) <==> (j == k || is_head_spec(s, j)),
{
    let t = add_spec(s, k);
    if s.contains(marker(k)) {
        if j == k {
            assert(is_head_spec(t, j));
        }
    } else {
        if t.contains(marker(j)) {
            let i = choose|i: int| 0 <= i < t.len() && t[i] == marker(j);
            if i < s.len() {
                assert(s[i] == marker(j));
            } else {
                lemma_marker_injective(j, k);
            }
        }
        if j == k {
            assert(t[s.len() as int] == marker(j));
        }
        if is_head_spec(s, j) {
            let i = choose|i: int| 0 <= i < s.len() && s[i] == marker(j);
            assert(t[i] == marker(j));
        }
    }
}

/// Law: membership after `remove` — the removed key is no head, and no
/// other key's membership changes.
pub proof fn lemma_remove_is_head(s: Seq<Seq<u8>>, k: Seq<u8>, j: Seq<u8>)
    requires
        s.no_duplicates(),
    ensures
        is_head_spec(remove_spec(s, k), j) <==> (j != k && is_head_spec(s, j)),
{
    s.index_of_first_ensures(marker(k));
    match s.index_of_first(marker(k)) {
        None => {
            if j == k {
                assert(!is_head_spec(s, j));
            }
        },
        Some(fi) => {
            let t = s.remove(fi);
            assert(t =~= s.subrange(0, fi) + s.subrange(fi + 1, s.len() as int));
            if t.contains(marker(j)) {
                let i = choose|i: int| 0 <= i < t.len() && t[i] == marker(j);
                if i < fi {
                    assert(s[i] == marker(j));
                    if j == k {
                        assert(s[i] == s[fi] && i != fi);
                    }
                } else {
                    assert(s[i + 1] == marker(j));
                    if j == k {
                        assert(s[i + 1] == s[fi] && i + 1 != fi);
                    }
                }
            }
            if j != k && is_head_spec(s, j) {
                assert(marker(j) != marker(k)) by {
                    if marker(j) == marker(k) {
                        lemma_marker_injective(j, k);
                    }
                }
                let i = choose|i: int| 0 <= i < s.len() && s[i] == marker(j);
                assert(i != fi);
                if i < fi {
                    assert(t[i] == marker(j));
                } else {
                    assert(t[i - 1] == marker(j));
                }
            }
        },
    }
}

/// Law: the store keeps no state of its own, so a second instance over the
/// same directory observes the same membership and the same enumeration.
pub proof fn lemma_persistence(s1: Seq<Seq<u8>>, s2: Seq<Seq<u8>>, k: Seq<u8>)
    requires
        s1 == s2,
    ensures
        is_head_spec(s1, k) == is_head_spec(s2, k),
        heads_spec(s1) == heads_spec(s2),
{
}

} // verus!
