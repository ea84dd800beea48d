use vstd::prelude::*;
use crate::store::KvStore;

verus! {

/// Setting a key and then getting it yields the value set: after a `set` of
/// `(k, v)` — whose contract says the contents become the old contents with
/// `k` bound to `v` — a `get` of `k`, which returns the contents at `k`,
/// yields `v`.
pub proof fn law_set_then_get(s0: KvStore, s1: KvStore, k: Seq<char>, v: Seq<char>)
    requires
        s1.kv() == s0.kv().insert(k, v),
    ensures
        s1.kv().contains_key(k),
        s1.kv()[k] == v,
{
}

/// Setting a key twice leaves only the second value: the store after both
/// writes is the store after a single write of the second value, so a `get`
/// yields the second value and the key is live just once.
pub proof fn law_set_twice(
    s0: KvStore,
    s1: KvStore,
    s2: KvStore,
    k: Seq<char>,
    v1: Seq<char>,
    v2: Seq<char>,
)
    requires
        s1.kv() == s0.kv().insert(k, v1),
        s2.kv() == s1.kv().insert(k, v2),
    ensures
        s2.kv().contains_key(k),
        s2.kv()[k] == v2,
        s2.kv() == s0.kv().insert(k, v2),
{
    assert(s2.kv() =~= s0.kv().insert(k, v2));
}

/// Setting a key and then removing it leaves the key dead, and every other
/// key as it was: a later `get` of the key reports it absent, and a second
/// `remove` fails (that a failing `remove` changes nothing is part of
/// `remove`'s own contract).
pub proof fn law_set_then_remove(
    s0: KvStore,
    s1: KvStore,
    s2: KvStore,
    k: Seq<char>,
    v: Seq<char>,
)
    requires
        s1.kv() == s0.kv().insert(k, v),
        s2.kv() == s1.kv().remove(k),
    ensures
        !s2.kv().contains_key(k),
        forall|k2: Seq<char>|
            k2 != k ==> (#[trigger] s2.kv().contains_key(k2) == s0.kv().contains_key(k2) && (
            s2.kv().contains_key(k2) ==> s2.kv()[k2] == s0.kv()[k2])),
{
}

} // verus!
