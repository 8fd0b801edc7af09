use vstd::prelude::*;

verus! {

/// A write is durable: immediately after a store update, the store holds
/// exactly the written value under its key, whatever was there before and
/// however many runtimes have come and gone — the store map is the only
/// carrier of state between invocations.
pub proof fn lemma_write_then_read(m: Map<Seq<char>, Seq<char>>, k: Seq<char>, v: Seq<char>)
    ensures
        m.insert(k, v).contains_key(k),
        m.insert(k, v)[k] == v,
{
}

/// Writes to different keys lose nothing: the two updates commute, and after
/// both, each key holds its own written value — in whichever order the
/// store's lock serialized them.
pub proof fn lemma_distinct_keys_commute(
    m: Map<Seq<char>, Seq<char>>,
    k1: Seq<char>,
    v1: Seq<char>,
    k2: Seq<char>,
    v2: Seq<char>,
)
    requires
        k1 != k2,
    ensures
        m.insert(k1, v1).insert(k2, v2) == m.insert(k2, v2).insert(k1, v1),
        m.insert(k1, v1).insert(k2, v2)[k1] == v1,
        m.insert(k1, v1).insert(k2, v2)[k2] == v2,
{
    assert(m.insert(k1, v1).insert(k2, v2) =~= m.insert(k2, v2).insert(k1, v1));
}

/// Writes to the same key serialize: the final value is exactly the write
/// that the store's lock ordered last — always one of the two written values,
/// never a mix of them.
pub proof fn lemma_same_key_serializes(
    m: Map<Seq<char>, Seq<char>>,
    k: Seq<char>,
    v1: Seq<char>,
    v2: Seq<char>,
)
    ensures
        m.insert(k, v1).insert(k, v2) == m.insert(k, v2),
        m.insert(k, v1).insert(k, v2)[k] == v2,
{
    assert(m.insert(k, v1).insert(k, v2) =~= m.insert(k, v2));
}

} // verus!
