use vstd::prelude::*;

verus! {

/// A row key: the encoded tags of a series and a timestamp.
pub type Key = (Vec<u8>, i64);

/// An encoded field value.
pub type Value = Vec<u8>;

/// The mathematical form of a [`Key`].
pub type KeyView = (Seq<u8>, i64);

/// What a [`Key`] stands for.
pub open spec fn key_view(k: Key) -> KeyView {
    (k.0@, k.1)
}

/// What an optional [`Value`] stands for; `None` is a deletion.
pub open spec fn value_view(v: Option<Value>) -> Option<Seq<u8>> {
    match v {
        Some(bytes) => Some(bytes@),
        None => None,
    }
}

/// Copies a key.
pub fn copy_key(k: &Key) -> (r: Key)
    ensures
        key_view(r) == key_view(*k),
{
    (copy_bytes(&k.0), k.1)
}

/// Copies a byte string.
pub fn copy_bytes(b: &Vec<u8>) -> (r: Vec<u8>)
    ensures
        r@ == b@,
{
    let r = b.clone();
    assert(r@ =~= b@);
    r
}

/// Copies an optional value.
pub fn copy_value(v: &Option<Value>) -> (r: Option<Value>)
    ensures
        value_view(r) == value_view(*v),
{
    match v {
        Some(bytes) => Some(copy_bytes(bytes)),
        None => None,
    }
}

/// What a key and a value stand for: the bytes of the tags and the timestamp, and the
/// bytes of the value or a deletion.
pub proof fn law_keys_and_values_stand_for_themselves(k: Key, v: Option<Value>)
    ensures
        key_view(k).0 == k.0@,
        key_view(k).1 == k.1,
        v is None <==> value_view(v) is None,
        v matches Some(bytes) ==> value_view(v) == Some(bytes@),
{
}

} // verus!
