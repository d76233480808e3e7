//! Qualified names: a prefix and a local name with `:` between them.

use vstd::prelude::*;
use crate::syntax::{find_byte, lemma_find_byte_bounds, scan_byte};
use crate::utils::{COLON, subslice};

verus! {

/// The prefix of a qualified name: what stands before the first `:`, if
/// the name holds one.
pub open spec fn prefix_spec(name: Seq<u8>) -> Option<Seq<u8>> {
    let k = find_byte(name, 0, COLON);
    if k < name.len() {
        Some(name.take(k))
    } else {
        None
    }
}

/// The local part of a qualified name: what stands after the first `:`, or
/// the whole name where it holds none.
pub open spec fn local_name_spec(name: Seq<u8>) -> Seq<u8> {
    let k = find_byte(name, 0, COLON);
    if k < name.len() {
        name.skip(k + 1)
    } else {
        name
    }
}

/// The prefix of a qualified name.
pub fn prefix(name: &[u8]) -> (r: Option<&[u8]>)
    ensures
        match r {
            Some(p) => prefix_spec(name@) == Some(p@),
            None => prefix_spec(name@) is None,
        },
{
    let k = scan_byte(name, 0, COLON);
    if k < name.len() {
        Some(subslice(name, 0, k))
    } else {
        None
    }
}

/// The local part of a qualified name.
pub fn local_name(name: &[u8]) -> (r: &[u8])
    ensures
        r@ == local_name_spec(name@),
{
    let k = scan_byte(name, 0, COLON);
    if k < name.len() {
        subslice(name, k + 1, name.len())
    } else {
        name
    }
}

/// A qualified name is made of its parts: with a prefix, it is the prefix,
/// a `:` and the local part, and the prefix holds no `:`; without one, it is
/// the local part, which then holds no `:`.
pub proof fn lemma_name_parts(name: Seq<u8>)
    ensures
        match prefix_spec(name) {
            Some(p) => p + seq![COLON] + local_name_spec(name) == name && !p.contains(COLON),
            None => local_name_spec(name) == name && !name.contains(COLON),
        },
{
    lemma_find_byte_bounds(name, 0, COLON);
    let k = find_byte(name, 0, COLON);
    if k < name.len() {
        assert(name.take(k) + seq![COLON] + name.skip(k + 1) =~= name);
        if name.take(k).contains(COLON) {
            let i = choose|i: int| 0 <= i < name.take(k).len() && name.take(k)[i] == COLON;
            assert(name[i] == COLON);
        }
    } else {
        if name.contains(COLON) {
            let i = choose|i: int| 0 <= i < name.len() && name[i] == COLON;
            assert(name[i] == COLON);
        }
    }
}

/// Joining a prefix that holds no `:` with a local part gives a name that
/// splits into the two again.
pub proof fn lemma_name_joined(p: Seq<u8>, local: Seq<u8>)
    requires
        !p.contains(COLON),
    ensures
        prefix_spec(p + seq![COLON] + local) == Some(p),
        local_name_spec(p + seq![COLON] + local) == local,
{
    let name = p + seq![COLON] + local;
    lemma_find_byte_bounds(name, 0, COLON);
    let k = find_byte(name, 0, COLON);
    assert(name[p.len() as int] == COLON);
    if k < p.len() {
        assert(p[k] == COLON);
        assert(p.contains(COLON));
    }
    assert(k == p.len());
    assert(name.take(k) =~= p);
    assert(name.skip(k + 1) =~= local);
}

} // verus!
