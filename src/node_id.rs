use crate::routing::{ContactAddress, NodeContactInfo};
use rand::RngCore;
use vstd::prelude::*;

verus! {

/// A 160-bit node identifier.
pub type NodeId = [u8; 20];

/// Number of bytes in a node identifier.
pub const ID_LEN: usize = 20;

/// Number of bits in a node identifier.
pub const ID_BITS: u32 = 160;

/// Leading zero bits of the byte-wise XOR of `a` and `b`, counted from byte `i` on
/// and stopping at the first byte in which they differ.
pub open spec fn prefix_bits_from(a: Seq<u8>, b: Seq<u8>, i: int) -> nat
    decreases a.len() - i,
{
    if i < 0 || i >= a.len() {
        0
    } else if a[i] == b[i] {
        8 + prefix_bits_from(a, b, i + 1)
    } else {
        (a[i] ^ b[i]).leading_zeros() as nat
    }
}

/// Number of leading bits in which two ids agree: the leading zero bits of their distance.
pub open spec fn prefix_len(a: Seq<u8>, b: Seq<u8>) -> nat {
    prefix_bits_from(a, b, 0)
}

proof fn lemma_prefix_bits_bound(a: Seq<u8>, b: Seq<u8>, i: int)
    requires
        0 <= i <= a.len(),
        a.len() == b.len(),
    ensures
        prefix_bits_from(a, b, i) <= 8 * (a.len() - i),
        prefix_bits_from(a, b, i) == 8 * (a.len() - i) <==> a.subrange(i, a.len() as int)
            == b.subrange(i, b.len() as int),
    decreases a.len() - i,
{
    if i < a.len() {
        lemma_prefix_bits_bound(a, b, i + 1);
        let x = a[i];
        let y = b[i];
        vstd::std_specs::bits::axiom_u8_leading_zeros(x ^ y);
        assert(x != y ==> x ^ y != 0) by (bit_vector);
        if a[i] == b[i] {
            if a.subrange(i + 1, a.len() as int) == b.subrange(i + 1, b.len() as int) {
                assert(a.subrange(i, a.len() as int) =~= b.subrange(i, b.len() as int)) by {
                    assert forall|k: int| 0 <= k < a.len() - i implies a.subrange(
                        i,
                        a.len() as int,
                    )[k] == b.subrange(i, b.len() as int)[k] by {
                        if k > 0 {
                            assert(a.subrange(i + 1, a.len() as int)[k - 1] == b.subrange(
                                i + 1,
                                b.len() as int,
                            )[k - 1]);
                        }
                    }
                }
            } else {
                assert(a.subrange(i + 1, a.len() as int) =~= a.subrange(i, a.len() as int).subrange(
                    1,
                    a.len() - i,
                ));
                assert(b.subrange(i + 1, b.len() as int) =~= b.subrange(i, b.len() as int).subrange(
                    1,
                    b.len() - i,
                ));
            }
        } else {
            assert(a.subrange(i, a.len() as int)[0] != b.subrange(i, b.len() as int)[0]);
        }
    } else {
        assert(a.subrange(i, a.len() as int) =~= b.subrange(i, b.len() as int));
    }
}

/// An id shares all of its 160 bits with itself.
pub proof fn lemma_prefix_len_self(a: NodeId)
    ensures
        prefix_len(a@, a@) == 160,
{
    lemma_prefix_bits_bound(a@, a@, 0);
    assert(a@.subrange(0, 20) =~= a@);
}

/// Two distinct ids share fewer than 160 leading bits.
pub proof fn lemma_prefix_len_distinct(a: NodeId, b: NodeId)
    requires
        a != b,
    ensures
        0 <= prefix_len(a@, b@) < 160,
{
    lemma_prefix_bits_bound(a@, b@, 0);
    assert(a@.subrange(0, 20) =~= a@);
    assert(b@.subrange(0, 20) =~= b@);
    if a@ == b@ {
        vstd::array::axiom_array_ext_equal(a, b);
    }
}

/// Byte-wise XOR of two ids.
pub fn distance(a: &NodeId, b: &NodeId) -> (r: [u8; 20])
    ensures
        forall|i: int| 0 <= i < 20 ==> r[i] == a[i] ^ b[i],
{
    let mut result = [0u8; 20];
    for i in 0..20
        invariant
            forall|j: int| 0 <= j < i ==> result[j] == a[j] ^ b[j],
    {
        result[i] = a[i] ^ b[i];
    }
    result
}

/// Number of leading bits in which `a` and `b` agree, in `[0, 160]`.
pub fn common_prefix_length(a: &NodeId, b: &NodeId) -> (r: u32)
    ensures
        r == prefix_len(a@, b@),
        r <= 160,
{
    let dist = distance(a, b);
    let mut result: u32 = 0;
    let mut i: usize = 0;
    while i < 20
        invariant
            0 <= i <= 20,
            result == 8 * i,
            forall|j: int| 0 <= j < 20 ==> dist[j] == a[j] ^ b[j],
            prefix_len(a@, b@) == 8 * i + prefix_bits_from(a@, b@, i as int),
        decreases 20 - i,
    {
        let byte = dist[i];
        let zeros = byte.leading_zeros();
        proof {
            vstd::std_specs::bits::axiom_u8_leading_zeros(byte);
            let x = a[i as int];
            let y = b[i as int];
            assert(x == y <==> x ^ y == 0) by (bit_vector);
            lemma_prefix_bits_bound(a@, b@, i as int);
        }
        result = result + zeros;
        if zeros < 8 {
            return result;
        }
        i = i + 1;
    }
    proof {
        lemma_prefix_bits_bound(a@, b@, 20);
    }
    result
}

/// Relies on rand::thread_rng and RngCore::fill_bytes: `count` bytes from the thread-local
/// generator, which fills the whole buffer it is given.
#[verifier::external_body]
pub(crate) fn random_bytes(count: usize) -> (r: Vec<u8>)
    ensures
        r@.len() == count,
{
    let mut buf = vec![0u8; count];
    rand::thread_rng().fill_bytes(&mut buf);
    buf
}

/// A random node id.
pub fn random_node_id() -> (r: NodeId) {
    let bytes = random_bytes(ID_LEN);
    let mut id = [0u8; 20];
    for i in 0..20
        invariant
            bytes@.len() == 20,
    {
        id[i] = bytes[i];
    }
    id
}

/// Number of bytes of a compact contact: id, IPv4 address, port.
pub const COMPACT_CONTACT_LEN: usize = 26;

/// Reads an id from exactly 20 bytes.
pub fn from_slice(s: &[u8]) -> (r: Result<NodeId, &'static str>)
    ensures
        match r {
            Ok(id) => s@.len() == 20 && id@ == s@,
            Err(_) => s@.len() != 20,
        },
{
    if s.len() != ID_LEN {
        return Err("Invalid node id - must be 20 bytes long");
    }
    let mut arr = [0u8; 20];
    for i in 0..20
        invariant
            s@.len() == 20,
            forall|j: int| 0 <= j < i ==> arr[j] == s@[j],
    {
        arr[i] = s[i];
    }
    assert(arr@ =~= s@);
    Ok(arr)
}

/// Reads an id from exactly 20 bytes.
pub fn from_vec(v: Vec<u8>) -> (r: Result<NodeId, &'static str>)
    ensures
        match r {
            Ok(id) => v@.len() == 20 && id@ == v@,
            Err(_) => v@.len() != 20,
        },
{
    from_slice(v.as_slice())
}

/// Reads ids packed back to back; the length must be a multiple of 20.
pub fn multiple_from_vec(v: Vec<u8>) -> (r: Result<Vec<NodeId>, &'static str>)
    ensures
        match r {
            Ok(ids) => v@.len() % 20 == 0 && ids@.len() == v@.len() / 20 && forall|i: int|
                0 <= i < ids@.len() ==> (#[trigger] ids@[i])@ == v@.subrange(20 * i, 20 * i + 20),
            Err(_) => v@.len() % 20 != 0,
        },
{
    if v.len() % ID_LEN != 0 {
        return Err("Invalid node ids - length must be a multiple of 20");
    }
    let n = v.len();
    let count = n / ID_LEN;
    let mut ids: Vec<NodeId> = Vec::new();
    let mut k: usize = 0;
    while k < count
        invariant
            n == v@.len(),
            count == v@.len() / 20,
            v@.len() % 20 == 0,
            0 <= k <= count,
            ids@.len() == k,
            forall|i: int| 0 <= i < k ==> (#[trigger] ids@[i])@ == v@.subrange(20 * i, 20 * i + 20),
        decreases count - k,
    {
        proof {
            assert(20 * k + 20 <= v@.len()) by (nonlinear_arith)
                requires
                    k < count,
                    count == v@.len() / 20,
            ;
        }
        let start = k * ID_LEN;
        let mut arr = [0u8; 20];
        for i in 0..20
            invariant
                start == 20 * k,
                20 * k + 20 <= v@.len(),
                n == v@.len(),
                k < count,
                count == v@.len() / 20,
                v@.len() % 20 == 0,
                forall|j: int| 0 <= j < i ==> arr[j] == v@[start + j],
        {
            arr[i] = v[start + i];
        }
        assert(arr@ =~= v@.subrange(20 * k, 20 * k + 20));
        ids.push(arr);
        k = k + 1;
    }
    Ok(ids)
}

/// Whether `c` is the contact packed in `b` from offset `at`: 20 bytes of id, 4 bytes of
/// IPv4 address, 2 bytes of port (big-endian).
pub open spec fn is_compact_contact(c: NodeContactInfo, b: Seq<u8>, at: int) -> bool {
    &&& c.id@ == b.subrange(at, at + 20)
    &&& c.address.ip@ == b.subrange(at + 20, at + 24)
    &&& c.address.port == b[at + 24] * 256 + b[at + 25]
}

/// Reads contacts packed back to back as 26-byte records; a partial record is an error.
pub fn contacts_from_compact(v: &[u8]) -> (r: Result<Vec<NodeContactInfo>, &'static str>)
    ensures
        match r {
            Ok(cs) => v@.len() % 26 == 0 && cs@.len() == v@.len() / 26 && forall|i: int|
                0 <= i < cs@.len() ==> is_compact_contact(#[trigger] cs@[i], v@, 26 * i),
            Err(_) => v@.len() % 26 != 0,
        },
{
    if v.len() % COMPACT_CONTACT_LEN != 0 {
        return Err("Invalid compact contacts - length must be a multiple of 26");
    }
    let n = v.len();
    let count = n / COMPACT_CONTACT_LEN;
    let mut contacts: Vec<NodeContactInfo> = Vec::new();
    let mut k: usize = 0;
    while k < count
        invariant
            n == v@.len(),
            count == v@.len() / 26,
            v@.len() % 26 == 0,
            0 <= k <= count,
            contacts@.len() == k,
            forall|i: int| 0 <= i < k ==> is_compact_contact(#[trigger] contacts@[i], v@, 26 * i),
        decreases count - k,
    {
        proof {
            assert(26 * k + 26 <= v@.len()) by (nonlinear_arith)
                requires
                    k < count,
                    count == v@.len() / 26,
            ;
        }
        let start = k * COMPACT_CONTACT_LEN;
        let mut id = [0u8; 20];
        for i in 0..20
            invariant
                start == 26 * k,
                26 * k + 26 <= v@.len(),
                n == v@.len(),
                k < count,
                count == v@.len() / 26,
                v@.len() % 26 == 0,
                forall|j: int| 0 <= j < i ==> id[j] == v@[start + j],
        {
            id[i] = v[start + i];
        }
        let ip: [u8; 4] = [v[start + 20], v[start + 21], v[start + 22], v[start + 23]];
        let port: u16 = (v[start + 24] as u16) * 256 + (v[start + 25] as u16);
        let c = NodeContactInfo { id, address: ContactAddress { ip, port } };
        assert(id@ =~= v@.subrange(26 * k, 26 * k + 20));
        assert(ip@ =~= v@.subrange(26 * k + 20, 26 * k + 24));
        contacts.push(c);
        k = k + 1;
    }
    Ok(contacts)
}

} // verus!
