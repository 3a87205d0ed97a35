//! The order in which identifiers are compared.
//!
//! Node ids and shard ids are strings. Two of them are ordered as Rust orders
//! strings: lexicographically by the bytes of their UTF-8 encoding.

use vstd::prelude::*;
use vstd::string::*;
use vstd::utf8::*;

verus! {

/// `a` and `b` agree on their first `k` bytes.
pub open spec fn common_prefix(a: Seq<u8>, b: Seq<u8>, k: int) -> bool {
    &&& 0 <= k <= a.len()
    &&& k <= b.len()
    &&& forall|j: int| 0 <= j < k ==> a[j] == b[j]
}

/// `a` comes before `b` and they part at byte `k`: either `a` ends there and
/// `b` goes on, or the byte of `a` is the smaller one.
pub open spec fn parts_at(a: Seq<u8>, b: Seq<u8>, k: int) -> bool {
    &&& common_prefix(a, b, k)
    &&& k < b.len()
    &&& (k == a.len() || a[k] < b[k])
}

/// Strict lexicographic order on byte strings.
pub open spec fn bytes_lt(a: Seq<u8>, b: Seq<u8>) -> bool {
    exists|k: int| parts_at(a, b, k)
}

/// Strict order on identifiers: the order of their UTF-8 encodings.
pub open spec fn name_lt(a: Seq<char>, b: Seq<char>) -> bool {
    bytes_lt(encode_utf8(a), encode_utf8(b))
}

/// The order on byte strings is transitive.
pub proof fn lemma_bytes_lt_transitive(a: Seq<u8>, b: Seq<u8>, c: Seq<u8>)
    requires
        bytes_lt(a, b),
        bytes_lt(b, c),
    ensures
        bytes_lt(a, c),
{
    let k1 = choose|k: int| parts_at(a, b, k);
    let k2 = choose|k: int| parts_at(b, c, k);
    let k = if k1 <= k2 { k1 } else { k2 };
    assert(parts_at(a, c, k));
}

/// Of two different byte strings one comes before the other.
pub proof fn lemma_bytes_lt_total(a: Seq<u8>, b: Seq<u8>)
    ensures
        a == b || bytes_lt(a, b) || bytes_lt(b, a),
    decreases a.len(),
{
    if a.len() == 0 {
        if b.len() == 0 {
            assert(a =~= b);
        } else {
            assert(parts_at(a, b, 0));
        }
    } else if b.len() == 0 {
        assert(parts_at(b, a, 0));
    } else if a[0] < b[0] {
        assert(parts_at(a, b, 0));
    } else if b[0] < a[0] {
        assert(parts_at(b, a, 0));
    } else {
        let a1 = a.skip(1);
        let b1 = b.skip(1);
        lemma_bytes_lt_total(a1, b1);
        if a1 == b1 {
            assert(a =~= seq![a[0]] + a1);
            assert(b =~= seq![b[0]] + b1);
        } else if bytes_lt(a1, b1) {
            let k = choose|k: int| parts_at(a1, b1, k);
            assert forall|j: int| 0 <= j < k + 1 implies a[j] == b[j] by {
                if j > 0 {
                    assert(a1[j - 1] == b1[j - 1]);
                }
            }
            if k < a1.len() {
                assert(a1[k] == a[k + 1] && b1[k] == b[k + 1]);
            }
            assert(parts_at(a, b, k + 1));
        } else {
            let k = choose|k: int| parts_at(b1, a1, k);
            assert forall|j: int| 0 <= j < k + 1 implies b[j] == a[j] by {
                if j > 0 {
                    assert(b1[j - 1] == a1[j - 1]);
                }
            }
            if k < b1.len() {
                assert(a1[k] == a[k + 1] && b1[k] == b[k + 1]);
            }
            assert(parts_at(b, a, k + 1));
        }
    }
}

/// No identifier comes before itself.
pub proof fn lemma_name_lt_irreflexive(a: Seq<char>)
    ensures
        !name_lt(a, a),
{
}

/// Of two identifiers at most one comes before the other.
pub proof fn lemma_name_lt_asymmetric(a: Seq<char>, b: Seq<char>)
    requires
        name_lt(a, b),
    ensures
        !name_lt(b, a),
        a != b,
{
    if name_lt(b, a) {
        lemma_bytes_lt_transitive(encode_utf8(a), encode_utf8(b), encode_utf8(a));
    }
}

/// The order on identifiers is transitive.
pub proof fn lemma_name_lt_transitive(a: Seq<char>, b: Seq<char>, c: Seq<char>)
    requires
        name_lt(a, b),
        name_lt(b, c),
    ensures
        name_lt(a, c),
{
    lemma_bytes_lt_transitive(encode_utf8(a), encode_utf8(b), encode_utf8(c));
}

/// Of two different identifiers one comes before the other.
pub proof fn lemma_name_lt_total(a: Seq<char>, b: Seq<char>)
    ensures
        a == b || name_lt(a, b) || name_lt(b, a),
{
    lemma_bytes_lt_total(encode_utf8(a), encode_utf8(b));
    if encode_utf8(a) == encode_utf8(b) {
        encode_utf8_decode_utf8(a);
        encode_utf8_decode_utf8(b);
    }
}

/// How two identifiers stand to each other.
#[derive(Clone, Copy, Debug, PartialEq, Eq, Structural)]
pub enum NameOrder {
    Before,
    Same,
    After,
}

/// What `compare_names` returns for two identifiers.
pub open spec fn name_order(a: Seq<char>, b: Seq<char>) -> NameOrder {
    if name_lt(a, b) {
        NameOrder::Before
    } else if a == b {
        NameOrder::Same
    } else {
        NameOrder::After
    }
}

/// Compares two identifiers byte by byte.
pub fn compare_names(left: &str, right: &str) -> (order: NameOrder)
    ensures
        order == name_order(left@, right@),
        order == NameOrder::After <==> name_lt(right@, left@),
{
    let a = left.as_bytes();
    let b = right.as_bytes();
    let mut i: usize = 0;
    while i < a.len() && i < b.len()
        invariant
            common_prefix(a@, b@, i as int),
            a@ == encode_utf8(left@),
            b@ == encode_utf8(right@),
        decreases a.len() - i,
    {
        if a[i] < b[i] {
            proof {
                assert(parts_at(a@, b@, i as int));
                lemma_name_lt_asymmetric(left@, right@);
            }
            return NameOrder::Before;
        }
        if a[i] > b[i] {
            proof {
                assert(parts_at(b@, a@, i as int));
                lemma_name_lt_asymmetric(right@, left@);
            }
            return NameOrder::After;
        }
        i += 1;
    }
    if a.len() < b.len() {
        proof {
            assert(parts_at(a@, b@, i as int));
            lemma_name_lt_asymmetric(left@, right@);
        }
        NameOrder::Before
    } else if b.len() < a.len() {
        proof {
            assert(parts_at(b@, a@, i as int));
            lemma_name_lt_asymmetric(right@, left@);
        }
        NameOrder::After
    } else {
        proof {
            assert(a@ =~= b@);
            encode_utf8_decode_utf8(left@);
            encode_utf8_decode_utf8(right@);
            lemma_name_lt_irreflexive(left@);
        }
        NameOrder::Same
    }
}

/// Whether two identifiers are the same.
pub fn same_name(left: &str, right: &str) -> (same: bool)
    ensures
        same == (left@ == right@),
{
    match compare_names(left, right) {
        NameOrder::Same => true,
        _ => false,
    }
}

} // verus!
