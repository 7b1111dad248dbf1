//! Keys as sequences of nibbles, and the hex-prefix packing of a nibble
//! path with its leaf flag into bytes.

use vstd::prelude::*;

verus! {

/// The nibbles of `key`, the high nibble of each byte first.
pub open spec fn nibbles_of(key: Seq<u8>) -> Seq<u8> {
    Seq::new(2 * key.len(), |i: int| if i % 2 == 0 { key[i / 2] / 16 } else { key[i / 2] % 16 })
}

/// Every element of `p` is a nibble.
pub open spec fn is_nibbles(p: Seq<u8>) -> bool {
    forall|i: int| 0 <= i < p.len() ==> #[trigger] p[i] < 16
}

/// Two nibbles to a byte, for an even number of nibbles.
pub open spec fn pack(n: Seq<u8>) -> Seq<u8> {
    Seq::new(n.len() / 2, |i: int| (n[2 * i] * 16 + n[2 * i + 1]) as u8)
}

/// The flag nibble: 2 for a leaf, plus 1 for an odd number of nibbles.
pub open spec fn hp_flag(len: nat, leaf: bool) -> u8 {
    ((if leaf { 2nat } else { 0nat }) + len % 2) as u8
}

/// The hex-prefix packing of the nibble path `p`.
pub open spec fn hex_prefix(p: Seq<u8>, leaf: bool) -> Seq<u8> {
    let f = hp_flag(p.len(), leaf);
    if p.len() % 2 == 1 {
        pack(seq![f] + p)
    } else {
        pack(seq![f, 0u8] + p)
    }
}

/// The nibble path and leaf flag that the bytes `b` pack; `None` for an
/// empty input or a flag above 3.
pub open spec fn hex_prefix_decode(b: Seq<u8>) -> Option<(Seq<u8>, bool)> {
    if b.len() == 0 || b[0] / 16 > 3 {
        None
    } else {
        let f = b[0] / 16;
        let n = nibbles_of(b);
        let skip: int = if f % 2 == 1 { 1 } else { 2 };
        Some((n.subrange(skip, n.len() as int), f >= 2))
    }
}

proof fn lemma_byte_split(a: int, b: int)
    requires
        0 <= a < 16,
        0 <= b < 16,
    ensures
        (a * 16 + b) / 16 == a,
        (a * 16 + b) % 16 == b,
        0 <= a * 16 + b < 256,
{
    assert((a * 16 + b) / 16 == a && (a * 16 + b) % 16 == b && 0 <= a * 16 + b < 256)
        by (nonlinear_arith)
        requires
            0 <= a < 16,
            0 <= b < 16,
    ;
}

proof fn lemma_unpack_pack(n: Seq<u8>)
    requires
        n.len() % 2 == 0,
        is_nibbles(n),
    ensures
        nibbles_of(pack(n)) == n,
{
    let m = nibbles_of(pack(n));
    assert forall|i: int| 0 <= i < n.len() implies m[i] == n[i] by {
        let j = i / 2;
        lemma_byte_split(n[2 * j] as int, n[2 * j + 1] as int);
        assert(i == 2 * j || i == 2 * j + 1);
    }
    assert(m =~= n);
}

/// Unpacking a hex-prefix packing gives back the path and the flag.
pub proof fn lemma_hex_prefix_round_trip(p: Seq<u8>, leaf: bool)
    requires
        is_nibbles(p),
    ensures
        hex_prefix_decode(hex_prefix(p, leaf)) == Some((p, leaf)),
{
    let f = hp_flag(p.len(), leaf);
    let n = if p.len() % 2 == 1 {
        seq![f] + p
    } else {
        seq![f, 0u8] + p
    };
    assert(is_nibbles(n)) by {
        assert forall|i: int| 0 <= i < n.len() implies #[trigger] n[i] < 16 by {
            if p.len() % 2 == 1 {
                if i >= 1 {
                    assert(n[i] == p[i - 1]);
                }
            } else {
                if i >= 2 {
                    assert(n[i] == p[i - 2]);
                }
            }
        }
    }
    lemma_unpack_pack(n);
    let b = hex_prefix(p, leaf);
    assert(b == pack(n));
    assert(b.len() > 0);
    assert(b[0] / 16 == f) by {
        lemma_byte_split(n[0] as int, n[1] as int);
    }
    let skip: int = if p.len() % 2 == 1 {
        1
    } else {
        2
    };
    assert(nibbles_of(b).subrange(skip, nibbles_of(b).len() as int) =~= p);
}

/// Different keys have different nibble paths, all of nibbles.
pub proof fn lemma_nibbles_of_injective(a: Seq<u8>, b: Seq<u8>)
    ensures
        nibbles_of(a) == nibbles_of(b) ==> a == b,
        is_nibbles(nibbles_of(a)),
{
    assert forall|i: int| 0 <= i < nibbles_of(a).len() implies #[trigger] nibbles_of(a)[i] < 16 by {
        let x = a[i / 2] as int;
        assert(x / 16 < 16 && x % 16 < 16) by (nonlinear_arith)
            requires
                0 <= x < 256,
        ;
    }
    if nibbles_of(a) == nibbles_of(b) {
        assert(a.len() == b.len()) by {
            assert(nibbles_of(a).len() == nibbles_of(b).len());
        }
        assert forall|i: int| 0 <= i < a.len() implies a[i] == b[i] by {
            let na = nibbles_of(a);
            let nb = nibbles_of(b);
            assert(na[2 * i] == nb[2 * i] && na[2 * i + 1] == nb[2 * i + 1]);
            assert((2 * i) / 2 == i && (2 * i + 1) / 2 == i && (2 * i) % 2 == 0 && (2 * i + 1) % 2
                == 1);
            let x = a[i] as int;
            let y = b[i] as int;
            assert(x == (x / 16) * 16 + x % 16 && y == (y / 16) * 16 + y % 16) by (nonlinear_arith)
                requires
                    0 <= x,
                    0 <= y,
            ;
        }
        assert(a =~= b);
    }
}

/// The nibbles of `key`.
pub fn to_nibbles(key: &Vec<u8>) -> (r: Vec<u8>)
    requires
        key.len() <= usize::MAX / 2,
    ensures
        r@ == nibbles_of(key@),
        is_nibbles(r@),
{
    let mut r: Vec<u8> = Vec::new();
    let mut i: usize = 0;
    while i < key.len()
        invariant
            i <= key.len() <= usize::MAX / 2,
            r@ == nibbles_of(key@.take(i as int)),
        decreases key.len() - i,
    {
        r.push(key[i] / 16);
        r.push(key[i] % 16);
        assert(r@ =~= nibbles_of(key@.take(i + 1)));
        i = i + 1;
    }
    assert(key@.take(key.len() as int) == key@);
    r
}

/// The hex-prefix packing of `p[start..]`.
pub fn hex_prefix_encode(p: &Vec<u8>, start: usize, leaf: bool) -> (r: Vec<u8>)
    requires
        start <= p.len(),
        is_nibbles(p@),
    ensures
        r@ == hex_prefix(p@.subrange(start as int, p.len() as int), leaf),
{
    let ghost q = p@.subrange(start as int, p.len() as int);
    let len = p.len() - start;
    let flag: u8 = (if leaf { 2u8 } else { 0u8 }) + (len % 2) as u8;
    let ghost n = if len % 2 == 1 {
        seq![flag] + q
    } else {
        seq![flag, 0u8] + q
    };
    let mut r: Vec<u8> = Vec::new();
    let mut i: usize;
    if len % 2 == 1 {
        r.push(flag * 16 + p[start]);
        i = start + 1;
    } else {
        r.push(flag * 16);
        i = start;
    }
    proof {
        assert(r@ =~= pack(n).take(r.len() as int));
    }
    while i < p.len()
        invariant
            start <= i <= p.len(),
            is_nibbles(p@),
            (p.len() - i) % 2 == 0,
            q == p@.subrange(start as int, p.len() as int),
            len == p.len() - start,
            n == (if len % 2 == 1 { seq![flag] + q } else { seq![flag, 0u8] + q }),
            n.len() % 2 == 0,
            r.len() == (n.len() - (p.len() - i)) / 2,
            r@ == pack(n).take(r.len() as int),
        decreases p.len() - i,
    {
        let hi = p[i];
        let lo = p[i + 1];
        assert(hi < 16 && lo < 16);
        proof {
            let k = r.len() as int;
            assert(n[2 * k] == hi && n[2 * k + 1] == lo);
        }
        r.push(hi * 16 + lo);
        assert(r@ =~= pack(n).take(r.len() as int));
        i = i + 2;
    }
    assert(r@ =~= pack(n));
    r
}

/// Unpacks a hex-prefix packing.
pub fn hex_prefix_unpack(b: &Vec<u8>) -> (r: Option<(Vec<u8>, bool)>)
    ensures
        match r {
            None => hex_prefix_decode(b@) is None,
            Some((p, leaf)) => hex_prefix_decode(b@) == Some((p@, leaf)),
        },
{
    if b.len() == 0 || b[0] / 16 > 3 {
        return None;
    }
    let f = b[0] / 16;
    let ghost n = nibbles_of(b@);
    let ghost skip: int = if f % 2 == 1 { 1 } else { 2 };
    let mut p: Vec<u8> = Vec::new();
    if f % 2 == 1 {
        p.push(b[0] % 16);
    }
    assert(p@ =~= n.subrange(skip, 2));
    let mut i: usize = 1;
    while i < b.len()
        invariant
            1 <= i <= b.len(),
            n == nibbles_of(b@),
            skip == 1 || skip == 2,
            p@ == n.subrange(skip, 2 * i),
        decreases b.len() - i,
    {
        p.push(b[i] / 16);
        p.push(b[i] % 16);
        assert(p@ =~= n.subrange(skip, 2 * (i + 1)));
        i = i + 1;
    }
    Some((p, f >= 2))
}

} // verus!
